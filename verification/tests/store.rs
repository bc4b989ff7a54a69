use cliptown_desktop::embedding::HashEmbedding;
use cliptown_desktop::model::{ClipInput, ClipKind, StoredClip, UtcTime};
use cliptown_desktop::probe::{
    count_history, load_fixture, load_fixture_at, store_fixture_clip, Draw, FixtureClip,
    ProbeCounts, ProbeError,
};
use cliptown_desktop::store::retention::prune;
use cliptown_desktop::store::row::{decode_clip, encode_clip, storable_title};
use cliptown_desktop::store::{
    content, content_hash, fts_expression, parse_history_limit, validate_input, ClipRow,
    HistoryStore, RowStamp, SearchMatch, StoreError,
};

const ONE_PIXEL_PNG: &[u8] = &[
    137, 80, 78, 71, 13, 10, 26, 10, 0, 0, 0, 13, 73, 72, 68, 82, 0, 0, 0, 1, 0, 0, 0, 1, 8, 6, 0,
    0, 0, 31, 21, 196, 137, 0, 0, 0, 13, 73, 68, 65, 84, 8, 215, 99, 248, 207, 192, 240, 31, 0, 5,
    0, 1, 255, 137, 153, 61, 29, 0, 0, 0, 0, 73, 69, 78, 68, 174, 66, 96, 130,
];

fn text(value: &str) -> ClipInput {
    ClipInput::Text {
        text: value.to_owned(),
        html: None,
    }
}

fn at(seconds: i64) -> UtcTime {
    UtcTime {
        seconds,
        nanoseconds: 0,
    }
}

fn titles(clips: &[StoredClip]) -> Vec<&str> {
    clips.iter().map(|clip| clip.title.as_str()).collect()
}

/// An SQLite text index over the rows of a history.
fn text_index(store: &HistoryStore) -> rusqlite::Connection {
    let connection = rusqlite::Connection::open_in_memory().unwrap();
    connection
        .execute_batch(
            "CREATE VIRTUAL TABLE clips_fts USING fts5(
                 clip_id UNINDEXED, title, search_text,
                 tokenize = 'unicode61 remove_diacritics 2');",
        )
        .unwrap();
    for row in store.rows() {
        let clip = decode_clip(row).unwrap();
        let search_text = clip.search_text();
        connection
            .execute(
                "INSERT INTO clips_fts (clip_id, title, search_text) VALUES (?1, ?2, ?3)",
                [&row.id, &row.title, &search_text],
            )
            .unwrap();
    }
    connection
}

fn text_matches(store: &HistoryStore, expression: &str) -> Vec<SearchMatch> {
    let connection = text_index(store);
    let mut statement = connection
        .prepare("SELECT clip_id FROM clips_fts WHERE clips_fts MATCH ?1 ORDER BY bm25(clips_fts)")
        .unwrap();
    let ids: Vec<String> = statement
        .query_map([expression], |row| row.get(0))
        .unwrap()
        .map(|id| id.unwrap())
        .collect();
    ids.into_iter()
        .enumerate()
        .map(|(rank, id)| SearchMatch {
            id,
            rank: rank as u64,
        })
        .collect()
}

fn text_search(store: &HistoryStore, query: &str, limit: usize) -> Vec<StoredClip> {
    store
        .text_search(query, limit, |expression| {
            Ok(text_matches(store, expression))
        })
        .unwrap()
}

/// The distances of all vectors from that of a query, as numbers in the same order.
fn vector_matches(store: &HistoryStore, query: &[i32]) -> Vec<SearchMatch> {
    let mut matches = Vec::new();
    for row in store.rows() {
        if row.embedded {
            let clip = decode_clip(row).unwrap();
            let vector = HashEmbedding.buckets(&clip.search_text());
            let dot: i64 = vector
                .iter()
                .zip(query)
                .map(|(a, b)| i64::from(*a) * i64::from(*b))
                .sum();
            matches.push(SearchMatch {
                id: row.id.clone(),
                rank: (1000 - dot) as u64,
            });
        }
    }
    matches
}

#[test]
fn stores_and_searches_text_image_and_files() {
    let mut store = HistoryStore::open_in_memory().unwrap();
    store
        .insert(&ClipInput::Text {
            text: "alpha skyline deployment".to_owned(),
            html: Some("<p>alpha skyline deployment</p>".to_owned()),
        })
        .unwrap();
    store
        .insert(&ClipInput::ImagePng {
            bytes: ONE_PIXEL_PNG.to_vec(),
        })
        .unwrap();
    store
        .insert(&ClipInput::Files {
            uris: vec!["file:///tmp/cliptown-contract.txt".to_owned()],
        })
        .unwrap();

    assert_eq!(store.count().unwrap(), 3);
    assert_eq!(store.embedding_count().unwrap(), 2);
    assert_eq!(text_search(&store, "skyline", 10).len(), 1);
    assert_eq!(text_search(&store, "contract", 10).len(), 1);
    let hits = store
        .vector_search("skyline deployment", 10, |query| {
            Ok(vector_matches(&store, query))
        })
        .unwrap();
    assert_eq!(hits.len(), 2);
    assert_eq!(hits[0].clip.title, "alpha skyline deployment");
    assert_eq!(hits[0].distance, 998);
}

#[test]
fn configurable_limit_prunes_unpinned_but_preserves_pinned() {
    let mut store = HistoryStore::open_in_memory().unwrap();
    let pinned = store.insert(&text("keep pinned")).unwrap();
    store.set_pinned(pinned.id, true).unwrap();
    for value in ["one", "two", "three"] {
        store.insert(&text(value)).unwrap();
    }
    store.set_history_limit(2).unwrap();
    assert_eq!(store.count().unwrap(), 3);
    assert!(store
        .list(10)
        .unwrap()
        .iter()
        .any(|clip| clip.id == pinned.id));
}

#[test]
fn duplicate_capture_updates_recency_without_growing_history() {
    let mut store = HistoryStore::open_in_memory().unwrap();
    let input = text("same item");
    let first = store.insert(&input).unwrap();
    let second = store.insert(&input).unwrap();
    assert_eq!(first.id, second.id);
    assert_eq!(store.count().unwrap(), 1);
}

#[test]
fn malformed_and_unbounded_inputs_fail_closed() {
    let mut store = HistoryStore::open_in_memory().unwrap();
    assert!(store.set_history_limit(0).is_err());
    assert!(store
        .insert(&ClipInput::ImagePng {
            bytes: b"not a png".to_vec(),
        })
        .is_err());
    assert!(store
        .insert(&ClipInput::Text {
            text: String::new(),
            html: None,
        })
        .is_err());
}

#[test]
fn captures_are_read_back() {
    let mut store = HistoryStore::open_in_memory().unwrap();
    let now = UtcTime {
        seconds: 1_787_590_800,
        nanoseconds: 123_456_789,
    };
    let clip = store
        .insert_at(
            &ClipInput::Text {
                text: "  first \u{e9}\r\nsecond".to_owned(),
                html: Some("<b>x</b>".to_owned()),
            },
            0xaaaaaaaa_aaaa_4aaa_8aaa_aaaaaaaaaaaa,
            now,
        )
        .unwrap();
    assert_eq!(
        clip,
        StoredClip {
            id: 0xaaaaaaaa_aaaa_4aaa_8aaa_aaaaaaaaaaaa,
            kind: ClipKind::Text,
            title: "first \u{e9}".to_owned(),
            text: Some("  first \u{e9}\r\nsecond".to_owned()),
            html: Some("<b>x</b>".to_owned()),
            image_png: None,
            file_uris: Vec::new(),
            pinned: false,
            created_at: now,
            last_used_at: now,
        }
    );
    assert_eq!(store.list(1).unwrap(), vec![clip]);
    let row = &store.rows()[0];
    assert_eq!(row.id, "aaaaaaaa-aaaa-4aaa-8aaa-aaaaaaaaaaaa");
    assert_eq!(row.last_used_at, "2026-08-24T17:00:00.123456789+00:00");
    assert_eq!(row.file_uris_json, "[]");
    let files = store
        .insert_at(
            &ClipInput::Files {
                uris: vec!["file:///\"a\"\\b".to_owned(), "c\n".to_owned()],
            },
            2,
            now,
        )
        .unwrap();
    assert_eq!(files.file_uris, ["file:///\"a\"\\b", "c\n"]);
    assert_eq!(files.title, "2 files");
    assert_eq!(
        store.rows()[1].file_uris_json,
        "[\"file:///\\\"a\\\"\\\\b\",\"c\\n\"]"
    );
}

#[test]
fn the_oldest_unpinned_clips_go_first() {
    let mut store = HistoryStore::open_in_memory().unwrap();
    store.set_history_limit(2).unwrap();
    assert_eq!(store.history_limit(), Ok(2));
    store.insert_at(&text("a"), 1, at(10)).unwrap();
    store.insert_at(&text("b"), 2, at(20)).unwrap();
    store.set_pinned(1, true).unwrap();
    store.insert_at(&text("c"), 3, at(30)).unwrap();
    store.insert_at(&text("d"), 4, at(40)).unwrap();
    assert_eq!(titles(&store.list(10).unwrap()), ["a", "d", "c"]);
    store.insert_at(&text("c"), 5, at(50)).unwrap();
    assert_eq!(titles(&store.list(10).unwrap()), ["a", "c", "d"]);
    store.insert_at(&text("e"), 6, at(60)).unwrap();
    assert_eq!(titles(&store.list(10).unwrap()), ["a", "e", "c"]);
    assert_eq!(titles(&store.list(0).unwrap()), ["a"]);
    let known = vec![store.rows()[0].id.clone(), "gone".to_owned()];
    assert_eq!(store.missing_ids(&known), ["gone"]);
}

#[test]
fn limits_hold_after_unpinning_and_a_repeated_capture() {
    let mut store = HistoryStore::open_in_memory().unwrap();
    store.set_history_limit(1).unwrap();
    store.insert_at(&text("a"), 1, at(10)).unwrap();
    store.set_pinned(1, true).unwrap();
    store.insert_at(&text("b"), 2, at(20)).unwrap();
    store.set_pinned(1, false).unwrap();
    assert_eq!(store.count(), Ok(2));
    store.insert_at(&text("b"), 3, at(30)).unwrap();
    assert_eq!(titles(&store.list(10).unwrap()), ["b"]);
}

#[test]
fn clips_of_the_same_moment_are_ordered_by_identifier() {
    let mut store = HistoryStore::open_in_memory().unwrap();
    store.insert_at(&text("a"), 1, at(10)).unwrap();
    store.insert_at(&text("b"), 2, at(10)).unwrap();
    store.insert_at(&text("c"), 3, at(10)).unwrap();
    assert_eq!(titles(&store.list(10).unwrap()), ["a", "b", "c"]);
    store.set_history_limit(2).unwrap();
    assert_eq!(titles(&store.list(10).unwrap()), ["b", "c"]);
}

#[test]
fn captures_are_refused_and_nothing_changes() {
    let mut store = HistoryStore::open_in_memory().unwrap();
    store.set_history_limit(1).unwrap();
    store.insert_at(&text("a"), 1, at(100)).unwrap();
    assert_eq!(
        store.insert_at(&text("b"), 2, at(50)),
        Err(StoreError::NotRetained)
    );
    assert_eq!(
        store.insert_at(&text("b"), 1, at(200)),
        Err(StoreError::DuplicateId)
    );
    assert_eq!(
        store.insert_at(&text("b"), 2, at(i64::MAX)),
        Err(StoreError::InvalidTime)
    );
    assert_eq!(
        store.insert_at(&text("\0b"), 2, at(200)),
        Err(StoreError::InvalidTitle)
    );
    let directory = ClipInput::Files {
        uris: vec!["file:///tmp/".to_owned()],
    };
    assert_eq!(
        store.insert_at(&directory, 2, at(200)),
        Err(StoreError::InvalidTitle)
    );
    assert_eq!(store.set_pinned(2, true), Err(StoreError::MissingClip));
    assert_eq!(
        store.set_history_limit(100_001),
        Err(StoreError::LimitOutOfRange)
    );
    assert_eq!(titles(&store.list(10).unwrap()), ["a"]);
    assert_eq!(store.count(), Ok(1));

    let mut roomy = HistoryStore::open_in_memory().unwrap();
    let far = roomy.insert_at(&text("b"), 2, at(253_402_300_800));
    assert_eq!(far, Err(StoreError::InvalidColumn { column: 8 }));
    assert_eq!(roomy.count(), Ok(0));
}

#[test]
fn stored_rows_are_loaded() {
    let row = encode_clip(
        &text("a"),
        content_hash(&text("a")),
        7,
        "2026-08-24T17:00:00+00:00",
    );
    let store = HistoryStore::from_rows("+20".to_owned(), vec![row.clone()]).unwrap();
    assert_eq!(store.history_limit(), Ok(20));
    assert_eq!(store.stored_limit(), "+20");
    assert_eq!(store.list(5).unwrap()[0].created_at, at(1_787_590_800));
    let twice = HistoryStore::from_rows("20".to_owned(), vec![row.clone(), row]);
    assert_eq!(twice.err(), Some(StoreError::DuplicateId));
    let mut corrupt = HistoryStore::from_rows("many".to_owned(), Vec::new()).unwrap();
    assert_eq!(
        corrupt.insert_at(&text("a"), 1, at(1)),
        Err(StoreError::LimitNotNumeric)
    );
}

fn row() -> ClipRow {
    encode_clip(&text("a"), "00".repeat(32), 7, "2026-08-24T17:00:00+00:00")
}

#[test]
fn unreadable_columns_are_reported() {
    assert!(decode_clip(&row()).is_ok());
    let column = |row: ClipRow| decode_clip(&row).unwrap_err();
    let mut value = row();
    value.id = "7".to_owned();
    assert_eq!(column(value), StoreError::InvalidColumn { column: 0 });
    let mut value = row();
    value.kind = "Text".to_owned();
    assert_eq!(column(value), StoreError::InvalidColumn { column: 1 });
    let mut value = row();
    value.file_uris_json = "[1]".to_owned();
    assert_eq!(column(value), StoreError::InvalidColumn { column: 6 });
    let mut value = row();
    value.created_at = "2026-08-24".to_owned();
    assert_eq!(column(value), StoreError::InvalidColumn { column: 8 });
    let mut value = row();
    value.last_used_at = "now".to_owned();
    assert_eq!(column(value), StoreError::InvalidColumn { column: 9 });
    let mut value = row();
    value.id = "{AAAAAAAA-AAAA-4AAA-8AAA-AAAAAAAAAAAA}".to_owned();
    value.last_used_at = "2026-08-24T19:00:00.5+02:00".to_owned();
    let clip = decode_clip(&value).unwrap();
    assert_eq!(clip.id, 0xaaaaaaaa_aaaa_4aaa_8aaa_aaaaaaaaaaaa);
    assert_eq!(
        clip.last_used_at,
        UtcTime {
            seconds: 1_787_590_800,
            nanoseconds: 500_000_000
        }
    );
    let mut store = HistoryStore::from_rows("5".to_owned(), vec![row()]).unwrap();
    assert!(store.list(1).is_ok());
    store.set_pinned(7, true).unwrap();
    assert!(store.list(1).unwrap()[0].pinned);
}

#[test]
fn inputs_are_validated() {
    assert_eq!(validate_input(&text(" \u{3000}\n")), Err(StoreError::EmptyText));
    assert_eq!(validate_input(&text(&"a".repeat(1_048_576))), Ok(()));
    assert_eq!(
        validate_input(&text(&"a".repeat(1_048_577))),
        Err(StoreError::TextTooLarge)
    );
    let mixed = |html: usize| ClipInput::Text {
        text: "\u{e9}".to_owned(),
        html: Some("h".repeat(html)),
    };
    assert_eq!(validate_input(&mixed(1_048_574)), Ok(()));
    assert_eq!(
        validate_input(&mixed(1_048_575)),
        Err(StoreError::TextTooLarge)
    );
    let image = |bytes: Vec<u8>| ClipInput::ImagePng { bytes };
    assert_eq!(validate_input(&image(ONE_PIXEL_PNG.to_vec())), Ok(()));
    assert_eq!(validate_input(&image(Vec::new())), Err(StoreError::ImageSize));
    assert_eq!(
        validate_input(&image(vec![137; 8_388_609])),
        Err(StoreError::ImageSize)
    );
    assert_eq!(
        validate_input(&image(ONE_PIXEL_PNG[..7].to_vec())),
        Err(StoreError::NotPng)
    );
    let files = |uris: Vec<String>| ClipInput::Files { uris };
    assert_eq!(validate_input(&files(Vec::new())), Err(StoreError::FileCount));
    assert_eq!(validate_input(&files(vec!["a".to_owned(); 128])), Ok(()));
    assert_eq!(
        validate_input(&files(vec!["a".to_owned(); 129])),
        Err(StoreError::FileCount)
    );
    assert_eq!(validate_input(&files(vec!["a".repeat(4096)])), Ok(()));
    assert_eq!(
        validate_input(&files(vec!["a".to_owned(), "b".repeat(4097)])),
        Err(StoreError::InvalidUri)
    );
    assert_eq!(
        validate_input(&files(vec!["a\0".to_owned()])),
        Err(StoreError::InvalidUri)
    );
    assert_eq!(StoreError::NotPng.message(), "image clip is not a PNG");
}

#[test]
fn content_hashes_have_their_values() {
    assert_eq!(
        content_hash(&text("same item")),
        "326f97a0e83a9df2dae506c7e199068dca59113fc54981542423729e7828f9f4"
    );
    assert_eq!(
        content_hash(&ClipInput::Text {
            text: "hello".to_owned(),
            html: Some("<b>hello</b>".to_owned())
        }),
        "e6f6b63002a34a4ddf58d8a620a4e762a365c6867729ed3b10c62607d2028753"
    );
    assert_eq!(
        content_hash(&ClipInput::Files {
            uris: vec!["file:///a".to_owned(), "file:///b".to_owned()]
        }),
        "626b5243fc559991b642cd59397cdb31a55ad9968f6d97fdb6309b51416b4e86"
    );
    assert_eq!(
        content(&ClipInput::ImagePng { bytes: vec![1, 2] }),
        b"image\0\x01\x02"
    );
}

#[test]
fn contents_are_told_apart() {
    let marked = |text: &str, html: Option<&str>| ClipInput::Text {
        text: text.to_owned(),
        html: html.map(str::to_owned),
    };
    assert_ne!(content(&marked("ab", None)), content(&marked("a", Some("b"))));
    assert_eq!(content(&marked("a", None)), content(&marked("a", Some(""))));
    let files = |uris: &[&str]| ClipInput::Files {
        uris: uris.iter().map(|uri| (*uri).to_owned()).collect(),
    };
    assert_ne!(content(&files(&["a", "b"])), content(&files(&["ab"])));
    assert_ne!(content(&files(&["a"])), content(&marked("a", None)));
}

#[test]
fn repeated_captures_keep_their_content() {
    let mut store = HistoryStore::open_in_memory().unwrap();
    let first = store.insert_at(&text("a"), 1, at(10)).unwrap();
    let second = store.insert_at(&text("a"), 2, at(20)).unwrap();
    assert_eq!(second.last_used_at, at(20));
    assert_eq!(
        second,
        StoredClip {
            last_used_at: at(20),
            ..first
        }
    );
}

#[test]
fn limits_are_parsed() {
    assert_eq!(parse_history_limit("500"), Ok(500));
    assert_eq!(parse_history_limit("+007"), Ok(7));
    assert_eq!(parse_history_limit("100000"), Ok(100_000));
    assert_eq!(
        parse_history_limit("100001"),
        Err(StoreError::LimitOutOfRange)
    );
    assert_eq!(parse_history_limit("0"), Err(StoreError::LimitOutOfRange));
    for raw in ["", "+", "-1", " 5", "5 ", "1e3", "\u{661}", "99999999999999999999999"] {
        assert_eq!(parse_history_limit(raw), Err(StoreError::LimitNotNumeric));
        assert!(raw.parse::<usize>().is_err());
    }
}

#[test]
fn search_expressions_quote_every_word() {
    assert_eq!(fts_expression("alpha  beta\tgamma"), "\"alpha\" AND \"beta\" AND \"gamma\"");
    assert_eq!(fts_expression("say \"hi\" OR"), "\"say\" AND \"\"\"hi\"\"\" AND \"OR\"");
    assert_eq!(fts_expression(" \u{a0} "), "");
}

#[test]
fn searches_are_ranked() {
    let mut store = HistoryStore::open_in_memory().unwrap();
    for (id, value) in ["a", "b", "c", "d"].iter().enumerate() {
        store
            .insert_at(&text(value), id as u128 + 1, at(id as i64))
            .unwrap();
    }
    store.set_pinned(2, true).unwrap();
    let found = |index: usize, rank: u64| SearchMatch {
        id: store.rows()[index].id.clone(),
        rank,
    };
    let matches = vec![
        found(0, 5),
        found(1, 9),
        SearchMatch {
            id: "unknown".to_owned(),
            rank: 0,
        },
        found(2, 5),
        found(3, 7),
    ];
    let ranked = store.rank_text_matches(&matches, 10).unwrap();
    assert_eq!(titles(&ranked), ["b", "c", "a", "d"]);
    assert_eq!(store.rank_text_matches(&matches, 2).unwrap().len(), 2);
    let near = store.rank_vector_matches(&matches, 10).unwrap();
    let order: Vec<(&str, u64)> = near
        .iter()
        .map(|hit| (hit.clip.title.as_str(), hit.distance))
        .collect();
    assert_eq!(order, [("c", 5), ("a", 5), ("d", 7), ("b", 9)]);

    let asked = store.text_search("x y", 10, |expression| {
        assert_eq!(expression, "\"x\" AND \"y\"");
        Err(StoreError::IndexFailed)
    });
    assert_eq!(asked, Err(StoreError::IndexFailed));
    let all = store.text_search("  ", 10, |_| unreachable!()).unwrap();
    assert_eq!(titles(&all), ["b", "d", "c", "a"]);
    let none = store.vector_search("?!", 10, |_| unreachable!()).unwrap();
    assert!(none.is_empty());
}

#[test]
fn titles_can_be_stored() {
    assert!(storable_title("a"));
    assert!(!storable_title(""));
    assert!(!storable_title("\0a"));
    assert!(storable_title("a\0"));
    assert!(storable_title(&"\u{e9}".repeat(512)));
    assert!(!storable_title(&"a".repeat(513)));
}

#[test]
fn random_identifiers_and_the_clock_are_used() {
    let mut store = HistoryStore::open_in_memory().unwrap();
    let first = store.insert(&text("a")).unwrap();
    let second = store.insert(&text("b")).unwrap();
    assert_ne!(first.id, second.id);
    assert_eq!((first.id >> 76) & 15, 4);
    assert_eq!((first.id >> 62) & 3, 2);
    assert!(first.created_at.seconds > 1_700_000_000);
}

#[test]
fn pruning_checks_its_limit() {
    let mut store = HistoryStore::open_in_memory().unwrap();
    for id in 1..4 {
        store.insert_at(&text(&id.to_string()), id, at(id as i64)).unwrap();
    }
    store.set_pinned(1, true).unwrap();
    let mut rows: Vec<ClipRow> = store.rows().clone();
    let before = rows.clone();
    assert_eq!(prune(&mut rows, 0), Err(StoreError::LimitOutOfRange));
    assert_eq!(prune(&mut rows, 100_001), Err(StoreError::LimitOutOfRange));
    assert_eq!(rows, before);
    assert_eq!(prune(&mut rows, 100_000), Ok(()));
    assert_eq!(rows, before);
    assert_eq!(prune(&mut rows, 1), Ok(()));
    assert_eq!(rows, [before[0].clone(), before[2].clone()]);
}

#[test]
fn clips_are_recognized_by_their_hash() {
    let mut store = HistoryStore::open_in_memory().unwrap();
    let hash = "0".repeat(64);
    let first = store
        .insert_hashed(&text("a"), hash.clone(), 1, at(10))
        .unwrap();
    let again = store
        .insert_hashed(&text("b"), hash.clone(), 2, at(20))
        .unwrap();
    assert_eq!(
        again,
        StoredClip {
            last_used_at: at(20),
            ..first
        }
    );
    assert_eq!(store.rows()[0].content_sha256, hash);
    let other = store
        .insert_hashed(&text("b"), "1".repeat(64), 2, at(30))
        .unwrap();
    assert_eq!((other.id, other.title.as_str()), (2, "b"));
    let hashed = store.insert_at(&text("b"), 3, at(40)).unwrap();
    assert_eq!(hashed.id, 3);
    assert_eq!(store.rows()[2].content_sha256, content_hash(&text("b")));
    assert_eq!(
        store.insert_hashed(&text(" "), hash, 4, at(50)),
        Err(StoreError::EmptyText)
    );
}

#[test]
fn later_moments_have_later_stamps() {
    let moments = [
        (-62_167_219_200, 0),
        (-1, 999_999_999),
        (0, 0),
        (0, 1),
        (0, 999),
        (0, 1_000),
        (0, 1_001),
        (0, 999_999),
        (0, 1_000_000),
        (0, 1_000_001),
        (0, 120_000_000),
        (0, 120_000_001),
        (0, 120_001_000),
        (0, 999_000_000),
        (0, 999_999_999),
        (1, 0),
        (253_402_300_799, 999_999_999),
    ];
    let mut store = HistoryStore::open_in_memory().unwrap();
    store.set_history_limit(1).unwrap();
    let mut stamps: Vec<String> = Vec::new();
    for (n, (seconds, nanoseconds)) in moments.into_iter().enumerate() {
        let now = UtcTime {
            seconds,
            nanoseconds,
        };
        let clip = store.insert_at(&text(&n.to_string()), n as u128, now).unwrap();
        assert_eq!(store.list(10).unwrap(), [clip]);
        stamps.push(store.rows()[0].last_used_at.clone());
    }
    let mut sorted = stamps.clone();
    sorted.sort();
    sorted.dedup();
    assert_eq!(stamps, sorted);
}

#[test]
fn changes_are_what_has_to_be_written() {
    let mut store = HistoryStore::open_in_memory().unwrap();
    store.set_history_limit(2).unwrap();
    store.insert_at(&text("a"), 1, at(10)).unwrap();
    store.insert_at(&text("b"), 2, at(20)).unwrap();
    let known = store.stamps();
    assert_eq!(known.len(), 2);
    assert_eq!(
        known[1],
        RowStamp {
            id: "00000000-0000-0000-0000-000000000002".to_owned(),
            last_used_at: "1970-01-01T00:00:20+00:00".to_owned(),
        }
    );
    let unchanged = store.changes_since(&known);
    assert!(unchanged.added.is_empty());
    assert!(unchanged.used.is_empty());
    assert!(unchanged.removed.is_empty());
    store.insert_at(&text("a"), 3, at(30)).unwrap();
    let used = store.changes_since(&known);
    assert!(used.added.is_empty());
    assert_eq!(used.used, [store.rows()[0].clone()]);
    assert_eq!(used.used[0].last_used_at, "1970-01-01T00:00:30+00:00");
    assert!(used.removed.is_empty());
    store.insert_at(&text("c"), 4, at(40)).unwrap();
    let changes = store.changes_since(&known);
    assert_eq!(changes.added, [store.rows()[1].clone()]);
    assert_eq!(changes.used, [store.rows()[0].clone()]);
    assert_eq!(changes.removed, [known[1].id.clone()]);
    let all = store.changes_since(&[]);
    assert_eq!(all.added, *store.rows());
}

fn fixture() -> Vec<FixtureClip> {
    vec![
        FixtureClip::Text {
            text: "alpha skyline".to_owned(),
            html: None,
            pinned: true,
        },
        FixtureClip::Files {
            uris: vec!["file:///tmp/alpha.txt".to_owned()],
        },
        FixtureClip::Text {
            text: "beta".to_owned(),
            html: None,
            pinned: false,
        },
    ]
}

fn draw(n: u8) -> Draw {
    Draw {
        id: n.into(),
        now: at(n.into()),
    }
}

#[test]
fn fixtures_are_loaded_and_counted() {
    let mut store = HistoryStore::open_in_memory().unwrap();
    let draws = [draw(1), draw(2), draw(3)];
    assert_eq!(load_fixture_at(&mut store, 2, fixture(), &draws), Ok(()));
    assert_eq!(store.history_limit(), Ok(2));
    let titles: Vec<(u128, String, bool)> = store
        .list(10)
        .unwrap()
        .into_iter()
        .map(|clip| (clip.id, clip.title, clip.pinned))
        .collect();
    assert_eq!(
        titles,
        [
            (1, "alpha skyline".to_owned(), true),
            (3, "beta".to_owned(), false),
            (2, "alpha.txt".to_owned(), false),
        ]
    );
    let counts = count_history(
        &store,
        "alpha",
        "beta",
        |expression| Ok(text_matches(&store, expression)),
        |buckets| Ok(vector_matches(&store, buckets)),
    );
    let expected = ProbeCounts {
        stored_items: 3,
        pinned_items: 1,
        lexical_hits: 2,
        vector_hits: 3,
        embedding_rows: 3,
    };
    assert_eq!(counts, Ok(expected));
    let unsearched = count_history(
        &store,
        "alpha",
        "beta",
        |_| Err(StoreError::IndexFailed),
        |_| unreachable!(),
    );
    assert_eq!(
        unsearched,
        Err(ProbeError::Store {
            error: StoreError::IndexFailed
        })
    );
    let mut drawn = HistoryStore::open_in_memory().unwrap();
    assert_eq!(load_fixture(&mut drawn, 1, fixture()), Ok(()));
    assert_eq!(drawn.count(), Ok(2));
}

#[test]
fn fixtures_stop_at_the_first_failure() {
    let refused = ProbeError::Store {
        error: StoreError::LimitOutOfRange,
    };
    let mut store = HistoryStore::open_in_memory().unwrap();
    assert_eq!(load_fixture(&mut store, 0, fixture()), Err(refused));
    assert_eq!(
        load_fixture_at(&mut store, 0, fixture(), &[draw(1), draw(2), draw(3)]),
        Err(refused)
    );
    assert_eq!(refused.message(), "history limit must be between 1 and 100000");
    assert_eq!(store.count(), Ok(0));
    let mut clips = fixture();
    clips[1] = FixtureClip::ImagePng {
        base64: "?".to_owned(),
    };
    let broken = load_fixture(&mut store, 5, clips);
    assert_eq!(broken, Err(ProbeError::Image));
    assert_eq!(store.count(), Ok(1));
    let blank = FixtureClip::Text {
        text: " ".to_owned(),
        html: None,
        pinned: true,
    };
    assert_eq!(
        store_fixture_clip(&mut store, blank, draw(9)),
        Err(ProbeError::Store {
            error: StoreError::EmptyText
        })
    );
}

#[test]
fn a_clip_can_be_used_again_after_the_clock_went_back() {
    let mut store = HistoryStore::open_in_memory().unwrap();
    store.set_history_limit(2).unwrap();
    store.insert_at(&text("a"), 1, at(10)).unwrap();
    store.insert_at(&text("b"), 2, at(20)).unwrap();
    let back = store.insert_at(&text("b"), 3, at(5)).unwrap();
    assert_eq!((back.id, back.last_used_at), (2, at(5)));
    assert_eq!(titles(&store.list(10).unwrap()), ["a", "b"]);
    store.set_pinned(2, true).unwrap();
    store.insert_at(&text("c"), 4, at(30)).unwrap();
    store.set_pinned(2, false).unwrap();
    let before = store.stamps();
    assert_eq!(
        store.insert_at(&text("b"), 5, at(4)),
        Err(StoreError::NotRetained)
    );
    assert_eq!(store.stamps(), before);
    store.set_pinned(2, true).unwrap();
    let pinned = store.insert_at(&text("b"), 6, at(3)).unwrap();
    assert_eq!((pinned.id, pinned.last_used_at), (2, at(3)));
}
