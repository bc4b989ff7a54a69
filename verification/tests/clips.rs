use cliptown_desktop::clipboard::{
    check_text, clip_from_files, clip_from_image, clip_from_text, preferred_source,
    ClipboardError, ClipboardSource, MAX_FILES, MAX_IMAGE_BYTES,
};
use cliptown_desktop::codec::{decode_base64_standard, decode_base64url, read_uuid};
use cliptown_desktop::embedding::{
    as_le_bytes, has_direction, tally_digests, HashEmbedding, BUCKET_LIMIT, EMBEDDING_DIMENSIONS,
};
use cliptown_desktop::json::{quote, JsonWriter};
use cliptown_desktop::key_store::{
    account_for_digest, generate_key, key_action, key_from_random, key_literal, keyring_account,
    parse_key, take_key, KeyAction, KeyError, KeyLookup,
};
use cliptown_desktop::model::{ClipInput, ClipKind, StoredClip, UtcTime};
use cliptown_desktop::order::comes_before;
use cliptown_desktop::probe::{
    check_counts, check_dimensions, count_pinned, fixture_input, FixtureClip, ProbeCounts,
    ProbeError,
};
use cliptown_desktop::text::{decimal_text, split_runs, white_space, TokenClass};
use cliptown_desktop::window::{clip_labels, summary};

fn text(value: &str) -> ClipInput {
    ClipInput::Text {
        text: value.to_owned(),
        html: None,
    }
}

fn files(uris: &[&str]) -> ClipInput {
    ClipInput::Files {
        uris: uris.iter().map(|uri| (*uri).to_owned()).collect(),
    }
}

#[test]
fn account_identifier_does_not_expose_the_local_path() {
    let account = keyring_account("private/clipboard.db");
    assert!(account.starts_with("history-"));
    assert_eq!(account.len(), "history-".len() + 64);
    assert!(!account.contains("private"));
}

#[test]
fn account_identifiers_have_their_values() {
    assert_eq!(
        keyring_account("private/clipboard.db"),
        "history-7e0f587c7881dd07001d213623bc33c56dd81dcfb2e849f10f685e3bd0a6b163"
    );
    assert_eq!(account_for_digest(&[0, 0xab]), "history-00ab");
}

#[test]
fn keys_are_never_made_for_an_existing_history() {
    let used = key_action(KeyLookup::Found(vec![7; 32]), true);
    assert!(matches!(used, KeyAction::Use(key) if key == [7; 32]));
    let short = key_action(KeyLookup::Found(vec![7; 31]), false);
    assert!(matches!(short, KeyAction::Refuse(KeyError::InvalidLength)));
    let missing = key_action(KeyLookup::NoEntry, true);
    assert!(matches!(missing, KeyAction::Refuse(KeyError::Missing)));
    let new = key_action(KeyLookup::NoEntry, false);
    assert!(matches!(new, KeyAction::Create));
    let failed = key_action(KeyLookup::Failed, false);
    assert!(matches!(failed, KeyAction::Refuse(KeyError::Unreadable)));
    assert_eq!(parse_key(Vec::new()), Err(KeyError::InvalidLength));
    assert_eq!(parse_key(vec![7; 32]), Ok([7; 32]));
    let mut secret = vec![7; 32];
    assert_eq!(take_key(&mut secret), Ok([7; 32]));
    assert!(secret.is_empty());
    let mut long = vec![7; 33];
    assert_eq!(take_key(&mut long), Err(KeyError::InvalidLength));
    assert!(long.is_empty());
    assert_ne!(generate_key().unwrap(), generate_key().unwrap());
    assert_eq!(key_from_random(Some(vec![9; 32])), Ok([9; 32]));
    assert_eq!(
        key_from_random(Some(vec![9; 33])),
        Err(KeyError::InvalidLength)
    );
    assert_eq!(key_from_random(None), Err(KeyError::NoRandomBytes));
    assert_eq!(
        KeyError::Missing.message(),
        "encrypted history key is missing; refusing destructive recovery"
    );
}

#[test]
fn kinds_are_named() {
    for kind in [ClipKind::Text, ClipKind::Image, ClipKind::Files] {
        assert_eq!(ClipKind::parse(kind.as_str()), Some(kind));
    }
    assert_eq!(ClipKind::Image.as_str(), "image");
    assert_eq!(ClipKind::parse("Image"), None);
    assert_eq!(files(&["a"]).kind(), ClipKind::Files);
}

#[test]
fn titles_are_taken_from_the_content() {
    assert_eq!(text("  alpha  \nbeta").title(), "alpha");
    assert_eq!(text("alpha\r\nbeta").title(), "alpha");
    assert_eq!(text("\nbeta").title(), "Text clip");
    assert_eq!(text(&"\u{e9}".repeat(72)).title(), "\u{e9}".repeat(72));
    assert_eq!(
        text(&"\u{e9}".repeat(73)).title(),
        format!("{}\u{2026}", "\u{e9}".repeat(72))
    );
    assert_eq!(
        ClipInput::ImagePng { bytes: Vec::new() }.title(),
        "Clipboard image"
    );
    assert_eq!(files(&["file:///tmp/a.txt"]).title(), "a.txt");
    assert_eq!(files(&["C:\\tmp\\b.txt"]).title(), "b.txt");
    assert_eq!(files(&["plain"]).title(), "plain");
    assert_eq!(files(&["a", "b", "c"]).title(), "3 files");
    assert_eq!(files(&[]).title(), "0 files");
}

#[test]
fn search_texts_are_taken_from_the_content() {
    assert_eq!(text(" a\nb ").search_text(), " a\nb ");
    assert_eq!(files(&["a", "b c", "d"]).search_text(), "a b c d");
    assert_eq!(ClipInput::ImagePng { bytes: vec![1] }.search_text(), "");
}

#[test]
fn white_space_is_that_of_unicode() {
    for c in '\0'..=char::MAX {
        assert_eq!(white_space(c), c.is_whitespace());
    }
}

#[test]
fn runs_are_split() {
    let words = split_runs("\u{3b1}lpha-2, b_c!", TokenClass::Alphanumeric);
    assert_eq!(words, ["\u{3b1}lpha", "2", "b", "c"]);
    assert_eq!(
        split_runs(" a-b \u{2003}c", TokenClass::NonBlank),
        ["a-b", "c"]
    );
    assert!(split_runs(" -!", TokenClass::Alphanumeric).is_empty());
}

#[test]
fn clipboard_formats_are_preferred() {
    assert_eq!(preferred_source(true, true), ClipboardSource::Files);
    assert_eq!(preferred_source(false, true), ClipboardSource::Image);
    assert_eq!(preferred_source(false, false), ClipboardSource::Text);
    assert_eq!(
        clip_from_files(Vec::new()),
        Err(ClipboardError::EmptyFileList)
    );
    assert_eq!(
        clip_from_files(vec!["a".to_owned(); MAX_FILES + 1]),
        Err(ClipboardError::TooManyFiles)
    );
    assert_eq!(clip_from_files(vec!["a".to_owned()]), Ok(files(&["a"])));
    assert_eq!(
        clip_from_image(vec![0; MAX_IMAGE_BYTES + 1]),
        Err(ClipboardError::ImageTooLarge)
    );
    assert_eq!(
        clip_from_image(vec![1]),
        Ok(ClipInput::ImagePng { bytes: vec![1] })
    );
    assert_eq!(check_text("\t"), Err(ClipboardError::NoContent));
    assert_eq!(
        clip_from_text("\n".to_owned(), Some("<p>".to_owned())),
        Err(ClipboardError::NoContent)
    );
    assert_eq!(
        clip_from_text("a".to_owned(), Some(String::new())),
        Ok(text("a"))
    );
    assert_eq!(
        clip_from_text("a".to_owned(), Some("<p>".to_owned())),
        Ok(ClipInput::Text {
            text: "a".to_owned(),
            html: Some("<p>".to_owned())
        })
    );
    assert_eq!(
        ClipboardError::NoContent.message(),
        "clipboard contains no supported non-empty content"
    );
}

fn bucket(word: &str) -> (usize, i32) {
    let digest = blake3::hash(word.as_bytes());
    let bytes = digest.as_bytes();
    let index = usize::from(u16::from_le_bytes([bytes[0], bytes[1]])) % EMBEDDING_DIMENSIONS;
    (index, if bytes[2] & 1 == 0 { 1 } else { -1 })
}

#[test]
fn embeddings_count_small_lettered_words() {
    let buckets = HashEmbedding.buckets("Alpha, ALPHA \u{c9}t\u{e9}");
    let mut expected = vec![0; EMBEDDING_DIMENSIONS];
    for word in ["alpha", "alpha", "\u{e9}t\u{e9}"] {
        let (index, sign) = bucket(word);
        expected[index] += sign;
    }
    assert_eq!(buckets, expected);
    assert_eq!(HashEmbedding.buckets("alpha alpha \u{e9}t\u{e9}"), buckets);
    assert!(has_direction(&buckets));
    assert!(!has_direction(&HashEmbedding.buckets("?! --")));
    assert_eq!(HashEmbedding.model_id(), "cliptown-hash-v1");
    assert_eq!(HashEmbedding.dimensions(), 384);
}

#[test]
fn buckets_count_in_both_directions() {
    let up = vec![1, 1, 2];
    let down = vec![1, 1, 3];
    let other = vec![0xff, 0xff, 0];
    let buckets = tally_digests(&[up.clone(), up, down, other]);
    assert_eq!(buckets[257], 1);
    assert_eq!(buckets[65_535 % 384], 1);
    assert_eq!(buckets.iter().map(|count| count.abs()).sum::<i32>(), 2);
    let limit = BUCKET_LIMIT as f32;
    assert_eq!(limit + 1.0, limit);
    assert_eq!(limit - 1.0, (BUCKET_LIMIT - 1) as f32);
}

#[test]
fn vectors_are_little_endian() {
    let values = [1.0_f32, -0.5];
    let words: Vec<u32> = values.iter().map(|value| value.to_bits()).collect();
    let expected: Vec<u8> = values.iter().flat_map(|value| value.to_le_bytes()).collect();
    assert_eq!(as_le_bytes(&words), expected);
    assert_eq!(as_le_bytes(&[0x0403_0201]), [1, 2, 3, 4]);
}

#[test]
fn encodings_are_canonical() {
    assert_eq!(decode_base64url("-_8"), Some(vec![0xfb, 0xff]));
    assert_eq!(decode_base64url("-_9"), None);
    assert_eq!(decode_base64url("-_8="), None);
    assert_eq!(decode_base64_standard("+/8="), Some(vec![0xfb, 0xff]));
    assert_eq!(decode_base64_standard("+/8"), None);
    assert_eq!(
        read_uuid("AAAAAAAA-AAAA-4AAA-8AAA-AAAAAAAAAAAA"),
        Some(0xaaaaaaaa_aaaa_4aaa_8aaa_aaaaaaaaaaaa)
    );
    assert_eq!(
        read_uuid("urn:uuid:aaaaaaaaaaaa4aaa8aaaaaaaaaaaaaaa"),
        None
    );
    assert_eq!(
        read_uuid("aaaaaaaaaaaa4aaa8aaaaaaaaaaaaaaa"),
        Some(0xaaaaaaaa_aaaa_4aaa_8aaa_aaaaaaaaaaaa)
    );
}

#[test]
fn json_is_written_without_white_space() {
    assert_eq!(quote("a\"\\\u{8}\t\n\u{c}\r\u{1f}\u{7f}/\u{e9}"), "\"a\\\"\\\\\\b\\t\\n\\f\\r\\u001f\u{7f}/\u{e9}\"");
    let mut writer = JsonWriter::new();
    writer.put_text("a", "b\"");
    writer.put_number("n", 120);
    assert_eq!(writer.finish(), "{\"a\":\"b\\\"\",\"n\":120}");
    assert_eq!(JsonWriter::new().finish(), "{}");
    assert_eq!(decimal_text(u64::MAX), "18446744073709551615");
    assert_eq!(decimal_text(0), "0");
}

#[test]
fn texts_are_ordered_by_bytes() {
    assert!(comes_before("", "a"));
    assert!(comes_before("a", "ab"));
    assert!(comes_before("Z", "a"));
    assert!(comes_before("z", "\u{e9}"));
    assert!(!comes_before("a", "a"));
    assert!(comes_before(
        "2026-08-24T17:00:00+00:00",
        "2026-08-24T17:00:00.5+00:00"
    ));
}

fn stored(kind: ClipKind, title: &str, pinned: bool) -> StoredClip {
    let now = UtcTime {
        seconds: 0,
        nanoseconds: 0,
    };
    StoredClip {
        id: 1,
        kind,
        title: title.to_owned(),
        text: None,
        html: None,
        image_png: None,
        file_uris: Vec::new(),
        pinned,
        created_at: now,
        last_used_at: now,
    }
}

#[test]
fn the_window_shows_kinds_and_titles() {
    assert_eq!(
        summary(3, 500),
        "3 saved \u{2022} unpinned limit 500 \u{2022} local SQLite FTS + vectors"
    );
    let clips = [
        stored(ClipKind::Text, "alpha", false),
        stored(ClipKind::Files, "b.txt", true),
    ];
    assert_eq!(
        clip_labels(&clips),
        ["text  \u{b7}  alpha", "files  \u{b7}  b.txt"]
    );
    assert_eq!(count_pinned(&clips), 1);
}

#[test]
fn fixtures_become_captures() {
    assert_eq!(
        fixture_input(FixtureClip::Text {
            text: "a".to_owned(),
            html: None,
            pinned: true
        }),
        Ok((text("a"), true))
    );
    assert_eq!(
        fixture_input(FixtureClip::ImagePng {
            base64: "AQI=".to_owned()
        }),
        Ok((ClipInput::ImagePng { bytes: vec![1, 2] }, false))
    );
    assert_eq!(
        fixture_input(FixtureClip::ImagePng {
            base64: "AQI".to_owned()
        }),
        Err(ProbeError::Image)
    );
    assert_eq!(
        fixture_input(FixtureClip::Files {
            uris: vec!["a".to_owned()]
        }),
        Ok((files(&["a"]), false))
    );
    assert_eq!(check_dimensions(384), Ok(()));
    assert_eq!(check_dimensions(383), Err(ProbeError::Dimensions));
    let counts = ProbeCounts {
        stored_items: 1,
        pinned_items: 2,
        lexical_hits: 3,
        vector_hits: 4,
        embedding_rows: 5,
    };
    assert_eq!(check_counts(&counts, &counts), Ok(()));
    let mut other = counts;
    other.vector_hits = 0;
    assert_eq!(check_counts(&counts, &other), Err(ProbeError::Counts));
    assert_eq!(ProbeError::Image.message(), "decode fixture PNG");
}

#[test]
fn the_order_of_words_does_not_matter() {
    let buckets = HashEmbedding.buckets("Alpha beta");
    assert_eq!(HashEmbedding.buckets("beta, ALPHA!"), buckets);
    assert_ne!(HashEmbedding.buckets("beta beta alpha"), buckets);
}

#[test]
fn key_literals_have_their_values() {
    let mut key = [0; 32];
    key[0] = 0xab;
    key[31] = 1;
    assert_eq!(key_literal(&key), format!("x'ab{}01'", "0".repeat(60)));
}

#[test]
fn stored_clips_are_found_in_what_they_hold() {
    let mut clip = stored(ClipKind::Files, "2 files", false);
    clip.file_uris = vec!["a".to_owned(), "b".to_owned()];
    assert_eq!(clip.search_text(), "a b");
    clip.text = Some("c".to_owned());
    assert_eq!(clip.search_text(), "c");
    assert_eq!(stored(ClipKind::Image, "Clipboard image", false).search_text(), "");
}
