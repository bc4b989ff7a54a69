//! The conformance probe: what a fixture puts into a history, and what has to come out.

use crate::embedding::{self, EMBEDDING_DIMENSIONS};
use crate::model::{self, ClipInput, InputView, StoredClip, UtcTime};
use crate::store::history::{self, HistoryStore, HistoryView};
use crate::store::row::RowView;
use crate::store::search::{self, SearchHit, SearchMatch};
use crate::store::{self, retention, StoreError, MAX_HISTORY_LIMIT};
use crate::{codec, text, time};
use vstd::prelude::*;

verus! {

/// How many results the probe asks of a search.
pub const PROBE_RESULTS: usize = 10;

/// Why the probe fails.
#[derive(Clone, Copy, Debug, PartialEq, Eq, Structural)]
pub enum ProbeError {
    Dimensions,
    Image,
    Counts,
    Store { error: StoreError },
}

impl ProbeError {
    /// The sentence that is shown to the user.
    pub open spec fn message_text(self) -> &'static str {
        match self {
            ProbeError::Dimensions => "fixture embedding dimensions do not match this client",
            ProbeError::Image => "decode fixture PNG",
            ProbeError::Counts => "fixture expectations do not match this client",
            ProbeError::Store { error } => error.message_text(),
        }
    }

    /// The sentence that is shown to the user.
    pub fn message(&self) -> (s: &'static str)
        ensures
            s@ == self.message_text()@,
    {
        match self {
            ProbeError::Dimensions => "fixture embedding dimensions do not match this client",
            ProbeError::Image => "decode fixture PNG",
            ProbeError::Counts => "fixture expectations do not match this client",
            ProbeError::Store { error } => error.message(),
        }
    }
}

/// A clip of a fixture.
#[derive(Clone, Debug, PartialEq, Eq)]
pub enum FixtureClip {
    Text { text: String, html: Option<String>, pinned: bool },
    ImagePng { base64: String },
    Files { uris: Vec<String> },
}

/// Checks that a fixture was made for this embedding.
pub fn check_dimensions(dimensions: usize) -> (r: Result<(), ProbeError>)
    ensures
        r == (if dimensions == EMBEDDING_DIMENSIONS {
            Ok::<(), ProbeError>(())
        } else {
            Err(ProbeError::Dimensions)
        }),
{
    if dimensions != EMBEDDING_DIMENSIONS {
        return Err(ProbeError::Dimensions);
    }
    Ok(())
}

/// What is captured for a clip of a fixture, and whether it is pinned then. Images are given in
/// standard base64.
pub open spec fn fixture_view(clip: FixtureClip) -> Option<(InputView, bool)> {
    match clip {
        FixtureClip::Text { text, html, pinned } => Some(
            (InputView::Text { text: text@, html: model::optional_text(html) }, pinned),
        ),
        FixtureClip::ImagePng { base64 } => match codec::base64_standard_decoded(base64@) {
            Some(bytes) => Some((InputView::ImagePng { bytes }, false)),
            None => None,
        },
        FixtureClip::Files { uris } => Some(
            (InputView::Files { uris: text::texts(uris@) }, false),
        ),
    }
}

/// What is captured for a clip of a fixture, and whether it is pinned then. Images are given in
/// standard base64.
pub fn fixture_input(clip: FixtureClip) -> (r: Result<(ClipInput, bool), ProbeError>)
    ensures
        match clip {
            FixtureClip::Text { text, html, pinned } => r == Ok::<(ClipInput, bool), ProbeError>(
                (ClipInput::Text { text, html }, pinned),
            ),
            FixtureClip::ImagePng { base64 } => match codec::base64_standard_decoded(base64@) {
                Some(data) => {
                    &&& r matches Ok((input, pinned))
                    &&& !pinned
                    &&& input matches ClipInput::ImagePng { bytes }
                    &&& bytes@ == data
                },
                None => r == Err::<(ClipInput, bool), ProbeError>(ProbeError::Image),
            },
            FixtureClip::Files { uris } => r == Ok::<(ClipInput, bool), ProbeError>(
                (ClipInput::Files { uris }, false),
            ),
        },
{
    match clip {
        FixtureClip::Text { text, html, pinned } => Ok((ClipInput::Text { text, html }, pinned)),
        FixtureClip::ImagePng { base64 } => match codec::decode_base64_standard(base64.as_str()) {
            Some(bytes) => Ok((ClipInput::ImagePng { bytes }, false)),
            None => Err(ProbeError::Image),
        },
        FixtureClip::Files { uris } => Ok((ClipInput::Files { uris }, false)),
    }
}

/// What the probe counts.
#[derive(Clone, Copy, Debug, PartialEq, Eq, Structural)]
pub struct ProbeCounts {
    pub stored_items: usize,
    pub pinned_items: usize,
    pub lexical_hits: usize,
    pub vector_hits: usize,
    pub embedding_rows: usize,
}

/// Checks that the counts are those that were expected.
pub fn check_counts(counts: &ProbeCounts, expected: &ProbeCounts) -> (r: Result<(), ProbeError>)
    ensures
        r == (if *counts == *expected {
            Ok::<(), ProbeError>(())
        } else {
            Err(ProbeError::Counts)
        }),
{
    if counts.stored_items != expected.stored_items || counts.pinned_items != expected.pinned_items
        || counts.lexical_hits != expected.lexical_hits || counts.vector_hits
        != expected.vector_hits || counts.embedding_rows != expected.embedding_rows {
        return Err(ProbeError::Counts);
    }
    Ok(())
}

/// How many clips are pinned.
pub open spec fn pinned_count(clips: Seq<StoredClip>) -> nat {
    clips.filter(|clip: StoredClip| clip.pinned).len()
}

/// How many clips are pinned.
pub fn count_pinned(clips: &[StoredClip]) -> (n: usize)
    ensures
        n == pinned_count(clips@),
{
    let mut n: usize = 0;
    let mut i: usize = 0;
    proof {
        reveal_with_fuel(Seq::filter, 2);
        assert(clips@.take(0) =~= Seq::empty());
    }
    while i < clips.len()
        invariant
            i <= clips@.len(),
            n <= i,
            n == pinned_count(clips@.take(i as int)),
        decreases clips@.len() - i,
    {
        proof {
            reveal_with_fuel(Seq::filter, 2);
            assert(clips@.take(i + 1).drop_last() =~= clips@.take(i as int));
        }
        if clips[i].pinned {
            n = n + 1;
        }
        i = i + 1;
    }
    assert(clips@.take(i as int) =~= clips@);
    n
}

// ---------------------------------------------------------------------------
// What the fixture puts into the history
// ---------------------------------------------------------------------------

/// The identifier for a new clip, and the moment of its capture.
#[derive(Clone, Copy, Debug, PartialEq, Eq, Structural)]
pub struct Draw {
    pub id: u128,
    pub now: UtcTime,
}

/// Whether a draw can come from the random number generator and the clock.
pub open spec fn is_drawn(draw: Draw) -> bool {
    &&& codec::is_random_uuid(draw.id)
    &&& codec::is_drawn_uuid(draw.id)
    &&& time::is_clock_reading(draw.now)
    &&& draw.now.seconds >= 0
    &&& draw.now.nanoseconds < 1_000_000_000
    &&& time::rfc3339(draw.now.seconds, draw.now.nanoseconds) is Some
}

/// The history after a clip of a fixture was captured, and pinned where the fixture says so.
pub open spec fn storing(view: HistoryView, clip: FixtureClip, draw: Draw) -> (
    HistoryView,
    Result<(), ProbeError>,
) {
    match fixture_view(clip) {
        None => (view, Err(ProbeError::Image)),
        Some((input, pinned)) => match view.inserting(input, draw.id, draw.now) {
            Err(error) => (view, Err(ProbeError::Store { error })),
            Ok((next, stored)) => if !pinned {
                (next, Ok(()))
            } else {
                match next.pinning(stored.id, true) {
                    Err(error) => (next, Err(ProbeError::Store { error })),
                    Ok(after) => (after, Ok(())),
                }
            },
        },
    }
}

/// The history after the clips of a fixture, one after the other, up to the first that fails.
pub open spec fn storing_all(view: HistoryView, clips: Seq<FixtureClip>, draws: Seq<Draw>) -> (
    HistoryView,
    Result<(), ProbeError>,
)
    decreases clips.len(),
{
    if clips.len() == 0 {
        (view, Ok(()))
    } else {
        let (before, r) = storing_all(view, clips.drop_last(), draws.drop_last());
        match r {
            Err(e) => (before, Err(e)),
            Ok(()) => storing(before, clips.last(), draws.last()),
        }
    }
}

/// The history after a fixture: its limit is set, and then its clips are captured.
pub open spec fn loading(
    view: HistoryView,
    limit: usize,
    clips: Seq<FixtureClip>,
    draws: Seq<Draw>,
) -> (HistoryView, Result<(), ProbeError>) {
    match view.limiting(limit) {
        Err(error) => (view, Err(ProbeError::Store { error })),
        Ok(limited) => storing_all(limited, clips, draws),
    }
}

/// Whether a history and a result are those after the clips of a fixture, under random identifiers
/// and at moments of the clock.
pub open spec fn is_drawn_run(
    view: HistoryView,
    clips: Seq<FixtureClip>,
    draws: Seq<Draw>,
    after: HistoryView,
    r: Result<(), ProbeError>,
) -> bool {
    &&& draws.len() == clips.len()
    &&& forall|i: int| 0 <= i < draws.len() ==> is_drawn(#[trigger] draws[i])
    &&& storing_all(view, clips, draws) == (after, r)
}

proof fn lemma_storing_stops(
    view: HistoryView,
    clips: Seq<FixtureClip>,
    draws: Seq<Draw>,
    m: int,
)
    requires
        0 <= m <= clips.len(),
        clips.len() == draws.len(),
        storing_all(view, clips.take(m), draws.take(m)).1 is Err,
    ensures
        storing_all(view, clips, draws) == storing_all(view, clips.take(m), draws.take(m)),
    decreases clips.len(),
{
    if m == clips.len() {
        assert(clips.take(m) =~= clips);
        assert(draws.take(m) =~= draws);
    } else {
        assert(clips.drop_last().take(m) =~= clips.take(m));
        assert(draws.drop_last().take(m) =~= draws.take(m));
        lemma_storing_stops(view, clips.drop_last(), draws.drop_last(), m);
    }
}

/// Captures a clip of a fixture, and pins it where the fixture says so.
pub fn store_fixture_clip(history: &mut HistoryStore, clip: FixtureClip, draw: Draw) -> (r: Result<
    (),
    ProbeError,
>)
    requires
        old(history).wf(),
    ensures
        final(history).wf(),
        (final(history)@, r) == storing(old(history)@, clip, draw),
{
    let (input, pinned) = match fixture_input(clip) {
        Ok(pair) => pair,
        Err(e) => {
            return Err(e);
        },
    };
    assert(fixture_view(clip) == Some((input@, pinned)));
    match history.insert_at(&input, draw.id, draw.now) {
        Err(error) => Err(ProbeError::Store { error }),
        Ok(stored) => {
            if !pinned {
                return Ok(());
            }
            match history.set_pinned(stored.id, true) {
                Err(error) => Err(ProbeError::Store { error }),
                Ok(()) => Ok(()),
            }
        },
    }
}

/// Puts a fixture into a history, with these identifiers and moments.
pub fn load_fixture_at(
    history: &mut HistoryStore,
    limit: usize,
    clips: Vec<FixtureClip>,
    draws: &[Draw],
) -> (r: Result<(), ProbeError>)
    requires
        old(history).wf(),
        draws@.len() == clips@.len(),
    ensures
        final(history).wf(),
        (final(history)@, r) == loading(old(history)@, limit, clips@, draws@),
{
    match history.set_history_limit(limit) {
        Ok(()) => {},
        Err(error) => {
            return Err(ProbeError::Store { error });
        },
    }
    let ghost limited = history@;
    let ghost all = clips@;
    let mut rest = clips;
    let mut i: usize = 0;
    while rest.len() > 0
        invariant
            history.wf(),
            all == clips@,
            i <= all.len(),
            draws@.len() == all.len(),
            rest@ == all.skip(i as int),
            old(history)@.limiting(limit) == Ok::<HistoryView, StoreError>(limited),
            storing_all(limited, all.take(i as int), draws@.take(i as int)) == (
                history@,
                Ok::<(), ProbeError>(()),
            ),
        decreases rest@.len(),
    {
        let clip = rest.remove(0);
        proof {
            assert(rest@ =~= all.skip(i + 1));
            assert(all.take(i + 1).drop_last() =~= all.take(i as int));
            assert(draws@.take(i + 1).drop_last() =~= draws@.take(i as int));
        }
        match store_fixture_clip(history, clip, draws[i]) {
            Ok(()) => {},
            Err(e) => {
                proof {
                    lemma_storing_stops(limited, all, draws@, i + 1);
                }
                return Err(e);
            },
        }
        i = i + 1;
    }
    assert(all.take(i as int) =~= all);
    assert(draws@.take(i as int) =~= draws@);
    Ok(())
}

/// Puts a fixture into a history, under random identifiers, each clip at the moment of its capture.
pub fn load_fixture(history: &mut HistoryStore, limit: usize, clips: Vec<FixtureClip>) -> (r:
    Result<(), ProbeError>)
    requires
        old(history).wf(),
    ensures
        final(history).wf(),
        match old(history)@.limiting(limit) {
            Err(error) => final(history)@ == old(history)@ && r == Err::<(), ProbeError>(
                ProbeError::Store { error },
            ),
            Ok(limited) => exists|draws: Seq<Draw>| #[trigger]
                is_drawn_run(limited, clips@, draws, final(history)@, r),
        },
{
    match history.set_history_limit(limit) {
        Ok(()) => {},
        Err(error) => {
            return Err(ProbeError::Store { error });
        },
    }
    let ghost limited = history@;
    let ghost all = clips@;
    let ghost mut drawn: Seq<Draw> = seq![];
    let mut rest = clips;
    let mut r: Result<(), ProbeError> = Ok(());
    while rest.len() > 0 && r.is_ok()
        invariant
            history.wf(),
            drawn.len() <= all.len(),
            r is Ok ==> rest@ == all.skip(drawn.len() as int),
            r is Err ==> drawn.len() > 0,
            forall|i: int| 0 <= i < drawn.len() ==> is_drawn(#[trigger] drawn[i]),
            storing_all(limited, all.take(drawn.len() as int), drawn) == (history@, r),
        decreases rest@.len(),
    {
        let clip = rest.remove(0);
        let next = draw();
        r = store_fixture_clip(history, clip, next);
        proof {
            let n = drawn.len() as int;
            assert(rest@ =~= all.skip(n + 1));
            assert(all.take(n + 1).drop_last() =~= all.take(n));
            assert(drawn.push(next).drop_last() =~= drawn);
            drawn = drawn.push(next);
        }
    }
    proof {
        let n = drawn.len() as int;
        let draws = drawn + Seq::new((all.len() - n) as nat, |i: int| drawn.last());
        assert(draws.take(n) =~= drawn);
        if r is Err {
            lemma_storing_stops(limited, all, draws, n);
        } else {
            assert(all.take(n) =~= all);
            assert(draws =~= drawn);
        }
        assert(is_drawn_run(limited, all, draws, history@, r));
    }
    r
}

/// A random identifier, and the current moment.
fn draw() -> (draw: Draw)
    ensures
        is_drawn(draw),
{
    Draw { id: codec::draw_uuid(), now: time::read_clock() }
}

// ---------------------------------------------------------------------------
// What comes out
// ---------------------------------------------------------------------------

/// What is counted of a history: its clips, the pinned ones of the whole list, what the searches
/// found, and the clips with a vector; or the first error on the way.
pub open spec fn counted(
    view: HistoryView,
    listed: Result<Vec<StoredClip>, StoreError>,
    found: Result<Vec<StoredClip>, StoreError>,
    near: Result<Vec<SearchHit>, StoreError>,
) -> Result<ProbeCounts, ProbeError> {
    match listed {
        Err(error) => Err(ProbeError::Store { error }),
        Ok(clips) => match found {
            Err(error) => Err(ProbeError::Store { error }),
            Ok(texts) => match near {
                Err(error) => Err(ProbeError::Store { error }),
                Ok(hits) => Ok(
                    ProbeCounts {
                        stored_items: view.rows.len() as usize,
                        pinned_items: pinned_count(clips@) as usize,
                        lexical_hits: texts@.len() as usize,
                        vector_hits: hits@.len() as usize,
                        embedding_rows: retention::count_where(
                            view.rows,
                            |row: RowView| row.embedded,
                        ) as usize,
                    },
                ),
            },
        },
    }
}

/// Counts what is in a history, and what two searches find in it.
pub fn count_history<
    F: FnOnce(&str) -> Result<Vec<SearchMatch>, StoreError>,
    G: FnOnce(&[i32]) -> Result<Vec<SearchMatch>, StoreError>,
>(
    history: &HistoryStore,
    lexical_query: &str,
    vector_query: &str,
    search_text: F,
    search_vectors: G,
) -> (r: Result<ProbeCounts, ProbeError>)
    requires
        history.wf(),
        forall|expression: &str|
            expression@ == store::search_expression(lexical_query@) ==> #[trigger] call_requires(
                search_text,
                (expression,),
            ),
        forall|buckets: &[i32]|
            embedding::numbers(buckets@) == embedding::tallied(
                embedding::token_digests(vector_query@),
            ) ==> #[trigger] call_requires(search_vectors, (buckets,)),
    ensures
        exists|
            listed: Result<Vec<StoredClip>, StoreError>,
            found: Result<Vec<StoredClip>, StoreError>,
            near: Result<Vec<SearchHit>, StoreError>,
        |
            {
                &&& r == #[trigger] counted(history@, listed, found, near)
                &&& history::is_list_answer(listed, history@, MAX_HISTORY_LIMIT)
                &&& listed is Ok ==> search::is_text_search(
                    search_text,
                    history@,
                    lexical_query@,
                    PROBE_RESULTS,
                    found,
                )
                &&& listed is Ok && found is Ok ==> search::is_vector_search(
                    search_vectors,
                    history@,
                    vector_query@,
                    PROBE_RESULTS,
                    near,
                )
            },
{
    let stored_items: usize = match history.count() {
        Ok(n) => n,
        Err(error) => {
            return Err(ProbeError::Store { error });
        },
    };
    let listed = history.list(MAX_HISTORY_LIMIT);
    let ghost given_list = listed;
    let ghost mut given_texts: Result<Vec<StoredClip>, StoreError> = listed;
    let ghost mut given_hits: Result<Vec<SearchHit>, StoreError> = arbitrary();
    let clips = match listed {
        Ok(clips) => clips,
        Err(error) => {
            assert(counted(history@, given_list, given_texts, given_hits) == Err::<
                ProbeCounts,
                ProbeError,
            >(ProbeError::Store { error }));
            return Err(ProbeError::Store { error });
        },
    };
    let found = history.text_search(lexical_query, PROBE_RESULTS, search_text);
    proof {
        given_texts = found;
    }
    let texts = match found {
        Ok(texts) => texts,
        Err(error) => {
            assert(counted(history@, given_list, given_texts, given_hits) == Err::<
                ProbeCounts,
                ProbeError,
            >(ProbeError::Store { error }));
            return Err(ProbeError::Store { error });
        },
    };
    let near = history.vector_search(vector_query, PROBE_RESULTS, search_vectors);
    proof {
        given_hits = near;
    }
    let hits = match near {
        Ok(hits) => hits,
        Err(error) => {
            assert(counted(history@, given_list, given_texts, given_hits) == Err::<
                ProbeCounts,
                ProbeError,
            >(ProbeError::Store { error }));
            return Err(ProbeError::Store { error });
        },
    };
    let embedding_rows: usize = match history.embedding_count() {
        Ok(n) => n,
        Err(error) => {
            return Err(ProbeError::Store { error });
        },
    };
    let counts = ProbeCounts {
        stored_items,
        pinned_items: count_pinned(clips.as_slice()),
        lexical_hits: texts.len(),
        vector_hits: hits.len(),
        embedding_rows,
    };
    assert(counted(history@, given_list, given_texts, given_hits) == Ok::<ProbeCounts, ProbeError>(
        counts,
    ));
    Ok(counts)
}

// ---------------------------------------------------------------------------
// What the probe does
// ---------------------------------------------------------------------------

/// Texts and files of a fixture are captured as they stand, and images as the bytes whose standard
/// base64 they are; where there are none, the image cannot be read. Only texts are pinned.
pub proof fn fixtures_are_captured_as_they_stand(clip: FixtureClip, data: Seq<u8>)
    ensures
        clip matches FixtureClip::Text { text, html, pinned } ==> fixture_view(clip) == Some(
            (InputView::Text { text: text@, html: model::optional_text(html) }, pinned),
        ),
        clip matches FixtureClip::Files { uris } ==> {
            &&& fixture_view(clip) matches Some((input, pinned))
            &&& !pinned
            &&& input matches InputView::Files { uris: list }
            &&& list.len() == uris@.len()
            &&& forall|i: int| 0 <= i < list.len() ==> #[trigger] list[i] == uris@[i]@
        },
        clip matches FixtureClip::ImagePng { base64 } ==> {
            &&& base64@ == codec::base64_standard(data) ==> fixture_view(clip) == Some(
                (InputView::ImagePng { bytes: data }, false),
            )
            &&& (forall|other: Seq<u8>| #[trigger] codec::base64_standard(other) != base64@)
                ==> fixture_view(clip) is None
        },
{
    if let FixtureClip::ImagePng { base64 } = clip {
        if base64@ == codec::base64_standard(data) {
            let other = choose|other: Seq<u8>| codec::base64_standard(other) == base64@;
            assert(codec::base64_standard(other) == base64@);
            codec::base64_standard_is_unambiguous(other, data);
        }
    }
}

/// A clip of a fixture is captured, and then pinned exactly where the fixture says so. What fails is
/// what is reported, and nothing that was done before is undone.
pub proof fn fixture_clips_are_captured_and_pinned(view: HistoryView, clip: FixtureClip, draw: Draw)
    ensures
        fixture_view(clip) is None ==> storing(view, clip, draw) == (
            view,
            Err::<(), ProbeError>(ProbeError::Image),
        ),
        fixture_view(clip) matches Some((input, pinned)) ==> {
            let captured = view.inserting_hashed(input, store::hash_of(input), draw.id, draw.now);
            &&& captured matches Err(error) ==> storing(view, clip, draw) == (
                view,
                Err::<(), ProbeError>(ProbeError::Store { error }),
            )
            &&& captured matches Ok((next, stored)) ==> {
                &&& !pinned ==> storing(view, clip, draw) == (next, Ok::<(), ProbeError>(()))
                &&& pinned ==> (next.pinning(stored.id, true) matches Ok(after) ==> storing(
                    view,
                    clip,
                    draw,
                ) == (after, Ok::<(), ProbeError>(())))
                &&& pinned ==> (next.pinning(stored.id, true) matches Err(error) ==> storing(
                    view,
                    clip,
                    draw,
                ) == (next, Err::<(), ProbeError>(ProbeError::Store { error })))
            }
        },
{
}

/// The clips of a fixture are stored one after the other, up to the first that fails: storing some
/// and then others is storing all of them.
pub proof fn fixtures_are_stored_one_after_the_other(
    view: HistoryView,
    a: Seq<FixtureClip>,
    b: Seq<FixtureClip>,
    p: Seq<Draw>,
    q: Seq<Draw>,
)
    requires
        a.len() == p.len(),
        b.len() == q.len(),
    ensures
        a.len() == 0 ==> storing_all(view, a, p) == (view, Ok::<(), ProbeError>(())),
        a.len() == 1 ==> storing_all(view, a, p) == storing(view, a[0], p[0]),
        ({
            let (middle, r) = storing_all(view, a, p);
            &&& r is Err ==> storing_all(view, a + b, p + q) == (middle, r)
            &&& r is Ok ==> storing_all(view, a + b, p + q) == storing_all(middle, b, q)
        }),
    decreases b.len(),
{
    if a.len() == 1 {
        assert(storing_all(view, a.drop_last(), p.drop_last()) == (view, Ok::<(), ProbeError>(())));
        assert(a.last() == a[0] && p.last() == p[0]);
    }
    if b.len() == 0 {
        assert(a + b =~= a);
        assert(p + q =~= p);
    } else {
        assert((a + b).drop_last() =~= a + b.drop_last());
        assert((p + q).drop_last() =~= p + q.drop_last());
        fixtures_are_stored_one_after_the_other(view, a, b.drop_last(), p, q.drop_last());
    }
}

/// A fixture sets its limit first; where that fails, nothing is stored.
pub proof fn fixtures_set_their_limit_first(
    view: HistoryView,
    limit: usize,
    clips: Seq<FixtureClip>,
    draws: Seq<Draw>,
)
    ensures
        view.limiting(limit) matches Ok(limited) ==> loading(view, limit, clips, draws) == storing_all(
            limited,
            clips,
            draws,
        ),
        view.limiting(limit) matches Err(error) ==> loading(view, limit, clips, draws) == (
            view,
            Err::<(), ProbeError>(ProbeError::Store { error }),
        ),
{
}

/// A run under random identifiers and at moments of the clock has one of each for every clip.
pub proof fn drawn_runs_store_every_clip(
    view: HistoryView,
    clips: Seq<FixtureClip>,
    draws: Seq<Draw>,
    after: HistoryView,
    r: Result<(), ProbeError>,
)
    requires
        is_drawn_run(view, clips, draws, after, r),
    ensures
        draws.len() == clips.len(),
        storing_all(view, clips, draws) == (after, r),
        forall|i: int|
            0 <= i < draws.len() ==> (#[trigger] draws[i]).now.seconds >= 0 && draws[i].now.nanoseconds
                < 1_000_000_000 && codec::is_random_uuid(draws[i].id) && codec::is_drawn_uuid(
                draws[i].id,
            ) && time::is_clock_reading(draws[i].now),
{
    assert forall|i: int| 0 <= i < draws.len() implies (#[trigger] draws[i]).now.seconds >= 0
        && draws[i].now.nanoseconds < 1_000_000_000 && codec::is_random_uuid(draws[i].id)
        && codec::is_drawn_uuid(draws[i].id) && time::is_clock_reading(draws[i].now) by {
        assert(is_drawn(draws[i]));
    }
}

/// What is counted: the clips of the history, those of the whole list that are pinned, the clips that
/// the searches gave, and the clips with a vector. The first failure is what is reported.
pub proof fn counts_say_what_was_found(
    view: HistoryView,
    listed: Result<Vec<StoredClip>, StoreError>,
    found: Result<Vec<StoredClip>, StoreError>,
    near: Result<Vec<SearchHit>, StoreError>,
)
    requires
        view.rows.len() <= usize::MAX,
    ensures
        listed matches Err(error) ==> counted(view, listed, found, near) == Err::<
            ProbeCounts,
            ProbeError,
        >(ProbeError::Store { error }),
        listed is Ok ==> (found matches Err(error) ==> counted(view, listed, found, near) == Err::<
            ProbeCounts,
            ProbeError,
        >(ProbeError::Store { error })),
        listed is Ok && found is Ok ==> (near matches Err(error) ==> counted(view, listed, found, near)
            == Err::<ProbeCounts, ProbeError>(ProbeError::Store { error })),
        listed is Ok && found is Ok && near is Ok ==> {
            &&& counted(view, listed, found, near) matches Ok(counts)
            &&& counts.stored_items == view.rows.len()
            &&& counts.pinned_items == listed->Ok_0@.filter(|clip: StoredClip| clip.pinned).len()
                as usize
            &&& counts.lexical_hits == found->Ok_0@.len() as usize
            &&& counts.vector_hits == near->Ok_0@.len() as usize
            &&& counts.embedding_rows == view.rows.filter(|row: RowView| row.embedded).len()
        },
        PROBE_RESULTS == 10,
        EMBEDDING_DIMENSIONS == 384,
{
    store::limit_laws::lemma_count_filters(view.rows, |row: RowView| row.embedded);
    retention::lemma_count_bounds(view.rows, |row: RowView| row.embedded);
}

/// Every failure of the probe has its sentence; one of the history has that of the history.
pub proof fn probe_errors_have_their_sentences(error: ProbeError)
    ensures
        error.message_text()@ == (match error {
            ProbeError::Dimensions => "fixture embedding dimensions do not match this client"@,
            ProbeError::Image => "decode fixture PNG"@,
            ProbeError::Counts => "fixture expectations do not match this client"@,
            ProbeError::Store { error } => error.message_text()@,
        }),
{
}

} // verus!
