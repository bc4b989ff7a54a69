//! What the history window shows.

use crate::model::StoredClip;
use crate::text;
use vstd::prelude::*;

verus! {

/// The number of clips that the window shows.
pub const WINDOW_CLIPS: usize = 100;

/// The line under the heading.
pub open spec fn summary_line(clips: nat, limit: nat) -> Seq<char> {
    text::decimal(clips) + " saved \u{2022} unpinned limit "@ + text::decimal(limit)
        + " \u{2022} local SQLite FTS + vectors"@
}

/// The line under the heading.
pub fn summary(clips: usize, limit: usize) -> (s: String)
    ensures
        s@ == summary_line(clips as nat, limit as nat),
{
    let mut s = text::decimal_text(clips as u64);
    s.append(" saved \u{2022} unpinned limit ");
    let digits = text::decimal_text(limit as u64);
    s.append(digits.as_str());
    s.append(" \u{2022} local SQLite FTS + vectors");
    assert(s@ =~= summary_line(clips as nat, limit as nat));
    s
}

/// The line for a clip: its kind and its title.
pub open spec fn clip_line(clip: StoredClip) -> Seq<char> {
    clip.kind.name()@ + "  \u{b7}  "@ + clip.title@
}

/// The line for a clip: its kind and its title.
pub fn clip_label(clip: &StoredClip) -> (s: String)
    ensures
        s@ == clip_line(*clip),
{
    let mut s = clip.kind.as_str().to_owned();
    s.append("  \u{b7}  ");
    s.append(clip.title.as_str());
    s
}

/// The lines for clips.
pub fn clip_labels(clips: &[StoredClip]) -> (lines: Vec<String>)
    ensures
        text::texts(lines@) == clips@.map_values(|clip: StoredClip| clip_line(clip)),
{
    let mut lines: Vec<String> = Vec::new();
    let mut i: usize = 0;
    while i < clips.len()
        invariant
            i <= clips@.len(),
            lines@.len() == i,
            forall|j: int| 0 <= j < i ==> (#[trigger] lines@[j])@ == clip_line(clips@[j]),
        decreases clips@.len() - i,
    {
        lines.push(clip_label(&clips[i]));
        i = i + 1;
    }
    assert(text::texts(lines@) =~= clips@.map_values(|clip: StoredClip| clip_line(clip)));
    lines
}

/// The line under the heading says how many clips there are and how many unpinned ones are kept.
pub proof fn summaries_say_the_counts(clips: nat, limit: nat)
    ensures
        summary_line(clips, limit) == text::decimal(clips) + " saved \u{2022} unpinned limit "@
            + text::decimal(limit) + " \u{2022} local SQLite FTS + vectors"@,
        WINDOW_CLIPS == 100,
{
}

/// The line for a clip begins with its kind and ends with its whole title.
pub proof fn lines_show_kind_and_title(clip: StoredClip)
    ensures
        ({
            let line = clip_line(clip);
            let kind = clip.kind.name()@;
            &&& line.len() == kind.len() + 5 + clip.title@.len()
            &&& line.subrange(0, kind.len() as int) == kind
            &&& line.subrange(line.len() - clip.title@.len(), line.len() as int) == clip.title@
        }),
{
    reveal_strlit("  \u{b7}  ");
    let line = clip_line(clip);
    let kind = clip.kind.name()@;
    assert(line.subrange(0, kind.len() as int) =~= kind);
    assert(line.subrange(line.len() - clip.title@.len(), line.len() as int) =~= clip.title@);
}

} // verus!
