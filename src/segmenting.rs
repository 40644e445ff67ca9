//! The model of the paragraph segmenter: where each paragraph of a text ends,
//! and what it carries.
use vstd::prelude::*;

use crate::paragraph_start::{pattern_matches, ParagraphStarts};
use crate::paragraphs::{Hanging, ParagraphConfig};

verus! {

/// The number of spaces that start `s`.
pub open spec fn leading_spaces(s: Seq<char>) -> nat
    decreases s.len(),
{
    if s.len() > 0 && s[0] == ' ' {
        1 + leading_spaces(s.drop_first())
    } else {
        0
    }
}

/// The indentation of the first line of `s`: its leading spaces, or 0 when
/// nothing but spaces stands on it.
pub open spec fn indentation_of(s: Seq<char>) -> nat {
    let k = leading_spaces(s);
    if k < s.len() && s[k as int] != '\n' {
        k
    } else {
        0
    }
}

pub proof fn lemma_leading_spaces_exact(s: Seq<char>, j: int)
    requires
        0 <= j <= s.len(),
        forall|k: int| 0 <= k < j ==> #[trigger] s[k] == ' ',
        j == s.len() || s[j] != ' ',
    ensures
        leading_spaces(s) == j,
    decreases j,
{
    if j > 0 {
        let u = s.drop_first();
        assert forall|k: int| 0 <= k < j - 1 implies #[trigger] u[k] == ' ' by {
            assert(u[k] == s[k + 1]);
        }
        if j < s.len() {
            assert(u[j - 1] == s[j]);
        }
        lemma_leading_spaces_exact(u, j - 1);
    }
}

/// Where the line after the one that holds position `q` of `t` starts (the
/// end of `t` if there is none).
pub open spec fn line_after(t: Seq<char>, q: int) -> nat
    decreases t.len() - q,
{
    if q >= t.len() {
        t.len()
    } else if t[q] == '\n' {
        (q + 1) as nat
    } else {
        line_after(t, q + 1)
    }
}

/// The first position at or after `q` that does not hold a line break.
pub open spec fn skip_line_breaks(t: Seq<char>, q: int) -> nat
    decreases t.len() - q,
{
    if q >= t.len() {
        t.len()
    } else if t[q] != '\n' {
        q as nat
    } else {
        skip_line_breaks(t, q + 1)
    }
}

/// What the segmenter carries from one paragraph to the next.
pub struct SegState {
    /// Where the rest of the text starts.
    pub pos: nat,
    /// The last paragraph started with a single-line match.
    pub next_is_single: bool,
    /// The last paragraph started with an ignore-line match.
    pub next_is_ignore: bool,
}

/// Where a scan for the end of a paragraph stopped.
pub struct ScanEnd {
    pub end: nat,
    pub ignore: bool,
    pub hanging: Option<nat>,
    pub next_is_single: bool,
    pub next_is_ignore: bool,
}

/// How the indentation `h` of line number `line` (0 for the first) of a
/// paragraph indented by `indentation`, with hanging indentation `hang` so far,
/// is taken: whether it ends the paragraph, and the hanging indentation after
/// it.
pub open spec fn indentation_check(mode: Hanging, indentation: nat, line: nat, h: nat, hang: Option<nat>) -> (bool, Option<nat>) {
    match mode {
        Hanging::Disallow => (h != indentation, hang),
        Hanging::Flatten => (false, hang),
        Hanging::Hang => if line == 1 && h > indentation {
            (false, Some(h))
        } else {
            let expected = match hang {
                Some(x) => x,
                None => indentation,
            };
            (h != expected, hang)
        },
    }
}

/// What a line that is not blank, and whose indentation fits the paragraph,
/// decides: whether the paragraph ends before it (and is then kept as it
/// stands, if `ignore`), and what is pending for the paragraphs after.
#[derive(Copy, Clone, Debug, PartialEq, Eq, Structural)]
pub struct LineOutcome {
    pub ends: bool,
    pub ignore: bool,
    pub next_is_single: bool,
    pub next_is_ignore: bool,
}

/// The outcome of a line, `first` if it is the paragraph's first, given what
/// was pending (`single`, `ignore`) and whether it matches the ignore-line,
/// single-line and multi-line patterns. In order: a pending ignore ends the
/// paragraph, which is kept as it stands; an ignore-line match ends it and is
/// pending; a pending single-line match ends it; a single-line match is
/// pending and ends it; a multi-line match ends it. The first line never ends
/// the paragraph.
pub open spec fn line_outcome(
    first: bool,
    single: bool,
    ignore: bool,
    ignore_match: bool,
    single_match: bool,
    multi_match: bool,
) -> LineOutcome {
    if ignore && !first {
        LineOutcome { ends: true, ignore: true, next_is_single: single, next_is_ignore: false }
    } else if ignore_match && !first {
        LineOutcome { ends: true, ignore: false, next_is_single: single, next_is_ignore: true }
    } else if single && !first {
        LineOutcome {
            ends: true,
            ignore: false,
            next_is_single: false,
            next_is_ignore: ignore || ignore_match,
        }
    } else {
        LineOutcome {
            ends: (single_match || multi_match) && !first,
            ignore: false,
            next_is_single: single || single_match,
            next_is_ignore: ignore || ignore_match,
        }
    }
}

/// Decides what a line does to the paragraph; see `line_outcome`.
pub fn decide_line(
    first: bool,
    single: bool,
    ignore: bool,
    ignore_match: bool,
    single_match: bool,
    multi_match: bool,
) -> (r: LineOutcome)
    ensures
        r == line_outcome(first, single, ignore, ignore_match, single_match, multi_match),
{
    if ignore && !first {
        LineOutcome { ends: true, ignore: true, next_is_single: single, next_is_ignore: false }
    } else if ignore_match && !first {
        LineOutcome { ends: true, ignore: false, next_is_single: single, next_is_ignore: true }
    } else if single && !first {
        LineOutcome {
            ends: true,
            ignore: false,
            next_is_single: false,
            next_is_ignore: ignore || ignore_match,
        }
    } else {
        LineOutcome {
            ends: (single_match || multi_match) && !first,
            ignore: false,
            next_is_single: single || single_match,
            next_is_ignore: ignore || ignore_match,
        }
    }
}

/// Scans the paragraph of `t` that starts at `pos`, indented by
/// `indentation`, from the start `q` of its line number `line`. The line at
/// `q` ends the paragraph when the text ends there or it is blank; when its
/// indentation is not the paragraph's; when the last paragraph started with an
/// ignore-line match (this one is then kept as it stands); when it matches the
/// ignore-line pattern or the single-line pattern, or follows a single-line
/// match; or when it matches the multi-line pattern (see `line_outcome`). The
/// first line never ends it. (The guard on `line_after` always holds, by
/// `lemma_line_after`.)
pub open spec fn scan(
    t: Seq<char>,
    starts: ParagraphStarts,
    mode: Hanging,
    pos: nat,
    indentation: nat,
    q: nat,
    line: nat,
    hang: Option<nat>,
    single: bool,
    ignore: bool,
) -> ScanEnd
    decreases t.len() - q,
{
    let first = q == pos;
    let stop = ScanEnd {
        end: q,
        ignore: false,
        hanging: hang,
        next_is_single: single,
        next_is_ignore: ignore,
    };
    if q >= t.len() || t[q as int] == '\n' {
        stop
    } else {
        let following = t.subrange(q as int, t.len() as int);
        let (misplaced, hang2) = indentation_check(
            mode,
            indentation,
            line,
            indentation_of(following),
            hang,
        );
        let o = line_outcome(
            first,
            single,
            ignore,
            pattern_matches(starts.ignore_line, following),
            pattern_matches(starts.single_line, following),
            pattern_matches(starts.multi_line, following),
        );
        if misplaced {
            stop
        } else if o.ends {
            ScanEnd {
                ignore: o.ignore,
                next_is_single: o.next_is_single,
                next_is_ignore: o.next_is_ignore,
                ..stop
            }
        } else if q < line_after(t, q as int) <= t.len() {
            scan(
                t,
                starts,
                mode,
                pos,
                indentation,
                line_after(t, q as int),
                line + 1,
                hang2,
                o.next_is_single,
                o.next_is_ignore,
            )
        } else {
            stop
        }
    }
}

/// The next paragraph of `t` from the state `st`, with the state after it: a
/// run of line breaks gives one empty paragraph; otherwise the paragraph runs
/// to where `scan` stops.
pub open spec fn next_paragraph(t: Seq<char>, starts: ParagraphStarts, mode: Hanging, st: SegState) -> Option<
    (ParagraphConfig, Seq<char>, SegState),
> {
    if st.pos >= t.len() {
        None
    } else if t[st.pos as int] == '\n' {
        Some(
            (
                ParagraphConfig { ignore: false, indentation: 0, hanging_indentation: None },
                seq![],
                SegState { pos: skip_line_breaks(t, st.pos as int), ..st },
            ),
        )
    } else {
        let indentation = indentation_of(t.subrange(st.pos as int, t.len() as int));
        let e = scan(
            t,
            starts,
            mode,
            st.pos,
            indentation,
            st.pos,
            0,
            None,
            st.next_is_single,
            st.next_is_ignore,
        );
        Some(
            (
                ParagraphConfig {
                    ignore: e.ignore,
                    indentation: indentation as usize,
                    hanging_indentation: match e.hanging {
                        Some(h) => Some(h as usize),
                        None => None,
                    },
                },
                t.subrange(st.pos as int, e.end as int),
                SegState { pos: e.end, next_is_single: e.next_is_single, next_is_ignore: e.next_is_ignore },
            ),
        )
    }
}

/// The paragraphs of `t` from the state `st` on, each as its configuration
/// and its text. (The guard always holds, by `lemma_next_paragraph_progress`.)
pub open spec fn paragraphs_from(t: Seq<char>, starts: ParagraphStarts, mode: Hanging, st: SegState) -> Seq<
    (ParagraphConfig, Seq<char>),
>
    decreases t.len() - st.pos,
{
    match next_paragraph(t, starts, mode, st) {
        None => seq![],
        Some((config, words, st2)) => if st.pos < st2.pos <= t.len() {
            seq![(config, words)] + paragraphs_from(t, starts, mode, st2)
        } else {
            seq![(config, words)]
        },
    }
}

/// The segmenter at the start of a text.
pub open spec fn seg_start() -> SegState {
    SegState { pos: 0, next_is_single: false, next_is_ignore: false }
}

/// The paragraphs of `t`.
pub open spec fn paragraphs(t: Seq<char>, starts: ParagraphStarts, mode: Hanging) -> Seq<
    (ParagraphConfig, Seq<char>),
> {
    paragraphs_from(t, starts, mode, seg_start())
}

pub proof fn lemma_line_after(t: Seq<char>, q: int)
    requires
        0 <= q < t.len(),
    ensures
        q < line_after(t, q) <= t.len(),
        line_after(t, q) == t.len() || t[line_after(t, q) - 1] == '\n',
    decreases t.len() - q,
{
    if t[q] != '\n' {
        if q + 1 < t.len() {
            lemma_line_after(t, q + 1);
        } else {
            assert(line_after(t, q + 1) == t.len());
        }
    }
}

pub proof fn lemma_skip_line_breaks(t: Seq<char>, q: int)
    requires
        0 <= q <= t.len(),
    ensures
        q <= skip_line_breaks(t, q) <= t.len(),
        forall|i: int| q <= i < skip_line_breaks(t, q) ==> t[i] == '\n',
    decreases t.len() - q,
{
    if q < t.len() && t[q] == '\n' {
        lemma_skip_line_breaks(t, q + 1);
    }
}

/// A scan never stops before the line it starts at.
pub proof fn lemma_scan_end(
    t: Seq<char>,
    starts: ParagraphStarts,
    mode: Hanging,
    pos: nat,
    indentation: nat,
    q: nat,
    line: nat,
    hang: Option<nat>,
    single: bool,
    ignore: bool,
)
    requires
        pos <= q <= t.len(),
        q == pos || q == t.len() || t[q - 1] == '\n',
    ensures
        ({
            let e = scan(t, starts, mode, pos, indentation, q, line, hang, single, ignore);
            &&& q <= e.end <= t.len()
            &&& e.end == pos || e.end == t.len() || t[e.end - 1] == '\n'
            &&& e.ignore ==> pos < e.end < t.len() && t[e.end - 1] == '\n'
        }),
    decreases t.len() - q,
{
    if q < t.len() && t[q as int] != '\n' {
        let following = t.subrange(q as int, t.len() as int);
        let (misplaced, hang2) = indentation_check(
            mode,
            indentation,
            line,
            indentation_of(following),
            hang,
        );
        let o = line_outcome(
            q == pos,
            single,
            ignore,
            pattern_matches(starts.ignore_line, following),
            pattern_matches(starts.single_line, following),
            pattern_matches(starts.multi_line, following),
        );
        let q2 = line_after(t, q as int);
        lemma_line_after(t, q as int);
        lemma_scan_end(
            t,
            starts,
            mode,
            pos,
            indentation,
            q2,
            line + 1,
            hang2,
            o.next_is_single,
            o.next_is_ignore,
        );
    }
}

/// A paragraph is either an empty one standing for a run of line breaks, or
/// the text up to where the next one starts, which is at a line start.
pub proof fn lemma_next_paragraph_shape(t: Seq<char>, starts: ParagraphStarts, mode: Hanging, st: SegState)
    requires
        st.pos < t.len(),
    ensures
        next_paragraph(t, starts, mode, st) matches Some((c, w, st2)) && st.pos < st2.pos <= t.len()
            && if t[st.pos as int] == '\n' {
            &&& w.len() == 0
            &&& !c.ignore
            &&& forall|i: int| st.pos <= i < st2.pos ==> t[i] == '\n'
        } else {
            &&& w == t.subrange(st.pos as int, st2.pos as int)
            &&& st2.pos == t.len() || t[st2.pos - 1] == '\n'
            &&& c.ignore ==> t[st2.pos - 1] == '\n'
        },
{
    lemma_next_paragraph_progress(t, starts, mode, st);
    if t[st.pos as int] == '\n' {
        lemma_skip_line_breaks(t, st.pos as int);
    } else {
        let q = st.pos;
        let following = t.subrange(q as int, t.len() as int);
        let indentation = indentation_of(following);
        lemma_scan_end(t, starts, mode, q, indentation, q, 0, None, st.next_is_single, st.next_is_ignore);
    }
}

proof fn lemma_scan_no_hang(
    t: Seq<char>,
    starts: ParagraphStarts,
    mode: Hanging,
    pos: nat,
    indentation: nat,
    q: nat,
    line: nat,
    single: bool,
    ignore: bool,
)
    requires
        mode != Hanging::Hang,
    ensures
        scan(t, starts, mode, pos, indentation, q, line, None, single, ignore).hanging is None,
    decreases t.len() - q,
{
    if q < t.len() && t[q as int] != '\n' {
        let following = t.subrange(q as int, t.len() as int);
        let o = line_outcome(
            q == pos,
            single,
            ignore,
            pattern_matches(starts.ignore_line, following),
            pattern_matches(starts.single_line, following),
            pattern_matches(starts.multi_line, following),
        );
        let q2 = line_after(t, q as int);
        if q < q2 <= t.len() {
            lemma_scan_no_hang(t, starts, mode, pos, indentation, q2, line + 1, o.next_is_single, o.next_is_ignore);
        }
    }
}

proof fn lemma_scan_plain(
    t: Seq<char>,
    starts: ParagraphStarts,
    mode: Hanging,
    pos: nat,
    indentation: nat,
    q: nat,
    line: nat,
    single: bool,
)
    requires
        mode != Hanging::Hang,
        starts.ignore_line is None,
    ensures
        ({
            let e = scan(t, starts, mode, pos, indentation, q, line, None, single, false);
            !e.ignore && !e.next_is_ignore && e.hanging is None
        }),
    decreases t.len() - q,
{
    if q < t.len() && t[q as int] != '\n' {
        let following = t.subrange(q as int, t.len() as int);
        let o = line_outcome(
            q == pos,
            single,
            false,
            pattern_matches(starts.ignore_line, following),
            pattern_matches(starts.single_line, following),
            pattern_matches(starts.multi_line, following),
        );
        let q2 = line_after(t, q as int);
        if q < q2 <= t.len() {
            lemma_scan_plain(t, starts, mode, pos, indentation, q2, line + 1, o.next_is_single);
        }
    }
}

/// Without an ignore-line pattern and outside `Hanging::Hang`, a paragraph is
/// neither kept as it stands nor hanging, and leaves no ignore pending.
pub proof fn lemma_next_paragraph_plain(t: Seq<char>, starts: ParagraphStarts, mode: Hanging, st: SegState)
    requires
        st.pos < t.len(),
        mode != Hanging::Hang,
        starts.ignore_line is None,
        !st.next_is_ignore,
    ensures
        next_paragraph(t, starts, mode, st) matches Some((c, w, st2)) && !c.ignore
            && c.hanging_indentation is None && !st2.next_is_ignore,
{
    if t[st.pos as int] != '\n' {
        let indentation = indentation_of(t.subrange(st.pos as int, t.len() as int));
        lemma_scan_plain(t, starts, mode, st.pos, indentation, st.pos, 0, st.next_is_single);
    }
}

/// Outside `Hanging::Hang`, no paragraph has a hanging indentation, and each
/// is a part of the text.
pub proof fn lemma_paragraphs_no_hang(t: Seq<char>, starts: ParagraphStarts, mode: Hanging, st: SegState)
    requires
        st.pos <= t.len(),
    ensures
        forall|i: int|
            0 <= i < paragraphs_from(t, starts, mode, st).len() ==> (#[trigger] paragraphs_from(
                t,
                starts,
                mode,
                st,
            )[i]).1.len() <= t.len() && (mode != Hanging::Hang ==> paragraphs_from(
                t,
                starts,
                mode,
                st,
            )[i].0.hanging_indentation is None),
    decreases t.len() - st.pos,
{
    let ps = paragraphs_from(t, starts, mode, st);
    lemma_next_paragraph_progress(t, starts, mode, st);
    if st.pos < t.len() {
        let (c, w, st2) = next_paragraph(t, starts, mode, st)->0;
        if mode != Hanging::Hang && t[st.pos as int] != '\n' {
            let indentation = indentation_of(t.subrange(st.pos as int, t.len() as int));
            lemma_scan_no_hang(
                t,
                starts,
                mode,
                st.pos,
                indentation,
                st.pos,
                0,
                st.next_is_single,
                st.next_is_ignore,
            );
        }
        lemma_paragraphs_no_hang(t, starts, mode, st2);
        assert forall|i: int| 0 <= i < ps.len() implies (#[trigger] ps[i]).1.len() <= t.len() && (mode
            != Hanging::Hang ==> ps[i].0.hanging_indentation is None) by {
            if i > 0 {
                assert(ps[i] == paragraphs_from(t, starts, mode, st2)[i - 1]);
            }
        }
    }
}

/// Each paragraph moves the segmenter forward.
pub proof fn lemma_next_paragraph_progress(t: Seq<char>, starts: ParagraphStarts, mode: Hanging, st: SegState)
    requires
        st.pos <= t.len(),
    ensures
        next_paragraph(t, starts, mode, st) matches Some((c, w, st2)) ==> st.pos < st2.pos <= t.len()
            && w.len() <= t.len(),
{
    if st.pos < t.len() {
        if t[st.pos as int] == '\n' {
            lemma_skip_line_breaks(t, st.pos + 1int);
        } else {
            let q = st.pos;
            let following = t.subrange(q as int, t.len() as int);
            let indentation = indentation_of(following);
            let o = line_outcome(
                true,
                st.next_is_single,
                st.next_is_ignore,
                pattern_matches(starts.ignore_line, following),
                pattern_matches(starts.single_line, following),
                pattern_matches(starts.multi_line, following),
            );
            let (misplaced, hang2) = indentation_check(mode, indentation, 0, indentation, None);
            lemma_line_after(t, q as int);
            let q2 = line_after(t, q as int);
            lemma_scan_end(t, starts, mode, q, indentation, q2, 1, hang2, o.next_is_single, o.next_is_ignore);
        }
    }
}

} // verus!
