//! The model of the line filler: how one paragraph's words are spread over
//! lines, and what holds of the result.
use vstd::prelude::*;

use crate::split_points::{SplitPoint, SplitPoints};
use crate::text::{
    all_words, ascii_whitespace, blank, concat, is_word, lemma_concat_append, lemma_concat_two, lemma_word_len_bound,
    lemma_text_lines_append, lemma_text_lines_one, lemma_words_append, lemma_words_are_words,
    lemma_words_blank, lemma_words_of_word, lemma_words_word, text_lines, word_len, words,
};

verus! {

/// One output line: its indentation and its words.
pub struct Line {
    pub indentation: nat,
    pub words: Seq<Seq<char>>,
}

/// The state of the line filler between two steps.
pub struct Filler {
    /// The lines emitted so far.
    pub lines: Seq<Line>,
    /// The words read but not yet emitted.
    pub pending: Seq<Seq<char>>,
    /// How many words have been read.
    pub next: nat,
    /// The width of the pending words.
    pub n_char: nat,
    /// The width of the last word read.
    pub split_len: nat,
    pub split_points: SplitPoints,
    /// The indentation of the next line.
    pub indentation: nat,
    /// The indentation that the lines after the next one take, if it differs.
    pub hanging: Option<nat>,
}

/// The width a word takes on a line, with the space after it.
pub open spec fn word_width(w: Seq<char>) -> nat {
    w.len() + 1
}

/// The width the words `ws` take, each with the space after it.
pub open spec fn total_width(ws: Seq<Seq<char>>) -> nat
    decreases ws.len(),
{
    if ws.len() == 0 {
        0
    } else {
        total_width(ws.drop_last()) + word_width(ws.last())
    }
}

/// The room on a line of `line_width` columns for words with their trailing
/// spaces, after `indentation` columns (the last word needs no space).
pub open spec fn usable_width(line_width: nat, indentation: nat) -> nat {
    if indentation <= line_width + 1 {
        (line_width + 1 - indentation) as nat
    } else {
        0
    }
}

/// Whether `n` columns of words, trailing spaces included, fit on a line:
/// they do not exceed the usable width.
pub open spec fn fits(n: nat, line_width: nat, indentation: nat) -> bool {
    n <= usable_width(line_width, indentation)
}

/// Whether a word of width `n` is at least as wide as the usable width.
pub open spec fn too_wide(n: nat, line_width: nat, indentation: nat) -> bool {
    n >= usable_width(line_width, indentation)
}

/// The filler before the first word.
pub open spec fn start(indentation: nat, hanging: Option<nat>) -> Filler {
    Filler {
        lines: seq![],
        pending: seq![],
        next: 0,
        n_char: 0,
        split_len: 0,
        split_points: SplitPoints::empty(),
        indentation,
        hanging,
    }
}

/// Whether every word has been read and emitted.
pub open spec fn finished(words: Seq<Seq<char>>, f: Filler) -> bool {
    f.next >= words.len() && f.pending.len() == 0
}

/// Emits the first `k` pending words (at most all of them) as a line; the
/// lines after it take the hanging indentation, if any.
pub open spec fn emit(f: Filler, k: nat) -> Filler {
    let k = if k <= f.pending.len() {
        k
    } else {
        f.pending.len()
    };
    Filler {
        lines: f.lines.push(Line { indentation: f.indentation, words: f.pending.take(k as int) }),
        pending: f.pending.skip(k as int),
        indentation: match f.hanging {
            Some(h) => h,
            None => f.indentation,
        },
        hanging: None,
        ..f
    }
}

/// One step of the filler. While the pending words fit (or there is at most
/// one), the next word is read, and the word before it becomes a candidate
/// break. Otherwise a line is emitted up to the best candidate break, or, if
/// there is none or the last word alone is as wide as a line, up to the last
/// word.
pub open spec fn step(words: Seq<Seq<char>>, line_width: nat, f: Filler) -> Filler {
    if fits(f.n_char, line_width, f.indentation) || f.pending.len() <= 1 {
        if f.next < words.len() {
            let w = words[f.next as int];
            let split_points = if f.pending.len() > 0 {
                f.split_points.registered(f.pending.last(), f.split_len, f.pending.len())
            } else {
                f.split_points
            };
            Filler {
                pending: f.pending.push(w),
                next: f.next + 1,
                n_char: f.n_char + word_width(w),
                split_len: word_width(w),
                split_points,
                ..f
            }
        } else {
            emit(Filler { n_char: 0, ..f }, f.pending.len())
        }
    } else if too_wide(f.split_len, line_width, f.indentation) || f.split_points.best() is None {
        emit(
            Filler { split_points: SplitPoints::empty(), n_char: f.split_len, ..f },
            (f.pending.len() - 1) as nat,
        )
    } else {
        let chosen = f.split_points.best()->0;
        emit(
            Filler {
                split_points: f.split_points.after_taking(chosen),
                n_char: (chosen.n_char_after + f.split_len) as nat,
                ..f
            },
            chosen.index as nat,
        )
    }
}

/// What is left to do: two units per unread word, one per pending word.
pub open spec fn remaining(words: Seq<Seq<char>>, f: Filler) -> int {
    2 * (words.len() - f.next) + f.pending.len()
}

/// The lines of the filler once it has finished, from state `f`.
pub open spec fn fill_from(words: Seq<Seq<char>>, line_width: nat, f: Filler) -> Seq<Line>
    decreases remaining(words, f),
    when f.next <= words.len()
{
    if finished(words, f) {
        f.lines
    } else {
        fill_from(words, line_width, step(words, line_width, f))
    }
}

/// The lines that the words `words` fill, at `line_width` columns, starting at
/// `indentation`, with the lines after the first at `hanging` if given.
pub open spec fn fill(
    words: Seq<Seq<char>>,
    line_width: nat,
    indentation: nat,
    hanging: Option<nat>,
) -> Seq<Line> {
    fill_from(words, line_width, start(indentation, hanging))
}

/// `n` spaces.
pub open spec fn spaces(n: nat) -> Seq<char> {
    Seq::new(n, |i: int| ' ')
}

/// The most spaces that one padding fragment holds.
pub const PAD_CHUNK: usize = 64;

/// The fragments that indent a line by `n` spaces.
pub open spec fn padding(n: nat) -> Seq<Seq<char>>
    decreases n,
{
    if n <= PAD_CHUNK {
        seq![spaces(n)]
    } else {
        seq![spaces(PAD_CHUNK as nat)] + padding((n - PAD_CHUNK) as nat)
    }
}

/// The words `ws` as fragments, each followed by a space but the last, which
/// is followed by a line break.
pub open spec fn render_words(ws: Seq<Seq<char>>) -> Seq<Seq<char>> {
    Seq::new(
        2 * ws.len(),
        |j: int|
            if j % 2 == 0 {
                ws[j / 2]
            } else if j == 2 * ws.len() - 1 {
                "\n"@
            } else {
                " "@
            },
    )
}

/// The fragments of one line.
pub open spec fn render_line(l: Line) -> Seq<Seq<char>> {
    padding(l.indentation) + render_words(l.words)
}

/// The fragments of the lines `lines`.
pub open spec fn render(lines: Seq<Line>) -> Seq<Seq<char>>
    decreases lines.len(),
{
    if lines.len() == 0 {
        seq![]
    } else {
        render(lines.drop_last()) + render_line(lines.last())
    }
}

/// The words of the lines `lines`, in order.
pub open spec fn flat(lines: Seq<Line>) -> Seq<Seq<char>>
    decreases lines.len(),
{
    if lines.len() == 0 {
        seq![]
    } else {
        flat(lines.drop_last()) + lines.last().words
    }
}

/// No candidate is set.
pub open spec fn unset_all(sp: SplitPoints) -> bool {
    sp.end.index == 0 && sp.sub_end.index == 0 && sp.sub_start.index == 0
        && sp.connection_word.index == 0
}

/// A set candidate lies between two pending words, all of which but the
/// last have been registered, and counts the width of those after it.
pub open spec fn candidate_ok(p: SplitPoint, pending: Seq<Seq<char>>) -> bool {
    p.index > 0 ==> p.index < pending.len() && p.n_char_after == total_width(
        pending.subrange(p.index as int, pending.len() - 1),
    )
}

pub open spec fn candidates_ok(sp: SplitPoints, pending: Seq<Seq<char>>) -> bool {
    &&& candidate_ok(sp.end, pending)
    &&& candidate_ok(sp.sub_end, pending)
    &&& candidate_ok(sp.sub_start, pending)
    &&& candidate_ok(sp.connection_word, pending)
}

pub open spec fn candidates_bounded(sp: SplitPoints, b: nat) -> bool {
    &&& sp.end.n_char_after <= b
    &&& sp.sub_end.n_char_after <= b
    &&& sp.sub_start.n_char_after <= b
    &&& sp.connection_word.n_char_after <= b
}

/// The width of the words registered as candidates so far: all read words but
/// the last pending one.
pub open spec fn registered_width(words: Seq<Seq<char>>, f: Filler) -> nat {
    if f.pending.len() > 0 {
        total_width(words.take(f.next - 1))
    } else {
        total_width(words.take(f.next as int))
    }
}

/// What holds of the filler at every step.
pub open spec fn filler_inv(words: Seq<Seq<char>>, f: Filler) -> bool {
    &&& f.next <= words.len()
    &&& flat(f.lines) + f.pending == words.take(f.next as int)
    &&& forall|i: int| 0 <= i < f.lines.len() ==> (#[trigger] f.lines[i]).words.len() > 0
    &&& f.n_char == total_width(f.pending)
    &&& f.pending.len() > 0 ==> f.split_len == word_width(f.pending.last())
    &&& f.pending.len() > 0 ==> candidates_ok(f.split_points, f.pending)
    &&& f.pending.len() == 0 && f.next < words.len() ==> unset_all(f.split_points)
    &&& candidates_bounded(f.split_points, registered_width(words, f))
}

pub proof fn lemma_total_concat(a: Seq<Seq<char>>, b: Seq<Seq<char>>)
    ensures
        total_width(a + b) == total_width(a) + total_width(b),
    decreases b.len(),
{
    if b.len() == 0 {
        assert(a + b =~= a);
    } else {
        assert((a + b).drop_last() =~= a + b.drop_last());
        assert((a + b).last() == b.last());
        lemma_total_concat(a, b.drop_last());
    }
}

pub proof fn lemma_total_subrange(s: Seq<Seq<char>>, a: int, b: int, m: int)
    requires
        0 <= a <= b <= m <= s.len(),
    ensures
        total_width(s.subrange(a, m)) == total_width(s.subrange(a, b)) + total_width(
            s.subrange(b, m),
        ),
{
    assert(s.subrange(a, m) =~= s.subrange(a, b) + s.subrange(b, m));
    lemma_total_concat(s.subrange(a, b), s.subrange(b, m));
}

pub proof fn lemma_total_prefix(s: Seq<Seq<char>>, k: int)
    requires
        0 <= k <= s.len(),
    ensures
        total_width(s.take(k)) <= total_width(s),
{
    assert(s =~= s.take(k) + s.skip(k));
    lemma_total_concat(s.take(k), s.skip(k));
}

pub proof fn lemma_flat_push(lines: Seq<Line>, l: Line)
    ensures
        flat(lines.push(l)) == flat(lines) + l.words,
{
    assert(lines.push(l).drop_last() =~= lines);
}

/// The pending words are the last ones read.
pub proof fn lemma_pending_words(words: Seq<Seq<char>>, f: Filler)
    requires
        filler_inv(words, f),
    ensures
        f.pending.len() <= f.next,
        f.pending == words.subrange(f.next - f.pending.len(), f.next as int),
        total_width(f.pending) <= total_width(words.take(f.next as int)),
{
    let t = words.take(f.next as int);
    let fl = flat(f.lines);
    assert(t.len() == f.next);
    assert(f.pending =~= t.subrange(fl.len() as int, t.len() as int));
    assert(f.pending =~= words.subrange(f.next - f.pending.len(), f.next as int));
    lemma_total_concat(fl, f.pending);
}

/// Bounds that keep the filler's arithmetic within `usize`.
pub proof fn lemma_filler_bounds(words: Seq<Seq<char>>, f: Filler)
    requires
        filler_inv(words, f),
        total_width(words) <= usize::MAX,
    ensures
        f.n_char <= total_width(words),
        candidates_bounded(f.split_points, total_width(words)),
        f.next < words.len() ==> f.n_char + word_width(words[f.next as int]) <= total_width(words),
        f.pending.len() > 0 ==> f.split_points.can_push_back(f.split_len),
        f.pending.len() > 0 ==> f.split_len <= f.n_char,
{
    lemma_pending_words(words, f);
    lemma_total_prefix(words, f.next as int);
    if f.pending.len() > 0 {
        lemma_total_prefix(words.take(f.next as int), f.next - 1);
        assert(words.take(f.next as int).take(f.next - 1) =~= words.take(f.next - 1));
        assert(words.take(f.next as int).drop_last() =~= words.take(f.next - 1));
        assert(words.take(f.next as int).last() == f.pending.last());
        assert(f.pending.drop_last() + seq![f.pending.last()] =~= f.pending);
    }
    if f.next < words.len() {
        lemma_total_prefix(words, f.next + 1int);
        assert(words.take(f.next + 1int).drop_last() =~= words.take(f.next as int));
    }
}

proof fn lemma_candidate_pushed(p: SplitPoint, pending: Seq<Seq<char>>, w: Seq<char>, n: nat)
    requires
        pending.len() > 0,
        candidate_ok(p, pending),
        n == word_width(pending.last()),
        p.n_char_after + n <= usize::MAX,
    ensures
        candidate_ok(p.pushed_back(n), pending.push(w)),
{
    if p.index > 0 {
        let q = pending.push(w);
        assert(q.subrange(p.index as int, q.len() - 1).drop_last() =~= pending.subrange(
            p.index as int,
            pending.len() - 1,
        ));
        assert(q.subrange(p.index as int, q.len() - 1).last() == pending.last());
    }
}

proof fn lemma_candidate_taken(p: SplitPoint, c: SplitPoint, pending: Seq<Seq<char>>)
    requires
        pending.len() > 0,
        candidate_ok(p, pending),
        candidate_ok(c, pending),
        c.index > 0,
    ensures
        candidate_ok(p.after_taking(c), pending.skip(c.index as int)),
{
    let q = pending.skip(c.index as int);
    if p.index > 0 && p.n_char_after < c.n_char_after {
        if p.index <= c.index {
            lemma_total_subrange(pending, p.index as int, c.index as int, pending.len() - 1);
        }
        assert(p.index > c.index);
        assert(q.subrange(p.index - c.index, q.len() - 1) =~= pending.subrange(
            p.index as int,
            pending.len() - 1,
        ));
    }
}

proof fn lemma_registered_ok(sp: SplitPoints, pending: Seq<Seq<char>>, w: Seq<char>, n: nat)
    requires
        pending.len() > 0,
        candidates_ok(sp, pending),
        n == word_width(pending.last()),
        sp.can_push_back(n),
        pending.len() < usize::MAX,
    ensures
        candidates_ok(sp.registered(pending.last(), n, pending.len()), pending.push(w)),
{
    let q = pending.push(w);
    lemma_candidate_pushed(sp.end, pending, w, n);
    lemma_candidate_pushed(sp.sub_end, pending, w, n);
    lemma_candidate_pushed(sp.sub_start, pending, w, n);
    lemma_candidate_pushed(sp.connection_word, pending, w, n);
    assert(q.subrange(pending.len() as int, q.len() - 1).len() == 0);
    assert(total_width(q.subrange(pending.len() as int, q.len() - 1)) == 0);
    let r = q.subrange(pending.len() - 1, q.len() - 1);
    assert(r.drop_last().len() == 0);
    assert(r.last() == pending.last());
    assert(total_width(r.drop_last()) == 0);
}

proof fn lemma_total_len(s: Seq<Seq<char>>)
    ensures
        s.len() <= total_width(s),
    decreases s.len(),
{
    if s.len() > 0 {
        lemma_total_len(s.drop_last());
    }
}

proof fn lemma_step_read(words: Seq<Seq<char>>, line_width: nat, f: Filler)
    requires
        filler_inv(words, f),
        total_width(words) <= usize::MAX,
        fits(f.n_char, line_width, f.indentation) || f.pending.len() <= 1,
        f.next < words.len(),
    ensures
        filler_inv(words, step(words, line_width, f)),
{
    lemma_filler_bounds(words, f);
    lemma_pending_words(words, f);
    let plen = f.pending.len();
    let w = words[f.next as int];
    assert(words.take(f.next + 1int) =~= words.take(f.next as int).push(w));
    assert(flat(f.lines) + f.pending.push(w) =~= (flat(f.lines) + f.pending).push(w));
    assert(f.pending.push(w).drop_last() =~= f.pending);
    if plen > 0 {
        lemma_total_len(f.pending);
        lemma_registered_ok(f.split_points, f.pending, w, f.split_len);
        assert(words.take(f.next as int).drop_last() =~= words.take(f.next - 1));
        assert(words.take(f.next as int).last() == f.pending.last());
    }
}

proof fn lemma_step_flush(words: Seq<Seq<char>>, line_width: nat, f: Filler)
    requires
        filler_inv(words, f),
        !finished(words, f),
        fits(f.n_char, line_width, f.indentation) || f.pending.len() <= 1,
        f.next >= words.len(),
    ensures
        filler_inv(words, step(words, line_width, f)),
{
    let g = step(words, line_width, f);
    let plen = f.pending.len();
    lemma_pending_words(words, f);
    lemma_flat_push(f.lines, Line { indentation: f.indentation, words: f.pending });
    assert(f.pending.take(plen as int) =~= f.pending);
    assert(f.pending.skip(plen as int) =~= Seq::<Seq<char>>::empty());
    assert(flat(g.lines) + g.pending =~= flat(f.lines) + f.pending);
    assert(words.take(f.next as int).take(f.next - 1) =~= words.take(f.next - 1));
    lemma_total_prefix(words.take(f.next as int), f.next - 1);
}

proof fn lemma_step_forced(words: Seq<Seq<char>>, line_width: nat, f: Filler)
    requires
        filler_inv(words, f),
        !(fits(f.n_char, line_width, f.indentation) || f.pending.len() <= 1),
        too_wide(f.split_len, line_width, f.indentation) || f.split_points.best() is None,
    ensures
        filler_inv(words, step(words, line_width, f)),
{
    let g = step(words, line_width, f);
    let plen = f.pending.len();
    let k = (plen - 1) as nat;
    let l = Line { indentation: f.indentation, words: f.pending.take(k as int) };
    lemma_flat_push(f.lines, l);
    assert(f.pending.take(k as int) + f.pending.skip(k as int) =~= f.pending);
    assert(flat(g.lines) + g.pending =~= flat(f.lines) + f.pending);
    assert(g.pending =~= seq![f.pending.last()]);
    assert(g.pending.drop_last() =~= Seq::<Seq<char>>::empty());
    assert(total_width(g.pending.drop_last()) == 0);
}

proof fn lemma_step_split(words: Seq<Seq<char>>, line_width: nat, f: Filler)
    requires
        filler_inv(words, f),
        !(fits(f.n_char, line_width, f.indentation) || f.pending.len() <= 1),
        !(too_wide(f.split_len, line_width, f.indentation) || f.split_points.best() is None),
    ensures
        filler_inv(words, step(words, line_width, f)),
{
    let g = step(words, line_width, f);
    let plen = f.pending.len();
    let c = f.split_points.best()->0;
    let k = c.index as nat;
    assert(candidate_ok(c, f.pending));
    let l = Line { indentation: f.indentation, words: f.pending.take(k as int) };
    lemma_flat_push(f.lines, l);
    assert(f.pending.take(k as int) + f.pending.skip(k as int) =~= f.pending);
    assert(flat(g.lines) + g.pending =~= flat(f.lines) + f.pending);
    lemma_candidate_taken(f.split_points.end, c, f.pending);
    lemma_candidate_taken(f.split_points.sub_end, c, f.pending);
    lemma_candidate_taken(f.split_points.sub_start, c, f.pending);
    lemma_candidate_taken(f.split_points.connection_word, c, f.pending);
    let q = f.pending.skip(k as int);
    assert(q.drop_last() =~= f.pending.subrange(k as int, plen - 1));
    assert(q.last() == f.pending.last());
}

/// Each step keeps the filler's invariant.
pub proof fn lemma_step_inv(words: Seq<Seq<char>>, line_width: nat, f: Filler)
    requires
        filler_inv(words, f),
        !finished(words, f),
        total_width(words) <= usize::MAX,
    ensures
        filler_inv(words, step(words, line_width, f)),
{
    if fits(f.n_char, line_width, f.indentation) || f.pending.len() <= 1 {
        if f.next < words.len() {
            lemma_step_read(words, line_width, f);
        } else {
            lemma_step_flush(words, line_width, f);
        }
    } else if too_wide(f.split_len, line_width, f.indentation) || f.split_points.best() is None {
        lemma_step_forced(words, line_width, f);
    } else {
        lemma_step_split(words, line_width, f);
    }
}

/// Each step brings the filler closer to its end.
pub proof fn lemma_step_progress(words: Seq<Seq<char>>, line_width: nat, f: Filler)
    requires
        filler_inv(words, f),
        !finished(words, f),
    ensures
        remaining(words, step(words, line_width, f)) < remaining(words, f),
{
    if !(fits(f.n_char, line_width, f.indentation) || f.pending.len() <= 1) {
        if !too_wide(f.split_len, line_width, f.indentation) && f.split_points.best() is Some {
            assert(candidate_ok(f.split_points.best()->0, f.pending));
        }
    }
}

/// The columns a line takes, without a space after its last word.
pub open spec fn line_width_of(l: Line) -> int {
    l.indentation + total_width(l.words) - 1
}

/// A line is within `line_width` columns, or holds a single word.
pub open spec fn within_width(l: Line, line_width: nat) -> bool {
    l.words.len() == 1 || line_width_of(l) <= line_width
}

/// What holds of a filler that never hangs: every line so far is within the
/// width, and all pending words but the last fit, or there are at most two.
pub open spec fn width_inv(line_width: nat, indentation: nat, f: Filler) -> bool {
    &&& f.hanging is None
    &&& f.indentation == indentation
    &&& forall|i: int| 0 <= i < f.lines.len() ==> within_width(#[trigger] f.lines[i], line_width)
    &&& f.pending.len() <= 2 || fits(total_width(f.pending.drop_last()), line_width, indentation)
}

proof fn lemma_step_width(words: Seq<Seq<char>>, line_width: nat, indentation: nat, f: Filler)
    requires
        filler_inv(words, f),
        !finished(words, f),
        width_inv(line_width, indentation, f),
    ensures
        width_inv(line_width, indentation, step(words, line_width, f)),
{
    let g = step(words, line_width, f);
    let p = f.pending;
    let plen = p.len();
    if fits(f.n_char, line_width, indentation) || plen <= 1 {
        if f.next < words.len() {
            let w = words[f.next as int];
            assert(p.push(w).drop_last() =~= p);
        } else {
            assert(p.take(plen as int) =~= p);
            assert(g.lines.last().words == p);
            assert(forall|i: int| 0 <= i < f.lines.len() ==> g.lines[i] == f.lines[i]);
        }
    } else {
        let k: nat = if too_wide(f.split_len, line_width, indentation) || f.split_points.best() is None {
            (plen - 1) as nat
        } else {
            assert(candidate_ok(f.split_points.best()->0, p));
            f.split_points.best()->0.index as nat
        };
        assert(1 <= k < plen);
        assert(g.lines.last().words == p.take(k as int));
        assert(forall|i: int| 0 <= i < f.lines.len() ==> g.lines[i] == f.lines[i]);
        assert(p.drop_last() =~= p.subrange(0, plen - 1));
        lemma_total_subrange(p, 0, k as int, plen - 1);
        assert(p.take(k as int) =~= p.subrange(0, k as int));
        assert(g.pending =~= p.subrange(k as int, plen as int));
        assert(g.pending.drop_last() =~= p.subrange(k as int, plen - 1));
        assert(p.subrange(0, plen - 1) =~= p.drop_last());
    }
}

proof fn lemma_fill_from_width(words: Seq<Seq<char>>, line_width: nat, indentation: nat, f: Filler)
    requires
        filler_inv(words, f),
        width_inv(line_width, indentation, f),
        total_width(words) <= usize::MAX,
    ensures
        forall|i: int|
            0 <= i < fill_from(words, line_width, f).len() ==> within_width(
                #[trigger] fill_from(words, line_width, f)[i],
                line_width,
            ),
    decreases remaining(words, f),
{
    if !finished(words, f) {
        lemma_step_inv(words, line_width, f);
        lemma_step_progress(words, line_width, f);
        lemma_step_width(words, line_width, indentation, f);
        lemma_fill_from_width(words, line_width, indentation, step(words, line_width, f));
        assert(fill_from(words, line_width, f) == fill_from(words, line_width, step(words, line_width, f)));
    } else {
        assert(fill_from(words, line_width, f) == f.lines);
    }
}

/// Lines break within the width where the words allow it: filling the words
/// of a text without a hanging indentation gives lines that are each at most
/// `line_width` columns wide, or hold a single word that alone is wider.
pub proof fn lemma_fill_within_width(text: Seq<char>, line_width: nat, indentation: nat)
    requires
        text.len() < usize::MAX,
    ensures
        forall|i: int|
            0 <= i < fill(words(text), line_width, indentation, None).len() ==> within_width(
                #[trigger] fill(words(text), line_width, indentation, None)[i],
                line_width,
            ),
{
    let ws = words(text);
    lemma_words_width(text);
    let f = start(indentation, None);
    assert(flat(f.lines) + f.pending =~= ws.take(0));
    lemma_fill_from_width(ws, line_width, indentation, f);
}

proof fn lemma_fill_from_flat(words: Seq<Seq<char>>, line_width: nat, f: Filler)
    requires
        filler_inv(words, f),
        total_width(words) <= usize::MAX,
    ensures
        flat(fill_from(words, line_width, f)) == words,
        forall|i: int|
            0 <= i < fill_from(words, line_width, f).len() ==> (#[trigger] fill_from(
                words,
                line_width,
                f,
            )[i]).words.len() > 0,
    decreases remaining(words, f),
{
    if !finished(words, f) {
        lemma_step_inv(words, line_width, f);
        lemma_step_progress(words, line_width, f);
        lemma_fill_from_flat(words, line_width, step(words, line_width, f));
        assert(fill_from(words, line_width, f) == fill_from(words, line_width, step(words, line_width, f)));
    } else {
        assert(fill_from(words, line_width, f) == f.lines);
        assert(words.take(f.next as int) =~= words);
        assert(flat(f.lines) + f.pending =~= flat(f.lines));
    }
}

/// The words `v`, each followed by a space.
pub open spec fn spaced_frags(v: Seq<Seq<char>>) -> Seq<Seq<char>> {
    Seq::new(2 * v.len(), |j: int| if j % 2 == 0 { v[j / 2] } else { " "@ })
}

proof fn lemma_spaced(v: Seq<Seq<char>>)
    requires
        all_words(v),
    ensures
        words(concat(spaced_frags(v))) == v,
        concat(spaced_frags(v)).len() == 0 || concat(spaced_frags(v)).last() == ' ',
        concat(spaced_frags(v)).len() == total_width(v),
        forall|k: int|
            0 <= k < concat(spaced_frags(v)).len() ==> #[trigger] concat(spaced_frags(v))[k] != '\n',
    decreases v.len(),
{
    reveal_strlit(" ");
    if v.len() == 0 {
        assert(spaced_frags(v) =~= Seq::<Seq<char>>::empty());
        assert(words(Seq::<char>::empty()) =~= Seq::<Seq<char>>::empty());
    } else {
        let d = v.drop_last();
        assert(all_words(d)) by {
            assert forall|i: int| 0 <= i < d.len() implies is_word(#[trigger] d[i]) by {
                assert(d[i] == v[i]);
            }
        }
        lemma_spaced(d);
        assert(spaced_frags(v) =~= spaced_frags(d) + seq![v.last(), " "@]);
        lemma_concat_append(spaced_frags(d), seq![v.last(), " "@]);
        let two = seq![v.last(), " "@];
        lemma_concat_two(v.last(), " "@);
        assert(" "@ =~= seq![' ']);
        assert(concat(two) =~= v.last().push(' '));
        assert(is_word(v[v.len() - 1]));
        lemma_words_word(v.last(), ' ');
        lemma_words_append(concat(spaced_frags(d)), v.last().push(' '));
        assert(d + seq![v.last()] =~= v);
        let c = concat(spaced_frags(v));
        let cd = concat(spaced_frags(d));
        assert(c =~= cd + v.last().push(' '));
        assert forall|k: int| 0 <= k < c.len() implies #[trigger] c[k] != '\n' by {
            if k >= cd.len() && k < cd.len() + v.last().len() {
                assert(c[k] == v.last()[k - cd.len()]);
            }
        }
    }
}

proof fn lemma_padding(n: nat)
    ensures
        concat(padding(n)) == spaces(n),
    decreases n,
{
    if n <= PAD_CHUNK {
        lemma_concat_two(spaces(n), spaces(n));
    } else {
        let m = (n - PAD_CHUNK) as nat;
        lemma_padding(m);
        lemma_concat_append(seq![spaces(PAD_CHUNK as nat)], padding(m));
        lemma_concat_two(spaces(PAD_CHUNK as nat), spaces(m));
        assert(spaces(PAD_CHUNK as nat) + spaces(m) =~= spaces(n));
    }
}

proof fn lemma_render_line_words(l: Line)
    requires
        l.words.len() > 0,
        all_words(l.words),
    ensures
        words(concat(render_line(l))) == l.words,
        concat(render_line(l)).len() > 0,
        concat(render_line(l)).last() == '\n',
{
    reveal_strlit("\n");
    let ws = l.words;
    let d = ws.drop_last();
    assert(all_words(d)) by {
        assert forall|i: int| 0 <= i < d.len() implies is_word(#[trigger] d[i]) by {
            assert(d[i] == ws[i]);
        }
    }
    assert(render_words(ws) =~= spaced_frags(d) + seq![ws.last(), "\n"@]);
    let two = seq![ws.last(), "\n"@];
    lemma_concat_two(ws.last(), "\n"@);
    assert("\n"@ =~= seq!['\n']);
    assert(concat(two) =~= ws.last().push('\n'));
    lemma_concat_append(spaced_frags(d), two);
    lemma_concat_append(padding(l.indentation), render_words(ws));
    lemma_padding(l.indentation);
    lemma_spaced(d);
    assert(is_word(ws[ws.len() - 1]));
    lemma_words_word(ws.last(), '\n');
    let pad = spaces(l.indentation);
    assert(blank(pad));
    lemma_words_blank(pad);
    let body = concat(spaced_frags(d));
    lemma_words_append(body, ws.last().push('\n'));
    lemma_words_append(pad, body + ws.last().push('\n'));
    assert(d + seq![ws.last()] =~= ws);
    assert(concat(render_line(l)) =~= pad + (body + ws.last().push('\n')));
}

proof fn lemma_flat_words(lines: Seq<Line>)
    requires
        all_words(flat(lines)),
    ensures
        forall|i: int| 0 <= i < lines.len() ==> all_words(#[trigger] lines[i].words),
    decreases lines.len(),
{
    if lines.len() > 0 {
        let d = lines.drop_last();
        let fd = flat(d);
        let last = lines.last().words;
        assert(all_words(fd)) by {
            assert forall|i: int| 0 <= i < fd.len() implies is_word(#[trigger] fd[i]) by {
                assert(flat(lines)[i] == fd[i]);
            }
        }
        assert(all_words(last)) by {
            assert forall|i: int| 0 <= i < last.len() implies is_word(#[trigger] last[i]) by {
                assert(flat(lines)[fd.len() + i] == last[i]);
            }
        }
        lemma_flat_words(d);
        assert forall|i: int| 0 <= i < lines.len() implies all_words(#[trigger] lines[i].words) by {
            if i < d.len() {
                assert(lines[i] == d[i]);
            }
        }
    }
}

/// The text of a line, without its line break.
pub open spec fn line_text(l: Line) -> Seq<char> {
    spaces(l.indentation) + concat(spaced_frags(l.words.drop_last())) + l.words.last()
}

proof fn lemma_line_text(l: Line)
    requires
        l.words.len() > 0,
        all_words(l.words),
    ensures
        concat(render_line(l)) == line_text(l).push('\n'),
        forall|k: int| 0 <= k < line_text(l).len() ==> #[trigger] line_text(l)[k] != '\n',
        line_text(l).len() == line_width_of(l),
        words(line_text(l)) == l.words,
{
    reveal_strlit("\n");
    let ws = l.words;
    let d = ws.drop_last();
    assert(all_words(d)) by {
        assert forall|i: int| 0 <= i < d.len() implies is_word(#[trigger] d[i]) by {
            assert(d[i] == ws[i]);
        }
    }
    lemma_render_line_words(l);
    assert(render_words(ws) =~= spaced_frags(d) + seq![ws.last(), "\n"@]);
    let two = seq![ws.last(), "\n"@];
    lemma_concat_two(ws.last(), "\n"@);
    assert("\n"@ =~= seq!['\n']);
    lemma_concat_append(spaced_frags(d), two);
    lemma_concat_append(padding(l.indentation), render_words(ws));
    lemma_padding(l.indentation);
    lemma_spaced(d);
    let pad = spaces(l.indentation);
    let body = concat(spaced_frags(d));
    let last = ws.last();
    assert(is_word(ws[ws.len() - 1]));
    assert(concat(render_line(l)) =~= line_text(l).push('\n'));
    let t = line_text(l);
    assert forall|k: int| 0 <= k < t.len() implies #[trigger] t[k] != '\n' by {
        if k < pad.len() {
            assert(t[k] == pad[k]);
        } else if k < pad.len() + body.len() {
            assert(t[k] == body[k - pad.len()]);
        } else {
            assert(t[k] == last[k - pad.len() - body.len()]);
        }
    }
    assert(ws =~= d.push(last));
    assert(total_width(ws) == total_width(d) + word_width(last));
    lemma_words_of_word(last);
    assert(blank(pad));
    lemma_words_blank(pad);
    lemma_words_append(body, last);
    lemma_words_append(pad, body + last);
    assert(t =~= pad + (body + last));
    assert(d + seq![last] =~= ws);
}

/// The lines of the rendered text are the texts of the lines.
pub proof fn lemma_render_text_lines(lines: Seq<Line>)
    requires
        forall|i: int| 0 <= i < lines.len() ==> (#[trigger] lines[i]).words.len() > 0,
        all_words(flat(lines)),
    ensures
        text_lines(concat(render(lines))) == Seq::new(lines.len(), |i: int| line_text(lines[i])),
        forall|i: int|
            0 <= i < lines.len() ==> #[trigger] line_text(lines[i]).len() == line_width_of(lines[i])
                && words(line_text(lines[i])) == lines[i].words,
    decreases lines.len(),
{
    if lines.len() == 0 {
        assert(text_lines(Seq::<char>::empty()) =~= Seq::<Seq<char>>::empty());
        assert(Seq::new(0, |i: int| line_text(lines[i])) =~= Seq::<Seq<char>>::empty());
    } else {
        let d = lines.drop_last();
        lemma_flat_words(lines);
        assert(all_words(flat(d))) by {
            assert forall|i: int| 0 <= i < flat(d).len() implies is_word(#[trigger] flat(d)[i]) by {
                assert(flat(lines)[i] == flat(d)[i]);
            }
        }
        assert forall|i: int| 0 <= i < d.len() implies (#[trigger] d[i]).words.len() > 0 by {
            assert(d[i] == lines[i]);
        }
        lemma_render_text_lines(d);
        lemma_render_words(d);
        assert(lines[lines.len() - 1] == lines.last());
        lemma_line_text(lines.last());
        lemma_concat_append(render(d), render_line(lines.last()));
        lemma_text_lines_append(concat(render(d)), concat(render_line(lines.last())));
        lemma_text_lines_one(line_text(lines.last()));
        assert(text_lines(concat(render(lines))) =~= Seq::new(lines.len(), |i: int| line_text(lines[i])));
        assert forall|i: int| 0 <= i < lines.len() implies #[trigger] line_text(lines[i]).len()
            == line_width_of(lines[i]) && words(line_text(lines[i])) == lines[i].words by {
            if i < d.len() {
                assert(lines[i] == d[i]);
            }
        }
    }
}

/// Rendering lines keeps their words.
pub proof fn lemma_render_words(lines: Seq<Line>)
    requires
        forall|i: int| 0 <= i < lines.len() ==> (#[trigger] lines[i]).words.len() > 0,
        all_words(flat(lines)),
    ensures
        words(concat(render(lines))) == flat(lines),
        concat(render(lines)).len() == 0 || concat(render(lines)).last() == '\n',
    decreases lines.len(),
{
    if lines.len() == 0 {
        assert(words(Seq::<char>::empty()) =~= Seq::<Seq<char>>::empty());
    } else {
        let d = lines.drop_last();
        lemma_flat_words(lines);
        assert(all_words(flat(d))) by {
            assert forall|i: int| 0 <= i < flat(d).len() implies is_word(#[trigger] flat(d)[i]) by {
                assert(flat(lines)[i] == flat(d)[i]);
            }
        }
        assert forall|i: int| 0 <= i < d.len() implies (#[trigger] d[i]).words.len() > 0 by {
            assert(d[i] == lines[i]);
        }
        lemma_render_words(d);
        assert(lines[lines.len() - 1] == lines.last());
        lemma_render_line_words(lines.last());
        lemma_concat_append(render(d), render_line(lines.last()));
        lemma_words_append(concat(render(d)), concat(render_line(lines.last())));
    }
}

/// Filling keeps the words of a paragraph, in order.
pub proof fn lemma_fill_keeps_words(text: Seq<char>, line_width: nat, indentation: nat, hanging: Option<nat>)
    requires
        text.len() < usize::MAX,
    ensures
        words(concat(render(fill(words(text), line_width, indentation, hanging)))) == words(text),
        concat(render(fill(words(text), line_width, indentation, hanging))).len() == 0 || concat(
            render(fill(words(text), line_width, indentation, hanging)),
        ).last() == '\n',
{
    let ws = words(text);
    lemma_words_width(text);
    lemma_words_are_words(text);
    let f = start(indentation, hanging);
    assert(flat(f.lines) + f.pending =~= ws.take(0));
    lemma_fill_from_flat(ws, line_width, f);
    lemma_render_words(fill(ws, line_width, indentation, hanging));
}

/// Every line of text that filling a paragraph without a hanging indentation
/// renders is at most `line_width` columns wide, or holds a single word.
pub proof fn lemma_fill_text_lines(text: Seq<char>, line_width: nat, indentation: nat)
    requires
        text.len() < usize::MAX,
    ensures
        ({
            let out = text_lines(concat(render(fill(words(text), line_width, indentation, None))));
            forall|i: int|
                0 <= i < out.len() ==> (#[trigger] out[i]).len() <= line_width || words(out[i]).len()
                    == 1
        }),
{
    let ws = words(text);
    let lines = fill(ws, line_width, indentation, None);
    lemma_words_width(text);
    lemma_words_are_words(text);
    let f = start(indentation, None);
    assert(flat(f.lines) + f.pending =~= ws.take(0));
    lemma_fill_from_flat(ws, line_width, f);
    lemma_render_text_lines(lines);
    lemma_fill_within_width(text, line_width, indentation);
    let out = text_lines(concat(render(lines)));
    assert forall|i: int| 0 <= i < out.len() implies (#[trigger] out[i]).len() <= line_width || words(
        out[i],
    ).len() == 1 by {
        assert(out[i] == line_text(lines[i]));
        assert(within_width(lines[i], line_width));
    }
}

/// The words of a text take at most one column more than the text.
pub proof fn lemma_words_width(s: Seq<char>)
    ensures
        total_width(words(s)) <= s.len() + 1,
    decreases s.len(),
{
    if s.len() > 0 {
        if ascii_whitespace(s[0]) {
            lemma_words_width(s.drop_first());
        } else {
            lemma_word_len_bound(s);
            let n = word_len(s);
            let rest = s.subrange(n as int, s.len() as int);
            lemma_total_concat(seq![s.subrange(0, n as int)], words(rest));
            assert(seq![s.subrange(0, n as int)].drop_last() =~= Seq::<Seq<char>>::empty());
            assert(total_width(Seq::<Seq<char>>::empty()) == 0);
            if rest.len() > 0 {
                if n < s.len() && !ascii_whitespace(s[n as int]) {
                    lemma_word_len_after(s, n);
                }
                assert(rest[0] == s[n as int]);
                lemma_words_width(rest.drop_first());
            }
        }
    }
}

proof fn lemma_word_len_after(s: Seq<char>, n: nat)
    requires
        n == word_len(s),
        n < s.len(),
    ensures
        ascii_whitespace(s[n as int]),
    decreases s.len(),
{
    if n > 0 {
        lemma_word_len_after(s.drop_first(), (n - 1) as nat);
    }
}

} // verus!
