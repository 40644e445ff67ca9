//! Paragraphs: how a text splits into them, and how each is filled into lines.
use vstd::prelude::*;
use vstd::string::*;

use crate::filling::{
    fill, fill_from, filler_inv, finished, fits, flat, lemma_filler_bounds, lemma_pending_words,
    lemma_step_inv, lemma_step_progress, lemma_words_width, padding, remaining, render, render_line,
    render_words, spaces, step, too_wide, total_width, Line, PAD_CHUNK,
};
use crate::paragraph_start::{pattern_matches, ParagraphStarts};
use crate::segmenting::{
    decide_line, indentation_check, indentation_of, lemma_leading_spaces_exact, line_after,
    next_paragraph, scan, skip_line_breaks, ScanEnd, SegState,
};
use crate::split_points::SplitPoints;
use crate::text::{char_offsets, chars_of, offsets_ok, slice_chars, split_words, views, words};

verus! {

/// Options to treat hanging paragraphs such as:
/// ```markdown
/// This paragraph has its
///     second line hanging.
/// ```
#[derive(Copy, Clone, Debug, Default, PartialEq, Eq, Structural)]
pub enum Hanging {
    /// Disallow hanging. Any indentation change starts a new paragraph.
    #[default]
    Disallow,
    /// Ignore indentation changes; remove extra indentation in hanging lines.
    Flatten,
    /// Allow the second line to start hanging (having more indentation);
    /// keep the hanging lines as is.
    Hang,
}

/// How a paragraph is to be formatted.
#[derive(Copy, Clone, Debug, Default, PartialEq, Eq, Structural)]
pub struct ParagraphConfig {
    /// Emit the paragraph as it stands.
    pub ignore: bool,
    /// The leading spaces of its first line.
    pub indentation: usize,
    /// The leading spaces of its lines after the first, where they differ.
    pub hanging_indentation: Option<usize>,
}

impl ParagraphConfig {
    pub open spec fn hanging(self) -> Option<nat> {
        match self.hanging_indentation {
            Some(h) => Some(h as nat),
            None => None,
        }
    }
}

/// Splits a text into paragraphs, one at a time.
pub struct ParagraphsIter<'a> {
    text: &'a str,
    chars: Vec<char>,
    offsets: Vec<usize>,
    pos: usize,
    hanging_config: Hanging,
    paragraph_starts: &'a ParagraphStarts,
    next_is_single_paragraph: bool,
    next_is_ignore_paragraph: bool,
}

impl<'a> ParagraphsIter<'a> {
    /// The whole text.
    pub closed spec fn text(&self) -> Seq<char> {
        self.text@
    }

    pub closed spec fn starts(&self) -> ParagraphStarts {
        *self.paragraph_starts
    }

    pub closed spec fn mode(&self) -> Hanging {
        self.hanging_config
    }

    /// Where the rest of the text starts, and what the last paragraph left
    /// pending.
    pub closed spec fn state(&self) -> SegState {
        SegState {
            pos: self.pos as nat,
            next_is_single: self.next_is_single_paragraph,
            next_is_ignore: self.next_is_ignore_paragraph,
        }
    }

    pub closed spec fn wf(&self) -> bool {
        &&& self.chars@ == self.text@
        &&& offsets_ok(self.text@, self.offsets@)
        &&& self.pos <= self.chars@.len()
    }

    pub fn new(text: &'a str, hanging_config: Hanging, paragraph_starts: &'a ParagraphStarts) -> (r: Self)
        ensures
            r.wf(),
            r.text() == text@,
            r.starts() == *paragraph_starts,
            r.mode() == hanging_config,
            r.state() == (SegState { pos: 0, next_is_single: false, next_is_ignore: false }),
            r.state().pos <= r.text().len(),
    {
        let chars = chars_of(text);
        let offsets = char_offsets(text, &chars);
        ParagraphsIter {
            text,
            chars,
            offsets,
            pos: 0,
            hanging_config,
            paragraph_starts,
            next_is_single_paragraph: false,
            next_is_ignore_paragraph: false,
        }
    }

    /// Moves past the run of line breaks at the cursor.
    fn trim_extra_start_line_breaks(&mut self)
        requires
            old(self).wf(),
        ensures
            final(self).wf(),
            final(self).text == old(self).text,
            final(self).chars == old(self).chars,
            final(self).offsets == old(self).offsets,
            final(self).hanging_config == old(self).hanging_config,
            final(self).paragraph_starts == old(self).paragraph_starts,
            final(self).next_is_single_paragraph == old(self).next_is_single_paragraph,
            final(self).next_is_ignore_paragraph == old(self).next_is_ignore_paragraph,
            final(self).pos == skip_line_breaks(old(self).chars@, old(self).pos as int),
    {
        let n = self.chars.len();
        while self.pos < n && self.chars[self.pos] == '\n'
            invariant
                self.wf(),
                n == self.chars@.len(),
                self.text == old(self).text,
                self.chars == old(self).chars,
                self.offsets == old(self).offsets,
                self.hanging_config == old(self).hanging_config,
                self.paragraph_starts == old(self).paragraph_starts,
                self.next_is_single_paragraph == old(self).next_is_single_paragraph,
                self.next_is_ignore_paragraph == old(self).next_is_ignore_paragraph,
                skip_line_breaks(self.chars@, self.pos as int) == skip_line_breaks(
                    old(self).chars@,
                    old(self).pos as int,
                ),
            decreases n - self.pos,
        {
            self.pos = self.pos + 1;
        }
    }

    /// The next paragraph, if any text is left.
    pub fn next(&mut self) -> (r: Option<Paragraph<'a>>)
        requires
            old(self).wf(),
        ensures
            final(self).wf(),
            final(self).text() == old(self).text(),
            final(self).starts() == old(self).starts(),
            final(self).mode() == old(self).mode(),
            final(self).state().pos <= final(self).text().len(),
            match next_paragraph(old(self).text(), old(self).starts(), old(self).mode(), old(self).state()) {
                None => r is None && final(self).state() == old(self).state(),
                Some((config, words, st)) => r matches Some(p) && p.config == config && p.words@ == words
                    && final(self).state() == st,
            },
    {
        if self.pos >= self.chars.len() {
            return None;
        }
        if self.chars[self.pos] == '\n' {
            let at = self.pos;
            self.trim_extra_start_line_breaks();
            let words = slice_chars(self.text, &self.offsets, at, at);
            proof {
                assert(words@ =~= Seq::<char>::empty());
            }
            return Some(
                Paragraph {
                    config: ParagraphConfig { ignore: false, indentation: 0, hanging_indentation: None },
                    words,
                },
            );
        }
        let indentation = indentation_at(&self.chars, self.pos);
        Some(iter_inner_next(self, indentation))
    }
}

/// The indentation of the line of `cs` that starts at `from`.
fn indentation_at(cs: &Vec<char>, from: usize) -> (r: usize)
    requires
        from <= cs@.len(),
    ensures
        r == indentation_of(cs@.subrange(from as int, cs@.len() as int)),
{
    let n = cs.len();
    let mut i = from;
    while i < n && cs[i] == ' '
        invariant
            from <= i <= n,
            n == cs@.len(),
            forall|k: int| from <= k < i ==> #[trigger] cs@[k] == ' ',
        decreases n - i,
    {
        i += 1;
    }
    proof {
        let s = cs@.subrange(from as int, n as int);
        assert forall|k: int| 0 <= k < i - from implies #[trigger] s[k] == ' ' by {
            assert(s[k] == cs@[from + k]);
        }
        if i < n {
            assert(s[i - from] == cs@[i as int]);
        }
        lemma_leading_spaces_exact(s, i - from);
    }
    if i < n && cs[i] != '\n' {
        i - from
    } else {
        0
    }
}

pub fn first_line_indentation(line: &str) -> (r: usize)
    ensures
        r == indentation_of(line@),
{
    let cs = chars_of(line);
    proof {
        assert(cs@.subrange(0, cs@.len() as int) =~= cs@);
    }
    indentation_at(&cs, 0)
}

/// Where the line after the one holding position `q` of `cs` starts.
fn line_after_at(cs: &Vec<char>, q: usize) -> (r: usize)
    requires
        q < cs@.len(),
    ensures
        r == line_after(cs@, q as int),
        q < r <= cs@.len(),
{
    let n = cs.len();
    let mut i = q;
    while i < n && cs[i] != '\n'
        invariant
            q <= i <= n,
            n == cs@.len(),
            line_after(cs@, i as int) == line_after(cs@, q as int),
        decreases n - i,
    {
        i += 1;
    }
    if i < n {
        i + 1
    } else {
        n
    }
}

/// How the indentation `h` of line number `line` is taken; see
/// `indentation_check`.
fn check_indentation(mode: Hanging, indentation: usize, line: usize, h: usize, hang: Option<usize>) -> (r: (
    bool,
    Option<usize>,
))
    ensures
        ({
            let (m, g) = indentation_check(
                mode,
                indentation as nat,
                line as nat,
                h as nat,
                match hang {
                    Some(x) => Some(x as nat),
                    None => None,
                },
            );
            &&& r.0 == m
            &&& g == match r.1 {
                Some(x) => Some(x as nat),
                None => None::<nat>,
            }
        }),
{
    match mode {
        Hanging::Disallow => (h != indentation, hang),
        Hanging::Flatten => (false, hang),
        Hanging::Hang => if line == 1 && h > indentation {
            (false, Some(h))
        } else {
            let expected = match hang {
                Some(x) => x,
                None => indentation,
            };
            (h != expected, hang)
        },
    }
}

/// Scans forward, line by line, for the end of the paragraph that starts at
/// the cursor, and yields it.
fn iter_inner_next<'a>(iter: &mut ParagraphsIter<'a>, indentation: usize) -> (r: Paragraph<'a>)
    requires
        old(iter).wf(),
        old(iter).pos < old(iter).chars@.len(),
        old(iter).chars@[old(iter).pos as int] != '\n',
        indentation == indentation_of(
            old(iter).chars@.subrange(old(iter).pos as int, old(iter).chars@.len() as int),
        ),
    ensures
        final(iter).wf(),
        final(iter).text() == old(iter).text(),
        final(iter).starts() == old(iter).starts(),
        final(iter).mode() == old(iter).mode(),
        next_paragraph(old(iter).text(), old(iter).starts(), old(iter).mode(), old(iter).state()) == Some(
            (r.config, r.words@, final(iter).state()),
        ),
{
    let ghost t = iter.text@;
    let ghost starts = *iter.paragraph_starts;
    let ghost mode = iter.hanging_config;
    let pos = iter.pos;
    let n = iter.chars.len();
    let ghost target = scan(
        t,
        starts,
        mode,
        pos as nat,
        indentation as nat,
        pos as nat,
        0,
        None,
        iter.next_is_single_paragraph,
        iter.next_is_ignore_paragraph,
    );
    let no_patterns = iter.paragraph_starts.single_line.is_none()
        && iter.paragraph_starts.multi_line.is_none() && iter.paragraph_starts.ignore_line.is_none();
    let mut q = pos;
    let mut line: usize = 0;
    let mut hang: Option<usize> = None;
    let mut ignore = false;
    loop
        invariant_except_break
            !ignore,
            scan(
                t,
                starts,
                mode,
                pos as nat,
                indentation as nat,
                q as nat,
                line as nat,
                match hang {
                    Some(x) => Some(x as nat),
                    None => None,
                },
                iter.next_is_single_paragraph,
                iter.next_is_ignore_paragraph,
            ) == target,
        invariant
            iter.wf(),
            n == iter.chars@.len(),
            t == iter.text@,
            iter.text == old(iter).text,
            iter.chars == old(iter).chars,
            iter.offsets == old(iter).offsets,
            iter.pos == pos,
            starts == *iter.paragraph_starts,
            iter.paragraph_starts == old(iter).paragraph_starts,
            mode == iter.hanging_config,
            iter.hanging_config == old(iter).hanging_config,
            no_patterns == (starts.single_line is None && starts.multi_line is None
                && starts.ignore_line is None),
            pos <= q <= n,
            line <= q - pos,
        ensures
            target == (ScanEnd {
                end: q as nat,
                ignore,
                hanging: match hang {
                    Some(x) => Some(x as nat),
                    None => None,
                },
                next_is_single: iter.next_is_single_paragraph,
                next_is_ignore: iter.next_is_ignore_paragraph,
            }),
        decreases n - q,
    {
        if q >= n || iter.chars[q] == '\n' {
            break;
        }
        let h = indentation_at(&iter.chars, q);
        let (misplaced, hang2) = check_indentation(iter.hanging_config, indentation, line, h, hang);
        if misplaced {
            break;
        }
        let following = if no_patterns {
            ""
        } else {
            slice_chars(iter.text, &iter.offsets, q, n)
        };
        let ghost rest = t.subrange(q as int, n as int);
        let ignore_match = iter.paragraph_starts.ignore_line_matches(following);
        let single_match = iter.paragraph_starts.single_line_matches(following);
        let multi_match = iter.paragraph_starts.multi_line_matches(following);
        proof {
            assert(pattern_matches(starts.ignore_line, following@) == pattern_matches(starts.ignore_line, rest));
            assert(pattern_matches(starts.single_line, following@) == pattern_matches(starts.single_line, rest));
            assert(pattern_matches(starts.multi_line, following@) == pattern_matches(starts.multi_line, rest));
        }
        let outcome = decide_line(
            q == pos,
            iter.next_is_single_paragraph,
            iter.next_is_ignore_paragraph,
            ignore_match,
            single_match,
            multi_match,
        );
        iter.next_is_single_paragraph = outcome.next_is_single;
        iter.next_is_ignore_paragraph = outcome.next_is_ignore;
        if outcome.ends {
            ignore = outcome.ignore;
            break;
        }
        let next_line = line_after_at(&iter.chars, q);
        q = next_line;
        line += 1;
        hang = hang2;
    }
    iter.pos = q;
    let words = slice_chars(iter.text, &iter.offsets, pos, q);
    Paragraph {
        config: ParagraphConfig { ignore, indentation, hanging_indentation: hang },
        words,
    }
}

/// A paragraph of the input text.
#[derive(Copy, Clone, Debug)]
pub struct Paragraph<'a> {
    pub config: ParagraphConfig,
    pub words: &'a str,
}

/// The fragments that format the words `ws` at `line_width` columns under
/// `config`.
pub open spec fn filled_fragments(config: ParagraphConfig, ws: Seq<Seq<char>>, line_width: nat) -> Seq<Seq<char>> {
    render(fill(ws, line_width, config.indentation as nat, config.hanging()))
}

/// The fragments that format a paragraph of text `text` at `line_width`
/// columns: an ignored paragraph as it stands, an empty one as a line break.
pub open spec fn paragraph_fragments(config: ParagraphConfig, text: Seq<char>, line_width: nat) -> Seq<Seq<char>> {
    if config.ignore {
        seq![text]
    } else if text.len() == 0 {
        seq!["\n"@]
    } else {
        filled_fragments(config, words(text), line_width)
    }
}

impl<'a> Paragraph<'a> {
    pub fn format(&self, line_width: usize) -> (r: Vec<&'a str>)
        requires
            self.words@.len() < usize::MAX,
        ensures
            views(r@) == paragraph_fragments(self.config, self.words@, line_width as nat),
    {
        if self.config.ignore {
            let r = vec![self.words];
            proof {
                assert(views(r@) =~= seq![self.words@]);
            }
            return r;
        } else if self.words.is_empty() {
            let r = vec!["\n"];
            proof {
                assert(views(r@) =~= seq!["\n"@]);
            }
            return r;
        }
        let ws = split_words(self.words);
        proof {
            lemma_words_width(self.words@);
        }
        paragraph_inner_format(&self.config, line_width, &ws)
    }
}

/// Whether `n` columns of words fit on a line of `line_width` columns after
/// `indentation` columns.
fn fits_in(n: usize, line_width: usize, indentation: usize) -> (r: bool)
    ensures
        r == fits(n as nat, line_width as nat, indentation as nat),
{
    if indentation <= line_width {
        n == 0 || n - 1 <= line_width - indentation
    } else {
        n == 0
    }
}

/// Whether a word of width `n` is at least as wide as a line of `line_width`
/// columns after `indentation` columns.
fn too_wide_in(n: usize, line_width: usize, indentation: usize) -> (r: bool)
    ensures
        r == too_wide(n as nat, line_width as nat, indentation as nat),
{
    !(indentation <= line_width && n <= line_width - indentation)
}

/// Sixty-four spaces, the most that one padding fragment holds.
const SPACES: &'static str = "                                                                ";

/// Appends the fragments that indent a line by `n` spaces.
fn push_padding<'a>(result: &mut Vec<&'a str>, n: usize)
    ensures
        views(final(result)@) == views(old(result)@) + padding(n as nat),
    decreases n,
{
    proof {
        reveal_strlit("                                                                ");
        assert(SPACES@ =~= spaces(PAD_CHUNK as nat));
    }
    if n <= PAD_CHUNK {
        let pad = SPACES.substring_char(0, n);
        proof {
            assert(pad@ =~= spaces(n as nat));
        }
        result.push(pad);
        proof {
            assert(views(result@) =~= views(old(result)@) + padding(n as nat));
        }
    } else {
        result.push(SPACES);
        let ghost mid = result@;
        proof {
            assert(views(mid) =~= views(old(result)@) + seq![spaces(PAD_CHUNK as nat)]);
        }
        push_padding(result, n - PAD_CHUNK);
        proof {
            assert(views(result@) =~= views(old(result)@) + padding(n as nat));
        }
    }
}

/// Appends the fragments of the line of the words `words[from..to]`.
fn push_line<'a>(result: &mut Vec<&'a str>, words: &Vec<&'a str>, from: usize, to: usize, indentation: usize)
    requires
        from < to <= words@.len(),
    ensures
        views(final(result)@) == views(old(result)@) + render_line(
            Line { indentation: indentation as nat, words: views(words@).subrange(from as int, to as int) },
        ),
{
    push_padding(result, indentation);
    let ghost base = views(result@);
    let ghost ws = views(words@).subrange(from as int, to as int);
    let mut i: usize = from;
    while i < to
        invariant
            from <= i <= to <= words@.len(),
            ws == views(words@).subrange(from as int, to as int),
            views(result@) == base + render_words(ws).take(2 * (i - from)),
        decreases to - i,
    {
        let ghost before = result@;
        let sep = if i + 1 < to {
            " "
        } else {
            "\n"
        };
        result.push(words[i]);
        result.push(sep);
        proof {
            let k = 2 * (i - from);
            let rw = render_words(ws);
            assert(rw[k] == words@[i as int]@);
            assert(rw[k + 1] == sep@);
            assert(rw.take(k + 2) =~= rw.take(k).push(rw[k]).push(rw[k + 1]));
            assert(views(result@) =~= views(before).push(words@[i as int]@).push(sep@));
        }
        i += 1;
    }
    proof {
        assert(render_words(ws).take(2 * (to - from)) =~= render_words(ws));
    }
}

/// Fills the words `words` into lines of `line_width` columns under `config`.
#[verifier::rlimit(40)]
pub fn paragraph_inner_format<'a>(config: &ParagraphConfig, line_width: usize, words: &Vec<&'a str>) -> (r: Vec<&'a str>)
    requires
        total_width(views(words@)) <= usize::MAX,
    ensures
        views(r@) == filled_fragments(*config, views(words@), line_width as nat),
{
    let ghost ws = views(words@);
    let ghost lw = line_width as nat;
    let n = words.len();
    let mut result: Vec<&'a str> = Vec::new();
    let mut split_points = SplitPoints::new();
    let mut start: usize = 0;
    let mut next: usize = 0;
    let mut n_char: usize = 0;
    let mut split_len: usize = 0;
    let mut indentation = config.indentation;
    let mut hanging = config.hanging_indentation;
    let ghost mut f = crate::filling::start(config.indentation as nat, config.hanging());
    proof {
        assert(flat(f.lines) + f.pending =~= ws.take(0));
        assert(views(result@) =~= render(f.lines));
    }
    loop
        invariant
            n == ws.len(),
            ws == views(words@),
            lw == line_width,
            total_width(ws) <= usize::MAX,
            filler_inv(ws, f),
            fill_from(ws, lw, f) == fill(ws, lw, config.indentation as nat, config.hanging()),
            f.next == next,
            start <= next,
            f.pending.len() == next - start,
            f.n_char == n_char,
            f.split_len == split_len,
            f.split_points == split_points,
            f.indentation == indentation,
            f.hanging == (match hanging {
                Some(h) => Some(h as nat),
                None => None::<nat>,
            }),
            views(result@) == render(f.lines),
        decreases remaining(ws, f),
    {
        proof {
            lemma_filler_bounds(ws, f);
            lemma_pending_words(ws, f);
        }
        let ghost g = step(ws, lw, f);
        if fits_in(n_char, line_width, indentation) || next - start <= 1 {
            if next < n {
                if next > start {
                    proof {
                        assert(f.pending.last() == words@[next - 1]@);
                    }
                    split_points.register_split(words[next - 1], split_len, next - start);
                }
                split_len = words[next].unicode_len() + 1;
                n_char += split_len;
                next += 1;
            } else {
                if next == start {
                    return result;
                }
                push_line(&mut result, words, start, next, indentation);
                proof {
                    assert(f.pending =~= ws.subrange(start as int, next as int));
                    assert(g.lines.drop_last() =~= f.lines);
                    assert(finished(ws, g));
                    assert(fill_from(ws, lw, f) == fill_from(ws, lw, g));
                    assert(fill_from(ws, lw, g) == g.lines);
                }
                return result;
            }
        } else {
            let k: usize;
            if too_wide_in(split_len, line_width, indentation) {
                k = next - start - 1;
                split_points.reset();
                n_char = split_len;
            } else {
                match split_points.next() {
                    Some(chosen) => {
                        k = chosen.index;
                        n_char = chosen.n_char_after + split_len;
                    },
                    None => {
                        k = next - start - 1;
                        split_points.reset();
                        n_char = split_len;
                    },
                }
            }
            push_line(&mut result, words, start, start + k, indentation);
            proof {
                assert(f.pending.take(k as int) =~= ws.subrange(start as int, start + k));
                assert(g.lines.drop_last() =~= f.lines);
            }
            start += k;
            if let Some(h) = hanging {
                indentation = h;
                hanging = None;
            }
        }
        proof {
            lemma_step_inv(ws, lw, f);
            lemma_step_progress(ws, lw, f);
            f = g;
        }
    }
}

} // verus!
