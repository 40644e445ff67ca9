//! What holds of the formatter as a whole.
use vstd::prelude::*;

use crate::filling::{
    fill, lemma_fill_keeps_words, lemma_fill_text_lines, lemma_fill_within_width, within_width,
};
use crate::paragraph_start::ParagraphStarts;
use crate::paragraphs::{paragraph_fragments, Hanging, ParagraphConfig};
use crate::segmenting::{
    lemma_next_paragraph_plain, lemma_next_paragraph_progress, lemma_next_paragraph_shape,
    lemma_paragraphs_no_hang, next_paragraph, paragraphs, paragraphs_from,
    seg_start, skip_line_breaks, SegState,
};
use crate::text::{
    blank, concat, lemma_concat_append, lemma_concat_two, lemma_text_lines_append, lemma_text_lines_one,
    lemma_words_append, lemma_words_blank, text_lines, words,
};
use crate::{formatted, fragments_of};

verus! {

/// A paragraph keeps its words when formatted, and its fragments end with a
/// line break unless there are none.
proof fn lemma_paragraph_keeps_words(config: ParagraphConfig, text: Seq<char>, line_width: nat)
    requires
        text.len() < usize::MAX,
        config.ignore ==> text.len() > 0 && text.last() == '\n',
    ensures
        words(concat(paragraph_fragments(config, text, line_width))) == words(text),
        concat(paragraph_fragments(config, text, line_width)).len() == 0 || concat(
            paragraph_fragments(config, text, line_width),
        ).last() == '\n',
{
    reveal_strlit("\n");
    if config.ignore {
        lemma_concat_two(text, text);
    } else if text.len() == 0 {
        lemma_concat_two("\n"@, "\n"@);
        assert("\n"@ =~= seq!['\n']);
        assert(blank("\n"@));
        lemma_words_blank("\n"@);
        lemma_words_blank(text);
    } else {
        lemma_fill_keeps_words(
            text,
            line_width,
            config.indentation as nat,
            config.hanging(),
        );
    }
}

proof fn lemma_fragments_keep_words(
    t: Seq<char>,
    starts: ParagraphStarts,
    mode: Hanging,
    st: SegState,
    line_width: nat,
)
    requires
        st.pos <= t.len(),
        t.len() < usize::MAX,
    ensures
        words(concat(fragments_of(paragraphs_from(t, starts, mode, st), line_width))) == words(
            t.subrange(st.pos as int, t.len() as int),
        ),
    decreases t.len() - st.pos,
{
    let ps = paragraphs_from(t, starts, mode, st);
    let rest = t.subrange(st.pos as int, t.len() as int);
    if st.pos == t.len() {
        assert(ps =~= Seq::<(ParagraphConfig, Seq<char>)>::empty());
        assert(rest =~= Seq::<char>::empty());
        assert(words(Seq::<char>::empty()) =~= Seq::<Seq<char>>::empty());
    } else {
        lemma_next_paragraph_shape(t, starts, mode, st);
        let (c, w, st2) = next_paragraph(t, starts, mode, st)->0;
        lemma_fragments_keep_words(t, starts, mode, st2, line_width);
        assert(ps[0] == (c, w));
        assert(ps.drop_first() =~= paragraphs_from(t, starts, mode, st2));
        let here = paragraph_fragments(c, w, line_width);
        let later = fragments_of(paragraphs_from(t, starts, mode, st2), line_width);
        lemma_concat_append(here, later);
        if c.ignore {
            assert(w.last() == t[st2.pos - 1]);
        }
        lemma_paragraph_keeps_words(c, w, line_width);
        lemma_words_append(concat(here), concat(later));
        let tail = t.subrange(st2.pos as int, t.len() as int);
        let gap = t.subrange(st.pos as int, st2.pos as int);
        assert(rest =~= gap + tail);
        if t[st.pos as int] == '\n' {
            assert(blank(gap)) by {
                assert forall|k: int| 0 <= k < gap.len() implies crate::text::ascii_whitespace(
                    #[trigger] gap[k],
                ) by {
                    assert(gap[k] == t[st.pos + k]);
                }
            }
            lemma_words_blank(gap);
            lemma_words_blank(w);
            lemma_words_append(gap, tail);
            assert(gap.last() == t[st2.pos - 1]);
        } else {
            if st2.pos == t.len() {
                assert(tail =~= Seq::<char>::empty());
                assert(rest =~= w);
                assert(words(Seq::<char>::empty()) =~= Seq::<Seq<char>>::empty());
                assert(words(w) + Seq::<Seq<char>>::empty() =~= words(w));
            } else {
                assert(w.last() == t[st2.pos - 1]);
                lemma_words_append(w, tail);
            }
        }
    }
}

/// Formatting keeps the words of the text, in order: the output, split on
/// whitespace, gives the same words as the input.
pub proof fn lemma_format_keeps_words(text: Seq<char>, line_width: nat, mode: Hanging, starts: ParagraphStarts)
    requires
        text.len() < usize::MAX,
    ensures
        words(concat(formatted(text, line_width, mode, starts))) == words(text),
{
    lemma_fragments_keep_words(text, starts, mode, seg_start(), line_width);
    assert(text.subrange(0, text.len() as int) =~= text);
}

/// Formatting an already formatted text again, at the same width and in the
/// same mode, keeps the words of the first result, in order.
pub proof fn lemma_reformat_keeps_words(text: Seq<char>, line_width: nat, mode: Hanging, starts: ParagraphStarts)
    requires
        text.len() < usize::MAX,
        concat(formatted(text, line_width, mode, starts)).len() < usize::MAX,
    ensures
        ({
            let once = concat(formatted(text, line_width, mode, starts));
            let twice = concat(formatted(once, line_width, mode, starts));
            words(twice) == words(once) && words(once) == words(text)
        }),
{
    let once = concat(formatted(text, line_width, mode, starts));
    lemma_format_keeps_words(text, line_width, mode, starts);
    lemma_format_keeps_words(once, line_width, mode, starts);
}

/// Lines break within the width where the words allow it: unless lines may
/// hang, every line that formatting fills (all but those of paragraphs kept as
/// they stand) is at most `line_width` columns wide, or holds a single word
/// that alone is wider.
pub proof fn lemma_format_within_width(text: Seq<char>, line_width: nat, mode: Hanging, starts: ParagraphStarts)
    requires
        text.len() < usize::MAX,
        mode != Hanging::Hang,
    ensures
        forall|i: int|
            #![trigger paragraphs(text, starts, mode)[i]]
            0 <= i < paragraphs(text, starts, mode).len() ==> {
                let (config, words_of_paragraph) = paragraphs(text, starts, mode)[i];
                config.hanging_indentation is None && forall|j: int|
                    0 <= j < fill(
                        words(words_of_paragraph),
                        line_width,
                        config.indentation as nat,
                        None,
                    ).len() ==> within_width(
                        #[trigger] fill(
                            words(words_of_paragraph),
                            line_width,
                            config.indentation as nat,
                            None,
                        )[j],
                        line_width,
                    )
            },
{
    let ps = paragraphs(text, starts, mode);
    lemma_paragraphs_no_hang(text, starts, mode, seg_start());
    assert forall|i: int| 0 <= i < ps.len() implies {
        let (config, words_of_paragraph) = #[trigger] ps[i];
        config.hanging_indentation is None && forall|j: int|
            0 <= j < fill(words(words_of_paragraph), line_width, config.indentation as nat, None).len()
                ==> within_width(
                #[trigger] fill(words(words_of_paragraph), line_width, config.indentation as nat, None)[j],
                line_width,
            )
    } by {
        let (config, w) = ps[i];
        lemma_fill_within_width(w, line_width, config.indentation as nat);
    }
}

/// Every line is at most `line_width` columns wide, or holds a single word.
pub open spec fn lines_within(lines: Seq<Seq<char>>, line_width: nat) -> bool {
    forall|i: int|
        0 <= i < lines.len() ==> (#[trigger] lines[i]).len() <= line_width || words(lines[i]).len()
            == 1
}

proof fn lemma_lines_within_append(a: Seq<Seq<char>>, b: Seq<Seq<char>>, line_width: nat)
    requires
        lines_within(a, line_width),
        lines_within(b, line_width),
    ensures
        lines_within(a + b, line_width),
{
    assert forall|i: int| 0 <= i < (a + b).len() implies (#[trigger] (a + b)[i]).len() <= line_width
        || words((a + b)[i]).len() == 1 by {
        if i < a.len() {
            assert((a + b)[i] == a[i]);
        } else {
            assert((a + b)[i] == b[i - a.len()]);
        }
    }
}

proof fn lemma_fragments_within_width(
    t: Seq<char>,
    starts: ParagraphStarts,
    mode: Hanging,
    st: SegState,
    line_width: nat,
)
    requires
        st.pos <= t.len(),
        t.len() < usize::MAX,
        mode != Hanging::Hang,
        starts.ignore_line is None,
        !st.next_is_ignore,
    ensures
        lines_within(
            text_lines(concat(fragments_of(paragraphs_from(t, starts, mode, st), line_width))),
            line_width,
        ),
    decreases t.len() - st.pos,
{
    let ps = paragraphs_from(t, starts, mode, st);
    if st.pos == t.len() {
        assert(ps =~= Seq::<(ParagraphConfig, Seq<char>)>::empty());
        assert(text_lines(Seq::<char>::empty()) =~= Seq::<Seq<char>>::empty());
    } else {
        reveal_strlit("\n");
        lemma_next_paragraph_progress(t, starts, mode, st);
        lemma_next_paragraph_plain(t, starts, mode, st);
        let (c, w, st2) = next_paragraph(t, starts, mode, st)->0;
        lemma_fragments_within_width(t, starts, mode, st2, line_width);
        assert(ps[0] == (c, w));
        assert(ps.drop_first() =~= paragraphs_from(t, starts, mode, st2));
        let here = paragraph_fragments(c, w, line_width);
        let later = fragments_of(paragraphs_from(t, starts, mode, st2), line_width);
        lemma_concat_append(here, later);
        lemma_paragraph_keeps_words(c, w, line_width);
        lemma_text_lines_append(concat(here), concat(later));
        if w.len() == 0 {
            lemma_concat_two("\n"@, "\n"@);
            assert("\n"@ =~= Seq::<char>::empty().push('\n'));
            lemma_text_lines_one(Seq::<char>::empty());
            assert(lines_within(text_lines(concat(here)), line_width)) by {
                assert(text_lines(concat(here))[0].len() == 0);
            }
        } else {
            assert(c.hanging() == None::<nat>);
            lemma_fill_text_lines(w, line_width, c.indentation as nat);
        }
        lemma_lines_within_append(text_lines(concat(here)), text_lines(concat(later)), line_width);
    }
}

/// Lines break within the width where the words allow it, in the formatted
/// text itself: unless lines may hang or some lines are kept as they stand,
/// every line of the output is at most `line_width` columns wide, or holds a
/// single word that alone is wider.
pub proof fn lemma_output_lines_within_width(
    text: Seq<char>,
    line_width: nat,
    mode: Hanging,
    starts: ParagraphStarts,
)
    requires
        text.len() < usize::MAX,
        mode != Hanging::Hang,
        starts.ignore_line is None,
    ensures
        lines_within(text_lines(concat(formatted(text, line_width, mode, starts))), line_width),
{
    lemma_fragments_within_width(text, starts, mode, seg_start(), line_width);
}

proof fn lemma_skip_run(t: Seq<char>, q: int, end: int)
    requires
        0 <= q <= end <= t.len(),
        forall|i: int| q <= i < end ==> t[i] == '\n',
        end == t.len() || t[end] != '\n',
    ensures
        skip_line_breaks(t, q) == end,
    decreases end - q,
{
    if q < end {
        lemma_skip_run(t, q + 1, end);
    }
}

/// However many blank lines follow one another, they become one: a run of
/// `n >= 1` line breaks at the cursor gives a single empty paragraph, which is
/// formatted as one line break, and the next paragraph starts after the run.
pub proof fn lemma_blank_lines_collapse(
    t: Seq<char>,
    starts: ParagraphStarts,
    mode: Hanging,
    st: SegState,
    n: nat,
    line_width: nat,
)
    requires
        n >= 1,
        st.pos + n <= t.len(),
        forall|i: int| st.pos <= i < st.pos + n ==> t[i] == '\n',
        st.pos + n == t.len() || t[(st.pos + n) as int] != '\n',
    ensures
        next_paragraph(t, starts, mode, st) matches Some((c, w, st2)) && st2.pos == st.pos + n
            && paragraph_fragments(c, w, line_width) == seq!["\n"@],
{
    lemma_skip_run(t, st.pos as int, (st.pos + n) as int);
}

} // verus!
