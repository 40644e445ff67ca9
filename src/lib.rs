//! Diff-friendly text formatting: lines are broken at sentence and clause
//! boundaries rather than at an arbitrary column.
use vstd::prelude::*;

pub mod filling;
pub mod laws;
pub mod paragraph_start;
pub mod paragraphs;
pub mod segmenting;
pub mod split_points;
pub mod text;
pub mod words;

pub use crate::paragraph_start::{LinePattern, ParagraphStarts};
pub use crate::paragraphs::{Hanging, Paragraph, ParagraphConfig, ParagraphsIter};
use crate::paragraphs::paragraph_fragments;
use crate::segmenting::{lemma_next_paragraph_progress, paragraphs, paragraphs_from};
use crate::text::views;

verus! {

/// The fragments of the paragraphs `ps`, each formatted at `line_width`
/// columns, in order.
pub open spec fn fragments_of(ps: Seq<(ParagraphConfig, Seq<char>)>, line_width: nat) -> Seq<Seq<char>>
    decreases ps.len(),
{
    if ps.len() == 0 {
        seq![]
    } else {
        paragraph_fragments(ps[0].0, ps[0].1, line_width) + fragments_of(ps.drop_first(), line_width)
    }
}

/// The fragments that format the text `t`.
pub open spec fn formatted(t: Seq<char>, line_width: nat, mode: Hanging, starts: ParagraphStarts) -> Seq<
    Seq<char>,
> {
    fragments_of(paragraphs(t, starts, mode), line_width)
}

/// Formats `text` so that lines break at sentence and clause boundaries, at
/// most `line_width` columns wide where the words allow it. The fragments,
/// joined, are the formatted text.
pub fn format<'a>(
    text: &'a str,
    line_width: usize,
    hanging_config: Hanging,
    paragraph_starts: &'a ParagraphStarts,
) -> (r: Vec<&'a str>)
    requires
        text@.len() < usize::MAX,
    ensures
        views(r@) == formatted(text@, line_width as nat, hanging_config, *paragraph_starts),
{
    let ghost t = text@;
    let ghost lw = line_width as nat;
    let ghost target = formatted(t, lw, hanging_config, *paragraph_starts);
    let mut result: Vec<&'a str> = Vec::new();
    let mut iter = ParagraphsIter::new(text, hanging_config, paragraph_starts);
    loop
        invariant
            t == text@,
            lw == line_width as nat,
            target == formatted(t, lw, hanging_config, *paragraph_starts),
            iter.wf(),
            iter.text() == t,
            t.len() < usize::MAX,
            iter.starts() == *paragraph_starts,
            iter.mode() == hanging_config,
            iter.state().pos <= t.len(),
            views(result@) + fragments_of(
                paragraphs_from(t, *paragraph_starts, hanging_config, iter.state()),
                lw,
            ) == target,
        decreases t.len() - iter.state().pos,
    {
        let ghost st = iter.state();
        proof {
            lemma_next_paragraph_progress(t, *paragraph_starts, hanging_config, st);
        }
        match iter.next() {
            None => {
                proof {
                    assert(paragraphs_from(t, *paragraph_starts, hanging_config, st) =~= Seq::<
                        (ParagraphConfig, Seq<char>),
                    >::empty());
                    assert(fragments_of(Seq::<(ParagraphConfig, Seq<char>)>::empty(), lw) =~= Seq::<
                        Seq<char>,
                    >::empty());
                    assert(views(result@) + Seq::<Seq<char>>::empty() =~= views(result@));
                }
                return result;
            },
            Some(paragraph) => {
                let ghost ps = paragraphs_from(t, *paragraph_starts, hanging_config, st);
                let ghost rest = paragraphs_from(t, *paragraph_starts, hanging_config, iter.state());
                proof {
                    assert(ps.drop_first() =~= rest);
                    assert(paragraph.words@.len() <= t.len());
                }
                let mut formatted_paragraph = paragraph.format(line_width);
                let ghost before = result@;
                let ghost added = formatted_paragraph@;
                result.append(&mut formatted_paragraph);
                proof {
                    assert(result@ =~= before + added);
                    assert(views(before + added) =~= views(before) + views(added));
                    assert(views(result@) =~= views(before) + paragraph_fragments(
                        paragraph.config,
                        paragraph.words@,
                        lw,
                    ));
                    assert(views(result@) + fragments_of(rest, lw) =~= views(before) + fragments_of(
                        ps,
                        lw,
                    ));
                }
            },
        }
    }
}

} // verus!
