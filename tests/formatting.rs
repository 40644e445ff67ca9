use fmtt::paragraphs::{paragraph_inner_format, Paragraph, ParagraphConfig, ParagraphsIter};
use fmtt::segmenting::decide_line;
use fmtt::{Hanging, ParagraphStarts};

fn format_with(text: &str, width: usize, hanging: Hanging, starts: &ParagraphStarts) -> String {
    fmtt::format(text, width, hanging, starts).join("")
}

fn default_format(text: &str, width: usize) -> String {
    format_with(text, width, Hanging::Disallow, &ParagraphStarts::default())
}

fn markdown() -> ParagraphStarts {
    ParagraphStarts::preset(true, false).unwrap()
}

fn latex() -> ParagraphStarts {
    ParagraphStarts::preset(false, true).unwrap()
}

fn words(s: &str) -> Vec<&str> {
    s.split_ascii_whitespace().collect()
}

const LOREM: &str = "Lorem ipsum dolor sit amet, consectetur adipiscing elit.";

#[test]
fn short_sentence_stays_on_one_line() {
    assert_eq!(default_format(LOREM, 80), format!("{LOREM}\n"));
}

#[test]
fn breaks_after_the_comma_when_too_wide() {
    assert_eq!(
        default_format(LOREM, 40),
        "Lorem ipsum dolor sit amet,\nconsectetur adipiscing elit.\n"
    );
}

#[test]
fn long_token_overflows_on_its_own_line() {
    let token = "x".repeat(110);
    let text = format!("Some words before {token} and after.");
    assert_eq!(
        default_format(&text, 80),
        format!("Some words before\n{token}\nand after.\n")
    );
}

#[test]
fn list_item_with_hanging_line_stays_one_paragraph() {
    let text = "Intro text.\n1. First item\n   continues here\n";
    assert_eq!(
        format_with(text, 80, Hanging::Hang, &markdown()),
        "Intro text.\n1. First item continues here\n"
    );
    assert_eq!(
        format_with(text, 80, Hanging::Disallow, &markdown()),
        "Intro text.\n1. First item\n   continues here\n"
    );
}

#[test]
fn hanging_lines_take_the_hanging_indentation() {
    let text = "- aaa bbb ccc ddd eee\n  fff ggg\n";
    assert_eq!(
        format_with(text, 20, Hanging::Hang, &markdown()),
        "- aaa bbb ccc ddd\n  eee fff ggg\n"
    );
    assert_eq!(
        format_with(text, 20, Hanging::Flatten, &markdown()),
        "- aaa bbb ccc ddd\neee fff ggg\n"
    );
    let starts = markdown();
    let mut iter = ParagraphsIter::new(text, Hanging::Hang, &starts);
    let first = iter.next().unwrap();
    assert_eq!(first.config.hanging_indentation, Some(2));
    assert_eq!(first.words, text);
    assert!(iter.next().is_none());
}

#[test]
fn blank_lines_collapse_to_one() {
    assert_eq!(default_format("a\n\nb", 80), "a\n\nb\n");
    assert_eq!(default_format("a\n\n\n\n\nb", 80), "a\n\nb\n");
    assert_eq!(default_format("\n\n\nBlah.\n\nBlah blah blah.\n\n", 80), "\nBlah.\n\nBlah blah blah.\n\n");
    assert_eq!(default_format("a\n\n\n", 80), "a\n\n");
}

#[test]
fn empty_and_blank_texts() {
    assert_eq!(default_format("", 80), "");
    assert_eq!(default_format("\n", 80), "\n");
    assert_eq!(default_format("   \n  ", 80), "");
}

#[test]
fn lines_join_and_whitespace_normalises() {
    assert_eq!(default_format("a\nb\tc   d", 80), "a b c d\n");
}

#[test]
fn indentation_is_kept_and_changes_split() {
    assert_eq!(default_format("  a\n  b\n", 80), "  a b\n");
    assert_eq!(default_format("a\n  b\n", 80), "a\n  b\n");
    assert_eq!(format_with("a\n  b\n", 80, Hanging::Flatten, &ParagraphStarts::default()), "a b\n");
}

#[test]
fn wide_indentation_is_padded_in_full() {
    let pad = " ".repeat(150);
    let text = format!("{pad}word");
    assert_eq!(default_format(&text, 80), format!("{pad}word\n"));
}

#[test]
fn markdown_headings_stand_alone() {
    let text = "# Title\nBody text here.\n";
    assert_eq!(format_with(text, 80, Hanging::Disallow, &markdown()), "# Title\nBody text here.\n");
    assert_eq!(default_format(text, 80), "# Title Body text here.\n");
}

#[test]
fn latex_comments_are_kept_as_they_are() {
    let text = "%  a   comment\nSome text\n";
    assert_eq!(format_with(text, 80, Hanging::Disallow, &latex()), "%  a   comment\nSome text\n");
    let text = "Some text\n\\item next\n";
    assert_eq!(format_with(text, 80, Hanging::Disallow, &latex()), "Some text\n\\item next\n");
}

#[test]
fn sentence_end_outranks_clause_end() {
    let text = "One two, three. Four five six seven";
    assert_eq!(default_format(text, 20), "One two, three.\nFour five six seven\n");
}

#[test]
fn opening_bracket_breaks_before_it() {
    let text = "alpha beta gamma (delta epsilon";
    assert_eq!(default_format(text, 24), "alpha beta gamma\n(delta epsilon\n");
}

#[test]
fn tiny_width_gives_one_word_per_line() {
    assert_eq!(default_format("aa bb cc", 1), "aa\nbb\ncc\n");
    assert_eq!(default_format("aa bb cc", 0), "aa\nbb\ncc\n");
}

#[test]
fn content_is_preserved() {
    let text = "As a matter of fact (or, rather as factually as I know or to the extent of my knowledge), some people (maybe quite a lot of people, or just a few people, depending on who you ask) really love over-using parentheses (I might be one of those people, oh no what have I done…).";
    for width in [1, 10, 20, 40, 80, 200] {
        let out = default_format(text, width);
        assert_eq!(words(&out), words(text));
    }
}

#[test]
fn reformatting_keeps_the_words() {
    let text = "First, I updated the `DATASET_URL` environment variable for the ML container in `k8s-tasks.yml` to point to the second dataset rather than the first.\n\nBut, it chokes.";
    let once = default_format(text, 40);
    let twice = default_format(&once, 40);
    assert_eq!(words(&twice), words(&once));
    assert_eq!(twice, once);
}

#[test]
fn lines_stay_within_width() {
    let text = "For a color with linear red, green, blue values $r,g,b\\in[0,1]$, hue $h\\in[0,360)$, saturation $s\\in[0,1]$, lightness $l\\in[0,1]$, and grayscale $p\\in[0,1]$:";
    for width in [20, 30, 50, 80] {
        let out = default_format(text, width);
        for line in out.lines() {
            assert!(line.chars().count() <= width || words(line).len() == 1, "{line:?}");
        }
    }
}

#[test]
fn paragraph_format_cases() {
    let ignored = Paragraph {
        config: ParagraphConfig { ignore: true, indentation: 0, hanging_indentation: None },
        words: "  kept   as is\n",
    };
    assert_eq!(ignored.format(5), vec!["  kept   as is\n"]);
    let empty = Paragraph { config: ParagraphConfig::default(), words: "" };
    assert_eq!(empty.format(80), vec!["\n"]);
    let plain = Paragraph {
        config: ParagraphConfig { ignore: false, indentation: 2, hanging_indentation: None },
        words: "  a b",
    };
    assert_eq!(plain.format(80), vec!["  ", "a", " ", "b", "\n"]);
}

#[test]
fn inner_format_fills_words() {
    let config = ParagraphConfig { ignore: false, indentation: 0, hanging_indentation: Some(3) };
    let out = paragraph_inner_format(&config, 5, &vec!["ab", "cd", "ef"]);
    assert_eq!(out.join(""), "ab cd\n   ef\n");
    assert!(paragraph_inner_format(&config, 5, &vec![]).is_empty());
}

#[test]
fn line_decisions() {
    // The first line never ends a paragraph, but records what it matched.
    let o = decide_line(true, false, false, true, true, true);
    assert!(!o.ends && o.next_is_single && o.next_is_ignore);
    // A pending ignore ends the paragraph, which is kept as it stands.
    let o = decide_line(false, true, true, false, false, false);
    assert!(o.ends && o.ignore && o.next_is_single && !o.next_is_ignore);
    let o = decide_line(false, false, false, true, false, false);
    assert!(o.ends && !o.ignore && o.next_is_ignore);
    let o = decide_line(false, true, false, false, false, false);
    assert!(o.ends && !o.next_is_single);
    let o = decide_line(false, false, false, false, true, false);
    assert!(o.ends && o.next_is_single);
    let o = decide_line(false, false, false, false, false, true);
    assert!(o.ends && !o.next_is_single);
    let o = decide_line(false, false, false, false, false, false);
    assert!(!o.ends);
}

#[test]
fn hanging_lines_keep_the_first_lines_leftovers() {
    let text = "Finished. two three x\n               y";
    assert_eq!(
        format_with(text, 20, Hanging::Hang, &ParagraphStarts::default()),
        "Finished.\n               two three\n               x y\n"
    );
}

#[test]
fn a_line_may_be_exactly_as_wide_as_the_width() {
    assert_eq!(default_format("ééééé ééééé", 11), "ééééé ééééé\n");
    assert_eq!(default_format("ééééé ééééé", 10), "ééééé\nééééé\n");
    assert_eq!(default_format("  ab cd", 7), "  ab cd\n");
    assert_eq!(default_format("  ab cd", 6), "  ab\n  cd\n");
}

#[test]
fn multibyte_text_is_sliced_by_characters() {
    let text = "Ça va? Très bien… 你好，世界。\n# Tête\nCorps";
    assert_eq!(
        format_with(text, 80, Hanging::Disallow, &markdown()),
        "Ça va? Très bien… 你好，世界。\n# Tête\nCorps\n"
    );
    assert_eq!(
        default_format("Ça va? Très bien… 你好，世界。", 12),
        "Ça va?\nTrès bien…\n你好，世界。\n"
    );
}
