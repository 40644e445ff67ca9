use fmtt::ParagraphStarts;

fn markdown_paragraph_starts() -> ParagraphStarts {
    ParagraphStarts::preset(true, false).expect("Preset regex is incorrect.")
}

fn latex_paragraph_starts() -> ParagraphStarts {
    ParagraphStarts::preset(false, true).expect("Preset regex is incorrect.")
}

#[test]
fn markdown_regex() {
    let ParagraphStarts {
        single_line: Some(single_line),
        multi_line: Some(multi_line),
        ignore_line: _,
    } = markdown_paragraph_starts()
    else {
        panic!("Should have regex.")
    };

    assert!(single_line.is_match("# Header\nblah"));
    assert!(single_line.is_match("###### Header\nblah"));
    assert!(!single_line.is_match("####### body\nblah"));
    assert!(single_line.is_match("---\nblah"));
    assert!(single_line.is_match("===\nblah"));
    assert!(single_line.is_match("----\nblah"));

    assert!(multi_line.is_match("- lorem\nblah"));
    assert!(multi_line.is_match("* lorem\nblah"));
    assert!(multi_line.is_match("1. lorem\nblah"));
}

#[test]
fn latex_regex() {
    let ParagraphStarts {
        single_line: _,
        multi_line: Some(multi_line),
        ignore_line: Some(ignore_line),
    } = latex_paragraph_starts()
    else {
        panic!("Should have regex.")
    };

    assert!(multi_line.is_match("\\Rightarrow x^2\n\\"));
    assert!(multi_line.is_match("\\input{intro}"));

    assert!(ignore_line.is_match("%blah\nblah"));
    assert!(ignore_line.is_match("% blah"));
}

#[test]
fn patterns_are_anchored_and_allow_leading_spaces() {
    let starts = markdown_paragraph_starts();
    assert!(starts.single_line_matches("   # Header"));
    assert!(!starts.single_line_matches("text # not a header"));
    assert!(starts.multi_line_matches("  - item"));
    assert!(!starts.multi_line_matches("a - b"));
    assert!(!starts.ignore_line_matches("% comment"));
}

#[test]
fn presets_hold_only_what_is_asked() {
    let none = ParagraphStarts::preset(false, false).unwrap();
    assert!(none.single_line.is_none());
    assert!(none.multi_line.is_none());
    assert!(none.ignore_line.is_none());
    let both = ParagraphStarts::preset(true, true).unwrap();
    assert!(both.single_line.is_some());
    assert!(both.multi_line_matches("\\item"));
    assert!(both.multi_line_matches("12. twelfth"));
    assert!(both.ignore_line_matches("%"));
    let default = ParagraphStarts::default();
    assert!(!default.single_line_matches("# Header"));
}

#[test]
fn malformed_pattern_is_an_error() {
    assert!(ParagraphStarts::try_from_str_slices(&["("], &[], &[]).is_err());
    assert!(ParagraphStarts::try_from_str_slices(&[], &["[a-"], &[]).is_err());
    assert!(ParagraphStarts::try_from_str_slices(&[], &[], &["a{2,1}"]).is_err());
    let ok = ParagraphStarts::try_from_str_slices(&["Q:", "A:"], &[], &[]).unwrap();
    assert!(ok.single_line_matches("A: yes"));
    assert!(!ok.single_line_matches("B: no"));
    assert!(ok.multi_line.is_none());
}
