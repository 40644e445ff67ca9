use fmtt::paragraphs::first_line_indentation;
use fmtt::split_points::{SplitPoint, SplitPoints};
use fmtt::words::{
    is_abbreviation, is_abbreviation_shape, CharCase, is_connection_word, is_sentence_separator, is_sub_sentence_separator,
    is_sub_sentence_start, word_sentence_position, SentencePosition,
    SentencePosition::{End, Other, SubEnd, SubStart},
};

#[test]
fn split_point_words() {
    assert_eq!(SubStart, word_sentence_position("(though"));
    assert_eq!(SubStart, word_sentence_position("[1"));
    assert_eq!(SubEnd, word_sentence_position("and,"));
    assert_eq!(SubEnd, word_sentence_position("Or,"));
    // A word that opens with a bracket starts a sub-sentence, whatever its end.
    assert_eq!(SubStart, word_sentence_position("[1]"));
    assert_eq!(SubEnd, word_sentence_position("so)"));
    assert_eq!(SubEnd, word_sentence_position("好，"));
    assert_eq!(End, word_sentence_position("A.."));
    assert_eq!(End, word_sentence_position("Ph.."));
    assert_eq!(End, word_sentence_position("A..Z."));
    assert_eq!(End, word_sentence_position("Black)."));
    assert_eq!(End, word_sentence_position("I18n."));
    assert_eq!(End, word_sentence_position("A.n."));
    assert_eq!(End, word_sentence_position("Program."));
    assert_eq!(End, word_sentence_position("HMM."));
    assert_eq!(SubStart, word_sentence_position("(i.e."));
    assert_eq!(Other, word_sentence_position("Mr."));
    assert_eq!(Other, word_sentence_position("Ph.D."));
    assert_eq!(Other, word_sentence_position("A.K.A."));
    assert_eq!(Other, word_sentence_position("U.S."));
    assert_eq!(Other, word_sentence_position("Assoc."));
    assert_eq!(Other, word_sentence_position("Prof."));
}

#[test]
fn correct_indentation() {
    assert_eq!(first_line_indentation("blah"), 0);
    assert_eq!(first_line_indentation("blah\n"), 0);
    assert_eq!(first_line_indentation("blah blah\n"), 0);
    assert_eq!(first_line_indentation("blah blah \n"), 0);

    assert_eq!(first_line_indentation("    \n"), 0);
    assert_eq!(first_line_indentation("    a\n"), 4);
    assert_eq!(first_line_indentation("    "), 0);

    assert_eq!(first_line_indentation("   \n"), 0);
    assert_eq!(first_line_indentation("   a\n"), 3);
    assert_eq!(first_line_indentation("   "), 0);
}

#[test]
fn indentation_edge_cases() {
    assert_eq!(first_line_indentation(""), 0);
    assert_eq!(first_line_indentation("\ta"), 0);
    assert_eq!(first_line_indentation("  \ta"), 2);
    assert_eq!(first_line_indentation("\n   a"), 0);
}

#[test]
fn abbreviation_heuristic() {
    assert!(is_abbreviation("Mr"));
    assert!(is_abbreviation("Ph.D"));
    assert!(is_abbreviation("Assoc"));
    assert!(!is_abbreviation("mr"));
    assert!(!is_abbreviation("Associ"));
    assert!(!is_abbreviation("MR"));
    assert!(!is_abbreviation("A..B"));
    assert!(!is_abbreviation("A."));
    assert!(!is_abbreviation("Ph."));
    assert!(!is_abbreviation(""));
    assert!(is_abbreviation("É"));
    assert!(is_abbreviation("Éé"));
}

#[test]
fn character_classes() {
    for c in ['.', '!', '?', '…', '。', '？', '！'] {
        assert!(is_sentence_separator(c));
    }
    assert!(!is_sentence_separator(','));
    assert!(!is_sentence_separator('，'));
    for c in [',', ';', ':', '：', '；', ')', '）', '}', '｝', ']', '］'] {
        assert!(is_sub_sentence_separator(c));
    }
    assert!(!is_sub_sentence_separator('('));
    for c in ['(', '（', '{', '〖', '『', '｛', '[', '「', '【', '〔', '［', '〚', '〘', '@', '#', '$', '%'] {
        assert!(is_sub_sentence_start(c));
    }
    assert!(!is_sub_sentence_start(')'));
}

#[test]
fn connection_words() {
    for w in ["and", "or", "but", "which", "with", "through", "via", "although"] {
        assert!(is_connection_word(w));
        assert_eq!(word_sentence_position(w), SentencePosition::ConnectionWord);
    }
    assert!(!is_connection_word("And"));
    assert!(!is_connection_word("band"));
    assert!(!is_connection_word(""));
    assert_eq!(word_sentence_position("hello"), SentencePosition::Other);
    assert_eq!(word_sentence_position(""), SentencePosition::Other);
    assert_eq!(SentencePosition::default(), SentencePosition::Other);
}

#[test]
fn split_points_priority_and_taking() {
    let mut points = SplitPoints::new();
    assert!(points.next().is_none());
    points.register_split("one", 4, 1);
    points.register_split("and", 4, 2);
    points.register_split("two,", 5, 3);
    points.register_split("(three", 7, 4);
    assert_eq!(points.connection_word.index, 2);
    assert_eq!(points.connection_word.n_char_after, 12);
    assert_eq!(points.sub_end.index, 3);
    assert_eq!(points.sub_end.n_char_after, 7);
    assert_eq!(points.sub_start.index, 3);
    assert_eq!(points.sub_start.n_char_after, 7);
    let best: SplitPoint = points.next().unwrap();
    assert_eq!((best.index, best.n_char_after), (3, 7));
    // Both candidates at the chosen break are gone, and so is the one before.
    assert!(points.next().is_none());
    points.register_split("end.", 5, 2);
    assert_eq!((points.end.index, points.end.n_char_after), (2, 0));
    points.reset();
    assert_eq!(points.end.index, 0);
    assert!(points.next().is_none());
}

#[test]
fn parts_in_priority_order() {
    let mut points = SplitPoints::new();
    points.end.index = 1;
    points.sub_end.index = 2;
    points.sub_start.index = 3;
    points.connection_word.index = 4;
    let parts = points.parts_ordered_mut();
    let order: Vec<usize> = parts.iter().map(|p| p.index).collect();
    assert_eq!(order, vec![1, 2, 3, 4]);
}

#[test]
fn abbreviation_shapes() {
    let (p, u, l, n) = (CharCase::Period, CharCase::Upper, CharCase::Lower, CharCase::Neither);
    assert!(is_abbreviation_shape(&[u]));
    assert!(is_abbreviation_shape(&[u, l, p, u]));
    assert!(is_abbreviation_shape(&[u, p, u, p, u]));
    assert!(is_abbreviation_shape(&[u, l, l, l, l]));
    assert!(!is_abbreviation_shape(&[u, l, l, l, l, l]));
    assert!(!is_abbreviation_shape(&[u, p, p, u]));
    assert!(!is_abbreviation_shape(&[u, p]));
    assert!(!is_abbreviation_shape(&[u, l, p]));
    assert!(!is_abbreviation_shape(&[u, p, l]));
    assert!(!is_abbreviation_shape(&[u, u]));
    assert!(!is_abbreviation_shape(&[u, n]));
    assert!(!is_abbreviation_shape(&[l]));
    assert!(!is_abbreviation_shape(&[]));
}
