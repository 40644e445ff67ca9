//! Classification of a whitespace-delimited word by the role it plays in a
//! sentence.
use vstd::prelude::*;

use crate::text::{chars_eq_str, chars_of};

verus! {

/// The role of a word at a possible line break.
#[derive(Copy, Clone, Debug, PartialEq, Eq, Structural)]
pub enum SentencePosition {
    /// Start of a sub-sentence.
    SubStart,
    /// End of a sentence.
    End,
    /// End of a sub-sentence.
    SubEnd,
    /// Word to connect different parts of a sentence.
    ConnectionWord,
    /// Not a special sentence position.
    Other,
}

impl Default for SentencePosition {
    fn default() -> (r: Self)
        ensures
            r == SentencePosition::Other,
    {
        SentencePosition::Other
    }
}

/// Whether `c` has the Unicode `Uppercase` property.
pub uninterp spec fn uppercase(c: char) -> bool;

/// Whether `c` has the Unicode `Lowercase` property.
pub uninterp spec fn lowercase(c: char) -> bool;

/// Relies on `char::is_uppercase`, which depends on the character alone.
#[verifier::external_body]
fn char_is_uppercase(c: char) -> (r: bool)
    ensures
        r == uppercase(c),
{
    c.is_uppercase()
}

/// Relies on `char::is_lowercase`, which depends on the character alone.
#[verifier::external_body]
fn char_is_lowercase(c: char) -> (r: bool)
    ensures
        r == lowercase(c),
{
    c.is_lowercase()
}

/// The longest run of letters that an abbreviation may hold between periods.
pub const MAX_ABBR_LEN: usize = 5;

pub open spec fn sentence_separator(c: char) -> bool {
    c == '.' || c == '!' || c == '?' || c == '…' || c == '。' || c == '？' || c == '！'
}

pub open spec fn sub_sentence_separator(c: char) -> bool {
    c == ',' || c == ';' || c == ':' || c == '，' || c == '：' || c == '；' || c == ')' || c == '）'
        || c == '}' || c == '｝' || c == ']' || c == '］'
}

pub open spec fn sub_sentence_start(c: char) -> bool {
    c == '(' || c == '（' || c == '{' || c == '〖' || c == '『' || c == '｛' || c == '[' || c == '「'
        || c == '【' || c == '〔' || c == '［' || c == '〚' || c == '〘' || c == '@' || c == '#'
        || c == '$' || c == '%'
}

pub open spec fn connection_word(w: Seq<char>) -> bool {
    w == "and"@ || w == "or"@ || w == "but"@ || w == "except"@ || w == "that"@ || w == "which"@
        || w == "who"@ || w == "where"@ || w == "when"@ || w == "while"@ || w == "though"@
        || w == "although"@ || w == "in"@ || w == "on"@ || w == "of"@ || w == "by"@ || w == "for"@
        || w == "from"@ || w == "to"@ || w == "through"@ || w == "with"@ || w == "via"@
}

/// What the abbreviation heuristic sees of a character.
#[derive(Copy, Clone, Debug, PartialEq, Eq, Structural)]
pub enum CharCase {
    Period,
    Upper,
    Lower,
    Neither,
}

/// The case of `c`: a period, an uppercase letter, a lowercase letter, or
/// neither.
pub open spec fn case_of(c: char) -> CharCase {
    if c == '.' {
        CharCase::Period
    } else if uppercase(c) {
        CharCase::Upper
    } else if lowercase(c) {
        CharCase::Lower
    } else {
        CharCase::Neither
    }
}

/// Whether the cases `cs` continue an abbreviation, given that the current run
/// of letters since the last period is `run` long (0 right after a period):
/// each run starts with an uppercase letter, goes on with lowercase ones, is
/// at most `MAX_ABBR_LEN` long, and two periods never touch (the word's own
/// final period follows the last run, so that run must not be empty).
pub open spec fn abbreviation_tail(cs: Seq<CharCase>, run: int) -> bool
    decreases cs.len(),
{
    if cs.len() == 0 {
        run != 0
    } else {
        let rest = cs.drop_first();
        match cs[0] {
            CharCase::Period => run != 0 && abbreviation_tail(rest, 0),
            CharCase::Upper => if run == 0 {
                abbreviation_tail(rest, 1)
            } else {
                false
            },
            CharCase::Lower => run != 0 && run < MAX_ABBR_LEN && abbreviation_tail(rest, run + 1),
            CharCase::Neither => false,
        }
    }
}

/// Whether the cases `cs`, those of a word without its final period, have the
/// shape of an abbreviation: an uppercase letter first, then `abbreviation_tail`.
pub open spec fn abbreviation_shape(cs: Seq<CharCase>) -> bool {
    cs.len() > 0 && cs[0] == CharCase::Upper && abbreviation_tail(cs.drop_first(), 1)
}

/// Whether `stem`, a word without its final period, reads as an abbreviation.
pub open spec fn abbreviation(stem: Seq<char>) -> bool {
    abbreviation_shape(stem.map_values(|c: char| case_of(c)))
}

/// The sentence position of the word `w`.
pub open spec fn sentence_position(w: Seq<char>) -> SentencePosition {
    if w.len() > 0 && sub_sentence_start(w[0]) {
        SentencePosition::SubStart
    } else if w.len() > 0 && !(w.last() == '.' && abbreviation(w.drop_last())) && sentence_separator(
        w.last(),
    ) {
        SentencePosition::End
    } else if w.len() > 0 && !(w.last() == '.' && abbreviation(w.drop_last()))
        && sub_sentence_separator(w.last()) {
        SentencePosition::SubEnd
    } else if connection_word(w) {
        SentencePosition::ConnectionWord
    } else {
        SentencePosition::Other
    }
}

/// Whether a word ends with a split point.
/// Handles abbreviations using heuristics.
pub fn word_sentence_position(word: &str) -> (r: SentencePosition)
    ensures
        r == sentence_position(word@),
{
    let cs = chars_of(word);
    let n = cs.len();
    if n > 0 && is_sub_sentence_start(cs[0]) {
        return SentencePosition::SubStart;
    }
    if n > 0 {
        let last = cs[n - 1];
        let abbreviated = last == '.' && abbreviation_chars(&cs, n - 1);
        proof {
            assert(cs@.subrange(0, n - 1) =~= word@.drop_last());
        }
        if !abbreviated && is_sentence_separator(last) {
            return SentencePosition::End;
        }
        if !abbreviated && is_sub_sentence_separator(last) {
            return SentencePosition::SubEnd;
        }
    }
    if is_connection_word(word) {
        SentencePosition::ConnectionWord
    } else {
        SentencePosition::Other
    }
}

/// The case of `c`.
fn char_case(c: char) -> (r: CharCase)
    ensures
        r == case_of(c),
{
    if c == '.' {
        CharCase::Period
    } else if char_is_uppercase(c) {
        CharCase::Upper
    } else if char_is_lowercase(c) {
        CharCase::Lower
    } else {
        CharCase::Neither
    }
}

/// Whether the first `len` characters of `cs` read as an abbreviation.
fn abbreviation_chars(cs: &Vec<char>, len: usize) -> (r: bool)
    requires
        len <= cs@.len(),
    ensures
        r == abbreviation(cs@.subrange(0, len as int)),
{
    let ghost stem = cs@.subrange(0, len as int);
    let mut cases: Vec<CharCase> = Vec::new();
    let mut i: usize = 0;
    while i < len
        invariant
            i <= len <= cs@.len(),
            stem == cs@.subrange(0, len as int),
            cases@ == stem.subrange(0, i as int).map_values(|c: char| case_of(c)),
        decreases len - i,
    {
        let c = char_case(cs[i]);
        cases.push(c);
        i += 1;
        proof {
            assert(cases@ =~= stem.subrange(0, i as int).map_values(|c: char| case_of(c)));
        }
    }
    proof {
        assert(stem.subrange(0, len as int) =~= stem);
    }
    is_abbreviation_shape(&cases)
}

/// Whether the cases `cases` have the shape of an abbreviation.
pub fn is_abbreviation_shape(cases: &[CharCase]) -> (r: bool)
    ensures
        r == abbreviation_shape(cases@),
{
    let len = cases.len();
    if len == 0 || cases[0] != CharCase::Upper {
        return false;
    }
    let mut run: usize = 1;
    let mut i: usize = 1;
    while i < len
        invariant
            1 <= i <= len == cases@.len(),
            run <= MAX_ABBR_LEN,
            abbreviation_shape(cases@) == abbreviation_tail(cases@.subrange(i as int, len as int), run as int),
        decreases len - i,
    {
        let c = cases[i];
        proof {
            let t = cases@.subrange(i as int, len as int);
            assert(t[0] == c);
            assert(t.drop_first() =~= cases@.subrange(i + 1, len as int));
        }
        match c {
            CharCase::Period => {
                if run == 0 {
                    return false;
                }
                run = 0;
            },
            CharCase::Upper => {
                if run != 0 {
                    return false;
                }
                run = 1;
            },
            CharCase::Lower => {
                if run == 0 || run >= MAX_ABBR_LEN {
                    return false;
                }
                run += 1;
            },
            CharCase::Neither => {
                return false;
            },
        }
        i += 1;
    }
    proof {
        assert(cases@.drop_first() =~= cases@.subrange(1, len as int));
        assert(cases@.subrange(len as int, len as int).len() == 0);
    }
    run != 0
}

/// Whether the word `stem`, taken without its final period, reads as an
/// abbreviation (`Mr`, `Ph.D`, `U.S`).
pub fn is_abbreviation(stem: &str) -> (r: bool)
    ensures
        r == abbreviation(stem@),
{
    let cs = chars_of(stem);
    proof {
        assert(cs@.subrange(0, cs@.len() as int) =~= cs@);
    }
    abbreviation_chars(&cs, cs.len())
}

pub fn is_sentence_separator(c: char) -> (r: bool)
    ensures
        r == sentence_separator(c),
{
    match c {
        '.' | '!' | '?' | '…' | '。' | '？' | '！' => true,
        _ => false,
    }
}

pub fn is_sub_sentence_separator(c: char) -> (r: bool)
    ensures
        r == sub_sentence_separator(c),
{
    match c {
        ',' | ';' | ':' | '，' | '：' | '；' | ')' | '）' | '}' | '｝' | ']' | '］' => true,
        _ => false,
    }
}

pub fn is_sub_sentence_start(c: char) -> (r: bool)
    ensures
        r == sub_sentence_start(c),
{
    match c {
        '(' | '（' | '{' | '〖' | '『' | '｛' | '[' | '「' | '【' | '〔' | '［' | '〚' | '〘' | '@'
        | '#' | '$' | '%' => true,
        _ => false,
    }
}

pub fn is_connection_word(word: &str) -> (r: bool)
    ensures
        r == connection_word(word@),
{
    let cs = chars_of(word);
    let w = cs.as_slice();
    chars_eq_str(w, "and") || chars_eq_str(w, "or") || chars_eq_str(w, "but") || chars_eq_str(
        w,
        "except",
    ) || chars_eq_str(w, "that") || chars_eq_str(w, "which") || chars_eq_str(w, "who")
        || chars_eq_str(w, "where") || chars_eq_str(w, "when") || chars_eq_str(w, "while")
        || chars_eq_str(w, "though") || chars_eq_str(w, "although") || chars_eq_str(w, "in")
        || chars_eq_str(w, "on") || chars_eq_str(w, "of") || chars_eq_str(w, "by")
        || chars_eq_str(w, "for") || chars_eq_str(w, "from") || chars_eq_str(w, "to")
        || chars_eq_str(w, "through") || chars_eq_str(w, "with") || chars_eq_str(w, "via")
}

} // verus!
