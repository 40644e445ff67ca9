//! Patterns that recognise lines which start paragraphs of their own.
use vstd::prelude::*;
use vstd::string::*;

use crate::text::views;

verus! {

#[verifier::external_type_specification]
#[verifier::external_body]
pub struct ExRegex(regex::Regex);

#[verifier::external_type_specification]
#[verifier::external_body]
pub struct ExRegexError(regex::Error);

/// Whether `pattern` compiles as a regular expression.
pub uninterp spec fn regex_compiles(pattern: Seq<char>) -> bool;

/// Whether the regular expression `pattern` matches somewhere in `haystack`.
pub uninterp spec fn regex_finds(pattern: Seq<char>, haystack: Seq<char>) -> bool;

/// A compiled regular expression together with the pattern it was compiled
/// from. Only `compile` builds one, so `regex` always comes from `source`.
#[derive(Debug)]
pub struct LinePattern {
    source: String,
    regex: regex::Regex,
}

impl View for LinePattern {
    type V = Seq<char>;

    closed spec fn view(&self) -> Seq<char> {
        self.source@
    }
}

/// Relies on `regex::Regex::new`: it compiles `source`, or fails, depending on
/// `source` alone.
#[verifier::external_body]
fn compile(source: String) -> (r: Result<LinePattern, regex::Error>)
    ensures
        r is Ok <==> regex_compiles(source@),
        r matches Ok(p) ==> p@ == source@,
{
    match regex::Regex::new(&source) {
        Ok(regex) => Ok(LinePattern { source, regex }),
        Err(e) => Err(e),
    }
}

impl LinePattern {
    /// Relies on `regex::Regex::is_match`: whether the pattern that the regex
    /// was compiled from matches somewhere in `text`.
    #[verifier::external_body]
    fn finds(&self, text: &str) -> (r: bool)
        ensures
            r == regex_finds(self@, text@),
    {
        self.regex.is_match(text)
    }

    /// Whether the pattern matches somewhere in `text`.
    pub fn is_match(&self, text: &str) -> (r: bool)
        ensures
            r == regex_finds(self@, text@),
    {
        self.finds(text)
    }
}

/// Whether `pattern` is present and matches `text`.
pub open spec fn pattern_matches(pattern: Option<LinePattern>, text: Seq<char>) -> bool {
    pattern matches Some(p) && regex_finds(p@, text)
}

/// The pattern that accepts, after leading spaces, any of `alternatives`.
pub open spec fn or_pattern(alternatives: Seq<Seq<char>>) -> Seq<char> {
    "^ *(?:"@ + joined(alternatives) + ")"@
}

/// `alternatives`, separated by `|`.
pub open spec fn joined(alternatives: Seq<Seq<char>>) -> Seq<char>
    decreases alternatives.len(),
{
    if alternatives.len() == 0 {
        seq![]
    } else if alternatives.len() == 1 {
        alternatives[0]
    } else {
        joined(alternatives.drop_last()) + "|"@ + alternatives.last()
    }
}

/// Regex's for determining special paragraph starts.
#[derive(Debug)]
pub struct ParagraphStarts {
    pub single_line: Option<LinePattern>,
    pub multi_line: Option<LinePattern>,
    pub ignore_line: Option<LinePattern>,
}

impl Default for ParagraphStarts {
    fn default() -> (r: Self)
        ensures
            r.single_line is None,
            r.multi_line is None,
            r.ignore_line is None,
    {
        ParagraphStarts { single_line: None, multi_line: None, ignore_line: None }
    }
}

/// What compiling the alternatives `alternatives` into one pattern gives:
/// nothing when there are none, else whether the pattern compiles.
pub open spec fn compiled(alternatives: Seq<Seq<char>>, r: Option<LinePattern>) -> bool {
    if alternatives.len() == 0 {
        r is None
    } else {
        r matches Some(p) && p@ == or_pattern(alternatives)
    }
}

/// Whether the alternatives `alternatives` give a pattern that compiles, or
/// none.
pub open spec fn compiles(alternatives: Seq<Seq<char>>) -> bool {
    alternatives.len() == 0 || regex_compiles(or_pattern(alternatives))
}

pub open spec fn markdown_single_line_starts() -> Seq<Seq<char>> {
    seq!["#{1,6} "@, "---+[$\n]"@, "===+[$\n]"@]
}

pub open spec fn markdown_multi_line_starts() -> Seq<Seq<char>> {
    seq!["[-*] "@, "\\d+\\. "@]
}

pub open spec fn latex_multi_line_starts() -> Seq<Seq<char>> {
    seq!["\\\\"@]
}

pub open spec fn latex_ignore_line_starts() -> Seq<Seq<char>> {
    seq!["%"@]
}

/// The three lists of alternatives that the presets give.
pub open spec fn preset_starts(markdown_friendly: bool, latex_friendly: bool) -> (
    Seq<Seq<char>>,
    Seq<Seq<char>>,
    Seq<Seq<char>>,
) {
    let md_single = if markdown_friendly {
        markdown_single_line_starts()
    } else {
        seq![]
    };
    let md_multi = if markdown_friendly {
        markdown_multi_line_starts()
    } else {
        seq![]
    };
    let tex_multi = if latex_friendly {
        latex_multi_line_starts()
    } else {
        seq![]
    };
    let tex_ignore = if latex_friendly {
        latex_ignore_line_starts()
    } else {
        seq![]
    };
    (md_single, md_multi + tex_multi, tex_ignore)
}

impl ParagraphStarts {
    pub fn single_line_matches(&self, text: &str) -> (r: bool)
        ensures
            r == pattern_matches(self.single_line, text@),
    {
        match &self.single_line {
            Some(p) => p.finds(text),
            None => false,
        }
    }

    pub fn multi_line_matches(&self, text: &str) -> (r: bool)
        ensures
            r == pattern_matches(self.multi_line, text@),
    {
        match &self.multi_line {
            Some(p) => p.finds(text),
            None => false,
        }
    }

    pub fn ignore_line_matches(&self, text: &str) -> (r: bool)
        ensures
            r == pattern_matches(self.ignore_line, text@),
    {
        match &self.ignore_line {
            Some(p) => p.finds(text),
            None => false,
        }
    }

    /// Generate using configuration presets: Markdown headings and rules are
    /// single-line paragraphs and list items start paragraphs; LaTeX commands
    /// start paragraphs and comments are kept as they are.
    pub fn preset(markdown_friendly: bool, latex_friendly: bool) -> (r: Result<Self, regex::Error>)
        ensures
            ({
                let (s, m, i) = preset_starts(markdown_friendly, latex_friendly);
                &&& r is Ok <==> compiles(s) && compiles(m) && compiles(i)
                &&& r matches Ok(p) ==> compiled(s, p.single_line) && compiled(m, p.multi_line)
                    && compiled(i, p.ignore_line)
            }),
    {
        let mut single_line: Vec<&str> = Vec::new();
        let mut multi_line: Vec<&str> = Vec::new();
        let mut ignore_line: Vec<&str> = Vec::new();
        if markdown_friendly {
            single_line.push("#{1,6} ");
            single_line.push("---+[$\n]");
            single_line.push("===+[$\n]");
            multi_line.push("[-*] ");
            multi_line.push("\\d+\\. ");
        }
        if latex_friendly {
            multi_line.push("\\\\");
            ignore_line.push("%");
        }
        proof {
            let (s, m, i) = preset_starts(markdown_friendly, latex_friendly);
            assert(views(single_line@) =~= s);
            assert(views(multi_line@) =~= m);
            assert(views(ignore_line@) =~= i);
        }
        Self::try_from_str_slices(single_line.as_slice(), multi_line.as_slice(), ignore_line.as_slice())
    }

    /// Compiles each non-empty list of alternatives into one pattern.
    pub fn try_from_str_slices(single_line: &[&str], multi_line: &[&str], ignore_line: &[&str]) -> (r:
        Result<Self, regex::Error>)
        ensures
            r is Ok <==> compiles(views(single_line@)) && compiles(views(multi_line@)) && compiles(
                views(ignore_line@),
            ),
            r matches Ok(p) ==> compiled(views(single_line@), p.single_line) && compiled(
                views(multi_line@),
                p.multi_line,
            ) && compiled(views(ignore_line@), p.ignore_line),
    {
        let single_line = match compile_alternatives(single_line) {
            Ok(p) => p,
            Err(e) => return Err(e),
        };
        let multi_line = match compile_alternatives(multi_line) {
            Ok(p) => p,
            Err(e) => return Err(e),
        };
        let ignore_line = match compile_alternatives(ignore_line) {
            Ok(p) => p,
            Err(e) => return Err(e),
        };
        Ok(Self { single_line, multi_line, ignore_line })
    }
}

/// One pattern for all of `alternatives`, or none when there are none.
fn compile_alternatives(alternatives: &[&str]) -> (r: Result<Option<LinePattern>, regex::Error>)
    ensures
        r is Ok <==> compiles(views(alternatives@)),
        r matches Ok(p) ==> compiled(views(alternatives@), p),
{
    if alternatives.len() == 0 {
        Ok(None)
    } else {
        match compile(or_regex_from_strs(alternatives)) {
            Ok(p) => Ok(Some(p)),
            Err(e) => Err(e),
        }
    }
}

/// Leading spaces are allowed.
fn or_regex_from_strs(slice: &[&str]) -> (r: String)
    ensures
        r@ == or_pattern(views(slice@)),
{
    let mut r = String::from_str("^ *(?:");
    let mut i: usize = 0;
    while i < slice.len()
        invariant
            i <= slice@.len(),
            r@ == "^ *(?:"@ + joined(views(slice@.subrange(0, i as int))),
        decreases slice@.len() - i,
    {
        proof {
            let done = views(slice@.subrange(0, i as int));
            let next = views(slice@.subrange(0, i + 1));
            assert(next.drop_last() =~= done);
            assert(next.last() == slice@[i as int]@);
        }
        if i > 0 {
            r.append("|");
        }
        r.append(slice[i]);
        proof {
            assert(("^ *(?:"@ + joined(views(slice@.subrange(0, i as int)))) + "|"@ + slice@[i as int]@
                =~= "^ *(?:"@ + (joined(views(slice@.subrange(0, i as int))) + "|"@ + slice@[i as int]@));
        }
        i += 1;
    }
    r.append(")");
    proof {
        assert(slice@.subrange(0, slice@.len() as int) =~= slice@);
    }
    r
}

} // verus!
