//! Character-level helpers shared by the classifier, the segmenter and the
//! line filler.
use vstd::prelude::*;
use vstd::std_specs::iter::IteratorSpec;
use vstd::string::*;
use vstd::utf8::{
    char_is_scalar, encode_scalar, encode_utf8, encode_utf8_decode_utf8, encode_utf8_first_scalar,
    encode_utf8_valid_utf8, is_char_boundary, length_of_first_scalar, pop_first_scalar, valid_utf8,
};

verus! {

broadcast use vstd::string::group_string_axioms;

/// The characters of `s`, collected into a vector.
pub fn chars_of(s: &str) -> (r: Vec<char>)
    ensures
        r@ == s@,
{
    let mut it = s.chars();
    let mut r: Vec<char> = Vec::new();
    loop
        invariant
            r@ + it.remaining() == s@,
            it.decrease() is Some,
        decreases it.decrease()->0,
    {
        match it.next() {
            Some(c) => {
                r.push(c);
            },
            None => {
                assert(r@ + it.remaining() == r@);
                return r;
            },
        }
    }
}

/// The number of bytes that encode `c` in UTF-8.
pub fn utf8_width(c: char) -> (r: usize)
    ensures
        r == encode_scalar(c as u32).len(),
        1 <= r <= 4,
{
    proof {
        char_is_scalar(c);
    }
    let v = c as u32;
    if v <= 0x7F {
        1
    } else if v <= 0x7FF {
        2
    } else if v <= 0xFFFF {
        3
    } else {
        4
    }
}

pub proof fn lemma_encode_append(a: Seq<char>, b: Seq<char>)
    ensures
        encode_utf8(a + b) == encode_utf8(a) + encode_utf8(b),
    decreases a.len(),
{
    if a.len() == 0 {
        assert(a + b =~= b);
        assert(encode_utf8(a) + encode_utf8(b) =~= encode_utf8(b));
    } else {
        assert((a + b).drop_first() =~= a.drop_first() + b);
        assert((a + b)[0] == a[0]);
        lemma_encode_append(a.drop_first(), b);
        assert(encode_scalar(a[0] as u32) + (encode_utf8(a.drop_first()) + encode_utf8(b))
            =~= (encode_scalar(a[0] as u32) + encode_utf8(a.drop_first())) + encode_utf8(b));
    }
}

/// The end of the encoding of `a` is a character boundary of that of `a + b`.
proof fn lemma_encoded_boundary(a: Seq<char>, b: Seq<char>)
    ensures
        valid_utf8(encode_utf8(a + b)),
        is_char_boundary(encode_utf8(a + b), encode_utf8(a).len() as int),
    decreases a.len(),
{
    encode_utf8_valid_utf8(a + b);
    if a.len() > 0 {
        let ab = a + b;
        let bytes = encode_utf8(ab);
        encode_utf8_first_scalar(ab);
        assert(ab[0] == a[0]);
        assert(ab.drop_first() =~= a.drop_first() + b);
        assert(pop_first_scalar(bytes) =~= encode_utf8(a.drop_first() + b));
        lemma_encoded_boundary(a.drop_first(), b);
        assert(encode_utf8(a).len() == encode_scalar(a[0] as u32).len() + encode_utf8(a.drop_first()).len());
        assert(encode_scalar(a[0] as u32).len() > 0);
    }
}

/// The byte offset of each character of `s`, and of its end: entry `i` is
/// the length of the encoding of the first `i` characters.
pub open spec fn offsets_ok(s: Seq<char>, offsets: Seq<usize>) -> bool {
    &&& offsets.len() == s.len() + 1
    &&& forall|i: int| 0 <= i <= s.len() ==> #[trigger] offsets[i] == encode_utf8(s.take(i)).len()
}

/// The byte offsets of the characters of `s`, whose characters are `cs`.
pub fn char_offsets(s: &str, cs: &Vec<char>) -> (r: Vec<usize>)
    requires
        cs@ == s@,
    ensures
        offsets_ok(s@, r@),
{
    let n = cs.len();
    let total = s.as_bytes().len();
    let mut r: Vec<usize> = Vec::new();
    let mut at: usize = 0;
    r.push(0);
    proof {
        assert(s@.take(0) =~= Seq::<char>::empty());
        assert(s.spec_bytes() == encode_utf8(s@));
    }
    let mut i: usize = 0;
    while i < n
        invariant
            n == cs@.len(),
            cs@ == s@,
            total == encode_utf8(s@).len(),
            i <= n,
            r@.len() == i + 1,
            at == encode_utf8(s@.take(i as int)).len(),
            forall|k: int| 0 <= k <= i ==> #[trigger] r@[k] == encode_utf8(s@.take(k)).len(),
        decreases n - i,
    {
        proof {
            assert(s@.take(i + 1) =~= s@.take(i as int) + seq![cs@[i as int]]);
            lemma_encode_append(s@.take(i as int), seq![cs@[i as int]]);
            let one = seq![cs@[i as int]];
            assert(one.drop_first() =~= Seq::<char>::empty());
            assert(one[0] == cs@[i as int]);
            assert(encode_utf8(one.drop_first()) == Seq::<u8>::empty());
            assert(encode_utf8(one) =~= encode_scalar(cs@[i as int] as u32));
            assert(s@ =~= s@.take(i + 1) + s@.skip(i + 1));
            lemma_encode_append(s@.take(i + 1), s@.skip(i + 1));
        }
        at = at + utf8_width(cs[i]);
        r.push(at);
        i += 1;
    }
    proof {
        assert(s@.take(n as int) =~= s@);
    }
    r
}

/// The characters `from..to` of `s`, cut at their byte offsets.
pub fn slice_chars<'a>(s: &'a str, offsets: &Vec<usize>, from: usize, to: usize) -> (r: &'a str)
    requires
        offsets_ok(s@, offsets@),
        from <= to <= s@.len(),
    ensures
        r@ == s@.subrange(from as int, to as int),
{
    let from_byte = offsets[from];
    let to_byte = offsets[to];
    let ghost head = s@.take(from as int);
    let ghost mid = s@.subrange(from as int, to as int);
    let ghost tail = s@.skip(to as int);
    proof {
        assert(s@ =~= head + (mid + tail));
        assert(s.spec_bytes() == encode_utf8(s@));
        lemma_encoded_boundary(head, mid + tail);
        lemma_encode_append(head, mid + tail);
        lemma_encode_append(mid, tail);
        assert(s@.take(to as int) =~= head + mid);
        lemma_encode_append(head, mid);
    }
    let (_, rest) = s.split_at(from_byte);
    proof {
        assert(rest.spec_bytes() =~= encode_utf8(mid + tail));
        encode_utf8_decode_utf8(rest@);
        encode_utf8_decode_utf8(mid + tail);
        assert(rest@ == mid + tail);
        lemma_encoded_boundary(mid, tail);
    }
    let (r, _) = rest.split_at(to_byte - from_byte);
    proof {
        assert(r.spec_bytes() =~= encode_utf8(mid));
        encode_utf8_decode_utf8(r@);
        encode_utf8_decode_utf8(mid);
    }
    r
}

/// Whether the characters `cs` spell out the string `lit`.
pub fn chars_eq_str(cs: &[char], lit: &str) -> (r: bool)
    ensures
        r == (cs@ == lit@),
{
    let n = lit.unicode_len();
    if cs.len() != n {
        return false;
    }
    let mut i: usize = 0;
    while i < n
        invariant
            n == lit@.len(),
            cs@.len() == n,
            i <= n,
            forall|j: int| 0 <= j < i ==> cs@[j] == lit@[j],
        decreases n - i,
    {
        if cs[i] != lit.get_char(i) {
            return false;
        }
        i += 1;
    }
    assert(cs@ =~= lit@);
    true
}

/// The views of the strings in `s`.
pub open spec fn views(s: Seq<&str>) -> Seq<Seq<char>> {
    s.map_values(|x: &str| x@)
}

/// ASCII whitespace: space, tab, line feed, form feed and carriage return.
pub open spec fn ascii_whitespace(c: char) -> bool {
    c == ' ' || c == '\t' || c == '\n' || c == '\x0C' || c == '\r'
}

pub fn is_ascii_whitespace(c: char) -> (r: bool)
    ensures
        r == ascii_whitespace(c),
{
    c == ' ' || c == '\t' || c == '\n' || c == '\x0C' || c == '\r'
}

/// The length of the run of non-whitespace characters that starts `s`.
pub open spec fn word_len(s: Seq<char>) -> nat
    decreases s.len(),
{
    if s.len() == 0 || ascii_whitespace(s[0]) {
        0
    } else {
        1 + word_len(s.drop_first())
    }
}

pub proof fn lemma_word_len_bound(s: Seq<char>)
    ensures
        word_len(s) <= s.len(),
        s.len() > 0 && !ascii_whitespace(s[0]) ==> word_len(s) >= 1,
    decreases s.len(),
{
    if s.len() > 0 && !ascii_whitespace(s[0]) {
        lemma_word_len_bound(s.drop_first());
    }
}

/// The words of `s`: its maximal runs of non-whitespace characters, in order.
/// (The guard on `n` always holds, by `lemma_word_len_bound`; it only makes
/// the recursion visibly terminate.)
pub open spec fn words(s: Seq<char>) -> Seq<Seq<char>>
    decreases s.len(),
{
    if s.len() == 0 {
        seq![]
    } else if ascii_whitespace(s[0]) {
        words(s.drop_first())
    } else {
        let n = word_len(s);
        if 0 < n <= s.len() {
            seq![s.subrange(0, n as int)] + words(s.subrange(n as int, s.len() as int))
        } else {
            seq![]
        }
    }
}

/// A run of non-whitespace characters that ends at the end of `s` or at a
/// whitespace character is the first word.
pub proof fn lemma_word_len_exact(s: Seq<char>, j: int)
    requires
        0 <= j <= s.len(),
        forall|k: int| 0 <= k < j ==> !ascii_whitespace(#[trigger] s[k]),
        j == s.len() || ascii_whitespace(s[j]),
    ensures
        word_len(s) == j,
    decreases j,
{
    if j > 0 {
        let t = s.drop_first();
        assert forall|k: int| 0 <= k < j - 1 implies !ascii_whitespace(#[trigger] t[k]) by {
            assert(t[k] == s[k + 1]);
        }
        if j < s.len() {
            assert(t[j - 1] == s[j]);
        }
        lemma_word_len_exact(t, j - 1);
    }
}

/// The fragments `fs`, joined.
pub open spec fn concat(fs: Seq<Seq<char>>) -> Seq<char>
    decreases fs.len(),
{
    if fs.len() == 0 {
        seq![]
    } else {
        concat(fs.drop_last()) + fs.last()
    }
}

pub proof fn lemma_concat_append(a: Seq<Seq<char>>, b: Seq<Seq<char>>)
    ensures
        concat(a + b) == concat(a) + concat(b),
    decreases b.len(),
{
    if b.len() == 0 {
        assert(a + b =~= a);
        assert(concat(a) + concat(b) =~= concat(a));
    } else {
        assert((a + b).drop_last() =~= a + b.drop_last());
        lemma_concat_append(a, b.drop_last());
        assert(concat(a) + concat(b.drop_last()) + b.last() =~= concat(a) + (concat(b.drop_last())
            + b.last()));
    }
}

pub proof fn lemma_concat_two(x: Seq<char>, y: Seq<char>)
    ensures
        concat(seq![x]) == x,
        concat(seq![x, y]) == x + y,
{
    let one = seq![x];
    let two = seq![x, y];
    assert(one.drop_last() =~= Seq::<Seq<char>>::empty());
    assert(concat(one.drop_last()) == Seq::<char>::empty());
    assert(one.last() == x);
    assert(Seq::<char>::empty() + x =~= x);
    assert(concat(one) == x);
    assert(two.drop_last() =~= one);
    assert(two.last() == y);
}

/// A word: not empty, and without whitespace.
pub open spec fn is_word(w: Seq<char>) -> bool {
    w.len() > 0 && forall|k: int| 0 <= k < w.len() ==> !ascii_whitespace(#[trigger] w[k])
}

/// Every element of `ws` is a word.
pub open spec fn all_words(ws: Seq<Seq<char>>) -> bool {
    forall|i: int| 0 <= i < ws.len() ==> is_word(#[trigger] ws[i])
}

/// Nothing but whitespace.
pub open spec fn blank(s: Seq<char>) -> bool {
    forall|k: int| 0 <= k < s.len() ==> ascii_whitespace(#[trigger] s[k])
}

pub proof fn lemma_words_blank(s: Seq<char>)
    requires
        blank(s),
    ensures
        words(s) == Seq::<Seq<char>>::empty(),
    decreases s.len(),
{
    if s.len() > 0 {
        let t = s.drop_first();
        assert forall|k: int| 0 <= k < t.len() implies ascii_whitespace(#[trigger] t[k]) by {
            assert(t[k] == s[k + 1]);
        }
        lemma_words_blank(t);
    }
}

/// Where `a` holds whitespace, the run of non-whitespace that starts `a + b`
/// ends within `a`.
proof fn lemma_word_len_prefix(a: Seq<char>, b: Seq<char>)
    requires
        a.len() > 0,
        ascii_whitespace(a.last()),
    ensures
        word_len(a + b) == word_len(a),
        word_len(a) < a.len(),
    decreases a.len(),
{
    if !ascii_whitespace(a[0]) {
        assert((a + b).drop_first() =~= a.drop_first() + b);
        assert(a.drop_first().last() == a.last());
        lemma_word_len_prefix(a.drop_first(), b);
    }
}

/// Whitespace between two texts separates their words.
pub proof fn lemma_words_append(a: Seq<char>, b: Seq<char>)
    requires
        a.len() == 0 || ascii_whitespace(a.last()),
    ensures
        words(a + b) == words(a) + words(b),
    decreases a.len(),
{
    if a.len() == 0 {
        assert(a + b =~= b);
        assert(words(a) + words(b) =~= words(b));
    } else if ascii_whitespace(a[0]) {
        assert((a + b)[0] == a[0]);
        assert((a + b).drop_first() =~= a.drop_first() + b);
        if a.len() > 1 {
            assert(a.drop_first().last() == a.last());
        }
        lemma_words_append(a.drop_first(), b);
    } else {
        let ab = a + b;
        assert(ab[0] == a[0]);
        lemma_word_len_prefix(a, b);
        lemma_word_len_bound(a);
        let n = word_len(a);
        assert(ab.subrange(0, n as int) =~= a.subrange(0, n as int));
        let ra = a.subrange(n as int, a.len() as int);
        assert(ab.subrange(n as int, ab.len() as int) =~= ra + b);
        assert(ra.last() == a.last());
        lemma_words_append(ra, b);
        assert(seq![a.subrange(0, n as int)] + (words(ra) + words(b)) =~= (seq![
            a.subrange(0, n as int),
        ] + words(ra)) + words(b));
    }
}

/// A word followed by whitespace holds just that word.
pub proof fn lemma_words_word(w: Seq<char>, c: char)
    requires
        is_word(w),
        ascii_whitespace(c),
    ensures
        words(w.push(c)) == seq![w],
{
    let s = w.push(c);
    assert forall|k: int| 0 <= k < w.len() implies !ascii_whitespace(#[trigger] s[k]) by {
        assert(s[k] == w[k]);
    }
    lemma_word_len_exact(s, w.len() as int);
    assert(s.subrange(0, w.len() as int) =~= w);
    let rest = s.subrange(w.len() as int, s.len() as int);
    assert(rest =~= seq![c]);
    assert(blank(rest));
    lemma_words_blank(rest);
}

/// The words of a text are words.
pub proof fn lemma_words_are_words(s: Seq<char>)
    ensures
        all_words(words(s)),
    decreases s.len(),
{
    if s.len() > 0 {
        if ascii_whitespace(s[0]) {
            lemma_words_are_words(s.drop_first());
        } else {
            lemma_word_len_bound(s);
            let n = word_len(s);
            let w = s.subrange(0, n as int);
            let rest = s.subrange(n as int, s.len() as int);
            lemma_words_are_words(rest);
            lemma_word_run(s, n);
            assert forall|k: int| 0 <= k < w.len() implies !ascii_whitespace(#[trigger] w[k]) by {
                assert(w[k] == s[k]);
            }
            let ws = seq![w] + words(rest);
            assert forall|i: int| 0 <= i < ws.len() implies is_word(#[trigger] ws[i]) by {
                if i > 0 {
                    assert(ws[i] == words(rest)[i - 1]);
                }
            }
        }
    }
}

/// The characters of the run of non-whitespace that starts `s`.
proof fn lemma_word_run(s: Seq<char>, n: nat)
    requires
        n == word_len(s),
    ensures
        forall|k: int| 0 <= k < n ==> !ascii_whitespace(#[trigger] s[k]),
    decreases s.len(),
{
    lemma_word_len_bound(s);
    if n > 0 {
        let t = s.drop_first();
        lemma_word_run(t, (n - 1) as nat);
        lemma_word_len_bound(t);
        assert forall|k: int| 0 <= k < n implies !ascii_whitespace(#[trigger] s[k]) by {
            if k > 0 {
                assert(s[k] == t[k - 1]);
            }
        }
    }
}

/// The number of characters before the first line break of `s` (all of them
/// if there is none).
pub open spec fn line_len(s: Seq<char>) -> nat
    decreases s.len(),
{
    if s.len() == 0 || s[0] == '\n' {
        0
    } else {
        1 + line_len(s.drop_first())
    }
}

proof fn lemma_line_len_exact(s: Seq<char>, j: int)
    requires
        0 <= j <= s.len(),
        forall|k: int| 0 <= k < j ==> #[trigger] s[k] != '\n',
        j == s.len() || s[j] == '\n',
    ensures
        line_len(s) == j,
    decreases j,
{
    if j > 0 {
        let t = s.drop_first();
        assert forall|k: int| 0 <= k < j - 1 implies #[trigger] t[k] != '\n' by {
            assert(t[k] == s[k + 1]);
        }
        if j < s.len() {
            assert(t[j - 1] == s[j]);
        }
        lemma_line_len_exact(t, j - 1);
    }
}

/// The first line break of `s` that `line_len` finds is one.
proof fn lemma_line_len_bound(s: Seq<char>)
    ensures
        line_len(s) <= s.len(),
        line_len(s) < s.len() ==> s[line_len(s) as int] == '\n',
        forall|k: int| 0 <= k < line_len(s) ==> #[trigger] s[k] != '\n',
    decreases s.len(),
{
    if s.len() > 0 && s[0] != '\n' {
        let t = s.drop_first();
        lemma_line_len_bound(t);
        assert forall|k: int| 0 <= k < line_len(s) implies #[trigger] s[k] != '\n' by {
            if k > 0 {
                assert(s[k] == t[k - 1]);
            }
        }
    }
}

/// The lines of `s`: the runs between line breaks, the last one only if
/// something follows the last line break.
pub open spec fn text_lines(s: Seq<char>) -> Seq<Seq<char>>
    decreases s.len(),
{
    if s.len() == 0 {
        seq![]
    } else {
        let n = line_len(s);
        if n < s.len() {
            seq![s.take(n as int)] + text_lines(s.skip(n + 1int))
        } else {
            seq![s]
        }
    }
}

/// A text that ends with a line break does not run into what follows.
pub proof fn lemma_text_lines_append(a: Seq<char>, b: Seq<char>)
    requires
        a.len() == 0 || a.last() == '\n',
    ensures
        text_lines(a + b) == text_lines(a) + text_lines(b),
    decreases a.len(),
{
    if a.len() == 0 {
        assert(a + b =~= b);
        assert(text_lines(a) + text_lines(b) =~= text_lines(b));
    } else {
        lemma_line_len_bound(a);
        let n = line_len(a);
        if n == a.len() {
            assert(a[a.len() - 1] == '\n');
            assert(false);
        }
        let ab = a + b;
        assert forall|k: int| 0 <= k < n implies #[trigger] ab[k] != '\n' by {
            assert(ab[k] == a[k]);
        }
        assert(ab[n as int] == a[n as int]);
        lemma_line_len_exact(ab, n as int);
        assert(ab.take(n as int) =~= a.take(n as int));
        let ra = a.skip(n + 1int);
        assert(ab.skip(n + 1int) =~= ra + b);
        if ra.len() > 0 {
            assert(ra.last() == a.last());
        }
        lemma_text_lines_append(ra, b);
        assert(seq![a.take(n as int)] + (text_lines(ra) + text_lines(b)) =~= (seq![a.take(n as int)]
            + text_lines(ra)) + text_lines(b));
    }
}

/// A line break-free text followed by a line break is one line.
pub proof fn lemma_text_lines_one(x: Seq<char>)
    requires
        forall|k: int| 0 <= k < x.len() ==> #[trigger] x[k] != '\n',
    ensures
        text_lines(x.push('\n')) == seq![x],
{
    let s = x.push('\n');
    assert forall|k: int| 0 <= k < x.len() implies #[trigger] s[k] != '\n' by {
        assert(s[k] == x[k]);
    }
    lemma_line_len_exact(s, x.len() as int);
    assert(s.take(x.len() as int) =~= x);
    assert(s.skip(x.len() + 1int) =~= Seq::<char>::empty());
    assert(seq![x] + text_lines(Seq::<char>::empty()) =~= seq![x]);
}

/// A word alone is its only word.
pub proof fn lemma_words_of_word(w: Seq<char>)
    requires
        is_word(w),
    ensures
        words(w) == seq![w],
{
    lemma_word_len_exact(w, w.len() as int);
    assert(w.subrange(0, w.len() as int) =~= w);
    assert(w.subrange(w.len() as int, w.len() as int) =~= Seq::<char>::empty());
    assert(seq![w] + words(Seq::<char>::empty()) =~= seq![w]);
}

/// Splits `text` on ASCII whitespace.
pub fn split_words<'a>(text: &'a str) -> (r: Vec<&'a str>)
    ensures
        views(r@) == words(text@),
{
    let cs = chars_of(text);
    let offsets = char_offsets(text, &cs);
    let n = cs.len();
    let mut r: Vec<&'a str> = Vec::new();
    let mut i: usize = 0;
    proof {
        assert(cs@.subrange(0, n as int) =~= cs@);
    }
    while i < n
        invariant
            n == cs@.len(),
            cs@ == text@,
            offsets_ok(text@, offsets@),
            i <= n,
            r@.map_values(|w: &str| w@) + words(cs@.subrange(i as int, n as int)) == words(cs@),
        decreases n - i,
    {
        let ghost rest = cs@.subrange(i as int, n as int);
        if is_ascii_whitespace(cs[i]) {
            proof {
                assert(rest.drop_first() =~= cs@.subrange(i + 1, n as int));
            }
            i += 1;
        } else {
            let mut j: usize = i + 1;
            while j < n && !is_ascii_whitespace(cs[j])
                invariant
                    i < j <= n,
                    n == cs@.len(),
                    forall|k: int| i <= k < j ==> !ascii_whitespace(#[trigger] cs@[k]),
                decreases n - j,
            {
                j += 1;
            }
            let w = slice_chars(text, &offsets, i, j);
            proof {
                assert forall|k: int| 0 <= k < j - i implies !ascii_whitespace(#[trigger] rest[k]) by {
                    assert(rest[k] == cs@[i + k]);
                }
                if j < n {
                    assert(rest[j - i] == cs@[j as int]);
                }
                lemma_word_len_exact(rest, j - i);
                assert(rest.subrange(0, j - i) =~= w@);
                assert(rest.subrange(j - i, rest.len() as int) =~= cs@.subrange(j as int, n as int));
                let old_views = r@.map_values(|w: &str| w@);
                assert(r@.push(w).map_values(|w: &str| w@) =~= old_views.push(w@));
                assert(old_views.push(w@) + words(cs@.subrange(j as int, n as int)) =~= old_views + (
                seq![w@] + words(cs@.subrange(j as int, n as int))));
            }
            r.push(w);
            i = j;
        }
    }
    proof {
        assert(words(cs@.subrange(n as int, n as int)) =~= Seq::<Seq<char>>::empty());
        assert(r@.map_values(|w: &str| w@) + Seq::<Seq<char>>::empty() =~= r@.map_values(|w: &str| w@));
    }
    r
}

} // verus!
