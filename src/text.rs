//! Byte-level text helpers shared by the parser and the serializer.
use vstd::prelude::*;
use vstd::utf8::*;

verus! {

broadcast use {encode_utf8_valid_utf8, encode_utf8_decode_utf8, decode_utf8_encode_utf8};

/// The pieces of `s` between occurrences of `sep`, in order; `n` occurrences
/// give `n + 1` pieces, some of them possibly empty.
pub open spec fn split_byte(s: Seq<u8>, sep: u8) -> Seq<Seq<u8>>
    decreases s.len(),
{
    if s.len() == 0 {
        seq![Seq::empty()]
    } else {
        let r = split_byte(s.drop_last(), sep);
        if s.last() == sep {
            r.push(Seq::empty())
        } else {
            r.update(r.len() - 1, r.last().push(s.last()))
        }
    }
}

/// How many times `b` occurs in `s`.
pub open spec fn count_byte(s: Seq<u8>, b: u8) -> nat
    decreases s.len(),
{
    if s.len() == 0 {
        0
    } else if s.last() == b {
        count_byte(s.drop_last(), b) + 1
    } else {
        count_byte(s.drop_last(), b)
    }
}

pub proof fn lemma_split_len(s: Seq<u8>, sep: u8)
    ensures
        split_byte(s, sep).len() == count_byte(s, sep) + 1,
    decreases s.len(),
{
    if s.len() > 0 {
        lemma_split_len(s.drop_last(), sep);
    }
}

/// Splitting at a separator splits the two sides apart.
pub proof fn lemma_split_concat(a: Seq<u8>, b: Seq<u8>, sep: u8)
    ensures
        split_byte(a + seq![sep] + b, sep) == split_byte(a, sep) + split_byte(b, sep),
    decreases b.len(),
{
    let s = a + seq![sep] + b;
    if b.len() == 0 {
        assert(s.drop_last() =~= a);
    } else {
        let c = b.drop_last();
        assert(s.drop_last() =~= a + seq![sep] + c);
        lemma_split_concat(a, c, sep);
        lemma_split_len(a, sep);
        lemma_split_len(c, sep);
        assert(split_byte(s, sep) =~= split_byte(a, sep) + split_byte(b, sep));
    }
}

/// Text without the separator is one piece.
pub proof fn lemma_split_none(a: Seq<u8>, sep: u8)
    requires
        !a.contains(sep),
    ensures
        split_byte(a, sep) == seq![a],
    decreases a.len(),
{
    if a.len() > 0 {
        assert(!a.drop_last().contains(sep)) by {
            if a.drop_last().contains(sep) {
                let i = choose|i: int| 0 <= i < a.drop_last().len() && a.drop_last()[i] == sep;
                assert(a[i] == sep);
            }
        }
        lemma_split_none(a.drop_last(), sep);
        assert(a[a.len() - 1] != sep);
        assert(a.drop_last().push(a.last()) =~= a);
    } else {
        assert(a =~= Seq::<u8>::empty());
    }
}

/// Every byte of `s` is ASCII.
pub open spec fn is_ascii_bytes(s: Seq<u8>) -> bool {
    forall|i: int| 0 <= i < s.len() ==> #[trigger] s[i] < 0x80
}

pub proof fn lemma_ascii_valid(s: Seq<u8>)
    requires
        is_ascii_bytes(s),
    ensures
        valid_utf8(s),
{
    assert(valid_utf8(s.subrange(0, 0))) by {
        assert(s.subrange(0, 0).len() == 0);
    }
    assert forall|i: int| 0 <= 0 <= i < s.len() <= s.len() implies #[trigger] is_leading_byte_width_1(
        s[i],
    ) by {
        assert(s[i] < 0x80);
    }
    partial_valid_utf8_extend_ascii_block(s, 0, s.len() as int);
    assert(s.subrange(0, s.len() as int) =~= s);
}

/// A stretch of valid UTF-8 that starts and ends next to ASCII bytes (or at
/// the ends of the text) is valid UTF-8 itself.
pub proof fn lemma_valid_between(s: Seq<u8>, i: int, j: int)
    requires
        valid_utf8(s),
        0 <= i <= j <= s.len(),
        i == 0 || s[i - 1] < 0x80,
        j == s.len() || s[j] < 0x80,
    ensures
        valid_utf8(s.subrange(i, j)),
{
    let tail = s.subrange(i, s.len() as int);
    assert(valid_utf8(tail)) by {
        if i > 0 {
            assert(is_char_boundary(s, i - 1)) by {
                is_char_boundary_iff_is_leading_byte(s, i - 1);
            }
            valid_utf8_split(s, i - 1);
            let t = s.subrange(i - 1, s.len() as int);
            assert(t[0] == s[i - 1]);
            assert(is_leading_byte_width_1(t[0]));
            assert(pop_first_scalar(t) =~= tail);
        } else {
            assert(tail =~= s);
        }
    }
    let k = j - i;
    if k == tail.len() {
        assert(tail.subrange(0, k) =~= tail);
    } else {
        assert(tail[k] == s[j]);
        assert(is_char_boundary(tail, k)) by {
            is_char_boundary_iff_is_leading_byte(tail, k);
        }
        valid_utf8_split(tail, k);
    }
    assert(tail.subrange(0, k) =~= s.subrange(i, j));
}

/// Relies on `String::from_utf8`: it succeeds exactly on valid UTF-8, and the
/// string then holds the decoded characters.
#[verifier::external_body]
fn utf8_string(bytes: Vec<u8>) -> (r: Option<String>)
    ensures
        r is Some <==> valid_utf8(bytes@),
        r matches Some(s) ==> s@ == decode_utf8(bytes@),
{
    String::from_utf8(bytes).ok()
}

/// Whether `bytes` is valid UTF-8.
pub fn is_utf8(bytes: &[u8]) -> (r: bool)
    ensures
        r == valid_utf8(bytes@),
{
    let mut copy: Vec<u8> = Vec::new();
    copy.extend_from_slice(bytes);
    assert(copy@ =~= bytes@);
    match utf8_string(copy) {
        Some(_) => true,
        None => false,
    }
}

/// The text that valid UTF-8 bytes encode.
pub fn text_of(bytes: Vec<u8>) -> (r: String)
    requires
        valid_utf8(bytes@),
    ensures
        r@ == decode_utf8(bytes@),
        encode_utf8(r@) == bytes@,
{
    match utf8_string(bytes) {
        Some(s) => s,
        None => {
            assert(false);
            String::new()
        },
    }
}

/// Splits valid UTF-8 at every occurrence of an ASCII byte.
pub fn split_text(s: &[u8], sep: u8) -> (r: Vec<String>)
    requires
        valid_utf8(s@),
        sep < 0x80,
    ensures
        r@.len() == split_byte(s@, sep).len(),
        forall|k: int| 0 <= k < r@.len() ==> #[trigger] r@[k]@ == decode_utf8(split_byte(s@, sep)[k]),
{
    let mut pieces: Vec<String> = Vec::new();
    let mut cur: Vec<u8> = Vec::new();
    let mut start: usize = 0;
    let mut i: usize = 0;
    assert(s@.subrange(0, 0).len() == 0);
    while i < s.len()
        invariant
            valid_utf8(s@),
            sep < 0x80,
            start <= i <= s@.len(),
            start == 0 || s@[start - 1] == sep,
            cur@ == s@.subrange(start as int, i as int),
            pieces@.len() + 1 == split_byte(s@.subrange(0, i as int), sep).len(),
            split_byte(s@.subrange(0, i as int), sep).last() == cur@,
            forall|k: int|
                0 <= k < pieces@.len() ==> #[trigger] pieces@[k]@ == decode_utf8(
                    split_byte(s@.subrange(0, i as int), sep)[k],
                ),
        decreases s@.len() - i,
    {
        let b = s[i];
        let ghost before = s@.subrange(0, i as int);
        let ghost after = s@.subrange(0, i + 1);
        assert(after.drop_last() =~= before);
        assert(after.last() == b);
        if b == sep {
            proof {
                lemma_valid_between(s@, start as int, i as int);
            }
            let piece = cur;
            cur = Vec::new();
            let t = text_of(piece);
            pieces.push(t);
            start = i + 1;
            assert(cur@ =~= s@.subrange(start as int, i + 1));
        } else {
            cur.push(b);
            assert(cur@ =~= s@.subrange(start as int, i + 1));
        }
        i = i + 1;
    }
    proof {
        lemma_valid_between(s@, start as int, i as int);
        assert(s@.subrange(0, i as int) =~= s@);
    }
    let t = text_of(cur);
    pieces.push(t);
    pieces
}

/// Whether two texts hold the same characters.
pub fn text_eq(a: &str, b: &str) -> (r: bool)
    ensures
        r == (a@ == b@),
{
    let x = a.as_bytes();
    let y = b.as_bytes();
    if x.len() != y.len() {
        return false;
    }
    let mut i: usize = 0;
    while i < x.len()
        invariant
            x@ == encode_utf8(a@),
            y@ == encode_utf8(b@),
            x@.len() == y@.len(),
            i <= x@.len(),
            forall|k: int| 0 <= k < i ==> x@[k] == y@[k],
        decreases x@.len() - i,
    {
        if x[i] != y[i] {
            return false;
        }
        i = i + 1;
    }
    assert(x@ =~= y@);
    assert(decode_utf8(encode_utf8(a@)) == a@);
    true
}

/// A byte with ASCII upper case folded to lower case.
pub open spec fn fold_byte(b: u8) -> u8 {
    if 0x41 <= b <= 0x5a {
        (b + 0x20) as u8
    } else {
        b
    }
}

/// The UTF-8 bytes of a name with ASCII letters folded to lower case: two
/// names are the same, case aside, when these agree.
pub open spec fn fold_name(name: Seq<char>) -> Seq<u8> {
    encode_utf8(name).map_values(|b: u8| fold_byte(b))
}

/// Whether two names are the same, ASCII case aside.
pub fn names_equal(a: &str, b: &str) -> (r: bool)
    ensures
        r == (fold_name(a@) == fold_name(b@)),
{
    let x = a.as_bytes();
    let y = b.as_bytes();
    if x.len() != y.len() {
        assert(fold_name(a@).len() != fold_name(b@).len());
        return false;
    }
    let mut i: usize = 0;
    while i < x.len()
        invariant
            x@ == encode_utf8(a@),
            y@ == encode_utf8(b@),
            x@.len() == y@.len(),
            i <= x@.len(),
            forall|k: int| 0 <= k < i ==> fold_byte(x@[k]) == fold_byte(y@[k]),
        decreases x@.len() - i,
    {
        let p = x[i];
        let q = y[i];
        let fp = if 0x41 <= p && p <= 0x5a { p + 0x20 } else { p };
        let fq = if 0x41 <= q && q <= 0x5a { q + 0x20 } else { q };
        if fp != fq {
            assert(fold_name(a@)[i as int] != fold_name(b@)[i as int]);
            return false;
        }
        i = i + 1;
    }
    assert(fold_name(a@) =~= fold_name(b@));
    true
}

/// What `str::to_lowercase` gives for a text.
pub uninterp spec fn lower_of(s: Seq<char>) -> Seq<char>;

/// Relies on `str::to_lowercase`: the result depends on the characters
/// alone, and on ASCII text it maps `A`-`Z` to `a`-`z` and keeps every other
/// character (the Unicode lowercase mapping of ASCII).
#[verifier::external_body]
fn lowercase(s: &str) -> (r: String)
    ensures
        r@ == lower_of(s@),
        is_ascii_chars(s@) ==> encode_utf8(r@) == fold_name(s@),
{
    s.to_lowercase()
}

/// A text in lower case: ASCII text with its letters folded, other text as
/// `str::to_lowercase` gives it.
pub open spec fn lowered(s: Seq<char>) -> Seq<char> {
    if is_ascii_chars(s) {
        decode_utf8(fold_name(s))
    } else {
        lower_of(s)
    }
}

/// The text in lower case.
pub fn lowercase_text(s: &str) -> (r: String)
    ensures
        r@ == lowered(s@),
{
    let r = lowercase(s);
    proof {
        if is_ascii_chars(s@) {
            assert(decode_utf8(encode_utf8(r@)) == r@);
        }
    }
    r
}

/// Folding ASCII letters of ASCII text gives ASCII text, and folding it again
/// changes nothing.
pub proof fn lemma_fold_ascii(s: Seq<char>)
    requires
        is_ascii_chars(s),
    ensures
        is_ascii_bytes(fold_name(s)),
        valid_utf8(fold_name(s)),
        fold_name(lowered(s)) == fold_name(s),
{
    is_ascii_chars_encode_utf8(s);
    let f = fold_name(s);
    assert forall|i: int| 0 <= i < f.len() implies #[trigger] f[i] < 0x80 by {
        assert(encode_utf8(s)[i] == s[i] as u8);
    }
    lemma_ascii_valid(f);
    assert(encode_utf8(decode_utf8(f)) == f);
    assert(fold_name(lowered(s)) =~= f);
}

/// A whitespace character as `char::is_whitespace` defines it: the Unicode
/// `White_Space` property.
pub open spec fn is_space(c: char) -> bool {
    ('\t' <= c <= '\r') || c == ' ' || c == '\u{85}' || c == '\u{a0}' || c == '\u{1680}' || (
    '\u{2000}' <= c <= '\u{200a}') || c == '\u{2028}' || c == '\u{2029}' || c == '\u{202f}' || c
        == '\u{205f}' || c == '\u{3000}'
}

/// A text without its leading and trailing whitespace.
pub open spec fn trimmed(s: Seq<char>) -> Seq<char>
    decreases s.len(),
{
    if s.len() > 0 && is_space(s[0]) {
        trimmed(s.drop_first())
    } else if s.len() > 0 && is_space(s.last()) {
        trimmed(s.drop_last())
    } else {
        s
    }
}

/// Relies on `str::trim`: the text without leading and trailing whitespace,
/// whitespace being what `char::is_whitespace` accepts.
#[verifier::external_body]
pub(crate) fn trim(s: &str) -> (r: &str)
    ensures
        r@ == trimmed(s@),
{
    s.trim()
}

} // verus!
