//! Character-level helpers and the few standard-library string operations the
//! library relies on.

use vstd::prelude::*;

verus! {

/// Characters that `str::split_ascii_whitespace` separates words on.
pub open spec fn is_ascii_ws(c: char) -> bool {
    c == ' ' || c == '\t' || c == '\n' || c == '\r' || c == '\u{0C}'
}

/// Whether `needle` occurs as a contiguous run inside `hay`.
pub open spec fn contains_seq(hay: Seq<char>, needle: Seq<char>) -> bool {
    exists|i: int|
        0 <= i && i + needle.len() <= hay.len() && #[trigger] hay.subrange(i, i + needle.len())
            == needle
}

/// Number of bytes of the UTF-8 encoding of `s`.
pub open spec fn byte_len(s: Seq<char>) -> nat {
    vstd::utf8::encode_utf8(s).len()
}

pub open spec fn digit_char(d: nat) -> char {
    if d == 0 { '0' } else if d == 1 { '1' } else if d == 2 { '2' } else if d == 3 { '3' }
    else if d == 4 { '4' } else if d == 5 { '5' } else if d == 6 { '6' } else if d == 7 { '7' }
    else if d == 8 { '8' } else { '9' }
}

/// Decimal notation of `n`, without sign or leading zeros.
pub open spec fn decimal(n: nat) -> Seq<char>
    decreases n,
{
    if n < 10 {
        seq![digit_char(n)]
    } else {
        decimal(n / 10).push(digit_char(n % 10))
    }
}

pub open spec fn is_digit(c: char) -> bool {
    '0' <= c && c <= '9'
}

pub open spec fn all_digits(s: Seq<char>) -> bool {
    forall|i: int| 0 <= i < s.len() ==> is_digit(#[trigger] s[i])
}

/// Value of a run of decimal digits.
pub open spec fn digits_value(s: Seq<char>) -> nat
    decreases s.len(),
{
    if s.len() == 0 {
        0
    } else {
        digits_value(s.drop_last()) * 10 + ((s.last() as u32 - '0' as u32) as nat)
    }
}

/// The digits that `str::parse::<u64>` reads: an optional leading `+`, then the rest.
pub open spec fn unsigned_digits(s: Seq<char>) -> Seq<char> {
    if s.len() > 0 && s[0] == '+' { s.drop_first() } else { s }
}

/// What `str::parse::<u64>` accepts: one or more decimal digits, after an
/// optional `+`, whose value fits in 64 bits.
pub open spec fn parse_u64(s: Seq<char>) -> Option<u64> {
    let d = unsigned_digits(s);
    if d.len() > 0 && all_digits(d) && digits_value(d) <= u64::MAX {
        Some(digits_value(d) as u64)
    } else {
        None
    }
}

/// The characters with the Unicode `White_Space` property, which
/// `char::is_whitespace` accepts.
pub open spec fn is_white_space(c: char) -> bool {
    ('\u{09}' <= c && c <= '\u{0D}') || c == ' ' || c == '\u{85}' || c == '\u{A0}'
        || c == '\u{1680}' || ('\u{2000}' <= c && c <= '\u{200A}') || c == '\u{2028}'
        || c == '\u{2029}' || c == '\u{202F}' || c == '\u{205F}' || c == '\u{3000}'
}

pub open spec fn trim_start(s: Seq<char>) -> Seq<char>
    decreases s.len(),
{
    if s.len() > 0 && is_white_space(s[0]) {
        trim_start(s.drop_first())
    } else {
        s
    }
}

pub open spec fn trim_end(s: Seq<char>) -> Seq<char>
    decreases s.len(),
{
    if s.len() > 0 && is_white_space(s.last()) {
        trim_end(s.drop_last())
    } else {
        s
    }
}

/// What `str::trim` returns for `s`: `s` without its leading and trailing
/// white space.
pub open spec fn trim_of(s: Seq<char>) -> Seq<char> {
    trim_end(trim_start(s))
}

/// What `str::to_lowercase` returns for `s`.
pub uninterp spec fn lowercase_of(s: Seq<char>) -> Seq<char>;

/// Relies on `str::chars`: the characters of `s`, in order.
#[verifier::external_body]
pub fn chars_of(s: &str) -> (r: Vec<char>)
    ensures
        r@ == s@,
{
    s.chars().collect()
}

/// Relies on `FromIterator<char>` for `String`: the string made of `v`.
#[verifier::external_body]
pub fn string_of(v: &Vec<char>) -> (r: String)
    ensures
        r@ == v@,
{
    v.iter().collect()
}

/// Relies on `str::trim`: leading and trailing `White_Space` characters removed.
#[verifier::external_body]
pub fn trim(s: &str) -> (r: String)
    ensures
        r@ == trim_of(s@),
{
    s.trim().to_string()
}

/// Relies on `str::to_lowercase`.
#[verifier::external_body]
pub fn lowercase(s: &str) -> (r: String)
    ensures
        r@ == lowercase_of(s@),
{
    s.to_lowercase()
}

/// Relies on `str::contains` with a `&str` pattern: whether `needle` occurs in `hay`.
#[verifier::external_body]
pub fn contains(hay: &str, needle: &str) -> (r: bool)
    ensures
        r == contains_seq(hay@, needle@),
{
    hay.contains(needle)
}

/// Relies on `str::parse::<u64>`: decimal digits with an optional `+`, no overflow.
#[verifier::external_body]
pub fn parse_unsigned(s: &str) -> (r: Option<u64>)
    ensures
        r == parse_u64(s@),
{
    s.parse::<u64>().ok()
}

/// Relies on `u64`'s `Display`: its decimal notation.
#[verifier::external_body]
pub fn unsigned_to_string(n: u64) -> (r: String)
    ensures
        r@ == decimal(n as nat),
{
    n.to_string()
}

/// Relies on `str::len`: the number of bytes of the UTF-8 encoding of `s`.
#[verifier::external_body]
pub fn byte_count(s: &str) -> (r: usize)
    ensures
        r == byte_len(s@),
{
    s.len()
}

/// Whether the bytes of `needle` occur in `hay` starting at byte `k`.
pub open spec fn bytes_at(hay: Seq<u8>, needle: Seq<u8>, k: int) -> bool {
    0 <= k && k + needle.len() <= hay.len() && hay.subrange(k, k + needle.len()) == needle
}

/// The byte offset of the first occurrence of `needle` in `hay`.
pub fn find_bytes(hay: &str, needle: &str) -> (r: Option<usize>)
    ensures
        match r {
            Some(k) => bytes_at(vstd::utf8::encode_utf8(hay@), vstd::utf8::encode_utf8(needle@), k as int) && forall|j: int|
                0 <= j < k ==> !bytes_at(vstd::utf8::encode_utf8(hay@), vstd::utf8::encode_utf8(needle@), j),
            None => forall|j: int| !bytes_at(vstd::utf8::encode_utf8(hay@), vstd::utf8::encode_utf8(needle@), j),
        },
{
    let h = hay.as_bytes();
    let n = needle.as_bytes();
    let hl = h.len();
    if n.len() > hl {
        return None;
    }
    let mut k: usize = 0;
    while k <= h.len() - n.len()
        invariant
            h@ == vstd::utf8::encode_utf8(hay@),
            n@ == vstd::utf8::encode_utf8(needle@),
            n@.len() <= h@.len(),
            hl == h@.len(),
            k <= h@.len() - n@.len() + 1,
            forall|j: int| 0 <= j < k ==> !bytes_at(h@, n@, j),
        decreases h.len() - n.len() + 1 - k,
    {
        let mut m: usize = 0;
        let mut same = true;
        while m < n.len() && same
            invariant
                h@ == vstd::utf8::encode_utf8(hay@),
                n@ == vstd::utf8::encode_utf8(needle@),
                k + n@.len() <= h@.len(),
                hl == h@.len(),
                m <= n@.len(),
                same ==> h@.subrange(k as int, k + m) == n@.subrange(0, m as int),
                !same ==> m < n@.len() && h@[k + m] != n@[m as int],
            decreases n.len() - m + (if same { 1int } else { 0int }),
        {
            if h[k + m] == n[m] {
                assert(h@.subrange(k as int, k + m + 1) == h@.subrange(k as int, k + m).push(h@[k + m]));
                assert(n@.subrange(0, m + 1) == n@.subrange(0, m as int).push(n@[m as int]));
                m = m + 1;
            } else {
                same = false;
            }
        }
        if same {
            assert(n@.subrange(0, m as int) == n@);
            return Some(k);
        }
        assert(h@.subrange(k as int, k + n@.len())[m as int] != n@[m as int]);
        k = k + 1;
    }
    assert forall|j: int| !bytes_at(h@, n@, j) by {
        if 0 <= j && j + n@.len() <= h@.len() {
            assert(j < k);
        }
    }
    None
}

/// Whether two string slices hold the same characters.
pub fn same_text(a: &str, b: &str) -> (r: bool)
    ensures
        r == (a@ == b@),
{
    let x = a.to_owned();
    let y = b.to_owned();
    x == y
}

/// A fresh string holding `a` followed by `b`.
pub fn concat(a: &str, b: &str) -> (r: String)
    ensures
        r@ == a@ + b@,
{
    let mut s = a.to_owned();
    s.append(b);
    s
}

pub open spec fn all_white_space(s: Seq<char>) -> bool {
    forall|i: int| 0 <= i < s.len() ==> is_white_space(#[trigger] s[i])
}

proof fn lemma_trim_start_pad(p: Seq<char>, x: Seq<char>)
    requires
        all_white_space(p),
    ensures
        trim_start(p + x) == trim_start(x),
    decreases p.len(),
{
    if p.len() == 0 {
        assert(p + x == x);
    } else {
        assert((p + x)[0] == p[0]);
        assert((p + x).drop_first() == p.drop_first() + x);
        lemma_trim_start_pad(p.drop_first(), x);
    }
}

proof fn lemma_trim_end_pad(y: Seq<char>, q: Seq<char>)
    requires
        all_white_space(q),
    ensures
        trim_end(y + q) == trim_end(y),
    decreases q.len(),
{
    if q.len() == 0 {
        assert(y + q == y);
    } else {
        assert((y + q).last() == q.last());
        assert((y + q).drop_last() == y + q.drop_last());
        lemma_trim_end_pad(y, q.drop_last());
    }
}

proof fn lemma_trim_start_suffix(t: Seq<char>, q: Seq<char>)
    requires
        all_white_space(q),
    ensures
        trim_start(t + q) == if trim_start(t).len() > 0 {
            trim_start(t) + q
        } else {
            Seq::<char>::empty()
        },
    decreases t.len(),
{
    if t.len() == 0 {
        assert(t + q == seq![] + q);
        lemma_trim_start_pad(q, seq![]);
        assert(q + Seq::<char>::empty() == q);
        assert(t + q == q);
    } else if is_white_space(t[0]) {
        assert((t + q)[0] == t[0]);
        assert((t + q).drop_first() == t.drop_first() + q);
        lemma_trim_start_suffix(t.drop_first(), q);
    } else {
        assert((t + q)[0] == t[0]);
    }
}

/// White space around a text does not change what trimming gives: headings
/// `" Fixed "` and `"Fixed"` name the same section.
pub proof fn law_trim_ignores_padding(p: Seq<char>, t: Seq<char>, q: Seq<char>)
    requires
        all_white_space(p),
        all_white_space(q),
    ensures
        trim_of(p + t + q) == trim_of(t),
{
    assert(p + t + q == p + (t + q));
    lemma_trim_start_pad(p, t + q);
    lemma_trim_start_suffix(t, q);
    if trim_start(t).len() > 0 {
        lemma_trim_end_pad(trim_start(t), q);
    }
}

} // verus!
