//! Text helpers: whitespace trimming, byte-indexed prefixes of UTF-8 text,
//! and decimal notation.

use vstd::prelude::*;
use vstd::string::*;
use vstd::utf8::*;

verus! {

/// Whether `c` is whitespace as Unicode has it (`White_Space`).
pub open spec fn is_whitespace(c: char) -> bool {
    let u = c as u32;
    (0x09 <= u && u <= 0x0d) || u == 0x20 || u == 0x85 || u == 0xa0 || u == 0x1680 || (0x2000 <= u
        && u <= 0x200a) || u == 0x2028 || u == 0x2029 || u == 0x202f || u == 0x205f || u == 0x3000
}

/// `s` without its leading whitespace.
pub open spec fn trim_start_of(s: Seq<char>) -> Seq<char>
    decreases s.len(),
{
    if s.len() > 0 && is_whitespace(s[0]) {
        trim_start_of(s.drop_first())
    } else {
        s
    }
}

/// `s` without its trailing whitespace.
pub open spec fn trim_end_of(s: Seq<char>) -> Seq<char>
    decreases s.len(),
{
    if s.len() > 0 && is_whitespace(s.last()) {
        trim_end_of(s.drop_last())
    } else {
        s
    }
}

/// `s` without its leading and trailing whitespace.
pub open spec fn trimmed(s: Seq<char>) -> Seq<char> {
    trim_end_of(trim_start_of(s))
}

/// The view of an optional string slice.
pub open spec fn opt_text(o: Option<&str>) -> Option<Seq<char>> {
    match o {
        Some(s) => Some(s@),
        None => None,
    }
}

/// Calls `str::trim`, which std documents to return the slice of `s` that
/// is left when leading and trailing `White_Space` characters are
/// removed.
#[verifier::external_body]
pub(crate) fn trim(s: &str) -> (r: &str)
    ensures
        r@ == trimmed(s@),
{
    s.trim()
}

/// Calls `str::trim_end`, which std documents to return the slice of `s` that
/// is left when trailing `White_Space` characters are
/// removed.
#[verifier::external_body]
pub(crate) fn trim_end(s: &str) -> (r: &str)
    ensures
        r@ == trim_end_of(s@),
{
    s.trim_end()
}

/// Calls `core::str::from_utf8`, which std documents to succeed exactly on
/// the byte slices that are valid UTF-8 and then to return the same bytes as
/// a string slice.
#[verifier::external_body]
pub(crate) fn utf8_text(bytes: &[u8]) -> (r: Option<&str>)
    ensures
        r is Some <==> valid_utf8(bytes@),
        r matches Some(s) ==> s@ == decode_utf8(bytes@) && s.spec_bytes() == bytes@,
{
    core::str::from_utf8(bytes).ok()
}

/// The text made of the first `n` bytes of the UTF-8 encoding of `s`, where
/// these bytes end with a whole character.
pub open spec fn byte_prefix_of(s: Seq<char>, n: int) -> Option<Seq<char>> {
    let bytes = encode_utf8(s);
    if is_char_boundary(bytes, n) {
        Some(decode_utf8(bytes.subrange(0, n)))
    } else {
        None
    }
}

/// The first `n` bytes of `line` as text, or `None` where `line` is shorter
/// or its `n`-th byte lies inside a character.
pub fn byte_prefix(line: &str, n: usize) -> (r: Option<&str>)
    ensures
        opt_text(r) == byte_prefix_of(line@, n as int),
{
    if line.is_char_boundary(n) {
        let (head, _) = line.split_at(n);
        proof {
            encode_utf8_decode_utf8(head@);
        }
        Some(head)
    } else {
        None
    }
}

/// The character of `line` at index `i`, counted in characters.
pub fn char_at(line: &str, i: usize) -> (r: Option<char>)
    ensures
        r == (if i < line@.len() {
            Some(line@[i as int])
        } else {
            None
        }),
{
    if i < line.unicode_len() {
        Some(line.get_char(i))
    } else {
        None
    }
}

/// The length in bytes of the UTF-8 encoding of `s`.
pub open spec fn byte_len(s: Seq<char>) -> nat {
    encode_utf8(s).len()
}

/// Text is no longer in characters than in bytes.
pub proof fn lemma_byte_len_bounds(s: Seq<char>)
    ensures
        s.len() <= byte_len(s),
    decreases s.len(),
{
    if s.len() > 0 {
        lemma_byte_len_bounds(s.drop_first());
    }
}

/// Dropping the last character does not lengthen the encoding.
pub proof fn lemma_drop_last_byte_len(s: Seq<char>)
    requires
        s.len() > 0,
    ensures
        byte_len(s.drop_last()) <= byte_len(s),
    decreases s.len(),
{
    if s.len() > 1 {
        lemma_drop_last_byte_len(s.drop_first());
        assert(s.drop_last().drop_first() =~= s.drop_first().drop_last());
        assert(s.drop_last()[0] == s[0]);
    } else {
        assert(s.drop_last() =~= Seq::<char>::empty());
    }
}

/// Trimming does not lengthen the encoding, and leaves nothing of the
/// empty text.
pub proof fn lemma_trim_byte_len(s: Seq<char>)
    ensures
        byte_len(trim_start_of(s)) <= byte_len(s),
        byte_len(trim_end_of(s)) <= byte_len(s),
        byte_len(trimmed(s)) <= byte_len(s),
        trimmed(s).len() <= s.len(),
        trim_end_of(s).len() <= s.len(),
        trim_start_of(s).len() <= s.len(),
    decreases s.len(),
{
    if s.len() > 0 {
        lemma_trim_byte_len(s.drop_first());
        lemma_trim_byte_len(s.drop_last());
        lemma_drop_last_byte_len(s);
    }
    lemma_trim_end_byte_len(trim_start_of(s));
}

proof fn lemma_trim_end_byte_len(s: Seq<char>)
    ensures
        byte_len(trim_end_of(s)) <= byte_len(s),
        trim_end_of(s).len() <= s.len(),
    decreases s.len(),
{
    if s.len() > 0 {
        lemma_trim_end_byte_len(s.drop_last());
        lemma_drop_last_byte_len(s);
    }
}

/// What trimming at the start leaves is the end of the text from its first
/// character that is no whitespace.
pub proof fn lemma_trim_start_is_suffix(s: Seq<char>)
    ensures
        trim_start_of(s).len() <= s.len(),
        trim_start_of(s) == s.subrange(s.len() - trim_start_of(s).len(), s.len() as int),
        forall|k: int| 0 <= k < s.len() - trim_start_of(s).len() ==> is_whitespace(#[trigger] s[k]),
        trim_start_of(s).len() > 0 ==> !is_whitespace(trim_start_of(s)[0]),
    decreases s.len(),
{
    if s.len() > 0 && is_whitespace(s[0]) {
        let t = s.drop_first();
        lemma_trim_start_is_suffix(t);
        let n = trim_start_of(t).len();
        assert(t.subrange(t.len() - n, t.len() as int) =~= s.subrange(s.len() - n, s.len() as int));
        assert forall|k: int| 0 <= k < s.len() - n implies is_whitespace(#[trigger] s[k]) by {
            if k > 0 {
                assert(s[k] == t[k - 1]);
            }
        }
    } else {
        assert(s.subrange(0, s.len() as int) =~= s);
    }
}

/// What trimming at the end leaves is the start of the text up to its last
/// character that is no whitespace.
pub proof fn lemma_trim_end_is_prefix(s: Seq<char>)
    ensures
        trim_end_of(s).len() <= s.len(),
        trim_end_of(s) == s.subrange(0, trim_end_of(s).len() as int),
        forall|k: int| trim_end_of(s).len() <= k < s.len() ==> is_whitespace(#[trigger] s[k]),
        trim_end_of(s).len() > 0 ==> !is_whitespace(trim_end_of(s).last()),
    decreases s.len(),
{
    if s.len() > 0 && is_whitespace(s.last()) {
        let t = s.drop_last();
        lemma_trim_end_is_prefix(t);
        let n = trim_end_of(t).len() as int;
        assert(t.subrange(0, n) =~= s.subrange(0, n));
        assert forall|k: int| n <= k < s.len() implies is_whitespace(#[trigger] s[k]) by {
            if k < s.len() - 1 {
                assert(s[k] == t[k]);
            }
        }
    } else {
        assert(s.subrange(0, s.len() as int) =~= s);
    }
}

/// Trimming at the start cuts off exactly the whitespace before the first
/// character that is none.
pub proof fn lemma_trim_start_at(s: Seq<char>, a: int)
    requires
        0 <= a <= s.len(),
        forall|k: int| 0 <= k < a ==> is_whitespace(#[trigger] s[k]),
        a == s.len() || !is_whitespace(s[a]),
    ensures
        trim_start_of(s) == s.subrange(a, s.len() as int),
    decreases a,
{
    if a == 0 {
        assert(s.subrange(0, s.len() as int) =~= s);
    } else {
        let t = s.drop_first();
        assert(is_whitespace(s[0]));
        assert forall|k: int| 0 <= k < a - 1 implies is_whitespace(#[trigger] t[k]) by {
            assert(t[k] == s[k + 1]);
        }
        lemma_trim_start_at(t, a - 1);
        assert(t.subrange(a - 1, t.len() as int) =~= s.subrange(a, s.len() as int));
    }
}

/// Trimming at the end cuts off exactly the whitespace behind the last
/// character that is none.
pub proof fn lemma_trim_end_at(s: Seq<char>, n: int)
    requires
        0 <= n <= s.len(),
        forall|k: int| n <= k < s.len() ==> is_whitespace(#[trigger] s[k]),
        n == 0 || !is_whitespace(s[n - 1]),
    ensures
        trim_end_of(s) == s.subrange(0, n),
    decreases s.len() - n,
{
    if n == s.len() {
        assert(s.subrange(0, n) =~= s);
    } else {
        let t = s.drop_last();
        assert(is_whitespace(s.last()));
        assert forall|k: int| n <= k < t.len() implies is_whitespace(#[trigger] t[k]) by {
            assert(t[k] == s[k]);
        }
        lemma_trim_end_at(t, n);
        assert(t.subrange(0, n) =~= s.subrange(0, n));
    }
}

/// Text that has been trimmed at the end trims to the same as the text
/// itself.
pub proof fn lemma_trimmed_after_trim_end(s: Seq<char>)
    ensures
        trimmed(trim_end_of(s)) == trimmed(s),
{
    lemma_trim_end_is_prefix(s);
    lemma_trim_start_is_suffix(s);
    let len = s.len() as int;
    let n = trim_end_of(s).len() as int;
    let a = len - trim_start_of(s).len();
    let e = s.subrange(0, n);
    let u = s.subrange(a, len);
    if a >= n {
        if n > 0 {
            assert(e.last() == s[n - 1]);
            assert(is_whitespace(s[n - 1]));
        }
        if a < len {
            assert(u[0] == s[a]);
            assert(is_whitespace(s[a]));
        }
        assert(e =~= Seq::<char>::empty());
        assert(u =~= Seq::<char>::empty());
    } else {
        assert(u[0] == s[a]);
        assert(e.last() == s[n - 1]);
        assert forall|k: int| 0 <= k < a implies is_whitespace(#[trigger] e[k]) by {
            assert(e[k] == s[k]);
        }
        assert(e[a] == s[a]);
        lemma_trim_start_at(e, a);
        let middle = e.subrange(a, n);
        assert(middle.last() == s[n - 1]);
        lemma_trim_end_at(middle, n - a);
        assert(middle.subrange(0, n - a) =~= middle);
        assert forall|k: int| n - a <= k < u.len() implies is_whitespace(#[trigger] u[k]) by {
            assert(u[k] == s[k + a]);
        }
        assert(u[n - a - 1] == s[n - 1]);
        lemma_trim_end_at(u, n - a);
        assert(u.subrange(0, n - a) =~= middle);
    }
}

/// The decimal digit of value `d`.
pub open spec fn digit_char(d: int) -> char {
    if d == 0 {
        '0'
    } else if d == 1 {
        '1'
    } else if d == 2 {
        '2'
    } else if d == 3 {
        '3'
    } else if d == 4 {
        '4'
    } else if d == 5 {
        '5'
    } else if d == 6 {
        '6'
    } else if d == 7 {
        '7'
    } else if d == 8 {
        '8'
    } else {
        '9'
    }
}

/// `n` in decimal notation, without leading zeros.
pub open spec fn decimal_digits(n: nat) -> Seq<char>
    decreases n,
{
    if n < 10 {
        seq![digit_char(n as int)]
    } else {
        decimal_digits(n / 10).push(digit_char((n % 10) as int))
    }
}

/// `i` in decimal notation, with a minus sign where it is negative.
pub open spec fn signed_decimal(i: int) -> Seq<char> {
    if i < 0 {
        seq!['-'] + decimal_digits((-i) as nat)
    } else {
        decimal_digits(i as nat)
    }
}

/// The decimal digit of value `d` as text.
pub fn digit_str(d: u64) -> (r: &'static str)
    requires
        d < 10,
    ensures
        r@ == seq![digit_char(d as int)],
{
    proof {
        reveal_strlit("0");
        reveal_strlit("1");
        reveal_strlit("2");
        reveal_strlit("3");
        reveal_strlit("4");
        reveal_strlit("5");
        reveal_strlit("6");
        reveal_strlit("7");
        reveal_strlit("8");
        reveal_strlit("9");
    }
    let r = if d == 0 {
        "0"
    } else if d == 1 {
        "1"
    } else if d == 2 {
        "2"
    } else if d == 3 {
        "3"
    } else if d == 4 {
        "4"
    } else if d == 5 {
        "5"
    } else if d == 6 {
        "6"
    } else if d == 7 {
        "7"
    } else if d == 8 {
        "8"
    } else {
        "9"
    };
    assert(r@ =~= seq![digit_char(d as int)]);
    r
}

/// `n` in decimal notation.
pub fn decimal_string(n: u64) -> (r: String)
    ensures
        r@ == decimal_digits(n as nat),
    decreases n,
{
    if n < 10 {
        String::from_str(digit_str(n))
    } else {
        let mut s = decimal_string(n / 10);
        s.append(digit_str(n % 10));
        assert(s@ =~= decimal_digits(n as nat));
        s
    }
}

/// `i` in decimal notation, with a minus sign where it is negative.
pub fn signed_decimal_string(i: i32) -> (r: String)
    ensures
        r@ == signed_decimal(i as int),
{
    if i < 0 {
        let wide: i64 = i as i64;
        let magnitude: u64 = (-wide) as u64;
        let digits = decimal_string(magnitude);
        let mut s = String::from_str("-");
        s.append(digits.as_str());
        proof {
            reveal_strlit("-");
            assert("-"@ =~= seq!['-']);
        }
        s
    } else {
        decimal_string(i as u64)
    }
}

} // verus!
