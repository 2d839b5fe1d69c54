//! Character-level text processing: decimal parsing of string-typed
//! numeric fields, trailing-id extraction from file names, the
//! punctuation- and case-insensitive normalization used by the dedup
//! filter, and joining of artist name lists.

use vstd::prelude::*;
use vstd::string::StrSliceExecFns;
use vstd::string::StringExecFns;

verus! {

/// An ASCII decimal digit.
pub open spec fn is_digit(c: char) -> bool {
    '0' <= c && c <= '9'
}

/// Numeric value of one decimal digit.
pub open spec fn digit_val(c: char) -> int {
    c as int - '0' as int
}

/// Every character of the sequence is a decimal digit.
pub open spec fn all_digits(s: Seq<char>) -> bool {
    forall|i: int| 0 <= i < s.len() ==> is_digit(#[trigger] s[i])
}

/// Value of a digit sequence read as a base-10 numeral.
pub open spec fn dec_val(s: Seq<char>) -> int
    decreases s.len(),
{
    if s.len() == 0 {
        0
    } else {
        dec_val(s.drop_last()) * 10 + digit_val(s.last())
    }
}

/// What a non-negative integer field parses to: a non-empty all-digit
/// string whose value fits in 32 bits, and nothing else.
pub open spec fn parsed_u32(s: Seq<char>) -> Option<u32> {
    if s.len() > 0 && all_digits(s) && dec_val(s) <= u32::MAX {
        Some(dec_val(s) as u32)
    } else {
        None
    }
}

proof fn lemma_dec_val_nonneg(s: Seq<char>)
    requires
        all_digits(s),
    ensures
        dec_val(s) >= 0,
    decreases s.len(),
{
    if s.len() > 0 {
        assert(all_digits(s.drop_last()));
        lemma_dec_val_nonneg(s.drop_last());
    }
}

proof fn lemma_dec_val_push(s: Seq<char>, c: char)
    ensures
        dec_val(s.push(c)) == dec_val(s) * 10 + digit_val(c),
{
    assert(s.push(c).drop_last() =~= s);
    assert(s.push(c).last() == c);
}

/// The value of a digit string is at least the value of any prefix.
proof fn lemma_dec_val_take_le(s: Seq<char>, k: int)
    requires
        all_digits(s),
        0 <= k <= s.len(),
    ensures
        dec_val(s.take(k)) <= dec_val(s),
    decreases s.len() - k,
{
    if k < s.len() {
        assert(s.take(k + 1).drop_last() =~= s.take(k));
        assert(s.take(k + 1).last() == s[k]);
        assert(all_digits(s.take(k)));
        lemma_dec_val_nonneg(s.take(k));
        assert(dec_val(s.take(k + 1)) == dec_val(s.take(k)) * 10 + digit_val(s[k]));
        assert(dec_val(s.take(k)) * 10 >= dec_val(s.take(k)));
        lemma_dec_val_take_le(s, k + 1);
    } else {
        assert(s.take(k) =~= s);
    }
}

/// Parse a string as a non-negative 32-bit decimal numeral.
pub fn parse_u32(s: &str) -> (r: Option<u32>)
    ensures
        r == parsed_u32(s@),
{
    let n = s.unicode_len();
    if n == 0 {
        return None;
    }
    let mut acc: u32 = 0;
    let mut i: usize = 0;
    while i < n
        invariant
            0 < n == s@.len(),
            0 <= i <= n,
            all_digits(s@.take(i as int)),
            acc == dec_val(s@.take(i as int)),
        decreases n - i,
    {
        let c = s.get_char(i);
        let v = c as u32;
        if v < 48 || v > 57 {
            assert(!is_digit(s@[i as int]));
            return None;
        }
        let d = v - 48;
        proof {
            assert(is_digit(s@[i as int]));
            assert(s@.take(i + 1).drop_last() =~= s@.take(i as int));
            assert(all_digits(s@.take(i + 1)));
            lemma_dec_val_push(s@.take(i as int), s@[i as int]);
            assert(s@.take(i as int).push(s@[i as int]) =~= s@.take(i + 1));
        }
        let wide: u64 = acc as u64 * 10 + d as u64;
        if wide > u32::MAX as u64 {
            proof {
                if all_digits(s@) {
                    lemma_dec_val_take_le(s@, i + 1);
                }
            }
            return None;
        }
        acc = wide as u32;
        i += 1;
    }
    proof {
        assert(s@.take(n as int) =~= s@);
    }
    Some(acc)
}

/// Length of the run of decimal digits at the end of the sequence.
pub open spec fn trailing_digit_count(s: Seq<char>) -> int
    decreases s.len(),
{
    if s.len() == 0 || !is_digit(s.last()) {
        0
    } else {
        1 + trailing_digit_count(s.drop_last())
    }
}

/// The id a file stem carries: its maximal trailing digit run, read as
/// a decimal numeral, when there is one and it fits in 32 bits.
pub open spec fn spec_trailing_id(s: Seq<char>) -> Option<u32> {
    let k = trailing_digit_count(s);
    if k == 0 {
        None
    } else {
        parsed_u32(s.subrange(s.len() - k, s.len() as int))
    }
}

proof fn lemma_tdc_characterize(s: Seq<char>, k: int)
    requires
        0 <= k <= s.len(),
        forall|m: int| s.len() - k <= m < s.len() ==> is_digit(#[trigger] s[m]),
        k == s.len() || !is_digit(s[s.len() - k - 1]),
    ensures
        trailing_digit_count(s) == k,
    decreases k,
{
    if k == 0 {
        if s.len() > 0 {
            assert(!is_digit(s.last()));
        }
    } else {
        assert(is_digit(s.last()));
        let t = s.drop_last();
        assert(forall|m: int| t.len() - (k - 1) <= m < t.len() ==> is_digit(#[trigger] t[m]));
        lemma_tdc_characterize(t, k - 1);
    }
}

/// Extract the trailing numeric id of a file stem, if any.
pub fn trailing_id_of(stem: &str) -> (r: Option<u32>)
    ensures
        r == spec_trailing_id(stem@),
{
    let n = stem.unicode_len();
    let mut k: usize = 0;
    loop
        invariant
            n == stem@.len(),
            0 <= k <= n,
            forall|m: int| n - k <= m < n ==> is_digit(#[trigger] stem@[m]),
        ensures
            0 <= k <= n,
            forall|m: int| n - k <= m < n ==> is_digit(#[trigger] stem@[m]),
            k == n || !is_digit(stem@[n - k - 1]),
        decreases n - k,
    {
        if k == n {
            break;
        }
        let c = stem.get_char(n - 1 - k);
        let v = c as u32;
        if v < 48 || v > 57 {
            assert(!is_digit(stem@[n - k - 1]));
            break;
        }
        assert(is_digit(stem@[n - k - 1]));
        k += 1;
    }
    proof {
        lemma_tdc_characterize(stem@, k as int);
    }
    if k == 0 {
        return None;
    }
    let digits = stem.substring_char(n - k, n);
    parse_u32(digits)
}

/// An ASCII letter or digit: the only characters the overlap filter
/// compares.
pub open spec fn is_alnum(c: char) -> bool {
    ('0' <= c && c <= '9') || ('A' <= c && c <= 'Z') || ('a' <= c && c <= 'z')
}

/// ASCII lower-casing of one character.
pub open spec fn to_lower(c: char) -> char {
    if 'A' <= c && c <= 'Z' {
        ((c as u8) + 32) as char
    } else {
        c
    }
}

/// The normalized form a string is matched under: its ASCII letters
/// and digits, lower-cased, with everything else stripped.
pub open spec fn norm(s: Seq<char>) -> Seq<char>
    decreases s.len(),
{
    if s.len() == 0 {
        Seq::empty()
    } else {
        norm(s.drop_last()) + (if is_alnum(s.last()) {
            seq![to_lower(s.last())]
        } else {
            Seq::empty()
        })
    }
}

/// Compute the normalized form of a string.
pub fn normalize_chars(s: &str) -> (r: Vec<char>)
    ensures
        r@ == norm(s@),
{
    let n = s.unicode_len();
    let mut r: Vec<char> = Vec::new();
    let mut i: usize = 0;
    while i < n
        invariant
            n == s@.len(),
            0 <= i <= n,
            r@ == norm(s@.take(i as int)),
        decreases n - i,
    {
        let c = s.get_char(i);
        let v = c as u32;
        let alnum = (48 <= v && v <= 57) || (65 <= v && v <= 90) || (97 <= v && v <= 122);
        proof {
            assert(alnum == is_alnum(s@[i as int]));
            assert(s@.take(i + 1).drop_last() =~= s@.take(i as int));
            assert(s@.take(i + 1).last() == s@[i as int]);
        }
        if alnum {
            if 65 <= v && v <= 90 {
                let lc = ((c as u8) + 32) as char;
                assert(lc == to_lower(s@[i as int]));
                r.push(lc);
            } else {
                assert(c == to_lower(s@[i as int]));
                r.push(c);
            }
            assert(r@ =~= norm(s@.take(i + 1)));
        } else {
            assert(r@ =~= norm(s@.take(i + 1)));
        }
        i += 1;
    }
    proof {
        assert(s@.take(n as int) =~= s@);
    }
    r
}

/// Character-sequence equality on vectors.
pub fn chars_eq(a: &Vec<char>, b: &Vec<char>) -> (r: bool)
    ensures
        r == (a@ == b@),
{
    if a.len() != b.len() {
        return false;
    }
    let n = a.len();
    let mut i: usize = 0;
    while i < n
        invariant
            n == a@.len() == b@.len(),
            0 <= i <= n,
            forall|j: int| 0 <= j < i ==> a@[j] == b@[j],
        decreases n - i,
    {
        if a[i] != b[i] {
            return false;
        }
        i += 1;
    }
    proof {
        assert(a@ =~= b@);
    }
    true
}

/// String-slice equality, stated over the views.
pub fn str_eq(a: &str, b: &str) -> (r: bool)
    ensures
        r == (a@ == b@),
{
    let na = a.unicode_len();
    let nb = b.unicode_len();
    if na != nb {
        return false;
    }
    let mut i: usize = 0;
    while i < na
        invariant
            na == a@.len() == b@.len(),
            0 <= i <= na,
            forall|j: int| 0 <= j < i ==> a@[j] == b@[j],
        decreases na - i,
    {
        if a.get_char(i) != b.get_char(i) {
            return false;
        }
        i += 1;
    }
    proof {
        assert(a@ =~= b@);
    }
    true
}

/// The names joined with a separator between neighbours.
pub open spec fn joined(names: Seq<Seq<char>>, sep: Seq<char>) -> Seq<char>
    decreases names.len(),
{
    if names.len() == 0 {
        Seq::empty()
    } else if names.len() == 1 {
        names[0]
    } else {
        joined(names.drop_last(), sep) + sep + names.last()
    }
}

/// Join strings with a separator, as the artist list of a collage work
/// is joined.
pub fn join_all(names: &Vec<String>, sep: &str) -> (r: String)
    ensures
        r@ == joined(names@.map(|i: int, n: String| n@), sep@),
{
    let mut r = String::new();
    let mut i: usize = 0;
    while i < names.len()
        invariant
            0 <= i <= names@.len(),
            r@ == joined(names@.map(|i: int, n: String| n@).take(i as int), sep@),
        decreases names@.len() - i,
    {
        if i > 0 {
            r.append(sep);
        }
        r.append(names[i].as_str());
        proof {
            let vs = names@.map(|i: int, n: String| n@);
            assert(vs.take(i + 1).drop_last() =~= vs.take(i as int));
            assert(vs.take(i + 1).last() == vs[i as int]);
            if i == 0 {
                assert(r@ =~= joined(vs.take(i + 1), sep@));
            } else {
                assert(r@ =~= joined(vs.take(i + 1), sep@));
            }
        }
        i += 1;
    }
    proof {
        let vs = names@.map(|i: int, n: String| n@);
        assert(vs.take(names@.len() as int) =~= vs);
    }
    r
}

} // verus!
