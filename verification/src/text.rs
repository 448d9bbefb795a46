//! Text building: decimal numerals and concatenation.
use vstd::prelude::*;
use vstd::string::StringSliceAdditionalSpecFns;

verus! {

/// The character of a decimal digit.
pub open spec fn digit_char(d: int) -> char {
    (48 + d) as char
}

/// Decimal numeral of a natural number, without leading zeros.
pub open spec fn nat_to_decimal(n: nat) -> Seq<char>
    decreases n,
{
    if n < 10 {
        seq![digit_char(n as int)]
    } else {
        nat_to_decimal(n / 10).push(digit_char((n % 10) as int))
    }
}

/// Decimal numeral of an integer, with a leading `-` when negative.
pub open spec fn int_to_decimal(n: int) -> Seq<char> {
    if n < 0 {
        seq!['-'] + nat_to_decimal((-n) as nat)
    } else {
        nat_to_decimal(n as nat)
    }
}

/// The decimal numeral of `n` (`i64::to_string`, which formats through `Display`:
/// an optional minus sign, then the digits without leading zeros).
#[verifier::external_body]
pub fn i64_to_string(n: i64) -> (r: String)
    ensures
        r@ == int_to_decimal(n as int),
{
    n.to_string()
}

/// The decimal numeral of `n` (`u64::to_string`).
#[verifier::external_body]
pub fn u64_to_string(n: u64) -> (r: String)
    ensures
        r@ == int_to_decimal(n as int),
{
    n.to_string()
}

/// `a` followed by `b` (`String::push_str`).
#[verifier::external_body]
pub fn concat(a: String, b: &str) -> (r: String)
    ensures
        r@ == a@ + b@,
{
    let mut a = a;
    a.push_str(b);
    a
}

/// The string of the given characters (`String::from_iter`).
#[verifier::external_body]
pub fn string_from_chars(chars: &[char]) -> (r: String)
    ensures
        r@ == chars@,
{
    String::from_iter(chars.iter())
}

/// The lowercase form of a text, as Unicode defines it (`str::to_lowercase`).
pub uninterp spec fn unicode_lowercase(s: Seq<char>) -> Seq<char>;

/// The text in lowercase (`str::to_lowercase`): the result is a function of
/// the text alone; the Unicode case tables that define it are not restated.
#[verifier::external_body]
pub fn to_lowercase(s: &str) -> (r: String)
    ensures
        r@ == unicode_lowercase(s@),
{
    s.to_lowercase()
}

/// `needle` occurs in `hay` at byte position `i`.
pub open spec fn occurs_at(hay: Seq<u8>, needle: Seq<u8>, i: int) -> bool {
    0 <= i && i + needle.len() <= hay.len() && hay.subrange(i, i + needle.len()) == needle
}

/// The first position, from `i` on, at which `needle` occurs in `hay`.
pub open spec fn first_occurrence_from(hay: Seq<u8>, needle: Seq<u8>, i: int) -> Option<int>
    decreases hay.len() - i,
{
    if i < 0 || i + needle.len() > hay.len() {
        None
    } else if occurs_at(hay, needle, i) {
        Some(i)
    } else if i < hay.len() {
        first_occurrence_from(hay, needle, i + 1)
    } else {
        None
    }
}

/// The byte position of the first occurrence of `needle` in `hay` (`str::find`).
pub open spec fn first_occurrence(hay: Seq<u8>, needle: Seq<u8>) -> Option<int> {
    first_occurrence_from(hay, needle, 0)
}

/// The byte position of the first occurrence of `needle` in `hay`.
pub fn find_text(hay: &str, needle: &str) -> (r: Option<usize>)
    ensures
        r matches Some(i) ==> first_occurrence(hay.spec_bytes(), needle.spec_bytes()) == Some(i as int),
        r is None ==> first_occurrence(hay.spec_bytes(), needle.spec_bytes()) is None,
{
    let h = hay.as_bytes();
    let n = needle.as_bytes();
    if n.len() > h.len() {
        return None;
    }
    let last = h.len() - n.len();
    let mut i: usize = 0;
    while i <= last
        invariant
            last == h@.len() - n@.len(),
            i <= last + 1,
            h@ == hay.spec_bytes(),
            n@ == needle.spec_bytes(),
            first_occurrence(h@, n@) == first_occurrence_from(h@, n@, i as int),
        decreases last + 1 - i,
    {
        let mut j: usize = 0;
        while j < n.len() && h[i + j] == n[j]
            invariant
                i <= last,
                last == h@.len() - n@.len(),
                i + n@.len() <= h@.len(),
                i + n.len() <= h.len(),
                j <= n@.len(),
                forall|k: int| 0 <= k < j ==> h@[i + k] == n@[k],
            decreases n.len() - j,
        {
            j += 1;
        }
        if j == n.len() {
            proof {
                assert(h@.subrange(i as int, i + n@.len()) =~= n@);
            }
            return Some(i);
        }
        proof {
            assert(h@.subrange(i as int, i + n@.len())[j as int] != n@[j as int]);
        }
        i += 1;
    }
    None
}

} // verus!
