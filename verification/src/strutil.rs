//! Small string utilities: moving between `String` and `Vec<char>` at the
//! library boundary, and verified decimal formatting of unsigned numbers.
use vstd::prelude::*;

verus! {

/// Relies on str::chars (collected into a vector): yields exactly the
/// characters of the slice, in order.
#[verifier::external_body]
pub fn str_to_chars(s: &str) -> (r: Vec<char>)
    ensures
        r@ == s@,
{
    s.chars().collect()
}

/// Relies on String's FromIterator impl (via Iterator::collect): builds the
/// string whose characters are exactly those of the vector, in order.
#[verifier::external_body]
pub fn chars_to_string(v: &Vec<char>) -> (r: String)
    ensures
        r@ == v@,
{
    v.iter().collect()
}

/// The character for one decimal digit.
pub open spec fn digit_char(d: int) -> char {
    ((48 + d) as u8) as char
}

/// The decimal representation of a number, most significant digit first,
/// with no leading zeros (zero itself is "0").
pub open spec fn dec_digits(n: nat) -> Seq<char>
    decreases n,
{
    if n < 10 {
        seq![digit_char(n as int)]
    } else {
        dec_digits(n / 10).push(digit_char((n % 10) as int))
    }
}

/// The decimal representation of `n` is never empty and starts with a
/// nonzero digit whenever `n >= 10` has more than one digit.
pub proof fn lemma_dec_digits_len(n: nat)
    ensures
        dec_digits(n).len() >= 1,
        n >= 10 ==> dec_digits(n).len() >= 2,
    decreases n,
{
    if n >= 10 {
        lemma_dec_digits_len(n / 10);
    }
}

/// Distinct numbers have distinct decimal representations.
pub proof fn lemma_dec_digits_injective(a: nat, b: nat)
    requires
        dec_digits(a) == dec_digits(b),
    ensures
        a == b,
    decreases a,
{
    lemma_dec_digits_len(a);
    lemma_dec_digits_len(b);
    if a < 10 && b < 10 {
        assert(dec_digits(a) =~= seq![digit_char(a as int)]);
        assert(dec_digits(b) =~= seq![digit_char(b as int)]);
        assert(dec_digits(a)[0] == digit_char(a as int));
        assert(dec_digits(b)[0] == digit_char(b as int));
        assert(digit_char(a as int) == digit_char(b as int));
        assert(digit_char(a as int) as u32 == 48 + a);
        assert(digit_char(b as int) as u32 == 48 + b);
    } else if a >= 10 && b >= 10 {
        assert(dec_digits(a).drop_last() =~= dec_digits(a / 10));
        assert(dec_digits(b).drop_last() =~= dec_digits(b / 10));
        assert(dec_digits(a / 10) == dec_digits(b / 10));
        lemma_dec_digits_injective(a / 10, b / 10);
        let la = dec_digits(a).last();
        let lb = dec_digits(b).last();
        assert(la == digit_char((a % 10) as int));
        assert(lb == digit_char((b % 10) as int));
        assert(la as u32 == 48 + a % 10);
        assert(lb as u32 == 48 + b % 10);
        assert(a % 10 == b % 10);
        assert(a == 10 * (a / 10) + a % 10);
        assert(b == 10 * (b / 10) + b % 10);
    } else {
        assert(dec_digits(a).len() != dec_digits(b).len());
    }
}

/// The decimal digits of `n`, as executable characters.
pub fn u64_to_dec_chars(n: u64) -> (r: Vec<char>)
    ensures
        r@ == dec_digits(n as nat),
    decreases n,
{
    if n < 10 {
        let c = ((48 + n) as u8) as char;
        let mut v: Vec<char> = Vec::new();
        v.push(c);
        assert(v@ =~= seq![digit_char(n as int)]);
        v
    } else {
        let mut v = u64_to_dec_chars(n / 10);
        let c = ((48 + n % 10) as u8) as char;
        v.push(c);
        v
    }
}

/// The decimal representation of `n` as a string.
pub fn u64_to_string(n: u64) -> (r: String)
    ensures
        r@ == dec_digits(n as nat),
{
    let v = u64_to_dec_chars(n);
    chars_to_string(&v)
}

/// The decimal representation of a 32-bit number as a string.
pub fn u32_to_string(n: u32) -> (r: String)
    ensures
        r@ == dec_digits(n as nat),
{
    u64_to_string(n as u64)
}

/// The decimal representation of a signed page-layout constant; the
/// constants of this library are all nonnegative.
pub fn i32_to_string(n: i32) -> (r: String)
    requires
        n >= 0,
    ensures
        r@ == dec_digits(n as nat),
{
    u64_to_string(n as u64)
}

} // verus!
