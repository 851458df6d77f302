//! What a line typed at a prompt means, once read and stripped of trailing
//! whitespace.
use vstd::prelude::*;
use crate::text::to_string;

verus! {

/// The message for an answer that is neither yes nor no.
pub open spec fn bool_error() -> Seq<char> {
    "Enter 'y' or 'n' only."@
}

/// The message for an answer that is not an unsigned integer.
pub open spec fn uint_error() -> Seq<char> {
    "Enter positive integer or zero."@
}

/// The answer `s` is the one character `c`.
pub open spec fn is_single(s: Seq<char>, c: char) -> bool {
    s.len() == 1 && s[0] == c
}

/// Every character of `s` is a decimal digit.
pub open spec fn all_digits(s: Seq<char>) -> bool {
    forall|i: int| 0 <= i < s.len() ==> '0' <= #[trigger] s[i] <= '9'
}

/// The number that the decimal digits `s` write.
pub open spec fn digits_value(s: Seq<char>) -> nat
    decreases s.len(),
{
    if s.len() == 0 {
        0
    } else {
        digits_value(s.drop_last()) * 10 + ((s.last() as u32) - ('0' as u32)) as nat
    }
}

/// The digits of `s` once an optional leading `+` is dropped.
pub open spec fn unsigned_digits(s: Seq<char>) -> Seq<char> {
    if s.len() > 0 && s[0] == '+' {
        s.drop_first()
    } else {
        s
    }
}

/// The `u64` that `s` writes in decimal, as `u64`'s `FromStr` reads it: an
/// optional `+`, then one or more digits, with a value that fits.
pub open spec fn decimal_u64(s: Seq<char>) -> Option<u64> {
    let d = unsigned_digits(s);
    if d.len() > 0 && all_digits(d) && digits_value(d) <= u64::MAX {
        Some(digits_value(d) as u64)
    } else {
        None
    }
}

/// A longer run of digits writes a number at least as large.
proof fn lemma_digits_value_grows(s: Seq<char>, k: int)
    requires
        0 <= k <= s.len(),
        all_digits(s),
    ensures
        digits_value(s.take(k)) <= digits_value(s),
    decreases s.len() - k,
{
    if k < s.len() {
        lemma_digits_value_grows(s, k + 1);
        assert(s.take(k + 1).drop_last() =~= s.take(k));
        assert(s.take(k + 1).last() == s[k]);
        assert('0' <= s[k] <= '9');
    } else {
        assert(s.take(k) =~= s);
    }
}

/// `true` for `Y` or `y`, `false` for `N` or `n`, `default` for an empty
/// answer; anything else, or an empty answer without a default, is an error.
pub fn get_bool(input: &str, default: Option<bool>) -> (r: Result<bool, String>)
    ensures
        is_single(input@, 'Y') || is_single(input@, 'y') ==> r == Ok::<bool, String>(true),
        is_single(input@, 'N') || is_single(input@, 'n') ==> r == Ok::<bool, String>(false),
        input@.len() == 0 && default is Some ==> r == Ok::<bool, String>(default->Some_0),
        !(is_single(input@, 'Y') || is_single(input@, 'y') || is_single(input@, 'N')
            || is_single(input@, 'n')) && !(input@.len() == 0 && default is Some) ==> (r matches Err(e)
            && e@ == bool_error()),
{
    let len = input.unicode_len();
    if len == 1 {
        let c = input.get_char(0);
        if c == 'Y' || c == 'y' {
            return Ok(true);
        }
        if c == 'N' || c == 'n' {
            return Ok(false);
        }
    } else if len == 0 {
        if let Some(d) = default {
            return Ok(d);
        }
    }
    Err(to_string("Enter 'y' or 'n' only."))
}

/// The number that `input` writes in decimal, or `default` for an empty
/// answer; anything else, or an empty answer without a default, is an error.
pub fn get_uint(input: &str, default: Option<u64>) -> (r: Result<u64, String>)
    ensures
        input@.len() == 0 && default is Some ==> r == Ok::<u64, String>(default->Some_0),
        input@.len() > 0 && decimal_u64(input@) is Some ==> r == Ok::<u64, String>(
            decimal_u64(input@)->Some_0,
        ),
        (input@.len() == 0 && default is None) || (input@.len() > 0 && decimal_u64(input@) is None)
            ==> (r matches Err(e) && e@ == uint_error()),
{
    let len = input.unicode_len();
    if len == 0 {
        return match default {
            Some(d) => Ok(d),
            None => Err(to_string("Enter positive integer or zero.")),
        };
    }
    let start: usize = if input.get_char(0) == '+' {
        1
    } else {
        0
    };
    let ghost d = unsigned_digits(input@);
    assert(d =~= input@.skip(start as int));
    if start == len {
        return Err(to_string("Enter positive integer or zero."));
    }
    let mut value: u64 = 0;
    let mut i = start;
    while i < len
        invariant
            start <= i <= len,
            len == input@.len(),
            d == input@.skip(start as int),
            d == unsigned_digits(input@),
            all_digits(d.take(i - start)),
            value == digits_value(d.take(i - start)),
        decreases len - i,
    {
        let c = input.get_char(i);
        assert(d.take(i + 1 - start).drop_last() =~= d.take(i - start));
        assert(d[i - start] == c);
        assert(d.take(i + 1 - start).last() == c);
        if c < '0' || c > '9' {
            assert(!all_digits(d));
            return Err(to_string("Enter positive integer or zero."));
        }
        let digit = ((c as u32) - ('0' as u32)) as u64;
        if value > (u64::MAX - digit) / 10 {
            proof {
                assert(digits_value(d.take(i + 1 - start)) == value * 10 + digit);
                assert(digits_value(d.take(i + 1 - start)) > u64::MAX) by (nonlinear_arith)
                    requires
                        digits_value(d.take(i + 1 - start)) == value * 10 + digit,
                        value > (u64::MAX - digit) / 10,
                        digit <= 9,
                ;
                if all_digits(d) {
                    lemma_digits_value_grows(d, i + 1 - start);
                }
            }
            return Err(to_string("Enter positive integer or zero."));
        }
        assert(value * 10 + digit <= u64::MAX) by (nonlinear_arith)
            requires
                value <= (u64::MAX - digit) / 10,
                digit <= 9,
        ;
        value = value * 10 + digit;
        i = i + 1;
        assert(all_digits(d.take(i - start)));
    }
    assert(d.take(len - start) =~= d);
    Ok(value)
}

} // verus!
