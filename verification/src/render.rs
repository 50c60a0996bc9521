//! The duration string: hours and minutes, each at least two digits, as
//! in `08h30m` or `123h05m`.

use vstd::prelude::*;
use crate::codec::digit;

verus! {

/// The decimal digits of `n`, most significant first, as ASCII bytes.
pub open spec fn dec_digits(n: nat) -> Seq<u8>
    decreases n,
{
    if n < 10 {
        seq![digit(n as int)]
    } else {
        dec_digits(n / 10).push(digit((n % 10) as int))
    }
}

/// The decimal digits of `n`, zero-padded on the left to at least two.
pub open spec fn padded2(n: nat) -> Seq<u8> {
    if n < 10 {
        seq![48u8] + dec_digits(n)
    } else {
        dec_digits(n)
    }
}

/// The duration string for a nonnegative number of seconds: whole hours,
/// `h`, minutes within the hour, `m`, both two digits or more.
pub open spec fn spec_format_duration(seconds: int) -> Seq<u8> {
    padded2((seconds / 3600) as nat) + seq![104u8] + padded2(((seconds / 60) % 60) as nat) + seq![
        109u8,
    ]
}

proof fn lemma_dec_digits_ascii(n: nat)
    ensures
        forall|i: int| 0 <= i < dec_digits(n).len() ==> 48 <= #[trigger] dec_digits(n)[i] <= 57,
    decreases n,
{
    if n >= 10 {
        lemma_dec_digits_ascii(n / 10);
        assert(0 <= n % 10 <= 9) by (nonlinear_arith);
        let pre = dec_digits(n / 10);
        assert forall|i: int| 0 <= i < dec_digits(n).len() implies 48 <= #[trigger] dec_digits(
            n,
        )[i] <= 57 by {
            if i < pre.len() {
                assert(dec_digits(n)[i] == pre[i]);
            }
        }
    }
}

/// Append the decimal digits of `n`, most significant first.
fn push_decimal(n: u128, out: &mut Vec<u8>)
    ensures
        final(out)@ == old(out)@ + dec_digits(n as nat),
    decreases n,
{
    if n < 10 {
        out.push(48 + n as u8);
        proof {
            assert(out@ =~= old(out)@ + dec_digits(n as nat));
        }
    } else {
        proof {
            assert(n / 10 < n && 0 <= n % 10 <= 9) by (nonlinear_arith)
                requires n >= 10;
        }
        push_decimal(n / 10, out);
        out.push(48 + (n % 10) as u8);
        proof {
            assert(out@ =~= old(out)@ + dec_digits(n as nat));
        }
    }
}

/// Relies on `String::from_utf8`: ASCII bytes become exactly their
/// characters, one each.
#[verifier::external_body]
fn ascii_string(bytes: Vec<u8>) -> (r: String)
    requires
        forall|i: int| 0 <= i < bytes@.len() ==> bytes@[i] < 128,
    ensures
        r@ == bytes@.map_values(|b: u8| b as char),
{
    match String::from_utf8(bytes) {
        Ok(s) => s,
        Err(_) => String::new(),
    }
}

/// The duration string: hours, then minutes within the hour, both zero
/// padded to two digits.
pub fn format_duration(seconds: i128) -> (r: String)
    requires
        0 <= seconds,
    ensures
        r@ == spec_format_duration(seconds as int).map_values(|b: u8| b as char),
{
    proof {
        assert(0 <= seconds / 3600 && 0 <= (seconds / 60) % 60 <= 59) by (nonlinear_arith)
            requires seconds >= 0;
    }
    let hours = (seconds / 3600) as u128;
    let minutes = ((seconds / 60) % 60) as u128;
    let mut bytes: Vec<u8> = Vec::new();
    if hours < 10 {
        bytes.push(48);
    }
    push_decimal(hours, &mut bytes);
    bytes.push(104);  // 'h'
    if minutes < 10 {
        bytes.push(48);
    }
    push_decimal(minutes, &mut bytes);
    bytes.push(109);  // 'm'
    proof {
        lemma_dec_digits_ascii(hours as nat);
        lemma_dec_digits_ascii(minutes as nat);
        assert(bytes@ =~= spec_format_duration(seconds as int));
    }
    ascii_string(bytes)
}

} // verus!
