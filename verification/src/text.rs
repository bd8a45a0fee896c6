//! Small verified text helpers: appending characters to a `String` and
//! rendering integers in decimal.

use vstd::prelude::*;

verus! {

/// Relies on String::push: appends exactly one character at the end.
#[verifier::external_body]
pub(crate) fn push_char(s: &mut String, c: char)
    ensures
        final(s)@ == old(s)@.push(c),
{
    s.push(c);
}

/// The decimal digit character for a value below ten.
pub open spec fn spec_digit(d: int) -> char {
    (('0' as int) + d) as char
}

/// The decimal digits of `n`, most significant first.
pub open spec fn spec_digits(n: nat) -> Seq<char>
    decreases n,
{
    if n < 10 {
        seq![spec_digit(n as int)]
    } else {
        spec_digits(n / 10).push(spec_digit((n % 10) as int))
    }
}

/// The decimal rendering of `v`, with a leading minus sign when negative.
pub open spec fn spec_int_str(v: int) -> Seq<char> {
    if v < 0 {
        seq!['-'] + spec_digits((-v) as nat)
    } else {
        spec_digits(v as nat)
    }
}

/// Renders `v` in decimal.
pub fn int_to_string(v: i32) -> (r: String)
    ensures
        r@ == spec_int_str(v as int),
{
    let neg = v < 0;
    let mut u: u32 = if neg {
        ((-(v as i64)) as u32)
    } else {
        v as u32
    };
    let ghost u0 = u as nat;
    let mut rev: Vec<char> = Vec::new();
    while u >= 10
        invariant
            spec_digits(u0) =~= spec_digits(u as nat) + rev@.reverse(),
        decreases u,
    {
        let d = ((u % 10) as u8 + 48) as char;
        proof {
            assert(spec_digits((u / 10) as nat).push(spec_digit((u % 10) as int)) + rev@.reverse()
                =~= spec_digits((u / 10) as nat) + rev@.push(d).reverse());
        }
        rev.push(d);
        u = u / 10;
    }
    let d = (u as u8 + 48) as char;
    rev.push(d);
    proof {
        assert(spec_digits(u0) =~= rev@.reverse());
    }
    let mut out = String::new();
    if neg {
        push_char(&mut out, '-');
    }
    let ghost pre = out@;
    let n = rev.len();
    let mut k: usize = 0;
    while k < n
        invariant
            n == rev@.len(),
            k <= n,
            out@ =~= pre + rev@.reverse().take(k as int),
        decreases n - k,
    {
        let c = rev[n - 1 - k];
        proof {
            assert(rev@.reverse()[k as int] == rev@[n - 1 - k]);
            assert(pre + rev@.reverse().take(k + 1) =~= (pre + rev@.reverse().take(k as int)).push(
                c,
            ));
        }
        push_char(&mut out, c);
        k += 1;
    }
    proof {
        assert(rev@.reverse().take(n as int) =~= rev@.reverse());
        assert(out@ =~= spec_int_str(v as int));
    }
    out
}

} // verus!
