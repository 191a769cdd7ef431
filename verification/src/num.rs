//! Fixed-point values and the wire number format.
//!
//! Every value the engine works with is an integer count of micro-units:
//! `1_000_000` stands for 1.0. A field of a wire frame is a plain decimal
//! number (optional sign, digits, at most one dot); it is read with
//! micro-unit precision and saturated at +/- one million units, far above
//! any normalization ceiling the configuration admits.

use vstd::prelude::*;
use crate::text::find_byte_spec;
use crate::text::find_byte_from;

verus! {

/// One whole unit (1.0) in micro-units.
pub const UNIT: u64 = 1_000_000;

/// Saturation bound for values read off the wire, in micro-units.
pub const VAL_CAP: u64 = 1_000_000_000_000;

/// Saturation bound for the integer part of a wire value, in whole units.
pub const INT_CAP: u64 = 1_000_000;

pub const DOT: u8 = 46;

pub const PLUS: u8 = 43;

pub const MINUS: u8 = 45;

pub open spec fn is_digit(b: u8) -> bool {
    48 <= b <= 57
}

pub open spec fn all_digits(s: Seq<u8>) -> bool {
    forall|i: int| 0 <= i < s.len() ==> is_digit(#[trigger] s[i])
}

/// The number written by a digit string, most significant digit first.
pub open spec fn digits_val(s: Seq<u8>) -> int
    decreases s.len(),
{
    if s.len() == 0 {
        0
    } else {
        digits_val(s.drop_last()) * 10 + (s.last() - 48)
    }
}

pub open spec fn pow10(k: nat) -> int
    decreases k,
{
    if k == 0 {
        1
    } else {
        10 * pow10((k - 1) as nat)
    }
}

pub proof fn lemma_digits_val_bounds(s: Seq<u8>)
    requires
        all_digits(s),
    ensures
        0 <= digits_val(s) < pow10(s.len()),
    decreases s.len(),
{
    if s.len() == 0 {
    } else {
        assert(all_digits(s.drop_last()));
        lemma_digits_val_bounds(s.drop_last());
        assert(is_digit(s.last()));
    }
}

/// Appending `k` zero digits multiplies the written number by `10^k`.
proof fn lemma_digits_val_pad(s: Seq<u8>, k: nat)
    ensures
        digits_val(s + Seq::new(k, |i: int| 48u8)) == digits_val(s) * pow10(k),
    decreases k,
{
    let z = Seq::new(k, |i: int| 48u8);
    if k == 0 {
        assert(s + z =~= s);
    } else {
        let z1 = Seq::new((k - 1) as nat, |i: int| 48u8);
        lemma_digits_val_pad(s, (k - 1) as nat);
        assert((s + z).drop_last() =~= s + z1);
        assert((s + z).last() == 48u8);
        assert(digits_val(s + z) == digits_val(s) * pow10((k - 1) as nat) * 10);
        assert(digits_val(s) * pow10((k - 1) as nat) * 10 == digits_val(s) * (pow10(
            (k - 1) as nat,
        ) * 10)) by {
            vstd::arithmetic::mul::lemma_mul_is_associative(
                digits_val(s),
                pow10((k - 1) as nat),
                10,
            );
        }
    }
}

/// The fraction digits of a wire value, read to micro-unit precision:
/// the first six digits count, shorter fractions are padded with zeros.
pub open spec fn frac_micros(s: Seq<u8>) -> int {
    if s.len() >= 6 {
        digits_val(s.take(6))
    } else {
        digits_val(s + Seq::new((6 - s.len()) as nat, |i: int| 48u8))
    }
}

pub proof fn lemma_frac_micros_bounds(s: Seq<u8>)
    requires
        all_digits(s),
    ensures
        0 <= frac_micros(s) < UNIT as int,
{
    reveal_with_fuel(pow10, 8);
    if s.len() >= 6 {
        assert(all_digits(s.take(6)));
        lemma_digits_val_bounds(s.take(6));
    } else {
        let padded = s + Seq::new((6 - s.len()) as nat, |i: int| 48u8);
        assert(all_digits(padded));
        lemma_digits_val_bounds(padded);
    }
}

/// Shape of an unsigned decimal body: digits with at most one dot, and at
/// least one character besides the dot.
pub open spec fn body_ok(s: Seq<u8>) -> bool {
    let d = find_byte_spec(s, DOT);
    if d < 0 {
        s.len() > 0 && all_digits(s)
    } else {
        s.len() > 1 && all_digits(s.take(d)) && all_digits(s.skip(d + 1))
    }
}

/// The unsigned decimal body's value in micro-units.
pub open spec fn body_micros(s: Seq<u8>) -> int {
    let d = find_byte_spec(s, DOT);
    if d < 0 {
        digits_val(s) * (UNIT as int)
    } else {
        digits_val(s.take(d)) * (UNIT as int) + frac_micros(s.skip(d + 1))
    }
}

/// Whether a wire field is a decimal number: an optional sign before a body.
pub open spec fn is_decimal(s: Seq<u8>) -> bool {
    if s.len() > 0 && (s[0] == PLUS || s[0] == MINUS) {
        body_ok(s.skip(1))
    } else {
        body_ok(s)
    }
}

/// The signed value of a decimal field, in micro-units.
pub open spec fn dec_micros(s: Seq<u8>) -> int {
    if s.len() > 0 && s[0] == MINUS {
        -body_micros(s.skip(1))
    } else if s.len() > 0 && s[0] == PLUS {
        body_micros(s.skip(1))
    } else {
        body_micros(s)
    }
}

/// Saturation of a read value at +/- `VAL_CAP` micro-units.
pub open spec fn sat_cap(v: int) -> int {
    if v > VAL_CAP as int {
        VAL_CAP as int
    } else if v < -(VAL_CAP as int) {
        -(VAL_CAP as int)
    } else {
        v
    }
}

/// Reads the digit run `f[start .. end)` as a whole number, capped at
/// `INT_CAP`; `None` when a non-digit stands in the run.
#[verifier::loop_isolation(false)]
fn read_int_capped(f: &[u8], start: usize, end: usize) -> (r: Option<u64>)
    requires
        start <= end <= f@.len(),
    ensures
        r is Some <==> all_digits(f@.subrange(start as int, end as int)),
        r is Some ==> {
            let v = digits_val(f@.subrange(start as int, end as int));
            r->0 as int == if v > INT_CAP as int {
                INT_CAP as int
            } else {
                v
            } && r->0 <= INT_CAP
        },
{
    let mut acc: u64 = 0;
    let mut k: usize = start;
    while k < end
        invariant
            start <= k <= end,
            acc <= INT_CAP,
            all_digits(f@.subrange(start as int, k as int)),
            0 <= digits_val(f@.subrange(start as int, k as int)),
            acc as int == if digits_val(f@.subrange(start as int, k as int)) > INT_CAP as int {
                INT_CAP as int
            } else {
                digits_val(f@.subrange(start as int, k as int))
            },
        decreases end - k,
    {
        let b = f[k];
        if !(48 <= b && b <= 57) {
            proof {
                assert(!is_digit(f@.subrange(start as int, end as int)[k - start]));
            }
            return None;
        }
        proof {
            let pre = f@.subrange(start as int, k as int);
            let post = f@.subrange(start as int, (k + 1) as int);
            assert(post.drop_last() =~= pre);
            assert(post.last() == b);
            assert(digits_val(post) == digits_val(pre) * 10 + (b - 48));
        }
        let dg = (b - 48) as u64;
        if acc >= INT_CAP {
            // the written number is already at or above the cap and can
            // only grow, so the cap stands
        } else {
            acc = acc * 10 + dg;
            if acc > INT_CAP {
                acc = INT_CAP;
            }
        }
        k = k + 1;
    }
    proof {
        assert(f@.subrange(start as int, end as int) =~= f@.subrange(start as int, k as int));
    }
    Some(acc)
}

/// Reads the digit run `f[start .. end)` as a fraction in micro-units;
/// `None` when a non-digit stands in the run.
#[verifier::loop_isolation(false)]
fn read_frac_micros(f: &[u8], start: usize, end: usize) -> (r: Option<u64>)
    requires
        start <= end <= f@.len(),
    ensures
        r is Some <==> all_digits(f@.subrange(start as int, end as int)),
        r is Some ==> r->0 as int == frac_micros(f@.subrange(start as int, end as int)) && r->0
            < UNIT,
{
    let ghost whole = f@.subrange(start as int, end as int);
    let mut fr: u64 = 0;
    let mut cnt: usize = 0;
    let mut k: usize = start;
    proof {
        reveal_with_fuel(pow10, 8);
    }
    while k < end
        invariant
            start <= k <= end,
            cnt == k - start,
            all_digits(f@.subrange(start as int, k as int)),
            cnt < 6 ==> fr as int == digits_val(f@.subrange(start as int, k as int)) && (
            fr as int) < pow10(cnt as nat),
            cnt >= 6 ==> fr as int == digits_val(f@.subrange(start as int, k as int).take(6)) && fr
                < UNIT,
        decreases end - k,
    {
        let b = f[k];
        if !(48 <= b && b <= 57) {
            proof {
                assert(!is_digit(whole[k - start]));
            }
            return None;
        }
        proof {
            let pre = f@.subrange(start as int, k as int);
            let post = f@.subrange(start as int, (k + 1) as int);
            assert(post.drop_last() =~= pre);
            assert(post.last() == b);
            reveal_with_fuel(pow10, 8);
            if cnt < 6 {
                assert(digits_val(post) == digits_val(pre) * 10 + (b - 48));
                if cnt + 1 == 6 {
                    assert(post.take(6) =~= post);
                }
            } else {
                assert(post.take(6) =~= pre.take(6));
            }
        }
        if cnt < 6 {
            fr = fr * 10 + ((b - 48) as u64);
        }
        cnt = cnt + 1;
        k = k + 1;
    }
    proof {
        assert(whole =~= f@.subrange(start as int, k as int));
        reveal_with_fuel(pow10, 8);
    }
    if cnt >= 6 {
        Some(fr)
    } else {
        proof {
            lemma_digits_val_pad(whole, (6 - cnt) as nat);
            assert(frac_micros(whole) == digits_val(whole) * pow10((6 - cnt) as nat));
            lemma_frac_micros_bounds(whole);
        }
        let scaled = match 6 - cnt {
            1 => fr * 10,
            2 => fr * 100,
            3 => fr * 1_000,
            4 => fr * 10_000,
            5 => fr * 100_000,
            _ => fr * 1_000_000,
        };
        Some(scaled)
    }
}

/// Reads one wire field. `None` exactly when the field is not a decimal
/// number; otherwise its value in micro-units, saturated at +/- `VAL_CAP`.
#[verifier::rlimit(30)]
pub fn parse_decimal(f: &[u8]) -> (r: Option<i64>)
    ensures
        r is Some <==> is_decimal(f@),
        is_decimal(f@) ==> r == Some(sat_cap(dec_micros(f@)) as i64),
{
    let len = f.len();
    let mut i0: usize = 0;
    let mut neg = false;
    if len > 0 && (f[0] == PLUS || f[0] == MINUS) {
        neg = f[0] == MINUS;
        i0 = 1;
    }
    let ghost body = f@.skip(i0 as int);
    proof {
        if i0 == 0 {
            assert(body =~= f@);
        }
        assert(is_decimal(f@) == body_ok(body));
        assert(is_decimal(f@) ==> dec_micros(f@) == if neg {
            -body_micros(body)
        } else {
            body_micros(body)
        });
    }
    if len - i0 == 0 {
        assert(!body_ok(body));
        return None;
    }
    let dot = find_byte_from(f, DOT, i0);
    let ghost d = find_byte_spec(body, DOT);
    let dend: usize = match dot {
        Some(j) => {
            assert(d == j - i0);
            if len - i0 == 1 {
                // the body is a lone dot
                assert(!body_ok(body));
                return None;
            }
            j
        },
        None => {
            assert(d < 0);
            len
        },
    };
    let ghost ints = f@.subrange(i0 as int, dend as int);
    proof {
        if d < 0 {
            assert(ints =~= body);
        } else {
            assert(ints =~= body.take(d));
        }
    }
    let iv = match read_int_capped(f, i0, dend) {
        Some(v) => v,
        None => {
            proof {
                assert(!body_ok(body));
            }
            return None;
        },
    };
    let fv: u64 = if dend < len {
        proof {
            assert(f@.subrange(dend + 1 as int, len as int) =~= body.skip(d + 1));
        }
        match read_frac_micros(f, dend + 1, len) {
            Some(v) => v,
            None => {
                proof {
                    assert(!body_ok(body));
                }
                return None;
            },
        }
    } else {
        0
    };
    proof {
        assert(body_ok(body));
        lemma_digits_val_bounds(ints);
        if d >= 0 {
            lemma_frac_micros_bounds(body.skip(d + 1));
        }
    }
    // assemble the magnitude in micro-units, saturated at the cap
    let magnitude: u64 = if iv >= INT_CAP {
        VAL_CAP
    } else {
        iv * 1_000_000 + fv
    };
    proof {
        let bm = body_micros(body);
        if d < 0 {
            assert(bm == digits_val(ints) * (UNIT as int));
        } else {
            assert(bm == digits_val(ints) * (UNIT as int) + frac_micros(body.skip(d + 1)));
        }
        if iv >= INT_CAP {
            assert(digits_val(ints) >= INT_CAP as int);
            assert(digits_val(ints) * (UNIT as int) >= INT_CAP as int * (UNIT as int)) by {
                vstd::arithmetic::mul::lemma_mul_inequality(
                    INT_CAP as int,
                    digits_val(ints),
                    UNIT as int,
                );
            }
            assert(bm >= VAL_CAP as int);
        } else {
            assert(digits_val(ints) == iv as int);
            assert(bm == iv as int * 1_000_000 + fv as int);
        }
        assert(magnitude as int == if bm > VAL_CAP as int {
            VAL_CAP as int
        } else {
            bm
        });
        assert(bm >= 0);
        if neg {
            assert(f@[0] == MINUS);
            assert(sat_cap(dec_micros(f@)) == -(magnitude as int));
        } else {
            assert(sat_cap(dec_micros(f@)) == magnitude as int);
        }
    }
    if neg {
        Some(-(magnitude as i64))
    } else {
        Some(magnitude as i64)
    }
}

/// Clamping of a read value into `[0, ceiling]`.
pub open spec fn clamp_spec(v: int, ceiling: int) -> int {
    if v < 0 {
        0
    } else if v > ceiling {
        ceiling
    } else {
        v
    }
}

/// Normalization of a read value against the configured ceiling: clamp
/// into `[0, ceiling]`, then scale so that the ceiling maps to one unit.
pub open spec fn norm_spec(v: int, ceiling: int) -> int {
    clamp_spec(v, ceiling) * (UNIT as int) / ceiling
}

/// The normalized value always lies in `[0, UNIT]`.
pub proof fn lemma_norm_range(v: int, ceiling: int)
    requires
        0 < ceiling,
    ensures
        0 <= norm_spec(v, ceiling) <= UNIT as int,
{
    let c = clamp_spec(v, ceiling);
    assert(0 <= c <= ceiling);
    assert(c * (UNIT as int) <= ceiling * (UNIT as int)) by {
        vstd::arithmetic::mul::lemma_mul_inequality(c, ceiling, UNIT as int);
    }
    assert(0 <= c * (UNIT as int) / ceiling) by {
        vstd::arithmetic::div_mod::lemma_div_pos_is_pos(c * (UNIT as int), ceiling);
    }
    assert(c * (UNIT as int) / ceiling <= (ceiling * (UNIT as int)) / ceiling) by {
        vstd::arithmetic::div_mod::lemma_div_is_ordered(
            c * (UNIT as int),
            ceiling * (UNIT as int),
            ceiling,
        );
    }
    assert((ceiling * (UNIT as int)) / ceiling == UNIT as int) by {
        vstd::arithmetic::div_mod::lemma_div_multiples_vanish(UNIT as int, ceiling);
    }
}

/// Saturating a value at the caps does not change its normalization:
/// the clamp against any admissible ceiling lands in the same place.
pub proof fn lemma_norm_sat(v: int, ceiling: int)
    requires
        0 < ceiling <= VAL_CAP as int,
    ensures
        norm_spec(sat_cap(v), ceiling) == norm_spec(v, ceiling),
{
    assert(clamp_spec(sat_cap(v), ceiling) == clamp_spec(v, ceiling));
}

/// Normalizes a wire value. The result always lies in `[0, UNIT]`.
pub fn normalize(v: i64, ceiling: u64) -> (r: u64)
    requires
        0 < ceiling <= VAL_CAP,
    ensures
        r == norm_spec(v as int, ceiling as int),
        r <= UNIT,
{
    let c: u64 = if v < 0 {
        0
    } else if v as u64 > ceiling {
        ceiling
    } else {
        v as u64
    };
    proof {
        assert(c as int == clamp_spec(v as int, ceiling as int));
        assert(c <= ceiling);
        assert(c as int * (UNIT as int) <= ceiling as int * (UNIT as int)) by {
            vstd::arithmetic::mul::lemma_mul_inequality(c as int, ceiling as int, UNIT as int);
        }
    }
    let scaled: u64 = c * UNIT;
    let r = scaled / ceiling;
    proof {
        assert(scaled as int / ceiling as int <= (ceiling as int * UNIT as int) / ceiling as int)
            by {
            vstd::arithmetic::div_mod::lemma_div_is_ordered(
                scaled as int,
                ceiling as int * UNIT as int,
                ceiling as int,
            );
        }
        assert((ceiling as int * UNIT as int) / ceiling as int == UNIT as int) by {
            vstd::arithmetic::div_mod::lemma_div_multiples_vanish(UNIT as int, ceiling as int);
        }
    }
    r
}

} // verus!
