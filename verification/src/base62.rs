//! Base62 encoding of binary data, built on a generic arbitrary-precision
//! change-of-base routine.
//!
//! The public interface of this module is unusual in two ways. The `input`
//! buffer is clobbered during encoding and decoding: the change-of-base
//! routine reuses it to hold intermediate values during long division, which
//! saves an allocation. The `output` buffer must be allocated and zeroed by
//! the caller; if it is too small to hold the converted value the functions
//! report `Error::BufferTooSmall` instead of truncating. Binary and string
//! encoded identifiers have known lengths, so the sibling codec passes fixed
//! buffer sizes; general-purpose callers can size the output with
//! `conversion_len_bound`.

use vstd::prelude::*;
use vstd::arithmetic::power::*;
use vstd::arithmetic::mul::*;
use vstd::arithmetic::div_mod::*;

use crate::Error;
use crate::digits::{
    base_val, digits_below, digits_of, lemma_base_val_digits_of, lemma_base_val_first,
    lemma_base_val_nonneg, lemma_base_val_upper, lemma_base_val_zero_prefix,
    lemma_digits_of_base_val,
};

verus! {

/// Change the base of a byte string representing a big-endian encoded
/// arbitrary-size unsigned integer.
///
/// The digits of `num` (base `in_base`) are consumed by repeated long
/// division: on success `num` has shrunk to length zero. The result is
/// written to `out` in base `out_base`, big-endian, with untouched leading
/// positions remaining zero. If `out` cannot hold the value,
/// `Err(Error::BufferTooSmall)` is returned, `num` is left partly consumed,
/// and the contents of `out` are unspecified (but still zero or in-range
/// digits of `out_base`).
#[verifier::loop_isolation(false)]
pub fn change_base(num: &mut Vec<u8>, out: &mut Vec<u8>, in_base: usize, out_base: usize) -> (r:
    Result<(), Error>)
    requires
        2 <= in_base <= 256,
        2 <= out_base <= 256,
        digits_below(old(num)@, in_base as int),
        forall|i: int| 0 <= i < old(out)@.len() ==> old(out)@[i] == 0,
    ensures
        final(out)@.len() == old(out)@.len(),
        final(num)@.len() <= old(num)@.len(),
        r == Ok::<(), Error>(()) ==> final(num)@.len() == 0,
        r == Ok::<(), Error>(()) <==> (old(num)@.len() == 0 || (old(out)@.len() >= 1 && base_val(
            old(num)@,
            in_base as int,
        ) < pow(out_base as int, old(out)@.len()))),
        r != Ok::<(), Error>(()) ==> r == Err::<(), Error>(Error::BufferTooSmall),
        r == Ok::<(), Error>(()) ==> digits_below(final(out)@, out_base as int) && base_val(
            final(out)@,
            out_base as int,
        ) == base_val(old(num)@, in_base as int),
{
    let ghost ib = in_base as int;
    let ghost ob = out_base as int;
    let ghost total = base_val(old(num)@, ib);
    let l = out.len();
    let mut k: usize = l;
    proof {
        assert(out@.skip(l as int) =~= Seq::<u8>::empty());
        lemma_pow0(ob);
        lemma_mul_basics(base_val(num@, ib));
    }
    while num.len() > 0
        invariant
            out@.len() == l,
            k <= l,
            digits_below(num@, ib),
            forall|i: int| 0 <= i < k ==> out@[i] == 0,
            forall|i: int| k <= i < l ==> out@[i] < out_base,
            base_val(num@, ib) * pow(ob, (l - k) as nat) + base_val(out@.skip(k as int), ob)
                == total,
            k < l ==> (num@.len() == 0 || num@[0] != 0),
            k == l ==> num@ == old(num)@,
            num@.len() <= old(num)@.len(),
        decreases base_val(num@, ib), num@.len(),
    {
        proof {
            lemma_base_val_nonneg(num@, ib);
            lemma_base_val_nonneg(out@.skip(k as int), ob);
        }
        if k == 0 {
            proof {
                // `out` is exhausted but digits remain: the value does not fit.
                if l > 0 {
                    let n0 = num@.len();
                    lemma_base_val_first(num@, ib);
                    lemma_base_val_nonneg(num@.skip(1), ib);
                    lemma_pow_positive(ib, (n0 - 1) as nat);
                    lemma_mul_strictly_positive(num@[0] as int, pow(ib, (n0 - 1) as nat));
                    assert(base_val(num@, ib) >= 1);
                    lemma_pow_positive(ob, l as nat);
                    lemma_mul_inequality(1, base_val(num@, ib), pow(ob, l as nat));
                    lemma_mul_basics(pow(ob, l as nat));
                    assert(total >= pow(ob, l as nat));
                }
            }
            return Err(Error::BufferTooSmall);
        }
        let n = num.len();
        let ghost g = num@;
        let mut rem: usize = 0;
        let mut i: usize = 0;
        let mut j: usize = 0;
        proof {
            assert(g.take(0) =~= Seq::<u8>::empty());
            assert(digits_below(g, ib));
        }
        while j < n
            invariant
                i <= j <= n,
                num@.len() == n,
                rem < out_base,
                forall|t: int| j <= t < n ==> num@[t] == g[t],
                digits_below(num@.take(i as int), ib),
                base_val(g.take(j as int), ib) == base_val(num@.take(i as int), ib) * ob + rem,
                (i == 0) <==> (base_val(num@.take(i as int), ib) == 0),
                i > 0 ==> num@[0] != 0,
            decreases n - j,
        {
            let ghost q = base_val(num@.take(i as int), ib);
            let ghost rem0 = rem as int;
            let d = num[j];
            proof {
                assert(d == g[j as int]);
                assert(d < in_base);
            }
            assert(in_base * rem <= 256 * 255) by (nonlinear_arith)
                requires
                    in_base <= 256,
                    rem < out_base,
                    out_base <= 256,
            ;
            let acc: usize = d as usize + in_base * rem;
            let div = acc / out_base;
            rem = acc % out_base;
            proof {
                lemma_fundamental_div_mod(acc as int, ob);
                lemma_mod_bound(acc as int, ob);
                assert(acc < out_base * in_base) by (nonlinear_arith)
                    requires
                        acc == d + in_base * rem0,
                        d < in_base,
                        rem0 < out_base,
                        2 <= in_base,
                        2 <= out_base,
                ;
                lemma_multiply_divide_lt(acc as int, ob, ib);
                assert(div < in_base);
                assert(g.take(j + 1).drop_last() =~= g.take(j as int));
                assert(g.take(j + 1).last() == g[j as int]);
                assert(base_val(g.take(j + 1), ib) == base_val(g.take(j as int), ib) * ib + g[j as int]);
                assert(base_val(g.take(j + 1), ib) == (q * ib + div) * ob + ((acc as int) % ob))
                    by (nonlinear_arith)
                    requires
                        base_val(g.take(j + 1), ib) == base_val(g.take(j as int), ib) * ib + g[j as int],
                        base_val(g.take(j as int), ib) == q * ob + rem0,
                        acc == g[j as int] + ib * rem0,
                        acc == ob * ((acc as int) / ob) + (acc as int) % ob,
                        div == (acc as int) / ob,
                ;
            }
            if i != 0 || div != 0 {
                let ghost before = num@;
                num.set(i, div as u8);
                proof {
                    assert(num@.take(i as int) =~= before.take(i as int));
                    assert(num@.take(i + 1).drop_last() =~= num@.take(i as int));
                    assert(num@.take(i + 1).last() == div as u8);
                    assert(base_val(num@.take(i + 1), ib) == q * ib + div);
                    if i > 0 {
                        // the quotient so far is positive, and stays positive
                        lemma_base_val_nonneg(before.take(i as int), ib);
                        lemma_mul_inequality(1, q, ib);
                        lemma_mul_is_commutative(q, ib);
                        assert(q * ib >= ib);
                    }
                }
                i += 1;
            } else {
                proof {
                    assert(q == 0);
                    assert(base_val(num@.take(i as int), ib) * ib + div == 0)
                        by (nonlinear_arith)
                        requires
                            base_val(num@.take(i as int), ib) == 0,
                            div == 0,
                    ;
                }
            }
            j += 1;
        }
        // One long-division pass is done: the value of the digits at the start
        // of the pass equals quotient * out_base + rem.
        proof {
            assert(g.take(n as int) =~= g);
        }
        let ghost q = base_val(num@.take(i as int), ib);
        let ghost m = (l - k) as nat;
        k = k - 1;
        let ghost out_before = out@;
        out.set(k, rem as u8);
        num.truncate(i);
        proof {
            // re-establish the outer invariant
            let tail = out_before.skip(k + 1);
            assert(out@.skip(k + 1) =~= tail);
            assert(out@.skip(k as int).skip(1) =~= tail);
            assert(out@.skip(k as int)[0] == rem as u8);
            assert(out@.skip(k as int).len() == l - k);
            lemma_base_val_first(out@.skip(k as int), ob);
            assert(base_val(out@.skip(k as int), ob) == rem * pow(ob, m) + base_val(tail, ob));
            assert(pow(ob, (m + 1) as nat) == ob * pow(ob, m)) by {
                lemma_pow_adds(ob, m, 1);
                lemma_pow1(ob);
                lemma_mul_is_commutative(pow(ob, m), ob);
            }
            assert(q * pow(ob, (m + 1) as nat) + base_val(out@.skip(k as int), ob) == total)
                by (nonlinear_arith)
                requires
                    base_val(g, ib) * pow(ob, m) + base_val(tail, ob) == total,
                    base_val(g, ib) == q * ob + rem,
                    pow(ob, (m + 1) as nat) == ob * pow(ob, m),
                    base_val(out@.skip(k as int), ob) == rem * pow(ob, m) + base_val(tail, ob),
            ;
            // termination: the quotient's value is strictly smaller, or the
            // digit string became empty
            lemma_base_val_nonneg(num@, ib);
            if base_val(g, ib) > 0 {
                assert(q < base_val(g, ib)) by (nonlinear_arith)
                    requires
                        base_val(g, ib) == q * ob + rem,
                        q >= 0,
                        rem >= 0,
                        ob >= 2,
                        base_val(g, ib) > 0,
                ;
            } else {
                assert(q == 0 && rem == 0) by (nonlinear_arith)
                    requires
                        base_val(g, ib) == q * ob + rem,
                        q >= 0,
                        0 <= rem < ob,
                        base_val(g, ib) == 0,
                ;
                assert(i == 0);
            }
        }
    }
    proof {
        // no digits remain: the whole value has been emitted
        assert(base_val(num@, ib) * pow(ob, (l - k) as nat) == 0) by {
            lemma_mul_basics(pow(ob, (l - k) as nat));
        }
        lemma_base_val_zero_prefix(out@, ob, k as int);
        if k == l {
            assert(old(num)@.len() == 0);
            assert(out@.skip(l as int) =~= Seq::<u8>::empty());
        } else {
            assert(digits_below(out@.skip(k as int), ob));
            lemma_base_val_upper(out@.skip(k as int), ob);
            lemma_pow_increases(out_base as nat, (l - k) as nat, l as nat);
        }
    }
    Ok(())
}

/// The number of digits of base `out_base` that suffice to hold any value
/// with `len` digits in base `in_base`.
///
/// The bound is computed with a wide fixed-point accumulator, so it returns
/// the least sufficient length except on knife-edge inputs, where it may
/// exceed it by one; in particular it is exact for the identifier codec:
/// twenty bytes need 27 Base62 digits.
#[verifier::loop_isolation(false)]
#[verifier::rlimit(60)]
pub fn conversion_len_bound(len: usize, in_base: usize, out_base: usize) -> (r: usize)
    requires
        2 <= in_base <= 256,
        2 <= out_base <= 256,
        len <= 0x0fff_ffff,
    ensures
        pow(in_base as int, len as nat) <= pow(out_base as int, r as nat),
        r <= 8 * len + 49,
{
    let ib64 = in_base as u64;
    let ob64 = out_base as u64;
    let ghost ib = in_base as int;
    let ghost ob = out_base as int;
    let mut m: usize = 0;
    let mut acc: u64 = 1;
    let mut t: usize = 0;
    proof {
        lemma_pow0(ib);
        lemma_pow0(ob);
    }
    while t < len
        invariant
            t <= len,
            1 <= acc < 0x1_0000_0000_0000,
            m <= 8 * t,
            pow(ib, t as nat) <= acc * pow(ob, m as nat),
        decreases len - t,
    {
        assert(acc * ib64 <= 0xff_ffff_ffff_ff00) by (nonlinear_arith)
            requires
                acc < 0x1_0000_0000_0000,
                ib64 <= 256,
        ;
        let ghost acc0 = acc as int;
        acc = acc * ib64;
        proof {
            assert(1 <= acc) by (nonlinear_arith)
                requires
                    acc == acc0 * ib64,
                    acc0 >= 1,
                    ib64 >= 2,
            ;
            assert(pow(ib, (t + 1) as nat) == pow(ib, t as nat) * ib) by {
                lemma_pow_adds(ib, t as nat, 1);
                lemma_pow1(ib);
            }
            lemma_pow_positive(ob, m as nat);
            assert(pow(ib, (t + 1) as nat) <= acc * pow(ob, m as nat)) by (nonlinear_arith)
                requires
                    pow(ib, t as nat) <= acc0 * pow(ob, m as nat),
                    pow(ib, (t + 1) as nat) == pow(ib, t as nat) * ib,
                    acc == acc0 * ib64,
                    ib == ib64,
                    2 <= ib64,
                    acc0 >= 1,
                    pow(ob, m as nat) >= 1,
            ;
        }
        let ghost m_entry = m as int;
        let mut c: usize = 0;
        proof {
            lemma_pow0(2);
            lemma_mul_basics(acc as int - 1);
        }
        while acc >= 0x1_0000_0000_0000
            invariant
                1 <= acc <= 0xff_ffff_ffff_ff00,
                m == m_entry + c,
                (acc - 1) * pow(2, c as nat) <= 0xff_ffff_ffff_feff,
                c <= 8,
                pow(ib, (t + 1) as nat) <= acc * pow(ob, m as nat),
            decreases acc,
        {
            proof {
                // the potential forces at most 8 halvings per input digit
                if c >= 8 {
                    lemma_pow_increases(2, 8, c as nat);
                    reveal_with_fuel(pow, 9);
                    assert(pow(2, 8) == 256);
                    lemma_mul_inequality(0x0fff_ffff_ffff_f as int, acc - 1, pow(2, c as nat));
                    lemma_mul_inequality(256, pow(2, c as nat), 0x0fff_ffff_ffff_f as int);
                    lemma_mul_is_commutative(0x0fff_ffff_ffff_f as int, pow(2, c as nat));
                    assert(0x0fff_ffff_ffff_f as int * 256 == 0xff_ffff_ffff_ff00 - 256);
                }
            }
            let ghost accb = acc as int;
            acc = (acc + ob64 - 1) / ob64;
            m = m + 1;
            c = c + 1;
            proof {
                // ceiling division: accb <= acc * out_base and 2 * (acc - 1) <= accb - 1
                lemma_div_is_strictly_smaller(accb - 1, ob);
                lemma_div_plus_one(accb - 1, ob);
                assert(acc == (accb - 1) / ob + 1);
                lemma_div_pos_is_pos(accb - 1, ob);
                lemma_fundamental_div_mod(accb - 1, ob);
                lemma_mod_bound(accb - 1, ob);
                assert(accb <= acc * ob) by (nonlinear_arith)
                    requires
                        accb - 1 == ob * ((accb - 1) / ob) + (accb - 1) % ob,
                        (accb - 1) % ob < ob,
                        acc == (accb - 1) / ob + 1,
                ;
                lemma_div_is_ordered_by_denominator(accb - 1, 2, ob);
                lemma_fundamental_div_mod(accb - 1, 2);
                lemma_mod_bound(accb - 1, 2);
                assert(2 * (acc - 1) <= accb - 1) by (nonlinear_arith)
                    requires
                        acc - 1 == (accb - 1) / ob,
                        (accb - 1) / ob <= (accb - 1) / 2,
                        accb - 1 == 2 * ((accb - 1) / 2) + (accb - 1) % 2,
                        (accb - 1) % 2 >= 0,
                ;
                assert(pow(2, c as nat) == 2 * pow(2, (c - 1) as nat)) by {
                    lemma_pow_adds(2, (c - 1) as nat, 1);
                    lemma_pow1(2);
                    lemma_mul_is_commutative(pow(2, (c - 1) as nat), 2);
                }
                lemma_pow_positive(2, (c - 1) as nat);
                assert((acc - 1) * pow(2, c as nat) <= 0xff_ffff_ffff_feff) by (nonlinear_arith)
                    requires
                        pow(2, c as nat) == 2 * pow(2, (c - 1) as nat),
                        (accb - 1) * pow(2, (c - 1) as nat) <= 0xff_ffff_ffff_feff,
                        2 * (acc - 1) <= accb - 1,
                        pow(2, (c - 1) as nat) >= 1,
                ;
                lemma_pow_positive(ob, (m - 1) as nat);
                assert(pow(ob, m as nat) == ob * pow(ob, (m - 1) as nat)) by {
                    lemma_pow_adds(ob, (m - 1) as nat, 1);
                    lemma_pow1(ob);
                    lemma_mul_is_commutative(pow(ob, (m - 1) as nat), ob);
                }
                assert(pow(ib, (t + 1) as nat) <= acc * pow(ob, m as nat)) by (nonlinear_arith)
                    requires
                        pow(ib, (t + 1) as nat) <= accb * pow(ob, (m - 1) as nat),
                        accb <= acc * ob,
                        pow(ob, m as nat) == ob * pow(ob, (m - 1) as nat),
                        pow(ob, (m - 1) as nat) >= 1,
                        ob >= 2,
                        acc >= 1,
                ;
            }
        }
        t = t + 1;
    }
    // flush what remains of the accumulator into output digits
    let ghost m_mid = m as int;
    let mut c2: usize = 0;
    proof {
        lemma_pow0(2);
        lemma_mul_basics(acc as int - 1);
    }
    while acc >= ob64
        invariant
            1 <= acc < 0x1_0000_0000_0000,
            m == m_mid + c2,
            (acc - 1) * pow(2, c2 as nat) <= 0xffff_ffff_fffe,
            c2 <= 48,
            pow(ib, len as nat) <= acc * pow(ob, m as nat),
        decreases acc,
    {
        proof {
            // the potential forces at most 48 halvings in all
            if c2 >= 48 {
                lemma_pow_increases(2, 48, c2 as nat);
                reveal_with_fuel(pow, 49);
                assert(pow(2, 48) == 0x1_0000_0000_0000);
                lemma_mul_inequality(1, acc - 1, pow(2, c2 as nat));
                lemma_mul_basics(pow(2, c2 as nat));
            }
        }
        let ghost accb = acc as int;
        acc = (acc + ob64 - 1) / ob64;
        m = m + 1;
        c2 = c2 + 1;
        proof {
            lemma_div_is_strictly_smaller(accb - 1, ob);
            lemma_div_plus_one(accb - 1, ob);
            assert(acc == (accb - 1) / ob + 1);
            lemma_div_pos_is_pos(accb - 1, ob);
            lemma_fundamental_div_mod(accb - 1, ob);
            lemma_mod_bound(accb - 1, ob);
            assert(accb <= acc * ob) by (nonlinear_arith)
                requires
                    accb - 1 == ob * ((accb - 1) / ob) + (accb - 1) % ob,
                    (accb - 1) % ob < ob,
                    acc == (accb - 1) / ob + 1,
            ;
            lemma_div_is_ordered_by_denominator(accb - 1, 2, ob);
            lemma_fundamental_div_mod(accb - 1, 2);
            lemma_mod_bound(accb - 1, 2);
            assert(2 * (acc - 1) <= accb - 1) by (nonlinear_arith)
                requires
                    acc - 1 == (accb - 1) / ob,
                    (accb - 1) / ob <= (accb - 1) / 2,
                    accb - 1 == 2 * ((accb - 1) / 2) + (accb - 1) % 2,
                    (accb - 1) % 2 >= 0,
            ;
            assert(pow(2, c2 as nat) == 2 * pow(2, (c2 - 1) as nat)) by {
                lemma_pow_adds(2, (c2 - 1) as nat, 1);
                lemma_pow1(2);
                lemma_mul_is_commutative(pow(2, (c2 - 1) as nat), 2);
            }
            lemma_pow_positive(2, (c2 - 1) as nat);
            assert((acc - 1) * pow(2, c2 as nat) <= 0xffff_ffff_fffe) by (nonlinear_arith)
                requires
                    pow(2, c2 as nat) == 2 * pow(2, (c2 - 1) as nat),
                    (accb - 1) * pow(2, (c2 - 1) as nat) <= 0xffff_ffff_fffe,
                    2 * (acc - 1) <= accb - 1,
                    pow(2, (c2 - 1) as nat) >= 1,
            ;
            lemma_pow_positive(ob, (m - 1) as nat);
            assert(pow(ob, m as nat) == ob * pow(ob, (m - 1) as nat)) by {
                lemma_pow_adds(ob, (m - 1) as nat, 1);
                lemma_pow1(ob);
                lemma_mul_is_commutative(pow(ob, (m - 1) as nat), ob);
            }
            assert(pow(ib, len as nat) <= acc * pow(ob, m as nat)) by (nonlinear_arith)
                requires
                    pow(ib, len as nat) <= accb * pow(ob, (m - 1) as nat),
                    accb <= acc * ob,
                    pow(ob, m as nat) == ob * pow(ob, (m - 1) as nat),
                    pow(ob, (m - 1) as nat) >= 1,
                    ob >= 2,
                    acc >= 1,
            ;
        }
    }
    if acc == 1 {
        proof {
            lemma_mul_basics(pow(ob, m as nat));
        }
        m
    } else {
        proof {
            lemma_pow_positive(ob, m as nat);
            assert(pow(ob, (m + 1) as nat) == ob * pow(ob, m as nat)) by {
                lemma_pow_adds(ob, m as nat, 1);
                lemma_pow1(ob);
                lemma_mul_is_commutative(pow(ob, m as nat), ob);
            }
            assert(pow(ib, len as nat) <= pow(ob, (m + 1) as nat)) by (nonlinear_arith)
                requires
                    pow(ib, len as nat) <= acc * pow(ob, m as nat),
                    acc < ob64,
                    ob == ob64,
                    pow(ob, (m + 1) as nat) == ob * pow(ob, m as nat),
                    pow(ob, m as nat) >= 1,
            ;
        }
        m + 1
    }
}

/// The Base62 alphabet as a function from digit value to ASCII byte:
/// `0`-`9`, then `A`-`Z`, then `a`-`z`.
pub open spec fn b62_char_of(d: int) -> u8 {
    if d < 10 {
        (48 + d) as u8
    } else if d < 36 {
        (55 + d) as u8
    } else {
        (61 + d) as u8
    }
}

/// The digit value of an ASCII byte under the Base62 alphabet, or `-1` when
/// the byte is not in the alphabet (including every byte above 127).
pub open spec fn b62_val_of(c: u8) -> int {
    if 48 <= c <= 57 {
        c - 48
    } else if 65 <= c <= 90 {
        c - 55
    } else if 97 <= c <= 122 {
        c - 61
    } else {
        -1
    }
}

/// Whether `c` is one of the 62 alphabet bytes.
pub open spec fn is_b62_byte(c: u8) -> bool {
    b62_val_of(c) >= 0
}

/// Whether every byte of `s` is in the Base62 alphabet.
pub open spec fn b62_valid(s: Seq<u8>) -> bool {
    forall|i: int| 0 <= i < s.len() ==> is_b62_byte(s[i])
}

/// The digit values of an alphabet byte string.
pub open spec fn b62_digit_seq(s: Seq<u8>) -> Seq<u8> {
    s.map_values(|c: u8| b62_val_of(c) as u8)
}

/// The `n`-character Base62 rendering (as ASCII bytes) of the byte string
/// `b` read as a big-endian base-256 number.
pub open spec fn base62_encoding(b: Seq<u8>, n: nat) -> Seq<u8> {
    digits_of(base_val(b, 256), 62, n).map_values(|d: u8| b62_char_of(d as int))
}

/// Twenty bytes always fit in 27 Base62 digits: the largest 20-byte value is
/// below `62^27`.
pub proof fn lemma_b62_capacity()
    ensures
        pow(256, 20) < pow(62, 27),
{
    reveal_with_fuel(pow, 28);
    assert(pow(62, 27) == 2480707824361381849652170924082266893544595652608int);
    assert(pow(256, 20) == 1461501637330902918203684832716283019655932542976int);
}

/// Every digit value below 62 maps to an alphabet byte that maps back to it.
pub proof fn lemma_b62_char_of_valid(d: int)
    requires
        0 <= d < 62,
    ensures
        is_b62_byte(b62_char_of(d)),
        b62_val_of(b62_char_of(d)) == d,
        b62_char_of(d) < 128,
{
}

/// The alphabet is strictly increasing in the digit value, so byte order on
/// encoded characters mirrors digit order.
pub proof fn lemma_b62_char_monotone(x: u8, y: u8)
    requires
        x < 62,
        y < 62,
    ensures
        x < y <==> b62_char_of(x as int) < b62_char_of(y as int),
        x == y <==> b62_char_of(x as int) == b62_char_of(y as int),
{
}

/// Every alphabet byte is the image of its own digit value.
pub proof fn lemma_b62_byte_roundtrip(c: u8)
    requires
        is_b62_byte(c),
    ensures
        0 <= b62_val_of(c) < 62,
        b62_char_of(b62_val_of(c)) == c,
{
}

/// Convert an ASCII Base62 character to its digit value.
/// Returns `-1` if the character is not valid Base62 (`[0-9A-Za-z]`).
pub fn b62_to_bin(c: u8) -> (r: i8)
    ensures
        r as int == b62_val_of(c),
{
    if 48 <= c && c <= 57 {
        (c - 48) as i8
    } else if 65 <= c && c <= 90 {
        (c - 55) as i8
    } else if 97 <= c && c <= 122 {
        (c - 61) as i8
    } else {
        -1
    }
}

/// Map a Base62 digit value to its alphabet byte.
fn b62_char(d: u8) -> (r: u8)
    requires
        d < 62,
    ensures
        r == b62_char_of(d as int),
{
    if d < 10 {
        48 + d
    } else if d < 36 {
        55 + d
    } else {
        61 + d
    }
}

/// Base62-encode `input`, placing the result into `output`.
///
/// `input` is clobbered and `output` must be zeroed by the caller; see the
/// module documentation. On success `output` holds exactly the Base62
/// rendering of `input`'s value, padded with leading `'0'` characters.
#[verifier::loop_isolation(false)]
pub fn encode_raw(input: &mut Vec<u8>, output: &mut Vec<u8>) -> (r: Result<(), Error>)
    requires
        forall|i: int| 0 <= i < old(output)@.len() ==> old(output)@[i] == 0,
    ensures
        final(output)@.len() == old(output)@.len(),
        r == Ok::<(), Error>(()) ==> final(input)@.len() == 0,
        r == Ok::<(), Error>(()) <==> (old(input)@.len() == 0 || (old(output)@.len() >= 1
            && base_val(old(input)@, 256) < pow(62, old(output)@.len()))),
        r != Ok::<(), Error>(()) ==> r == Err::<(), Error>(Error::BufferTooSmall),
        r == Ok::<(), Error>(()) ==> final(output)@ == base62_encoding(
            old(input)@,
            old(output)@.len(),
        ),
{
    let ghost v = base_val(old(input)@, 256);
    let res = change_base(input, output, 256, 62);
    if let Err(e) = res {
        return Err(e);
    }
    let ghost gd = output@;
    let ghost l = output@.len();
    proof {
        lemma_base_val_nonneg(old(input)@, 256);
        lemma_base_val_upper(gd, 62);
        lemma_digits_of_base_val(gd, 62);
        assert(gd == digits_of(v, 62, l));
        assert(digits_below(gd, 62));
    }
    let n = output.len();
    let mut i: usize = 0;
    while i < n
        invariant
            i <= n,
            output@.len() == n,
            forall|t: int| 0 <= t < i ==> output@[t] == b62_char_of(gd[t] as int),
            forall|t: int| i <= t < n ==> output@[t] == gd[t],
        decreases n - i,
    {
        let d = output[i];
        assert(d == gd[i as int]);
        assert(d < 62);
        let c = b62_char(d);
        output.set(i, c);
        i += 1;
    }
    proof {
        assert(output@ =~= base62_encoding(old(input)@, l));
    }
    Ok(())
}

/// Decode the Base62-encoded data in `input`, placing the result into
/// `output`. Any byte of `input` outside `[0-9A-Za-z]` is rejected with
/// `Error::InvalidCharacter` before any arithmetic runs, and `output` is
/// then left exactly as the caller passed it.
///
/// `input` is clobbered and `output` must be zeroed by the caller; see the
/// module documentation.
#[verifier::loop_isolation(false)]
pub fn decode_raw(input: &mut Vec<u8>, output: &mut Vec<u8>) -> (r: Result<(), Error>)
    requires
        forall|i: int| 0 <= i < old(output)@.len() ==> old(output)@[i] == 0,
    ensures
        final(output)@.len() == old(output)@.len(),
        r == Ok::<(), Error>(()) ==> final(input)@.len() == 0,
        !b62_valid(old(input)@) <==> r == Err::<(), Error>(Error::InvalidCharacter),
        r == Err::<(), Error>(Error::InvalidCharacter) ==> final(output)@ == old(output)@,
        b62_valid(old(input)@) ==> (r == Ok::<(), Error>(()) <==> (old(input)@.len() == 0 || (
        old(output)@.len() >= 1 && base_val(b62_digit_seq(old(input)@), 62) < pow(
            256,
            old(output)@.len(),
        )))),
        b62_valid(old(input)@) && r != Ok::<(), Error>(()) ==> r == Err::<(), Error>(
            Error::BufferTooSmall,
        ),
        r == Ok::<(), Error>(()) ==> final(output)@ == digits_of(
            base_val(b62_digit_seq(old(input)@), 62),
            256,
            old(output)@.len(),
        ),
{
    let n = input.len();
    let ghost g = old(input)@;
    let mut i: usize = 0;
    while i < n
        invariant
            i <= n,
            input@.len() == n,
            forall|t: int| 0 <= t < i ==> is_b62_byte(g[t]),
            forall|t: int| 0 <= t < i ==> input@[t] as int == b62_val_of(g[t]),
            forall|t: int| i <= t < n ==> input@[t] == g[t],
        decreases n - i,
    {
        let c = input[i];
        let b = b62_to_bin(c);
        if b < 0 {
            assert(!is_b62_byte(g[i as int]));
            return Err(Error::InvalidCharacter);
        }
        input.set(i, b as u8);
        proof {
            assert(0 <= b as int <= 61);
            assert((b as u8) as int == b as int);
            assert(input@[i as int] as int == b62_val_of(g[i as int]));
        }
        i += 1;
    }
    proof {
        assert(g.len() == n);
        assert forall|t: int| 0 <= t < g.len() implies is_b62_byte(g[t]) by {}
        assert(b62_valid(g));
        assert(input@ =~= b62_digit_seq(g));
        assert(digits_below(input@, 62));
    }
    let res = change_base(input, output, 62, 256);
    if let Err(e) = res {
        return Err(e);
    }
    proof {
        lemma_base_val_nonneg(b62_digit_seq(g), 62);
        lemma_base_val_upper(output@, 256);
        lemma_digits_of_base_val(output@, 256);
    }
    Ok(())
}

} // verus!
