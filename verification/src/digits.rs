//! The numeric model behind every encoding in this crate: a byte sequence read
//! as a big-endian number in some base, the canonical digit expansion of a
//! number, and byte-lexicographic ordering. The codecs' contracts are stated
//! over these functions, and the lemmas here tie value order, digit order and
//! digit uniqueness together.

use vstd::prelude::*;
use vstd::arithmetic::power::*;
use vstd::arithmetic::mul::*;
use vstd::arithmetic::div_mod::*;

verus! {

/// The number denoted by `s` read as big-endian digits in base `base`
/// (most significant digit first).
pub open spec fn base_val(s: Seq<u8>, base: int) -> int
    decreases s.len(),
{
    if s.len() == 0 {
        0
    } else {
        base_val(s.drop_last(), base) * base + s.last()
    }
}

/// The canonical `n`-digit big-endian expansion of `v` in base `base`
/// (leading zeros where `v` is small).
pub open spec fn digits_of(v: int, base: int, n: nat) -> Seq<u8> {
    Seq::new(n as nat, |i: int| ((v / pow(base, (n - 1 - i) as nat)) % base) as u8)
}

/// Byte-lexicographic strict order: a proper prefix comes first, otherwise
/// the first differing byte decides.
pub open spec fn lex_lt(a: Seq<u8>, b: Seq<u8>) -> bool
    decreases a.len(),
{
    if b.len() == 0 {
        false
    } else if a.len() == 0 {
        true
    } else if a[0] < b[0] {
        true
    } else if a[0] == b[0] {
        lex_lt(a.skip(1), b.skip(1))
    } else {
        false
    }
}

/// ASCII bytes read as characters.
pub open spec fn ascii_chars_of(s: Seq<u8>) -> Seq<char> {
    s.map_values(|b: u8| b as char)
}

/// Lexicographic strict order on character strings, by code point.
pub open spec fn lex_lt_chars(a: Seq<char>, b: Seq<char>) -> bool
    decreases a.len(),
{
    if b.len() == 0 {
        false
    } else if a.len() == 0 {
        true
    } else if (a[0] as int) < (b[0] as int) {
        true
    } else if a[0] == b[0] {
        lex_lt_chars(a.skip(1), b.skip(1))
    } else {
        false
    }
}

/// Reading ASCII bytes as characters changes nothing about their order:
/// the character strings compare exactly as the byte strings do.
pub proof fn lemma_lex_lt_ascii(a: Seq<u8>, b: Seq<u8>)
    ensures
        lex_lt_chars(ascii_chars_of(a), ascii_chars_of(b)) == lex_lt(a, b),
    decreases a.len(),
{
    let ca = ascii_chars_of(a);
    let cb = ascii_chars_of(b);
    if b.len() > 0 && a.len() > 0 {
        assert(ca[0] == a[0] as char && cb[0] == b[0] as char);
        assert((a[0] as char) as int == a[0] as int);
        assert((b[0] as char) as int == b[0] as int);
        if a[0] == b[0] {
            lemma_lex_lt_ascii(a.skip(1), b.skip(1));
            assert(ascii_chars_of(a.skip(1)) =~= ca.skip(1));
            assert(ascii_chars_of(b.skip(1)) =~= cb.skip(1));
        }
    }
}

/// All digits of `s` lie below `base`.
pub open spec fn digits_below(s: Seq<u8>, base: int) -> bool {
    forall|i: int| 0 <= i < s.len() ==> s[i] < base
}

pub proof fn lemma_base_val_nonneg(s: Seq<u8>, base: int)
    requires
        base >= 0,
    ensures
        base_val(s, base) >= 0,
    decreases s.len(),
{
    if s.len() > 0 {
        lemma_base_val_nonneg(s.drop_last(), base);
        lemma_mul_nonnegative(base_val(s.drop_last(), base), base);
    }
}

pub proof fn lemma_base_val_upper(s: Seq<u8>, base: int)
    requires
        base >= 1,
        digits_below(s, base),
    ensures
        base_val(s, base) < pow(base, s.len()),
    decreases s.len(),
{
    lemma_pow_positive(base, s.len());
    if s.len() > 0 {
        let d = s.drop_last();
        assert(digits_below(d, base));
        lemma_base_val_upper(d, base);
        // base_val(d) <= pow(base, len - 1) - 1, so base_val(s) <= pow(base, len) - 1
        let p = pow(base, (s.len() - 1) as nat);
        lemma_mul_inequality(base_val(d, base), p - 1, base);
        lemma_mul_is_distributive_sub_other_way(base, p, 1);
        lemma_mul_basics(base);
        lemma_pow_adds(base, (s.len() - 1) as nat, 1);
        lemma_pow1(base);
        assert(base_val(s, base) <= (p - 1) * base + (base - 1));
    }
}

/// Big-endian decomposition from the front: the first digit weighs
/// `pow(base, len - 1)`.
pub proof fn lemma_base_val_first(s: Seq<u8>, base: int)
    requires
        s.len() > 0,
    ensures
        base_val(s, base) == s[0] * pow(base, (s.len() - 1) as nat) + base_val(s.skip(1), base),
    decreases s.len(),
{
    if s.len() == 1 {
        assert(s.drop_last() =~= Seq::<u8>::empty());
        assert(s.skip(1) =~= Seq::<u8>::empty());
        lemma_pow0(base);
    } else {
        let d = s.drop_last();
        let n = s.len();
        lemma_base_val_first(d, base);
        assert(d.skip(1) =~= s.skip(1).drop_last());
        // base_val(s) == base_val(d) * base + s.last()
        //             == (s[0] * pow(base, n-2) + base_val(d.skip(1))) * base + s.last()
        lemma_mul_is_distributive_add_other_way(
            base,
            s[0] * pow(base, (n - 2) as nat),
            base_val(d.skip(1), base),
        );
        lemma_mul_is_associative(s[0] as int, pow(base, (n - 2) as nat), base);
        lemma_pow_adds(base, (n - 2) as nat, 1);
        lemma_pow1(base);
        assert(pow(base, (n - 2) as nat) * base == pow(base, (n - 1) as nat));
        assert(s.skip(1).last() == s.last());
        assert(base_val(s.skip(1), base) == base_val(s.skip(1).drop_last(), base) * base
            + s.skip(1).last());
    }
}

/// Leading zero digits do not change the value.
pub proof fn lemma_base_val_zero_prefix(s: Seq<u8>, base: int, k: int)
    requires
        0 <= k <= s.len(),
        forall|i: int| 0 <= i < k ==> s[i] == 0,
    ensures
        base_val(s, base) == base_val(s.skip(k), base),
    decreases k,
{
    if k > 0 {
        lemma_base_val_first(s, base);
        assert(s[0] * pow(base, (s.len() - 1) as nat) == 0) by {
            lemma_mul_basics(pow(base, (s.len() - 1) as nat));
        }
        lemma_base_val_zero_prefix(s.skip(1), base, k - 1);
        assert(s.skip(1).skip(k - 1) =~= s.skip(k));
    } else {
        assert(s.skip(0) =~= s);
    }
}

/// The canonical expansion of a value below `pow(base, n)` denotes that value.
pub proof fn lemma_base_val_digits_of(v: int, base: int, n: nat)
    requires
        2 <= base <= 256,
        0 <= v < pow(base, n),
    ensures
        digits_below(digits_of(v, base, n), base),
        base_val(digits_of(v, base, n), base) == v,
    decreases n,
{
    let ds = digits_of(v, base, n);
    assert forall|i: int| 0 <= i < n implies ds[i] < base by {
        lemma_pow_positive(base, (n - 1 - i) as nat);
        lemma_div_pos_is_pos(v, pow(base, (n - 1 - i) as nat));
        lemma_mod_bound(v / pow(base, (n - 1 - i) as nat), base);
    }
    if n == 0 {
        lemma_pow0(base);
        assert(ds =~= Seq::<u8>::empty());
    } else {
        // The first n-1 digits of v are the digits of v / base.
        lemma_pow_positive(base, (n - 1) as nat);
        assert(v / base < pow(base, (n - 1) as nat)) by {
            lemma_pow_adds(base, 1, (n - 1) as nat);
            lemma_pow1(base);
            assert(v < base * pow(base, (n - 1) as nat));
            lemma_multiply_divide_lt(v, base, pow(base, (n - 1) as nat));
        }
        lemma_div_pos_is_pos(v, base);
        lemma_base_val_digits_of(v / base, base, (n - 1) as nat);
        assert(ds.drop_last() =~= digits_of(v / base, base, (n - 1) as nat)) by {
            assert forall|i: int| 0 <= i < n - 1 implies ds[i] == digits_of(
                v / base,
                base,
                (n - 1) as nat,
            )[i] by {
                let e = (n - 2 - i) as nat;
                lemma_pow_positive(base, e);
                lemma_div_denominator(v, base, pow(base, e));
                assert(base * pow(base, e) == pow(base, e + 1)) by {
                    lemma_pow_adds(base, 1, e);
                    lemma_pow1(base);
                }
                assert((v / base) / pow(base, e) == v / pow(base, (n - 1 - i) as nat));
            }
        }
        assert(ds.last() as int == v % base) by {
            lemma_pow0(base);
            lemma_div_basics(v);
            lemma_mod_bound(v, base);
        }
        assert(base_val(ds.drop_last(), base) == v / base);
        assert(base_val(ds, base) == (v / base) * base + v % base);
        assert(v == base * (v / base) + v % base) by {
            lemma_fundamental_div_mod(v, base);
        }
        lemma_mul_is_commutative(v / base, base);
    }
}

/// Digit expansions are unique: re-expanding the value of a digit string
/// gives the string back.
pub proof fn lemma_digits_of_base_val(s: Seq<u8>, base: int)
    requires
        2 <= base <= 256,
        digits_below(s, base),
    ensures
        digits_of(base_val(s, base), base, s.len()) == s,
    decreases s.len(),
{
    let n = s.len();
    let v = base_val(s, base);
    if n == 0 {
        assert(digits_of(v, base, 0) =~= s);
    } else {
        let d = s.drop_last();
        let vd = base_val(d, base);
        lemma_base_val_nonneg(d, base);
        // v == vd * base + s.last() with 0 <= s.last() < base
        lemma_fundamental_div_mod_converse(v, base, vd, s.last() as int);
        assert(digits_below(d, base));
        lemma_digits_of_base_val(d, base);
        assert(digits_of(v, base, n) =~= s) by {
            assert forall|i: int| 0 <= i < n implies digits_of(v, base, n)[i] == s[i] by {
                if i < n - 1 {
                    let e = (n - 2 - i) as nat;
                    lemma_pow_positive(base, e);
                    lemma_div_denominator(v, base, pow(base, e));
                    assert(base * pow(base, e) == pow(base, e + 1)) by {
                        lemma_pow_adds(base, 1, e);
                        lemma_pow1(base);
                    }
                    assert((v / base) / pow(base, e) == v / pow(base, (n - 1 - i) as nat));
                    assert(digits_of(vd, base, (n - 1) as nat)[i] == d[i]);
                } else {
                    lemma_pow0(base);
                    lemma_div_basics(v);
                }
            }
        }
    }
}

/// On equal-length digit strings, lexicographic order is value order.
pub proof fn lemma_lex_lt_value(a: Seq<u8>, b: Seq<u8>, base: int)
    requires
        a.len() == b.len(),
        base >= 1,
        digits_below(a, base),
        digits_below(b, base),
    ensures
        lex_lt(a, b) <==> base_val(a, base) < base_val(b, base),
    decreases a.len(),
{
    if a.len() > 0 {
        let p = pow(base, (a.len() - 1) as nat);
        lemma_pow_positive(base, (a.len() - 1) as nat);
        lemma_base_val_first(a, base);
        lemma_base_val_first(b, base);
        let ra = base_val(a.skip(1), base);
        let rb = base_val(b.skip(1), base);
        assert(digits_below(a.skip(1), base));
        assert(digits_below(b.skip(1), base));
        lemma_base_val_nonneg(a.skip(1), base);
        lemma_base_val_nonneg(b.skip(1), base);
        lemma_base_val_upper(a.skip(1), base);
        lemma_base_val_upper(b.skip(1), base);
        if a[0] < b[0] {
            // a0*p + ra < (a0+1)*p <= b0*p <= b0*p + rb
            lemma_mul_inequality(a[0] + 1, b[0] as int, p);
            lemma_mul_is_distributive_add_other_way(p, a[0] as int, 1);
            lemma_mul_basics(p);
        } else if a[0] == b[0] {
            lemma_lex_lt_value(a.skip(1), b.skip(1), base);
        } else {
            lemma_mul_inequality(b[0] + 1, a[0] as int, p);
            lemma_mul_is_distributive_add_other_way(p, b[0] as int, 1);
            lemma_mul_basics(p);
        }
    }
}

/// A shared prefix does not decide a lexicographic comparison: it can be
/// skipped.
pub proof fn lemma_lex_lt_common_prefix(a: Seq<u8>, b: Seq<u8>, i: int)
    requires
        0 <= i <= a.len(),
        i <= b.len(),
        forall|t: int| 0 <= t < i ==> a[t] == b[t],
    ensures
        lex_lt(a, b) == lex_lt(a.skip(i), b.skip(i)),
    decreases i,
{
    if i > 0 {
        lemma_lex_lt_common_prefix(a.skip(1), b.skip(1), i - 1);
        assert(a.skip(1).skip(i - 1) =~= a.skip(i));
        assert(b.skip(1).skip(i - 1) =~= b.skip(i));
    } else {
        assert(a.skip(0) =~= a);
        assert(b.skip(0) =~= b);
    }
}

/// Mapping every digit through an order-preserving table preserves
/// lexicographic order.
pub proof fn lemma_lex_lt_map(a: Seq<u8>, b: Seq<u8>, f: spec_fn(u8) -> u8)
    requires
        a.len() == b.len(),
        forall|i: int, j: int|
            0 <= i < a.len() && 0 <= j < b.len() ==> ((a[i] < b[j] <==> f(a[i]) < f(b[j])) && (a[i]
                == b[j] <==> f(a[i]) == f(b[j]))),
    ensures
        lex_lt(a.map_values(f), b.map_values(f)) <==> lex_lt(a, b),
    decreases a.len(),
{
    if a.len() > 0 {
        if a[0] == b[0] {
            lemma_lex_lt_map(a.skip(1), b.skip(1), f);
        }
        assert(a.skip(1).map_values(f) =~= a.map_values(f).skip(1));
        assert(b.skip(1).map_values(f) =~= b.map_values(f).skip(1));
    }
}

} // verus!
