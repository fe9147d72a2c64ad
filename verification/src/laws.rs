//! The guarantees that tie the codecs together: every rendering of an
//! identifier decodes back to the same bytes, rendering the same bytes twice
//! gives the same string, and both string forms order exactly as the bytes
//! do. Each law is stated over the specification functions that the codec
//! contracts use, so it carries over to the executable functions through
//! their `ensures` clauses.

use vstd::prelude::*;
use vstd::arithmetic::div_mod::lemma_fundamental_div_mod;

use crate::base62::{
    b62_char_of, b62_digit_seq, b62_val_of, b62_valid, base62_encoding, is_b62_byte, lemma_b62_capacity,
    lemma_b62_char_monotone, lemma_b62_char_of_valid,
};
use crate::digits::{
    ascii_chars_of, base_val, digits_below, digits_of, lex_lt, lex_lt_chars,
    lemma_base_val_digits_of, lemma_base_val_nonneg, lemma_base_val_upper,
    lemma_digits_of_base_val, lemma_lex_lt_ascii, lemma_lex_lt_map, lemma_lex_lt_value,
};
use crate::{hex_char_of, hex_decoding, hex_encoding, hex_val_of, hex_valid, is_hex_byte, max_base62};

verus! {

/// The high and low nibbles of each byte, interleaved: `b` re-read as a
/// base-16 digit string of twice the length.
spec fn nibbles_of(b: Seq<u8>) -> Seq<u8> {
    Seq::new(2 * b.len(), |i: int| if i % 2 == 0 {
        (b[i / 2] as int / 16) as u8
    } else {
        (b[i / 2] as int % 16) as u8
    })
}

/// Every nibble of every hex digit maps through the uppercase alphabet and
/// back to itself.
proof fn lemma_hex_char_of_valid(d: int)
    requires
        0 <= d < 16,
    ensures
        is_hex_byte(hex_char_of(d)),
        hex_val_of(hex_char_of(d)) == d,
        hex_char_of(d) < 128,
{
}

/// The uppercase hex alphabet is strictly increasing in the digit value.
proof fn lemma_hex_char_monotone(x: u8, y: u8)
    requires
        x < 16,
        y < 16,
    ensures
        x < y <==> hex_char_of(x as int) < hex_char_of(y as int),
        x == y <==> hex_char_of(x as int) == hex_char_of(y as int),
{
}

/// No equal-length byte string is lexicographically greater than the string
/// of all-0xFF bytes.
proof fn lemma_not_above_all_ff(b: Seq<u8>)
    ensures
        !lex_lt(Seq::new(b.len(), |i: int| 255u8), b),
    decreases b.len(),
{
    let ff = Seq::new(b.len(), |i: int| 255u8);
    if b.len() > 0 && b[0] == 255 {
        lemma_not_above_all_ff(b.skip(1));
        assert(ff.skip(1) =~= Seq::new(b.skip(1).len(), |i: int| 255u8));
    }
}

/// Splitting bytes into nibbles keeps the value: a byte string read in base
/// 256 and its nibble string read in base 16 denote the same number.
proof fn lemma_nibbles_value(b: Seq<u8>)
    ensures
        nibbles_of(b).len() == 2 * b.len(),
        digits_below(nibbles_of(b), 16),
        base_val(nibbles_of(b), 16) == base_val(b, 256),
    decreases b.len(),
{
    let nb = nibbles_of(b);
    if b.len() > 0 {
        let d = b.drop_last();
        let last = b.last() as int;
        lemma_nibbles_value(d);
        let nd = nibbles_of(d);
        assert(nb.drop_last().drop_last() =~= nd);
        assert(nb.drop_last().drop_last().len() == nb.len() - 2);
        assert(nb[nb.len() - 2] == (last / 16) as u8);
        assert(nb[nb.len() - 1] == (last % 16) as u8);
        assert(base_val(nb, 16) == base_val(nb.drop_last(), 16) * 16 + last % 16);
        assert(base_val(nb.drop_last(), 16) == base_val(nd, 16) * 16 + last / 16);
        lemma_fundamental_div_mod(last, 16);
        assert(base_val(nb, 16) == (base_val(nd, 16) * 16 + last / 16) * 16 + last % 16);
        assert((base_val(nd, 16) * 16 + last / 16) * 16 + last % 16 == base_val(nd, 16) * 256 + (
        16 * (last / 16) + last % 16)) by (nonlinear_arith);
        assert(base_val(b, 256) == base_val(d, 256) * 256 + last);
    }
}

/// Base62 round trip: the rendering of any 20-byte string is 27 alphabet
/// characters, no greater than the maximal rendering, and its digit values
/// denote a number whose 20-byte expansion is exactly the original bytes.
/// Together with the codec contracts this says that `from_base62` accepts
/// every string that `to_base62` produces and returns the identifier it was
/// produced from.
pub proof fn lemma_base62_round_trip(b: Seq<u8>)
    requires
        b.len() == 20,
    ensures
        base62_encoding(b, 27).len() == 27,
        b62_valid(base62_encoding(b, 27)),
        !lex_lt(max_base62(), base62_encoding(b, 27)),
        digits_of(base_val(b62_digit_seq(base62_encoding(b, 27)), 62), 256, 20) == b,
{
    let v = base_val(b, 256);
    let e = base62_encoding(b, 27);
    lemma_base_val_nonneg(b, 256);
    lemma_base_val_upper(b, 256);
    lemma_b62_capacity();
    lemma_base_val_digits_of(v, 62, 27);
    let ds = digits_of(v, 62, 27);
    assert forall|t: int| 0 <= t < 27 implies is_b62_byte(e[t]) && #[trigger] e[t] == b62_char_of(
        ds[t] as int,
    ) && b62_val_of(e[t]) == ds[t] as int by {
        lemma_b62_char_of_valid(ds[t] as int);
    }
    assert(b62_valid(e));
    assert(b62_digit_seq(e) =~= ds);
    assert(base_val(b62_digit_seq(e), 62) == v);
    lemma_digits_of_base_val(b, 256);
    // the rendering never exceeds the maximal one
    let ff = Seq::new(20, |i: int| 255u8);
    lemma_base62_order(ff, b);
    lemma_not_above_all_ff(b);
}

/// Hex round trip: the rendering of any 20-byte string is 40 hex digits and
/// decodes back to exactly the original bytes. Together with the codec
/// contracts this says that `from_hex` accepts every string that `to_hex`
/// produces and returns the identifier it was produced from.
pub proof fn lemma_hex_round_trip(b: Seq<u8>)
    requires
        b.len() == 20,
    ensures
        hex_encoding(b).len() == 40,
        hex_valid(hex_encoding(b)),
        hex_decoding(hex_encoding(b)) == b,
{
    let e = hex_encoding(b);
    assert forall|t: int| 0 <= t < 40 implies is_hex_byte(#[trigger] e[t]) by {
        if t % 2 == 0 {
            lemma_hex_char_of_valid(b[t / 2] as int / 16);
        } else {
            lemma_hex_char_of_valid(b[t / 2] as int % 16);
        }
    }
    assert(hex_valid(e));
    assert forall|i: int| 0 <= i < 20 implies hex_decoding(e)[i] == b[i] by {
        lemma_hex_char_of_valid(b[i] as int / 16);
        lemma_hex_char_of_valid(b[i] as int % 16);
        assert(e[2 * i] == hex_char_of(b[i] as int / 16));
        assert(e[2 * i + 1] == hex_char_of(b[i] as int % 16));
        lemma_fundamental_div_mod(b[i] as int, 16);
    }
    assert(hex_decoding(e) =~= b);
}

/// Ordering preservation (Base62): two identifiers compare byte for byte
/// exactly as their Base62 renderings compare, whether the renderings are
/// read as ASCII bytes or as character strings.
pub proof fn lemma_base62_order(x: Seq<u8>, y: Seq<u8>)
    requires
        x.len() == 20,
        y.len() == 20,
    ensures
        lex_lt(base62_encoding(x, 27), base62_encoding(y, 27)) <==> lex_lt(x, y),
        lex_lt_chars(ascii_chars_of(base62_encoding(x, 27)), ascii_chars_of(base62_encoding(y, 27)))
            <==> lex_lt(x, y),
{
    let f = |d: u8| b62_char_of(d as int);
    let vx = base_val(x, 256);
    let vy = base_val(y, 256);
    lemma_base_val_nonneg(x, 256);
    lemma_base_val_nonneg(y, 256);
    lemma_base_val_upper(x, 256);
    lemma_base_val_upper(y, 256);
    lemma_lex_lt_value(x, y, 256);
    lemma_b62_capacity();
    lemma_base_val_digits_of(vx, 62, 27);
    lemma_base_val_digits_of(vy, 62, 27);
    let dx = digits_of(vx, 62, 27);
    let dy = digits_of(vy, 62, 27);
    lemma_lex_lt_value(dx, dy, 62);
    assert forall|i: int, j: int| 0 <= i < dx.len() && 0 <= j < dy.len() implies ((dx[i] < dy[j]
        <==> f(dx[i]) < f(dy[j])) && (dx[i] == dy[j] <==> f(dx[i]) == f(dy[j]))) by {
        lemma_b62_char_monotone(dx[i], dy[j]);
    }
    lemma_lex_lt_map(dx, dy, f);
    assert(base62_encoding(x, 27) =~= dx.map_values(f));
    assert(base62_encoding(y, 27) =~= dy.map_values(f));
    lemma_lex_lt_ascii(base62_encoding(x, 27), base62_encoding(y, 27));
}

/// Ordering preservation (hex): two identifiers compare byte for byte
/// exactly as their hex renderings compare, whether the renderings are read
/// as ASCII bytes or as character strings.
pub proof fn lemma_hex_order(x: Seq<u8>, y: Seq<u8>)
    requires
        x.len() == 20,
        y.len() == 20,
    ensures
        lex_lt(hex_encoding(x), hex_encoding(y)) <==> lex_lt(x, y),
        lex_lt_chars(ascii_chars_of(hex_encoding(x)), ascii_chars_of(hex_encoding(y))) <==> lex_lt(
            x,
            y,
        ),
{
    let f = |d: u8| hex_char_of(d as int);
    lemma_lex_lt_value(x, y, 256);
    lemma_nibbles_value(x);
    lemma_nibbles_value(y);
    let nx = nibbles_of(x);
    let ny = nibbles_of(y);
    lemma_lex_lt_value(nx, ny, 16);
    assert forall|i: int, j: int| 0 <= i < nx.len() && 0 <= j < ny.len() implies ((nx[i] < ny[j]
        <==> f(nx[i]) < f(ny[j])) && (nx[i] == ny[j] <==> f(nx[i]) == f(ny[j]))) by {
        lemma_hex_char_monotone(nx[i], ny[j]);
    }
    lemma_lex_lt_map(nx, ny, f);
    assert(hex_encoding(x) =~= nx.map_values(f));
    assert(hex_encoding(y) =~= ny.map_values(f));
    lemma_lex_lt_ascii(hex_encoding(x), hex_encoding(y));
}

/// Codec idempotence (Base62): encoding, decoding the result, and encoding
/// again yields the identical 27-character string both times.
pub proof fn lemma_base62_idempotent(b: Seq<u8>)
    requires
        b.len() == 20,
    ensures
        base62_encoding(digits_of(base_val(b62_digit_seq(base62_encoding(b, 27)), 62), 256, 20), 27)
            == base62_encoding(b, 27),
{
    lemma_base62_round_trip(b);
}

/// Codec idempotence (hex): encoding, decoding the result, and encoding
/// again yields the identical 40-character string both times.
pub proof fn lemma_hex_idempotent(b: Seq<u8>)
    requires
        b.len() == 20,
    ensures
        hex_encoding(hex_decoding(hex_encoding(b))) == hex_encoding(b),
{
    lemma_hex_round_trip(b);
}

} // verus!
