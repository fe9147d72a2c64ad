//! K-Sortable Unique IDentifiers (KSUIDs): 20-byte values combining a 4-byte
//! big-endian timestamp (seconds since a custom epoch) with a 16-byte random
//! payload. Both the binary form and the Base62 string form sort
//! chronologically, because the timestamp occupies the most significant bytes
//! and every encoding is fixed-width.

use vstd::prelude::*;

pub mod base62;
pub mod digits;
pub mod laws;

use vstd::arithmetic::power::pow;
use vstd::arithmetic::div_mod::lemma_fundamental_div_mod;
use vstd::slice::slice_to_vec;
use vstd::string::StringSliceAdditionalSpecFns;

use crate::base62::{
    b62_char_of, b62_digit_seq, b62_valid, base62_encoding, decode_raw, encode_raw,
    lemma_b62_byte_roundtrip, lemma_b62_capacity, lemma_b62_char_monotone, lemma_b62_char_of_valid,
};
use crate::digits::{
    ascii_chars_of, base_val, digits_below, digits_of, lex_lt, lemma_base_val_digits_of,
    lemma_base_val_nonneg, lemma_base_val_upper, lemma_lex_lt_common_prefix, lemma_lex_lt_map,
    lemma_lex_lt_value,
};

verus! {

/// The ways in which parsing or rendering an identifier can fail.
#[derive(Clone, Copy, Debug, PartialEq, Eq, Structural)]
pub enum Error {
    /// An input of the wrong size was handed to a parse function.
    InvalidLength,
    /// A character outside the expected alphabet was found while parsing.
    InvalidCharacter,
    /// A syntactically valid Base62 string that exceeds the maximal identifier.
    ValueTooLarge,
    /// A conversion target buffer was too small to hold the converted value.
    BufferTooSmall,
    /// The current time cannot be expressed as a 32-bit identifier timestamp.
    TimestampOutOfRange,
}

/// The KSUID epoch: seconds after the UNIX epoch at which the identifier
/// timestamp field reads zero.
pub const EPOCH: i64 = 1_400_000_000;

/// Identifier length in bytes.
const LEN: usize = 20;

/// Length of the Base62 rendering of an identifier.
const BASE62_LEN: usize = 27;

/// Length of the hex rendering of an identifier.
const HEX_LEN: usize = 40;

/// The timestamp stored in a 20-byte identifier: its first four bytes read
/// as a big-endian number.
pub open spec fn timestamp_of(s: Seq<u8>) -> int {
    base_val(s.subrange(0, 4), 256)
}

/// The uppercase hex alphabet as a function from digit value to ASCII byte.
pub open spec fn hex_char_of(d: int) -> u8 {
    if d < 10 {
        (48 + d) as u8
    } else {
        (55 + d) as u8
    }
}

/// The digit value of an ASCII byte read as a hex digit of either case, or
/// `-1` when the byte is not a hex digit.
pub open spec fn hex_val_of(c: u8) -> int {
    if 48 <= c <= 57 {
        c - 48
    } else if 65 <= c <= 70 {
        c - 55
    } else if 97 <= c <= 102 {
        c - 87
    } else {
        -1
    }
}

/// Whether `c` is a hex digit of either case.
pub open spec fn is_hex_byte(c: u8) -> bool {
    hex_val_of(c) >= 0
}

/// Whether every byte of `s` is a hex digit.
pub open spec fn hex_valid(s: Seq<u8>) -> bool {
    forall|i: int| 0 <= i < s.len() ==> is_hex_byte(s[i])
}

/// The uppercase hex rendering of `b`, two characters per byte, high nibble
/// first.
pub open spec fn hex_encoding(b: Seq<u8>) -> Seq<u8> {
    Seq::new(2 * b.len(), |i: int| if i % 2 == 0 {
        hex_char_of(b[i / 2] as int / 16)
    } else {
        hex_char_of(b[i / 2] as int % 16)
    })
}

/// The bytes denoted by a string of hex digits, two digits per byte.
pub open spec fn hex_decoding(s: Seq<u8>) -> Seq<u8> {
    Seq::new(s.len() / 2, |i: int| (hex_val_of(s[2 * i]) * 16 + hex_val_of(s[2 * i + 1])) as u8)
}

/// The Base62 rendering of the all-0xFF identifier: the largest string that
/// any 20-byte value can encode to, and the bound against which parsed
/// strings are checked.
pub open spec fn max_base62() -> Seq<u8> {
    base62_encoding(Seq::new(20, |i: int| 255u8), 27)
}

/// Compare two equal-length byte strings; true exactly when `a` is
/// lexicographically greater than `b`.
#[verifier::loop_isolation(false)]
fn bytes_gt(a: &[u8], b: &[u8]) -> (r: bool)
    requires
        a@.len() == b@.len(),
    ensures
        r == lex_lt(b@, a@),
{
    let n = a.len();
    let mut i: usize = 0;
    while i < n
        invariant
            i <= n,
            forall|t: int| 0 <= t < i ==> a@[t] == b@[t],
        decreases n - i,
    {
        let x = a[i];
        let y = b[i];
        if x > y {
            proof {
                lemma_lex_lt_common_prefix(b@, a@, i as int);
                assert(b@.skip(i as int)[0] == y && a@.skip(i as int)[0] == x);
            }
            return true;
        }
        if x < y {
            proof {
                lemma_lex_lt_common_prefix(b@, a@, i as int);
                assert(b@.skip(i as int)[0] == y && a@.skip(i as int)[0] == x);
            }
            return false;
        }
        i += 1;
    }
    proof {
        lemma_lex_lt_common_prefix(b@, a@, n as int);
        assert(b@.skip(n as int) =~= Seq::<u8>::empty());
        assert(a@.skip(n as int) =~= Seq::<u8>::empty());
    }
    false
}

/// A K-Sortable Unique IDentifier.
///
/// The first 4 bytes are a big-endian encoded, unsigned timestamp indicating
/// when the identifier was created. The timestamp is relative to a custom
/// epoch, exported from this crate as [`EPOCH`]. The remaining 16 bytes are
/// the randomly generated payload.
#[derive(Debug, Clone, Copy, PartialOrd, Ord)]
pub struct Ksuid {
    bytes: [u8; 20],
}

impl View for Ksuid {
    type V = Seq<u8>;

    closed spec fn view(&self) -> Seq<u8> {
        self.bytes@
    }
}

impl PartialEq for Ksuid {
    fn eq(&self, other: &Ksuid) -> (r: bool) {
        let mut i: usize = 0;
        while i < 20
            invariant
                i <= 20,
                self.wf(),
                other.wf(),
                forall|t: int| 0 <= t < i ==> self@[t] == other@[t],
            decreases 20 - i,
        {
            if self.bytes[i] != other.bytes[i] {
                return false;
            }
            i += 1;
        }
        proof {
            assert(self@ =~= other@);
        }
        true
    }
}

impl Eq for Ksuid {

}

impl vstd::std_specs::cmp::PartialEqSpecImpl for Ksuid {
    open spec fn obeys_eq_spec() -> bool {
        true
    }

    open spec fn eq_spec(&self, other: &Ksuid) -> bool {
        self@ == other@
    }
}

/// Copy exactly twenty bytes out of a slice.
fn bytes20_from_slice(s: &[u8]) -> (r: [u8; 20])
    requires
        s@.len() == 20,
    ensures
        r@ == s@,
{
    let mut out = [0u8; 20];
    let mut i: usize = 0;
    while i < 20
        invariant
            i <= 20,
            s@.len() == 20,
            forall|t: int| 0 <= t < i ==> out@[t] == s@[t],
        decreases 20 - i,
    {
        out[i] = s[i];
        i += 1;
    }
    proof {
        assert(out@ =~= s@);
    }
    out
}

/// Unfold the value of a four-digit string.
proof fn lemma_base_val_4(s: Seq<u8>, base: int)
    requires
        s.len() == 4,
    ensures
        base_val(s, base) == ((s[0] * base + s[1]) * base + s[2]) * base + s[3],
{
    let s3 = s.drop_last();
    let s2 = s3.drop_last();
    let s1 = s2.drop_last();
    assert(s1.drop_last() =~= Seq::<u8>::empty());
    assert(base_val(s1, base) == base_val(s1.drop_last(), base) * base + s1.last());
    assert(base_val(s1.drop_last(), base) == 0);
    vstd::arithmetic::mul::lemma_mul_basics(base);
    assert(base_val(s1, base) == s[0]);
    assert(base_val(s2, base) == base_val(s1, base) * base + s[1]);
    assert(base_val(s3, base) == base_val(s2, base) * base + s[2]);
    assert(base_val(s, base) == base_val(s3, base) * base + s[3]);
}

impl Ksuid {
    /// Exactly twenty bytes, always.
    pub open spec fn wf(&self) -> bool {
        self@.len() == 20
    }

    /// Create a new identifier with the given timestamp and payload.
    pub fn new(timestamp: u32, payload: [u8; 16]) -> (r: Self)
        ensures
            r.wf(),
            timestamp_of(r@) == timestamp,
            r@.subrange(0, 4) == digits_of(timestamp as int, 256, 4),
            r@.subrange(4, 20) == payload@,
    {
        let mut ret = Ksuid { bytes: [0u8; 20] };
        ret.set_timestamp(timestamp);
        ret.set_payload(payload);
        ret
    }

    /// Parse an identifier from its binary representation.
    ///
    /// `raw` must be exactly 20 bytes long.
    pub fn from_bytes(raw: &[u8]) -> (r: Result<Self, Error>)
        ensures
            r matches Ok(k) <==> raw@.len() == 20,
            r matches Ok(k) ==> k.wf() && k@ == raw@,
            r matches Err(e) ==> e == Error::InvalidLength,
    {
        if raw.len() != LEN {
            return Err(Error::InvalidLength);
        }
        Ok(Ksuid { bytes: bytes20_from_slice(raw) })
    }

    /// Create a new identifier for the given wall-clock time, in seconds
    /// after the UNIX epoch, and the given payload.
    ///
    /// Succeeds exactly when the time falls in the window that the 32-bit
    /// timestamp can express; the stored timestamp is then the time's offset
    /// from [`EPOCH`]. `with_payload` and `generate` call this with the
    /// current time.
    pub fn from_unix_time(now: i64, payload: [u8; 16]) -> (r: Result<Self, Error>)
        ensures
            r is Ok <==> EPOCH <= now <= EPOCH + 0xffff_ffff,
            r matches Ok(k) ==> k.wf() && timestamp_of(k@) == now - EPOCH && k@.subrange(4, 20)
                == payload@,
            r matches Err(e) ==> e == Error::TimestampOutOfRange,
    {
        if now < EPOCH || now - EPOCH > 0xffff_ffff {
            return Err(Error::TimestampOutOfRange);
        }
        Ok(Self::new((now - EPOCH) as u32, payload))
    }

    /// Create a new identifier with a current timestamp and the given
    /// payload.
    ///
    /// Fails with `Error::TimestampOutOfRange` exactly when the current time
    /// falls outside the window that the 32-bit timestamp can express; on
    /// success the stored timestamp is the clock reading's offset from
    /// [`EPOCH`], as `from_unix_time` states.
    pub fn with_payload(payload: [u8; 16]) -> (r: Result<Self, Error>)
        ensures
            r matches Ok(k) ==> k.wf() && k@.subrange(4, 20) == payload@,
            r matches Err(e) ==> e == Error::TimestampOutOfRange,
    {
        Self::from_unix_time(now_unix_seconds(), payload)
    }

    /// Create a new identifier with a current timestamp and randomly
    /// generated payload.
    ///
    /// Fails with `Error::TimestampOutOfRange` when the current time falls
    /// outside the window that the 32-bit timestamp can express.
    pub fn generate() -> (r: Result<Self, Error>)
        ensures
            r matches Ok(k) ==> k.wf(),
            r matches Err(e) ==> e == Error::TimestampOutOfRange,
    {
        Self::with_payload(random_payload())
    }

    /// Parse an identifier from its Base62-encoded string representation.
    ///
    /// `s` must be exactly 27 characters long, and no greater than the
    /// rendering of the all-0xFF identifier: not every 27-character Base62
    /// string fits in 20 bytes, so the bound is checked, byte for byte,
    /// before any arithmetic runs.
    pub fn from_base62(s: &str) -> (r: Result<Self, Error>)
        ensures
            r is Ok <==> (s.spec_bytes().len() == 27 && !lex_lt(max_base62(), s.spec_bytes())
                && b62_valid(s.spec_bytes())),
            r matches Ok(k) ==> k.wf() && k@ == digits_of(
                base_val(b62_digit_seq(s.spec_bytes()), 62),
                256,
                20,
            ),
            s.spec_bytes().len() != 27 ==> r == Err::<Ksuid, Error>(Error::InvalidLength),
            s.spec_bytes().len() == 27 && lex_lt(max_base62(), s.spec_bytes()) ==> r == Err::<
                Ksuid,
                Error,
            >(Error::ValueTooLarge),
            s.spec_bytes().len() == 27 && !lex_lt(max_base62(), s.spec_bytes()) && !b62_valid(
                s.spec_bytes(),
            ) ==> r == Err::<Ksuid, Error>(Error::InvalidCharacter),
    {
        let bs = s.as_bytes();
        if bs.len() != BASE62_LEN {
            return Err(Error::InvalidLength);
        }
        let ghost g = s.spec_bytes();
        // Render the maximal identifier to obtain the comparison bound.
        let mut maxnum: Vec<u8> = vec![255u8; LEN];
        let mut maxenc: Vec<u8> = vec![0u8; BASE62_LEN];
        proof {
            assert(maxnum@ =~= Seq::new(20, |i: int| 255u8));
            lemma_base_val_nonneg(maxnum@, 256);
            lemma_base_val_upper(maxnum@, 256);
            lemma_b62_capacity();
        }
        let res = encode_raw(&mut maxnum, &mut maxenc);
        proof {
            assert(res == Ok::<(), Error>(()));
            assert(maxenc@ == max_base62());
        }
        if bytes_gt(bs, maxenc.as_slice()) {
            return Err(Error::ValueTooLarge);
        }
        let mut scratch: Vec<u8> = slice_to_vec(bs);
        let mut outbuf: Vec<u8> = vec![0u8; LEN];
        let res2 = decode_raw(&mut scratch, &mut outbuf);
        match res2 {
            Err(e) => {
                proof {
                    if b62_valid(g) {
                        lemma_bounded_by_max(g);
                    }
                }
                Err(e)
            },
            Ok(()) => Ok(Ksuid { bytes: bytes20_from_slice(outbuf.as_slice()) }),
        }
    }

    /// The Base62-encoded version of this identifier: 27 characters over
    /// `[0-9A-Za-z]`.
    pub fn to_base62(&self) -> (r: String)
        requires
            self.wf(),
        ensures
            r@ == ascii_chars_of(base62_encoding(self@, 27)),
            r@.len() == 27,
    {
        let mut scratch: Vec<u8> = slice_to_vec(self.bytes.as_slice());
        let mut out: Vec<u8> = vec![0u8; BASE62_LEN];
        proof {
            lemma_base_val_nonneg(self@, 256);
            lemma_base_val_upper(self@, 256);
            lemma_b62_capacity();
        }
        let res = encode_raw(&mut scratch, &mut out);
        proof {
            assert(res == Ok::<(), Error>(()));
            lemma_base_val_digits_of(base_val(self@, 256), 62, 27);
            assert forall|t: int| 0 <= t < out@.len() implies out@[t] < 128 by {
                let ds = digits_of(base_val(self@, 256), 62, 27);
                assert(out@[t] == b62_char_of(ds[t] as int));
                lemma_b62_char_of_valid(ds[t] as int);
            }
        }
        ascii_to_string(out)
    }

    /// Parse an identifier from a string of hex characters (`[0-9A-Fa-f]`).
    ///
    /// `hex` must be exactly 40 characters long.
    #[verifier::loop_isolation(false)]
    pub fn from_hex(hex: &str) -> (r: Result<Self, Error>)
        ensures
            r is Ok <==> (hex.spec_bytes().len() == 40 && hex_valid(hex.spec_bytes())),
            r matches Ok(k) ==> k.wf() && k@ == hex_decoding(hex.spec_bytes()),
            hex.spec_bytes().len() != 40 ==> r == Err::<Ksuid, Error>(Error::InvalidLength),
            hex.spec_bytes().len() == 40 && !hex_valid(hex.spec_bytes()) ==> r == Err::<
                Ksuid,
                Error,
            >(Error::InvalidCharacter),
    {
        let bs = hex.as_bytes();
        if bs.len() != HEX_LEN {
            return Err(Error::InvalidLength);
        }
        let ghost g = hex.spec_bytes();
        let mut bytes: Vec<u8> = Vec::new();
        let mut i: usize = 0;
        while i < LEN
            invariant
                i <= 20,
                bytes@.len() == i,
                forall|t: int| 0 <= t < 2 * i ==> is_hex_byte(g[t]),
                forall|t: int| 0 <= t < i ==> bytes@[t] == hex_decoding(g)[t],
            decreases 20 - i,
        {
            let hi = match hex_digit(bs[2 * i]) {
                Ok(v) => v,
                Err(e) => return Err(e),
            };
            let lo = match hex_digit(bs[2 * i + 1]) {
                Ok(v) => v,
                Err(e) => return Err(e),
            };
            bytes.push(hi * 16 + lo);
            proof {
                assert(bytes@[i as int] == hex_decoding(g)[i as int]);
            }
            i += 1;
        }
        proof {
            assert(hex_valid(g));
            assert(bytes@ =~= hex_decoding(g));
        }
        Ok(Ksuid { bytes: bytes20_from_slice(bytes.as_slice()) })
    }

    /// The hex-encoded version of this identifier: 40 uppercase characters.
    #[verifier::loop_isolation(false)]
    pub fn to_hex(&self) -> (r: String)
        requires
            self.wf(),
        ensures
            r@ == ascii_chars_of(hex_encoding(self@)),
            r@.len() == 40,
    {
        let mut out: Vec<u8> = Vec::new();
        let mut i: usize = 0;
        while i < LEN
            invariant
                i <= 20,
                out@.len() == 2 * i,
                forall|t: int| 0 <= t < 2 * i ==> out@[t] == hex_encoding(self@)[t],
            decreases 20 - i,
        {
            let b = self.bytes[i];
            out.push(hex_char(b / 16));
            out.push(hex_char(b % 16));
            proof {
                assert(out@[2 * (i as int)] == hex_encoding(self@)[2 * (i as int)]);
                assert(out@[2 * (i as int) + 1] == hex_encoding(self@)[2 * (i as int) + 1]);
            }
            i += 1;
        }
        proof {
            assert(out@ =~= hex_encoding(self@));
            assert forall|t: int| 0 <= t < out@.len() implies out@[t] < 128 by {
                assert(out@[t] == hex_encoding(self@)[t]);
            }
        }
        ascii_to_string(out)
    }

    /// The 20-byte binary representation of this identifier.
    pub fn as_bytes(&self) -> (r: &[u8])
        ensures
            r@ == self@,
    {
        self.bytes.as_slice()
    }

    /// The 32-bit timestamp of this identifier: seconds since [`EPOCH`].
    pub fn timestamp(&self) -> (r: u32)
        requires
            self.wf(),
        ensures
            r == timestamp_of(self@),
    {
        let b0 = self.bytes[0] as u32;
        let b1 = self.bytes[1] as u32;
        let b2 = self.bytes[2] as u32;
        let b3 = self.bytes[3] as u32;
        proof {
            lemma_base_val_4(self@.subrange(0, 4), 256);
        }
        ((b0 * 256 + b1) * 256 + b2) * 256 + b3
    }

    /// Set the 32-bit timestamp, leaving the payload untouched.
    pub fn set_timestamp(&mut self, timestamp: u32)
        requires
            old(self).wf(),
        ensures
            final(self).wf(),
            timestamp_of(final(self)@) == timestamp,
            final(self)@.subrange(0, 4) == digits_of(timestamp as int, 256, 4),
            final(self)@.subrange(4, 20) == old(self)@.subrange(4, 20),
    {
        let b0 = (timestamp / 16777216) as u8;
        let b1 = ((timestamp / 65536) % 256) as u8;
        let b2 = ((timestamp / 256) % 256) as u8;
        let b3 = (timestamp % 256) as u8;
        self.bytes[0] = b0;
        self.bytes[1] = b1;
        self.bytes[2] = b2;
        self.bytes[3] = b3;
        proof {
            let t = timestamp as int;
            assert(pow(256, 0) == 1 && pow(256, 1) == 256 && pow(256, 2) == 65536 && pow(256, 3)
                == 16777216 && pow(256, 4) == 0x1_0000_0000) by {
                reveal_with_fuel(pow, 5);
            }
            lemma_fundamental_div_mod(t, 256);
            assert(self@.subrange(0, 4) =~= digits_of(t, 256, 4)) by {
                assert(digits_of(t, 256, 4)[0] == ((t / 16777216) % 256) as u8);
                assert(digits_of(t, 256, 4)[1] == ((t / 65536) % 256) as u8);
                assert(digits_of(t, 256, 4)[2] == ((t / 256) % 256) as u8);
                assert(digits_of(t, 256, 4)[3] == (t % 256) as u8);
                assert(t / 16777216 < 256);
                vstd::arithmetic::div_mod::lemma_small_mod((t / 16777216) as nat, 256);
            }
            lemma_base_val_digits_of(t, 256, 4);
            assert(self@.subrange(4, 20) =~= old(self)@.subrange(4, 20));
        }
    }

    /// The number of seconds after the UNIX epoch when this identifier was
    /// created.
    pub fn time(&self) -> (r: i64)
        requires
            self.wf(),
        ensures
            r == EPOCH + timestamp_of(self@),
    {
        proof {
            lemma_timestamp_of_bounds(self@);
        }
        EPOCH + self.timestamp() as i64
    }

    /// Set the timestamp of the identifier to the given time, in seconds
    /// after the UNIX epoch. The time must fall in the roughly 136-year
    /// window that the 32-bit timestamp can express.
    pub fn set_time(&mut self, time: i64)
        requires
            old(self).wf(),
            EPOCH <= time <= EPOCH + 0xffff_ffff,
        ensures
            final(self).wf(),
            timestamp_of(final(self)@) == time - EPOCH,
            final(self)@.subrange(4, 20) == old(self)@.subrange(4, 20),
    {
        self.set_timestamp((time - EPOCH) as u32);
    }

    /// The 16-byte random payload.
    pub fn payload(&self) -> (r: &[u8])
        requires
            self.wf(),
        ensures
            r@ == self@.subrange(4, 20),
    {
        &self.bytes.as_slice()[4..20]
    }

    /// Set the 16-byte payload, leaving the timestamp untouched.
    pub fn set_payload(&mut self, payload: [u8; 16])
        requires
            old(self).wf(),
        ensures
            final(self).wf(),
            final(self)@.subrange(0, 4) == old(self)@.subrange(0, 4),
            final(self)@.subrange(4, 20) == payload@,
            timestamp_of(final(self)@) == timestamp_of(old(self)@),
    {
        let mut i: usize = 0;
        while i < 16
            invariant
                i <= 16,
                old(self).wf(),
                self@.len() == 20,
                forall|t: int| 0 <= t < 4 ==> self@[t] == old(self)@[t],
                forall|t: int| 0 <= t < i ==> #[trigger] self@[4 + t] == payload@[t],
                forall|t: int| i <= t < 16 ==> #[trigger] self@[4 + t] == old(self)@[4 + t],
            decreases 16 - i,
        {
            self.bytes[4 + i] = payload[i];
            i += 1;
        }
        proof {
            assert(self@.subrange(0, 4) =~= old(self)@.subrange(0, 4));
            assert forall|t: int| 0 <= t < 16 implies self@.subrange(4, 20)[t] == payload@[t] by {
                assert(self@[4 + t] == payload@[t]);
            }
            assert(self@.subrange(4, 20) =~= payload@);
        }
    }
}

/// Relies on `time::OffsetDateTime::now_utc` (read through its
/// `unix_timestamp` accessor): the wall clock, as seconds since the UNIX
/// epoch. Nothing can be promised of the clock's value, so the caller must
/// cope with every outcome.
#[verifier::external_body]
fn now_unix_seconds() -> i64 {
    time::OffsetDateTime::now_utc().unix_timestamp()
}

/// Relies on `rand::random`: 16 bytes drawn from the thread-local generator.
/// Nothing can be promised of a random value.
#[verifier::external_body]
fn random_payload() -> [u8; 16] {
    rand::random()
}

/// Relies on `String::from_utf8`: a buffer of ASCII bytes decodes to exactly
/// those characters. The `requires` keeps every byte below 128, so the buffer
/// is valid UTF-8 and decoding cannot fail.
#[verifier::external_body]
fn ascii_to_string(bytes: Vec<u8>) -> (r: String)
    requires
        forall|i: int| 0 <= i < bytes@.len() ==> bytes@[i] < 128,
    ensures
        r@ == ascii_chars_of(bytes@),
{
    String::from_utf8(bytes).unwrap_or_default()
}

/// Get the numeric value corresponding to the given ASCII hex digit, of
/// either case.
pub fn hex_digit(c: u8) -> (r: Result<u8, Error>)
    ensures
        r matches Ok(v) <==> is_hex_byte(c),
        r matches Ok(v) ==> v as int == hex_val_of(c) && v < 16,
        r matches Err(e) ==> e == Error::InvalidCharacter,
{
    if 48 <= c && c <= 57 {
        Ok(c - 48)
    } else if 65 <= c && c <= 70 {
        Ok(c - 55)
    } else if 97 <= c && c <= 102 {
        Ok(c - 87)
    } else {
        Err(Error::InvalidCharacter)
    }
}

/// Map a nibble to its uppercase hex character.
fn hex_char(d: u8) -> (r: u8)
    requires
        d < 16,
    ensures
        r == hex_char_of(d as int),
{
    if d < 10 {
        48 + d
    } else {
        55 + d
    }
}

/// A valid 27-character Base62 string that is lexicographically no greater
/// than the maximal rendering denotes a value that fits in 20 bytes.
proof fn lemma_bounded_by_max(g: Seq<u8>)
    requires
        g.len() == 27,
        b62_valid(g),
        !lex_lt(max_base62(), g),
    ensures
        0 <= base_val(b62_digit_seq(g), 62) < pow(256, 20),
{
    let f = |d: u8| b62_char_of(d as int);
    let ff = Seq::new(20, |i: int| 255u8);
    let vmax = base_val(ff, 256);
    lemma_base_val_nonneg(ff, 256);
    lemma_base_val_upper(ff, 256);
    lemma_b62_capacity();
    lemma_base_val_digits_of(vmax, 62, 27);
    let dm = digits_of(vmax, 62, 27);
    let dg = b62_digit_seq(g);
    assert(dg.len() == 27);
    assert forall|t: int| 0 <= t < 27 implies dg[t] < 62 && f(dg[t]) == g[t] by {
        lemma_b62_byte_roundtrip(g[t]);
    }
    assert(digits_below(dg, 62));
    assert(g =~= dg.map_values(f));
    assert(max_base62() =~= dm.map_values(f));
    assert forall|i: int, j: int| 0 <= i < dm.len() && 0 <= j < dg.len() implies ((dm[i] < dg[j]
        <==> f(dm[i]) < f(dg[j])) && (dm[i] == dg[j] <==> f(dm[i]) == f(dg[j]))) by {
        lemma_b62_char_monotone(dm[i], dg[j]);
    }
    lemma_lex_lt_map(dm, dg, f);
    lemma_lex_lt_value(dm, dg, 62);
    lemma_base_val_nonneg(dg, 62);
}

/// The timestamp of a well-formed identifier fits in 32 bits.
proof fn lemma_timestamp_of_bounds(s: Seq<u8>)
    requires
        s.len() == 20,
    ensures
        0 <= timestamp_of(s) < 0x1_0000_0000,
{
    lemma_base_val_nonneg(s.subrange(0, 4), 256);
    lemma_base_val_upper(s.subrange(0, 4), 256);
    assert(pow(256, 4) == 0x1_0000_0000) by {
        reveal_with_fuel(pow, 5);
    }
}

} // verus!
