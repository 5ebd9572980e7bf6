//! Byte serialization of coefficient vectors: a `u64` little-endian length
//! prefix, each coefficient as `i64` little-endian, then base64.
use base64::Engine;
use crate::nttmul::ints;
use vstd::bytes::spec_u64_to_le_bytes;
use vstd::prelude::*;

verus! {

/// Why decoding an encoded key, ciphertext, or message failed.
#[derive(Debug, Clone, Copy, PartialEq, Eq, Structural)]
pub enum CryptoError {
    /// Base64 decoding failed, the binary body was truncated or overlong,
    /// or a coefficient lies outside the range the modulus allows.
    MalformedEncoding,
    /// The decoded coefficient vector does not have the expected length.
    DimensionMismatch,
}

/// A coefficient as its unsigned 64-bit two's-complement counterpart.
pub open spec fn as_u64(c: int) -> u64 {
    (if c >= 0 {
        c
    } else {
        c + 0x1_0000_0000_0000_0000
    }) as u64
}

/// The eight little-endian bytes of one coefficient.
pub open spec fn enc_i64(c: int) -> Seq<u8> {
    spec_u64_to_le_bytes(as_u64(c))
}

/// The concatenated little-endian bytes of a coefficient vector.
pub open spec fn enc_coeffs(v: Seq<int>) -> Seq<u8>
    decreases v.len(),
{
    if v.len() == 0 {
        Seq::empty()
    } else {
        enc_coeffs(v.drop_last()) + enc_i64(v.last())
    }
}

/// The self-describing binary form of a coefficient vector: a `u64`
/// little-endian length prefix followed by each coefficient as `i64`
/// little-endian.
pub open spec fn enc_data(v: Seq<int>) -> Seq<u8> {
    spec_u64_to_le_bytes(v.len() as u64) + enc_coeffs(v)
}

/// Every coefficient of the sequence fits in a signed 64-bit integer.
/// The binary format is injective only on such sequences: `as_u64` collapses
/// values that differ by `2^64`.
pub open spec fn fits_i64(v: Seq<int>) -> bool {
    forall|i: int| 0 <= i < v.len() ==> i64::MIN <= #[trigger] v[i] <= i64::MAX
}

/// The sequence read off an `i64` vector always fits.
pub proof fn lemma_ints_fits(s: Seq<i64>)
    ensures
        fits_i64(ints(s)),
{
    assert forall|i: int| 0 <= i < ints(s).len() implies i64::MIN <= #[trigger] ints(s)[i]
        <= i64::MAX by {
        assert(ints(s)[i] == s[i] as int);
    }
}

/// Coefficient `i` of the vector exists and lies outside `(-q, q)`.
pub open spec fn coeff_out_of_range(v: Seq<int>, q: int, i: int) -> bool {
    0 <= i < v.len() && !(-q < v[i] < q)
}

/// The canonical base64 of a byte string: standard alphabet with `=`
/// padding, a function of the bytes alone.
pub uninterp spec fn b64_of(bytes: Seq<u8>) -> Seq<char>;

/// Relies on `bincode::serialize` in its default configuration (fixed-width
/// integers, little-endian): a `Vec<i64>` becomes a `u64` little-endian
/// length prefix followed by each element as `i64` little-endian.
/// Serializing into memory cannot fail.
#[verifier::external_body]
fn bincode_encode(v: &Vec<i64>) -> (r: Vec<u8>)
    ensures
        r@ == enc_data(ints(v@)),
{
    bincode::serialize(v).expect("serializing to memory cannot fail")
}

/// Relies on `bincode::deserialize` in its default configuration (fixed-width
/// integers, little-endian, trailing bytes allowed): it reads the `u64`
/// length prefix and then that many `i64` values, failing on truncated
/// input.  On the exact encoding of a vector of `i64`-range coefficients it
/// returns that vector.
#[verifier::external_body]
fn bincode_decode(bytes: &Vec<u8>) -> (r: Option<Vec<i64>>)
    ensures
        forall|v: Seq<int>|
            bytes@ == #[trigger] enc_data(v) && fits_i64(v) ==> match r {
                Some(out) => ints(out@) == v,
                None => false,
            },
        match r {
            Some(out) => bytes@.len() >= 8 + 8 * out@.len() && bytes@.subrange(
                0,
                8 + 8 * out@.len() as int,
            ) == enc_data(ints(out@)),
            None => true,
        },
{
    match bincode::deserialize::<Vec<i64>>(bytes) {
        Ok(v) => Some(v),
        Err(_) => None,
    }
}

/// Relies on the base64 STANDARD engine's `encode`: the canonical base64
/// string of the bytes.
#[verifier::external_body]
fn b64_encode(bytes: &Vec<u8>) -> (r: String)
    ensures
        r@ == b64_of(bytes@),
{
    base64::engine::general_purpose::STANDARD.encode(bytes)
}

/// Relies on the base64 STANDARD engine's `decode`: it requires canonical
/// padding and rejects non-zero trailing bits, so it accepts exactly the
/// canonical encodings and inverts `encode` on them.
#[verifier::external_body]
fn b64_decode(s: &str) -> (r: Option<Vec<u8>>)
    ensures
        forall|b: Seq<u8>|
            s@ == #[trigger] b64_of(b) ==> match r {
                Some(out) => out@ == b,
                None => false,
            },
        match r {
            Some(out) => s@ == b64_of(out@),
            None => true,
        },
{
    match base64::engine::general_purpose::STANDARD.decode(s) {
        Ok(v) => Some(v),
        Err(_) => None,
    }
}

/// Serialize a coefficient vector and encode it as base64.
pub fn compress(data: &Vec<i64>) -> (r: String)
    ensures
        r@ == b64_of(enc_data(ints(data@))),
{
    let bytes = bincode_encode(data);
    b64_encode(&bytes)
}

/// The binary form of a vector is eight bytes per coefficient after the
/// eight-byte length prefix.
pub proof fn lemma_enc_data_len(v: Seq<int>)
    ensures
        enc_data(v).len() == 8 + 8 * v.len(),
{
    vstd::bytes::lemma_auto_spec_u64_to_from_le_bytes();
    lemma_enc_coeffs_len(v);
}

proof fn lemma_enc_coeffs_len(v: Seq<int>)
    ensures
        enc_coeffs(v).len() == 8 * v.len(),
    decreases v.len(),
{
    if v.len() > 0 {
        lemma_enc_coeffs_len(v.drop_last());
        vstd::bytes::lemma_auto_spec_u64_to_from_le_bytes();
    }
}

/// Decode a base64 string and deserialize it back into a coefficient
/// vector.  `None` means the input is malformed: bad base64, or a truncated
/// or overlong binary body.  On the output of `compress` this returns
/// exactly the compressed vector, and a `Some` result is always the decoding
/// of the input.
pub fn decompress(base64_str: &str) -> (r: Option<Vec<i64>>)
    ensures
        forall|v: Seq<int>|
            base64_str@ == b64_of(#[trigger] enc_data(v)) && fits_i64(v) ==> match r {
                Some(out) => ints(out@) == v,
                None => false,
            },
        match r {
            Some(out) => base64_str@ == b64_of(enc_data(ints(out@))),
            None => true,
        },
{
    match b64_decode(base64_str) {
        Some(bytes) => {
            match bincode_decode(&bytes) {
                Some(out) => {
                    proof {
                        lemma_enc_data_len(ints(out@));
                    }
                    // reject trailing bytes: the body must be exactly the
                    // encoding of the decoded vector
                    let blen = bytes.len();
                    proof {
                        assert(8 + 8 * out@.len() <= blen);
                    }
                    if 8 + 8 * out.len() == blen {
                        proof {
                            assert(bytes@ =~= bytes@.subrange(0, 8 + 8 * out@.len() as int));
                            assert forall|v: Seq<int>|
                                base64_str@ == b64_of(#[trigger] enc_data(v)) && fits_i64(v)
                                implies ints(out@) == v by {
                                assert(bytes@ == enc_data(v));
                            }
                        }
                        Some(out)
                    } else {
                        proof {
                            assert forall|v: Seq<int>|
                                !(base64_str@ == b64_of(#[trigger] enc_data(v)) && fits_i64(
                                    v,
                                )) by {
                                if base64_str@ == b64_of(enc_data(v)) && fits_i64(v) {
                                    assert(bytes@ == enc_data(v));
                                    assert(ints(out@) == v);
                                    lemma_enc_data_len(v);
                                }
                            }
                        }
                        None
                    }
                },
                None => None,
            }
        },
        None => None,
    }
}



} // verus!
