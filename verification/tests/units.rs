use ring_lwe::arith::{mod_coeffs, nearest_int, polyinv, polyrem, polysub, Poly};
use ring_lwe::codec::{compress, decompress, CryptoError};
use ring_lwe::decrypt::{decrypt, decrypt_string};
use ring_lwe::encrypt::{encrypt, encrypt_string};
use ring_lwe::keygen::{keygen, keygen_string};
use ring_lwe::params::Parameters;
use ring_lwe::sample::{gen_binary_poly, gen_ternary_poly};

// Serialization round-trip: decompressing a compressed vector returns it.
#[test]
fn test_compress_decompress_roundtrip() {
    let v: Vec<i64> = vec![0, 1, -1, 6144, -6144, 12288, i64::MAX, i64::MIN];
    let s = compress(&v);
    let back = decompress(&s).unwrap();
    assert_eq!(v, back);
}

// The wire format is exact: u64le length prefix, i64le coefficients, base64.
#[test]
fn test_compress_exact_encoding() {
    let v: Vec<i64> = vec![1, -2];
    assert_eq!(compress(&v), "AgAAAAAAAAABAAAAAAAAAP7/////////");
    let empty: Vec<i64> = Vec::new();
    assert_eq!(compress(&empty), "AAAAAAAAAAA=");
}

// Malformed inputs are rejected rather than decoded.
#[test]
fn test_decompress_malformed() {
    assert!(decompress("not base64 !!!").is_none());
    // valid base64, but the binary body is truncated
    assert!(decompress("AgAAAAAAAAABAAAAAAAAAA==").is_none());
}

// Balanced-range invariant: after mod_coeffs every coefficient lies in
// (-m/2, m/2].
#[test]
fn test_mod_coeffs_balanced() {
    let p = Poly::new(vec![12288, -1, 6145, 6144, 12289, -12290]);
    let r = mod_coeffs(&p, 12289);
    assert_eq!(r.coeffs, vec![-1, -1, -6144, 6144, 0, -1]);
    for &c in r.coeffs.iter() {
        // the balanced range (-m/2, m/2] for odd m = 12289 is [-6144, 6144]
        assert!(-6145 < c && c <= 6144);
    }
}

// Negacyclic reduction: folding x^4+... by x^2+1 flips alternate blocks and
// the result has at most n coefficients.
#[test]
fn test_polyrem_fold() {
    let f = Poly::new(vec![1, 0, 1]);
    let x = Poly::new(vec![1, 2, 3, 4, 5]);
    let r = polyrem(&x, &f);
    assert_eq!(r.coeffs, vec![3, -2]);
    assert!(r.coeffs.len() <= 2);
    // shorter inputs pass through unchanged
    let short = Poly::new(vec![7, 8]);
    assert_eq!(polyrem(&short, &f).coeffs, vec![7, 8]);
}

// Keygen shape: default parameters, seed 0.
#[test]
fn test_keygen_shape() {
    let params = Parameters::default();
    let (pk, sk) = keygen(&params, Some(0));
    assert_eq!(pk[0].coeffs.len(), 1024);
    assert_eq!(pk[1].coeffs.len(), 1024);
    assert_eq!(sk.coeffs.len(), 1024);
    for &c in sk.coeffs.iter() {
        assert!(-1 <= c && c <= 1);
    }
}

// Round-trip in polynomial form: decrypt of encrypt returns the plaintext.
#[test]
fn test_poly_roundtrip() {
    let params = Parameters::default();
    let m = Poly::new(vec![1, 0, 1, 1, 0, 1]);
    let (pk, sk) = keygen(&params, None);
    let ct = encrypt(&pk, &m, &params, None);
    let decrypted = decrypt(&sk, &ct, &params);
    assert_eq!(decrypted, m);
}

// Empty message: the round trip returns the empty string.
#[test]
fn test_empty_message() {
    let params = Parameters::default();
    let keypair = keygen_string(&params, None);
    let message = String::from("");
    let ct = encrypt_string(&keypair.public_key, &message, &params, None).unwrap();
    let decrypted = decrypt_string(&keypair.secret_key, &ct, &params).unwrap();
    assert_eq!(decrypted, "");
}

// A message whose bit count is not a multiple of n still round-trips
// (trailing NUL bytes are trimmed).
#[test]
fn test_longer_message_roundtrip() {
    let params = Parameters::default();
    let keypair = keygen_string(&params, None);
    let message = String::from("The quick brown fox jumps over the lazy dog! 0123456789 and a tail that spills into a second block of one thousand twenty-four bits........");
    let ct = encrypt_string(&keypair.public_key, &message, &params, None).unwrap();
    let decrypted = decrypt_string(&keypair.secret_key, &ct, &params).unwrap();
    assert_eq!(decrypted, message);
}

// Each error variant: bad base64 and wrong dimensions are distinguished.
#[test]
fn test_string_errors() {
    let params = Parameters::default();
    let keypair = keygen_string(&params, None);
    let msg = String::from("hi");
    // malformed key
    let bad = String::from("@@@not-base64@@@");
    assert_eq!(
        encrypt_string(&bad, &msg, &params, None),
        Err(CryptoError::MalformedEncoding)
    );
    // a valid encoding of the wrong length
    let short_key = compress(&vec![1, 2, 3]);
    assert_eq!(
        encrypt_string(&short_key, &msg, &params, None),
        Err(CryptoError::DimensionMismatch)
    );
    // a key coefficient outside (-q, q)
    let huge_key = compress(&vec![i64::MAX; 2048]);
    assert_eq!(
        encrypt_string(&huge_key, &msg, &params, None),
        Err(CryptoError::MalformedEncoding)
    );
    // decrypt side
    assert_eq!(
        decrypt_string(&bad, &keypair.secret_key, &params),
        Err(CryptoError::MalformedEncoding)
    );
    assert_eq!(
        decrypt_string(&short_key, &keypair.secret_key, &params),
        Err(CryptoError::DimensionMismatch)
    );
    let ct = encrypt_string(&keypair.public_key, &msg, &params, None).unwrap();
    // ciphertext length not a multiple of 2n
    let odd_ct = compress(&vec![0; 2047]);
    assert_eq!(
        decrypt_string(&keypair.secret_key, &odd_ct, &params),
        Err(CryptoError::DimensionMismatch)
    );
    // and the well-formed pair still works
    assert_eq!(decrypt_string(&keypair.secret_key, &ct, &params).unwrap(), "hi");
}

// Nearest-integer rounding: half away from zero.
#[test]
fn test_nearest_int_values() {
    assert_eq!(nearest_int(7, 2), 4);
    assert_eq!(nearest_int(-7, 2), -4);
    assert_eq!(nearest_int(5, 3), 2);
    assert_eq!(nearest_int(-5, 3), -2);
    assert_eq!(nearest_int(6, 4), 2);
    assert_eq!(nearest_int(0, 5), 0);
    assert_eq!(nearest_int(12288, 12289), 1);
}

// The default parameters carry a working 2048-th root of unity: its
// 1024-th power is -1 and its 2048-th power is 1 modulo q.
#[test]
fn test_default_omega_order() {
    let params = Parameters::default();
    let q = params.q;
    let mut acc: i64 = 1;
    let mut half: i64 = 0;
    for i in 0..2048u32 {
        if i == 1024 {
            half = acc;
        }
        acc = acc * params.omega % q;
    }
    assert_eq!((half + q) % q, q - 1);
    assert_eq!((acc + q) % q, 1);
}

// Samplers give the requested length and range.
#[test]
fn test_samplers() {
    let b = gen_binary_poly(100, Some(7));
    assert_eq!(b.coeffs.len(), 100);
    assert!(b.coeffs.iter().all(|&c| c == 0 || c == 1));
    let t = gen_ternary_poly(100, Some(7));
    assert_eq!(t.coeffs.len(), 100);
    assert!(t.coeffs.iter().all(|&c| -1 <= c && c <= 1));
}

// Subtraction is addition of the additive inverse.
#[test]
fn test_polysub_polyinv() {
    let params = Parameters::default();
    let x = Poly::new(vec![5, -3, 2]);
    let y = Poly::new(vec![1, 1, 1]);
    let d = polysub(&x, &y, params.q, &params.f);
    assert_eq!(d.coeffs, vec![4, -4, 1]);
    let inv = polyinv(&y, params.q);
    assert_eq!(inv.coeffs, vec![-1, -1, -1]);
}

// Bit framing is MSB first: 'A' (0x41) becomes 0100 0001.
#[test]
fn test_bit_framing() {
    let bits = ring_lwe::bits::string_to_bits(&vec![0x41u8]);
    assert_eq!(bits, vec![0, 1, 0, 0, 0, 0, 0, 1]);
    let back = ring_lwe::bits::bits_to_string(&bits);
    assert_eq!(back, "A");
}

// The encoded public key really holds 2n coefficients and the secret key n.
#[test]
fn test_key_encoding_lengths() {
    let params = Parameters::default();
    let keypair = keygen_string(&params, Some(1));
    let pk = decompress(&keypair.public_key).unwrap();
    let sk = decompress(&keypair.secret_key).unwrap();
    assert_eq!(pk.len(), 2 * params.n);
    assert_eq!(sk.len(), params.n);
    assert!(sk.iter().all(|&c| -1 <= c && c <= 1));
}

// With a seed the samplers and keygen are deterministic: same seed, same
// output (each call reseeds a fresh generator).
#[test]
fn test_seeded_determinism() {
    let t1 = gen_ternary_poly(50, Some(42));
    let t2 = gen_ternary_poly(50, Some(42));
    assert_eq!(t1.coeffs, t2.coeffs);
    let b1 = gen_binary_poly(50, Some(9));
    let b2 = gen_binary_poly(50, Some(9));
    assert_eq!(b1.coeffs, b2.coeffs);
    let u1 = ring_lwe::sample::gen_uniform_poly(50, 12289, Some(42));
    let u2 = ring_lwe::sample::gen_uniform_poly(50, 12289, Some(42));
    assert_eq!(u1.coeffs, u2.coeffs);
    let params = Parameters::default();
    let (pk1, sk1) = keygen(&params, Some(5));
    let (pk2, sk2) = keygen(&params, Some(5));
    assert_eq!(sk1.coeffs, sk2.coeffs);
    assert_eq!(pk1[0].coeffs, pk2[0].coeffs);
    assert_eq!(pk1[1].coeffs, pk2[1].coeffs);
    // the secret and the error polynomials share the seed's stream, as does
    // any fresh ternary draw from the same seed
    let sk_again = gen_ternary_poly(params.n, Some(5));
    assert_eq!(sk1.coeffs, sk_again.coeffs);
}
