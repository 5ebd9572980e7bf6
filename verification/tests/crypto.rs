use ring_lwe::arith::{mod_coeffs, nearest_int, polyadd, polymul, Poly};
use ring_lwe::decrypt::{decrypt, decrypt_string};
use ring_lwe::encrypt::{encrypt, encrypt_string};
use ring_lwe::keygen::{keygen, keygen_string};
use ring_lwe::nttmul::polymul_fast;
use ring_lwe::params::Parameters;
use ring_lwe::sample::gen_uniform_poly;
use ntt::omega;

// Test for basic keygen/encrypt/decrypt of a message
#[test]
pub fn test_basic() {
    let seed = None; //set the random seed
    let message = String::from("hello");
    let params = Parameters::default();
    let keypair = keygen_string(&params, seed);
    let pk_string = &keypair.public_key;
    let sk_string = &keypair.secret_key;
    let ciphertext_string = encrypt_string(pk_string, &message, &params, seed).unwrap();
    let decrypted_message = decrypt_string(sk_string, &ciphertext_string, &params).unwrap();
    assert_eq!(
        message, decrypted_message,
        "test failed: {} != {}",
        message, decrypted_message
    );
}

// Test homomorphic addition property: ensure sum of encrypted plaintexts decrypts to plaintext sum
#[test]
pub fn test_hom_add() {
    let seed = None; //set the random seed
    let params = Parameters::default();
    let (t, f) = (params.t, params.f.clone());

    // Create polynomials from ints
    let m0_poly = Poly::new(vec![1, 0, 1]);
    let m1_poly = Poly::new(vec![0, 0, 1]);

    let plaintext_sum = polyadd(&m0_poly, &m1_poly, t, &f);
    let (pk, sk) = keygen(&params, seed);

    // Encrypt plaintext messages
    let u = encrypt(&pk, &m0_poly, &params, seed);
    let v = encrypt(&pk, &m1_poly, &params, seed);

    // Compute sum of encrypted data (componentwise, no balancing)
    let ciphertext_sum = [
        polyadd(&u[0], &v[0], 0, &f),
        polyadd(&u[1], &v[1], 0, &f),
    ];

    // Decrypt ciphertext sum u+v
    let decrypted_sum = decrypt(&sk, &ciphertext_sum, &params);

    assert_eq!(
        decrypted_sum, plaintext_sum,
        "test failed: {} != {}",
        format!("{:?}", decrypted_sum),
        format!("{:?}", plaintext_sum)
    );
}

// Test homomorphic multiplication property: product of encrypted plaintexts should decrypt to plaintext product
#[test]
pub fn test_hom_prod() {
    let seed = None; //set the random seed
    let mut params = Parameters::default();
    let (q, t) = (params.q, params.t);
    params.q = q * q;
    params.omega = omega(params.q, 2 * params.n);
    let f = params.f.clone();

    //create polynomials from ints
    let m0_poly = Poly::new(vec![1, 0, 1]);
    let m1_poly = Poly::new(vec![0, 0, 1]);

    // Generate the keypair
    let (pk, sk) = keygen(&params, seed);

    // Encrypt plaintext messages
    let u = encrypt(&pk, &m0_poly, &params, seed);
    let v = encrypt(&pk, &m1_poly, &params, seed);

    let plaintext_prod = polymul(&m0_poly, &m1_poly, t, &f);
    //compute product of encrypted data, using non-standard multiplication
    let c0 = polymul(&u[0], &v[0], params.q, &f);
    let u0v1 = polymul(&u[0], &v[1], params.q, &f);
    let u1v0 = polymul(&u[1], &v[0], params.q, &f);
    let c1 = polyadd(&u0v1, &u1v0, params.q, &f);
    let c2 = polymul(&u[1], &v[1], params.q, &f);
    //compute c0 + c1*s + c2*s*s
    let c1_sk = polymul(&c1, &sk, params.q, &f);
    let c2_sk_squared = polymul(&polymul(&c2, &sk, params.q, &f), &sk, params.q, &f);
    let ciphertext_prod = polyadd(&polyadd(&c0, &c1_sk, params.q, &f), &c2_sk_squared, params.q, &f);
    //let delta = q / t, divide coeffs by 1 / delta^2
    let delta = q / t;
    let decrypted_prod = mod_coeffs(
        &Poly::new(
            ciphertext_prod
                .coeffs
                .iter()
                .map(|&coeff| nearest_int(coeff, delta * delta))
                .collect::<Vec<_>>(),
        ),
        t,
    );

    assert_eq!(
        plaintext_prod, decrypted_prod,
        "test failed: {} != {}",
        format!("{:?}", plaintext_prod),
        format!("{:?}", decrypted_prod)
    );
}

// Test fast polynomial multiplcation using NTT for small example polynomials
#[test]
pub fn test_polymul_fast() {
    let p: i64 = 17; // Prime modulus
    let n: usize = 8; // Length of the NTT (must be a power of 2)
    let omega = omega(p, n); // n-th root of unity
    let params = Parameters::default();

    // Input polynomials (padded to length `n`)
    let a = Poly::new(vec![1, 2, 3, 4]);
    let b = Poly::new(vec![5, 6, 7, 8]);

    let c_std = polymul(&a, &b, p, &params.f);
    let c_fast = polymul_fast(&a, &b, p, &params.f, omega);

    assert_eq!(
        c_std, c_fast,
        "test failed: {} != {}",
        format!("{:?}", c_std),
        format!("{:?}", c_fast)
    );
}

// Test fast polynomial multiplication with the NTT for uniformly random polynomials degree n
#[test]
pub fn test_polymul_fast_uniform() {
    let seed = None; //set the random seed
    let params = Parameters::default();

    // Input polynomials (padded to length `n`)
    let a = gen_uniform_poly(params.n, params.q, seed);
    let b = gen_uniform_poly(params.n, params.q, seed);

    let c_std = polymul(&a, &b, params.q, &params.f);
    let c_fast = polymul_fast(&a, &b, params.q, &params.f, params.omega);

    assert_eq!(
        c_std, c_fast,
        "test failed: {} != {}",
        format!("{:?}", c_std),
        format!("{:?}", c_fast)
    );
}
