//! The bit-level framing of the string interface: a message's bytes become
//! an MSB-first bitstream, the bitstream is chunked into plaintext blocks,
//! and decrypted blocks are read back as 8-bit characters.
use crate::arith::padded;
use vstd::prelude::*;

verus! {

/// `2^k`.
pub open spec fn p2(k: nat) -> int
    decreases k,
{
    if k == 0 {
        1
    } else {
        2 * p2((k - 1) as nat)
    }
}

/// Bit `j` of a byte value, most significant first.
pub open spec fn bit_at(b: int, j: int) -> int {
    (b / p2((7 - j) as nat)) % 2
}

/// The MSB-first bitstream of a byte string.
pub open spec fn msg_bits(bytes: Seq<u8>) -> Seq<int> {
    Seq::new(bytes.len() * 8, |i: int| bit_at(bytes[i / 8] as int, i % 8))
}

/// The byte given by eight bits starting at `base`, most significant first.
pub open spec fn byte_from(bits: Seq<int>, base: int) -> int {
    padded(bits, base) * 128 + padded(bits, base + 1) * 64 + padded(bits, base + 2) * 32 + padded(
        bits,
        base + 3,
    ) * 16 + padded(bits, base + 4) * 8 + padded(bits, base + 5) * 4 + padded(bits, base + 6) * 2
        + padded(bits, base + 7)
}

/// The characters (code points 0 through 255) read from a bitstream in
/// groups of eight, most significant bit first.
pub open spec fn bits_to_chars(bits: Seq<int>) -> Seq<char> {
    Seq::new((bits.len() / 8) as nat, |k: int| (byte_from(bits, 8 * k) as u8) as char)
}

/// The string with its trailing NUL characters removed.
pub open spec fn trim_nuls(s: Seq<char>) -> Seq<char>
    decreases s.len(),
{
    if s.len() > 0 && s.last() == '\0' {
        trim_nuls(s.drop_last())
    } else {
        s
    }
}

/// Split a message's bytes into bits, most significant bit of each byte
/// first.
pub fn string_to_bits(bytes: &Vec<u8>) -> (r: Vec<i64>)
    requires
        bytes@.len() <= usize::MAX as int / 8,
    ensures
        r@.len() == bytes@.len() * 8,
        forall|i: int| 0 <= i < r@.len() ==> r@[i] as int == msg_bits(bytes@)[i],
        forall|i: int| 0 <= i < r@.len() ==> 0 <= #[trigger] r@[i] <= 1,
{
    let len = bytes.len();
    proof {
        assert(p2(7nat) == 128) by {
            reveal_with_fuel(p2, 9);
        }
    }
    let mut out: Vec<i64> = Vec::new();
    let mut i: usize = 0;
    while i < len
        invariant
            len == bytes@.len(),
            len * 8 <= usize::MAX,
            0 <= i <= len,
            out@.len() == i * 8,
            forall|k: int| 0 <= k < out@.len() ==> out@[k] as int == msg_bits(bytes@)[k],
            forall|k: int| 0 <= k < out@.len() ==> 0 <= #[trigger] out@[k] <= 1,
        decreases len - i,
    {
        let b = bytes[i];
        let mut j: usize = 0;
        let mut pow: u8 = 128;
        proof {
            assert(p2(7nat) == 128) by {
                reveal_with_fuel(p2, 9);
            }
        }
        while j < 8
            invariant
                len == bytes@.len(),
                0 <= i < len,
                b == bytes@[i as int],
                0 <= j <= 8,
                out@.len() == i * 8 + j,
                1 <= pow,
                j < 8 ==> pow as int == p2((7 - j) as nat),
                forall|k: int| 0 <= k < out@.len() ==> out@[k] as int == msg_bits(bytes@)[k],
                forall|k: int| 0 <= k < out@.len() ==> 0 <= #[trigger] out@[k] <= 1,
            decreases 8 - j,
        {
            let bit = ((b / pow) % 2) as i64;
            proof {
                assert(msg_bits(bytes@)[i * 8 + j] == bit_at(bytes@[i as int] as int, (i * 8 + j)
                    % 8)) by {
                    assert((i * 8 + j) / 8 == i as int && (i * 8 + j) % 8 == j as int) by (nonlinear_arith)
                        requires
                            0 <= j < 8,
                            0 <= i,
                    ;
                }
                assert(bit as int == bit_at(b as int, j as int));
            }
            out.push(bit);
            if j < 7 {
                proof {
                    assert(p2((7 - j) as nat) == 2 * p2((6 - j) as nat));
                }
                pow = pow / 2;
            }
            j += 1;
        }
        i += 1;
    }
    out
}

/// Relies on `String::push`: appends one character.
#[verifier::external_body]
fn push_char(s: &mut String, c: char)
    ensures
        final(s)@ == old(s)@.push(c),
{
    s.push(c);
}

/// Read a bitstream whose length is a multiple of eight as MSB-first bytes,
/// take each byte as a character, and trim trailing NUL characters.
pub fn bits_to_string(bits: &Vec<i64>) -> (r: String)
    requires
        bits@.len() % 8 == 0,
        forall|i: int| 0 <= i < bits@.len() ==> 0 <= #[trigger] bits@[i] <= 1,
    ensures
        r@ == trim_nuls(bits_to_chars(crate::nttmul::ints(bits@))),
{
    let ghost bi = crate::nttmul::ints(bits@);
    let nbytes = bits.len() / 8;
    proof {
        assert(8 * (nbytes as int) == bits@.len()) by (nonlinear_arith)
            requires
                nbytes as int == bits@.len() as int / 8,
                bits@.len() as int % 8 == 0,
                0 <= bits@.len(),
        ;
    }
    let mut chars: Vec<char> = Vec::new();
    let mut k: usize = 0;
    while k < nbytes
        invariant
            bits@.len() % 8 == 0,
            forall|i: int| 0 <= i < bits@.len() ==> 0 <= #[trigger] bits@[i] <= 1,
            bi == crate::nttmul::ints(bits@),
            nbytes == bits@.len() / 8,
            8 * (nbytes as int) == bits@.len(),
            bits@.len() <= usize::MAX,
            0 <= k <= nbytes,
            chars@.len() == k,
            forall|m: int| 0 <= m < k ==> chars@[m] == bits_to_chars(bi)[m],
        decreases nbytes - k,
    {
        proof {
            assert(8 * (k as int) + 8 <= 8 * (nbytes as int));
        }
        let base = 8 * k;
        let b0 = bits[base];
        let b1 = bits[base + 1];
        let b2 = bits[base + 2];
        let b3 = bits[base + 3];
        let b4 = bits[base + 4];
        let b5 = bits[base + 5];
        let b6 = bits[base + 6];
        let b7 = bits[base + 7];
        let v = b0 * 128 + b1 * 64 + b2 * 32 + b3 * 16 + b4 * 8 + b5 * 4 + b6 * 2 + b7;
        let byte = v as u8;
        let c = byte as char;
        proof {
            assert(v as int == byte_from(bi, 8 * (k as int)));
            assert(0 <= v <= 255);
            assert(c == bits_to_chars(bi)[k as int]);
        }
        chars.push(c);
        k += 1;
    }
    proof {
        assert(chars@ =~= bits_to_chars(bi));
    }
    while chars.len() > 0 && chars[chars.len() - 1] == '\0'
        invariant
            trim_nuls(chars@) == trim_nuls(bits_to_chars(bi)),
        decreases chars@.len(),
    {
        proof {
            assert(chars@.last() == '\0');
            assert(trim_nuls(chars@) == trim_nuls(chars@.drop_last()));
        }
        chars.pop();
        proof {
            assert(chars@ =~= chars@);
        }
    }
    proof {
        assert(trim_nuls(chars@) == chars@);
    }
    let mut s = String::new();
    let mut m: usize = 0;
    while m < chars.len()
        invariant
            0 <= m <= chars@.len(),
            s@ == chars@.subrange(0, m as int),
        decreases chars@.len() - m,
    {
        push_char(&mut s, chars[m]);
        m += 1;
        proof {
            assert(s@ =~= chars@.subrange(0, m as int));
        }
    }
    proof {
        assert(s@ =~= chars@);
    }
    s
}

} // verus!
