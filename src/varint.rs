//! Little-endian base-128 integers: seven bits per byte, high bit set on every
//! byte but the last.
use vstd::prelude::*;

verus! {

/// The bytes that encode `n`: the low seven bits first, each byte but the last
/// carrying the continuation bit.
pub open spec fn encoding(n: nat) -> Seq<u8>
    decreases n,
{
    if n < 128 {
        seq![n as u8]
    } else {
        seq![(n % 128 + 128) as u8] + encoding(n / 128)
    }
}

/// Reads one integer from the front of `b`: its value and the number of bytes
/// it took, or `None` where `b` ends before a byte without the continuation bit.
pub open spec fn decoded(b: Seq<u8>) -> Option<(nat, nat)>
    decreases b.len(),
{
    if b.len() == 0 {
        None
    } else if b[0] < 128 {
        Some((b[0] as nat, 1))
    } else {
        match decoded(b.drop_first()) {
            Some((v, k)) => Some(((b[0] - 128) as nat + 128 * v, k + 1)),
            None => None,
        }
    }
}

/// Reading an encoded integer back gives the integer and the encoding's length,
/// whatever bytes follow it.
pub proof fn lemma_decode_encoding(n: nat, rest: Seq<u8>)
    ensures
        decoded(encoding(n) + rest) == Some((n, encoding(n).len())),
    decreases n,
{
    let b = encoding(n) + rest;
    if n < 128 {
        assert(b[0] == n as u8);
    } else {
        let q = n / 128;
        assert(b[0] == (n % 128 + 128) as u8);
        assert(b.drop_first() =~= encoding(q) + rest);
        lemma_decode_encoding(q, rest);
    }
}

/// Appends the encoding of `n` to `v`.
pub fn encode_to_vec(value: u128, v: &mut Vec<u8>)
    ensures
        final(v)@ == old(v)@ + encoding(value as nat),
{
    let mut n: u128 = value;
    while n >= 128
        invariant
            v@ + encoding(n as nat) == old(v)@ + encoding(value as nat),
        decreases n,
    {
        let byte = (n % 128 + 128) as u8;
        proof {
            assert(encoding(n as nat) == seq![byte] + encoding((n / 128) as nat));
            assert(v@.push(byte) + encoding((n / 128) as nat) =~= v@ + encoding(n as nat));
        }
        v.push(byte);
        n = n / 128;
    }
    proof {
        assert(encoding(n as nat) == seq![n as u8]);
    }
    v.push(n as u8);
    proof {
        assert(v@ =~= old(v)@ + encoding(value as nat));
    }
}

} // verus!
