//! Virtual-node identifiers.
//!
//! Replica number `i` of the node named `name` owns the ring position at the
//! digest of the byte string `"{name}:{i}"`. This module builds that byte
//! string and specifies it exactly, so that insertion and removal provably
//! recompute the same positions.

use vstd::prelude::*;

verus! {

/// The decimal digits of `n`, most significant first, with no sign and no
/// leading zeros (`0` is written as the single digit `0`).
pub open spec fn dec_digits(n: nat) -> Seq<u8>
    decreases n,
{
    if n < 10 {
        seq![(48 + n) as u8]
    } else {
        dec_digits(n / 10) + seq![(48 + n % 10) as u8]
    }
}

/// The identifier of replica `replica` of the node named `name`: the UTF-8
/// bytes of the name, a colon, and the replica number in decimal.
pub open spec fn ident_bytes(name: Seq<char>, replica: nat) -> Seq<u8> {
    vstd::utf8::encode_utf8(name) + seq![58u8] + dec_digits(replica)
}

/// Append the decimal digits of `n` to `out`.
fn push_dec(out: &mut Vec<u8>, n: usize)
    ensures
        final(out)@ == old(out)@ + dec_digits(n as nat),
    decreases n,
{
    if n < 10 {
        out.push((48 + n) as u8);
        assert(out@ =~= old(out)@ + dec_digits(n as nat));
    } else {
        proof {
            assert(n / 10 < n && n % 10 < 10) by (nonlinear_arith)
                requires
                    n >= 10,
            ;
        }
        push_dec(out, n / 10);
        out.push((48 + n % 10) as u8);
        assert(out@ =~= old(out)@ + dec_digits(n as nat));
    }
}

/// Build the identifier bytes of replica `replica` of the node named `name`.
pub fn replica_ident(name: &str, replica: usize) -> (r: Vec<u8>)
    ensures
        r@ == ident_bytes(name@, replica as nat),
{
    let bytes = name.as_bytes();
    let mut out: Vec<u8> = vstd::slice::slice_to_vec(bytes);
    out.push(58u8);
    push_dec(&mut out, replica);
    proof {
        assert(out@ =~= ident_bytes(name@, replica as nat));
    }
    out
}

} // verus!
