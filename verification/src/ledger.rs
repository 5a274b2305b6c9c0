//! The record shapes that the stateless-ledger caller accumulates:
//! UTXO-like coins and one-input/one-output transactions, with their
//! explicit fixed-width little-endian encodings. The encoding of a coin
//! is what `hash_to_prime` consumes to derive the coin's prime member.

use vstd::prelude::*;
use crate::engine::{le_bytes_of, le_encode};

verus! {

/// A single coin: an owner key and a sequence id. Closer to an NFT than
/// to a value-bearing output.
#[derive(Clone, Copy, Debug)]
pub struct UTXO {
    pub pub_key: [u8; 32],
    pub id: u64,
}

/// The byte encoding of a coin: the raw owner key followed by the id in
/// little-endian.
pub open spec fn utxo_bytes(u: UTXO) -> Seq<u8> {
    u.pub_key@ + le_bytes_of(u.id as nat, 8)
}

impl UTXO {
    /// Encodes the coin for hashing: 32 key bytes, then 8 id bytes.
    pub fn encode(&self) -> (out: Vec<u8>)
        ensures
            out@ == utxo_bytes(*self),
    {
        let mut out: Vec<u8> = Vec::new();
        let mut i: usize = 0;
        while i < 32
            invariant
                i <= 32,
                out@ == self.pub_key@.subrange(0, i as int),
            decreases 32 - i,
        {
            out.push(self.pub_key[i]);
            proof {
                assert(self.pub_key@.subrange(0, i + 1) =~= self.pub_key@.subrange(
                    0,
                    i as int,
                ).push(self.pub_key@[i as int]));
            }
            i = i + 1;
        }
        proof {
            assert(self.pub_key@.subrange(0, 32) =~= self.pub_key@);
        }
        let mut tail = le_encode(self.id as u128, 8);
        proof {
            assert(le_bytes_of(self.id as u128 as nat, 8) == le_bytes_of(self.id as nat, 8));
        }
        out.append(&mut tail);
        out
    }
}

/// A primitive transaction: one input coin, one output coin, and the
/// little-endian-encoded membership witness for the input. A deployment
/// would also carry a signature.
#[derive(Debug)]
pub struct Transaction {
    pub input: UTXO,
    pub output: UTXO,
    pub witness: Vec<u8>,
}

} // verus!
