//! Value types of the mesh topology and the arithmetic of address blocks.

use vstd::arithmetic::power2::{
    lemma2_to64, lemma_pow2_pos, lemma_pow2_strictly_increases, lemma_pow2_unfold, pow2,
};
use vstd::prelude::*;

verus! {

/// Why a topology handed to the library was refused.
#[derive(Clone, Copy, Debug, PartialEq, Eq, Structural)]
pub enum ValidationError {
    /// A block has a prefix length above 32.
    InvalidPrefix,
    /// Two blocks overlap without one strictly containing the other
    /// (equal ranges included).
    PartialOverlap,
    /// Two peers of one list carry the same public key.
    DuplicateKey,
    /// Two enabled peers carry the same address.
    DuplicateAddress,
    /// An association joins a block to itself.
    SelfAssociation,
    /// An association between the two blocks exists already.
    DuplicateAssociation,
}

/// A named IPv4 address block: an address and a prefix length.
#[derive(Clone, Debug)]
pub struct Cidr {
    pub id: i64,
    pub name: String,
    pub addr: u32,
    pub prefix_len: u8,
}

/// Number of addresses in a block with the given prefix length.
pub open spec fn block_size(prefix_len: u8) -> nat {
    pow2((32 - prefix_len) as nat)
}

impl Cidr {
    pub open spec fn valid(&self) -> bool {
        self.prefix_len <= 32
    }

    /// First address of the range, as an integer.
    pub open spec fn first(&self) -> int {
        (self.addr as int / block_size(self.prefix_len) as int) * block_size(self.prefix_len)
    }

    /// One past the last address of the range.
    pub open spec fn end(&self) -> int {
        self.first() + block_size(self.prefix_len)
    }

    pub open spec fn contains_range(&self, other: &Cidr) -> bool {
        self.first() <= other.first() && other.end() <= self.end()
    }

    /// `other`'s range lies inside this one and is not the same range.
    pub open spec fn strictly_contains(&self, other: &Cidr) -> bool {
        self.contains_range(other) && !(self.first() == other.first() && self.end()
            == other.end())
    }

    pub open spec fn disjoint(&self, other: &Cidr) -> bool {
        self.end() <= other.first() || other.end() <= self.first()
    }

    /// The range `[first, end)` of the block.
    pub fn range(&self) -> (r: (u64, u64))
        requires
            self.valid(),
        ensures
            r.0 == self.first(),
            r.1 == self.end(),
    {
        let size = size_of_block(self.prefix_len);
        let a = self.addr as u64;
        proof {
            lemma_pow2_pos((32 - self.prefix_len) as nat);
            assert((a as int / size as int) * size as int <= a as int) by (nonlinear_arith)
                requires size > 0, a >= 0;
            assert((a as int / size as int) * size as int >= 0) by (nonlinear_arith)
                requires size > 0, a >= 0;
        }
        let first = (a / size) * size;
        (first, first + size)
    }
}

fn size_of_block(prefix_len: u8) -> (r: u64)
    requires
        prefix_len <= 32,
    ensures
        r == block_size(prefix_len),
        0 < r <= 0x1_0000_0000,
{
    let k: u8 = 32 - prefix_len;
    let mut s: u64 = 1;
    let mut n: u8 = 0;
    proof {
        lemma2_to64();
    }
    while n < k
        invariant
            n <= k <= 32,
            s == pow2(n as nat),
            pow2(32) == 0x1_0000_0000,
        decreases k - n,
    {
        proof {
            lemma_pow2_unfold((n + 1) as nat);
            if n + 1 < 32 {
                lemma_pow2_strictly_increases((n + 1) as nat, 32);
            }
        }
        s = s * 2;
        n = n + 1;
    }
    proof {
        lemma_pow2_pos(n as nat);
        if n < 32 {
            lemma_pow2_strictly_increases(n as nat, 32);
        }
    }
    s
}

} // verus!
