//! The hash values of the tree.

use vstd::prelude::*;
use vstd::string::*;
use sha2::{Digest, Sha256};
use crate::wire::put;

verus! {

/// The number of bytes of a hash value.
pub const HASH_SIZE: usize = 32;

/// The SHA-256 digest of `data`.
pub uninterp spec fn sha256(data: Seq<u8>) -> Seq<u8>;

/// `sha2::Sha256::digest`: the SHA-256 digest of `data`, 32 bytes that depend
/// on the data alone.
#[verifier::external_body]
fn sha256_digest(data: &[u8]) -> (r: [u8; HASH_SIZE])
    ensures
        r@ == sha256(data@),
{
    Sha256::digest(data).into()
}

/// The hash value of `data`: its SHA-256 digest.
pub open spec fn digest(data: Seq<u8>) -> Seq<u8> {
    if sha256(data).len() == HASH_SIZE {
        sha256(data)
    } else {
        Seq::new(HASH_SIZE as nat, |k: int| 0u8)
    }
}

/// The hash value of the node whose children have the hash values `left` and
/// `right`.
pub open spec fn spec_combine(left: Seq<u8>, right: Seq<u8>) -> Seq<u8> {
    digest(left + right)
}

/// The upper-case hexadecimal digit of `n`, for `n < 16`.
pub open spec fn hex_digit(n: u8) -> char {
    if n == 0 {
        '0'
    } else if n == 1 {
        '1'
    } else if n == 2 {
        '2'
    } else if n == 3 {
        '3'
    } else if n == 4 {
        '4'
    } else if n == 5 {
        '5'
    } else if n == 6 {
        '6'
    } else if n == 7 {
        '7'
    } else if n == 8 {
        '8'
    } else if n == 9 {
        '9'
    } else if n == 10 {
        'A'
    } else if n == 11 {
        'B'
    } else if n == 12 {
        'C'
    } else if n == 13 {
        'D'
    } else if n == 14 {
        'E'
    } else {
        'F'
    }
}

/// The bytes `value` in hexadecimal: two upper-case digits for each byte,
/// the high half first.
pub open spec fn spec_hex(value: Seq<u8>) -> Seq<char> {
    Seq::new(
        2 * value.len(),
        |k: int|
            if k % 2 == 0 {
                hex_digit(value[k / 2] / 16)
            } else {
                hex_digit(value[k / 2] % 16)
            },
    )
}

fn hex_str(n: u8) -> (r: &'static str)
    requires
        n < 16,
    ensures
        r@ == seq![hex_digit(n)],
{
    proof {
        reveal_strlit("0");
        reveal_strlit("1");
        reveal_strlit("2");
        reveal_strlit("3");
        reveal_strlit("4");
        reveal_strlit("5");
        reveal_strlit("6");
        reveal_strlit("7");
        reveal_strlit("8");
        reveal_strlit("9");
        reveal_strlit("A");
        reveal_strlit("B");
        reveal_strlit("C");
        reveal_strlit("D");
        reveal_strlit("E");
        reveal_strlit("F");
    }
    let r = if n == 0 {
        "0"
    } else if n == 1 {
        "1"
    } else if n == 2 {
        "2"
    } else if n == 3 {
        "3"
    } else if n == 4 {
        "4"
    } else if n == 5 {
        "5"
    } else if n == 6 {
        "6"
    } else if n == 7 {
        "7"
    } else if n == 8 {
        "8"
    } else if n == 9 {
        "9"
    } else if n == 10 {
        "A"
    } else if n == 11 {
        "B"
    } else if n == 12 {
        "C"
    } else if n == 13 {
        "D"
    } else if n == 14 {
        "E"
    } else {
        "F"
    };
    assert(r@ =~= seq![hex_digit(n)]);
    r
}

/// The bytes `value` in hexadecimal.
pub fn hex(value: &[u8]) -> (r: String)
    ensures
        r@ == spec_hex(value@),
{
    let mut out = String::new();
    let mut k: usize = 0;
    while k < value.len()
        invariant
            k <= value@.len(),
            out@ == spec_hex(value@.subrange(0, k as int)),
        decreases value@.len() - k,
    {
        let b: u8 = value[k];
        out.append(hex_str(b / 16));
        out.append(hex_str(b % 16));
        k = k + 1;
        proof {
            assert(out@ =~= spec_hex(value@.subrange(0, k as int)));
        }
    }
    proof {
        assert(value@.subrange(0, k as int) =~= value@);
    }
    out
}

/// A hash value.
#[derive(PartialEq, Eq, Copy, Clone, Debug)]
pub struct Hash {
    pub value: [u8; HASH_SIZE],
}

impl View for Hash {
    type V = Seq<u8>;

    open spec fn view(&self) -> Seq<u8> {
        self.value@
    }
}

impl Hash {
    pub fn new(hash: [u8; HASH_SIZE]) -> (r: Hash)
        ensures
            r.value == hash,
    {
        Hash { value: hash }
    }

    /// The hash value of `value`.
    pub fn hash(value: &[u8]) -> (r: Hash)
        ensures
            r@ == digest(value@),
    {
        Hash { value: sha256_digest(value) }
    }

    /// The hash value of this value followed by `other`: that of the node
    /// whose left child has this hash value and whose right child has `other`.
    pub fn combine(&self, other: &Hash) -> (r: Hash)
        ensures
            r@ == spec_combine(self@, other@),
    {
        let mut value: Vec<u8> = Vec::with_capacity(HASH_SIZE * 2);
        put(&mut value, self.value.as_slice());
        put(&mut value, other.value.as_slice());
        Hash::hash(value.as_slice())
    }

    /// This hash value in upper-case hexadecimal.
    pub fn to_str(&self) -> (r: String)
        ensures
            r@ == spec_hex(self@),
    {
        hex(self.value.as_slice())
    }
}

} // verus!
