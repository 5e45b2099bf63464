use vstd::prelude::*;

use crate::KEY_LEN;
use sha2::Digest;

verus! {

/// What SHA-256 returns for a given character sequence, hashed as UTF-8
/// bytes; the digest is a function of the input alone.
pub uninterp spec fn sha256_of(input: Seq<char>) -> Seq<u8>;

/// A 256-bit identifier: the SHA-256 digest of a UTF-8 string.
#[derive(Debug)]
pub struct Key(pub Vec<u8>);

/// The byte-wise XOR of two identifiers, compared as a big-endian unsigned
/// number.
#[derive(Debug)]
pub struct Distance(pub Vec<u8>);

impl View for Key {
    type V = Seq<u8>;

    open spec fn view(&self) -> Seq<u8> {
        self.0@
    }
}

impl View for Distance {
    type V = Seq<u8>;

    open spec fn view(&self) -> Seq<u8> {
        self.0@
    }
}

/// Relies on sha2::Sha256: a 32-byte digest determined by the input bytes
/// alone.
#[verifier::external_body]
fn sha256_digest(input: &String) -> (r: Vec<u8>)
    ensures
        r@ == sha256_of(input@),
        r@.len() == KEY_LEN,
{
    sha2::Sha256::digest(input.as_bytes()).to_vec()
}

pub fn eq_bytes(a: &Vec<u8>, b: &Vec<u8>) -> (r: bool)
    ensures
        r == (a@ == b@),
{
    if a.len() != b.len() {
        return false;
    }
    let mut i: usize = 0;
    while i < a.len()
        invariant
            i <= a@.len(),
            a@.len() == b@.len(),
            forall|j: int| 0 <= j < i ==> a@[j] == b@[j],
        decreases a@.len() - i,
    {
        if a[i] != b[i] {
            return false;
        }
        i = i + 1;
    }
    proof {
        assert(a@ =~= b@);
    }
    true
}

pub fn clone_bytes(v: &Vec<u8>) -> (r: Vec<u8>)
    ensures
        r@ == v@,
{
    let mut r: Vec<u8> = Vec::new();
    let mut i: usize = 0;
    while i < v.len()
        invariant
            i <= v.len(),
            r@ == v@.take(i as int),
        decreases v.len() - i,
    {
        r.push(v[i]);
        i = i + 1;
        proof {
            assert(r@ =~= v@.take(i as int));
        }
    }
    proof {
        assert(r@ =~= v@);
    }
    r
}

impl Key {
    pub open spec fn wf(&self) -> bool {
        self@.len() == KEY_LEN
    }

    pub fn new(input: String) -> (r: Self)
        ensures
            r@ == sha256_of(input@),
            r.wf(),
    {
        Key(sha256_digest(&input))
    }
}

impl Clone for Key {
    fn clone(&self) -> (r: Self)
        ensures
            r@ == self@,
    {
        Key(clone_bytes(&self.0))
    }
}

/// The byte-wise XOR of two equally long byte sequences.
pub open spec fn xor_bytes(a: Seq<u8>, b: Seq<u8>) -> Seq<u8> {
    Seq::new(a.len(), |i: int| a[i] ^ b[i])
}

impl Distance {
    pub open spec fn wf(&self) -> bool {
        self@.len() == KEY_LEN
    }

    pub fn new(k1: &Key, k2: &Key) -> (r: Distance)
        requires
            k1.wf(),
            k2.wf(),
        ensures
            r@ == xor_bytes(k1@, k2@),
            r.wf(),
    {
        let mut ret: Vec<u8> = Vec::new();
        let mut i: usize = 0;
        while i < KEY_LEN
            invariant
                i <= KEY_LEN,
                k1.wf(),
                k2.wf(),
                ret@.len() == i,
                forall|j: int| 0 <= j < i ==> ret@[j] == (k1@[j] ^ k2@[j]),
            decreases KEY_LEN - i,
        {
            ret.push(k1.0[i] ^ k2.0[i]);
            i = i + 1;
        }
        proof {
            assert(ret@ =~= xor_bytes(k1@, k2@));
        }
        Distance(ret)
    }
}

impl Clone for Distance {
    fn clone(&self) -> (r: Self)
        ensures
            r@ == self@,
    {
        Distance(clone_bytes(&self.0))
    }
}

} // verus!
