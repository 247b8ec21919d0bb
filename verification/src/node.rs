use vstd::prelude::*;
use crate::order::lex_lt;

verus! {

/// One child pointer of an internal node: the nibble it sits under, the
/// version of the child's key, and the child's hash.
pub struct Child {
    pub nibble: u8,
    pub version: u64,
    pub hash: Vec<u8>,
}

/// A physical tree node: an internal node carries its hash and one pointer
/// per populated nibble; a leaf carries the hashed account key it stands for,
/// its own hash, and the account's opaque serialized state.
pub enum Node {
    Internal { hash: Vec<u8>, children: Vec<Child> },
    Leaf { account_key: Vec<u8>, hash: Vec<u8>, blob: Vec<u8> },
}

impl Node {
    pub open spec fn is_leaf(&self) -> bool {
        match self {
            Node::Leaf { .. } => true,
            Node::Internal { .. } => false,
        }
    }

    pub open spec fn spec_account_key(&self) -> Seq<u8> {
        match self {
            Node::Leaf { account_key, .. } => account_key@,
            Node::Internal { .. } => Seq::empty(),
        }
    }

    pub open spec fn spec_hash(&self) -> Seq<u8> {
        match self {
            Node::Leaf { hash, .. } => hash@,
            Node::Internal { hash, .. } => hash@,
        }
    }

    /// Hashes are 32 bytes, account keys are 32 bytes, and child pointers
    /// sit under 4-bit nibbles.
    pub open spec fn wf(&self) -> bool {
        match self {
            Node::Internal { hash, children } => hash@.len() == 32 && forall|i: int|
                0 <= i < children@.len() ==> (#[trigger] children@[i]).nibble < 16,
            Node::Leaf { account_key, hash, blob: _ } => account_key@.len() == 32 && hash@.len()
                == 32,
        }
    }

    pub fn is_leaf_node(&self) -> (r: bool)
        ensures
            r == self.is_leaf(),
    {
        match self {
            Node::Leaf { .. } => true,
            Node::Internal { .. } => false,
        }
    }

    pub fn account_key(&self) -> (r: &Vec<u8>)
        requires
            self.is_leaf(),
        ensures
            r@ == self.spec_account_key(),
    {
        match self {
            Node::Leaf { account_key, .. } => account_key,
            Node::Internal { hash, .. } => {
                proof {
                    assert(false);
                }
                hash
            },
        }
    }

    pub fn hash(&self) -> (r: &Vec<u8>)
        ensures
            r@ == self.spec_hash(),
    {
        match self {
            Node::Leaf { hash, .. } => hash,
            Node::Internal { hash, .. } => hash,
        }
    }
}

/// Compares two byte strings in unsigned lexicographic order, the order the
/// physical store compares keys with.
pub fn bytes_lex_lt(a: &Vec<u8>, b: &Vec<u8>) -> (r: bool)
    ensures
        r == lex_lt(a@, b@),
{
    let mut i: usize = 0;
    proof {
        assert(a@.skip(0) =~= a@);
        assert(b@.skip(0) =~= b@);
    }
    while i < a.len() && i < b.len()
        invariant
            0 <= i <= a@.len(),
            i <= b@.len(),
            lex_lt(a@, b@) == lex_lt(a@.skip(i as int), b@.skip(i as int)),
        decreases a@.len() - i,
    {
        let x: u8 = a[i];
        let y: u8 = b[i];
        proof {
            assert(a@.skip(i as int)[0] == a@[i as int]);
            assert(b@.skip(i as int)[0] == b@[i as int]);
        }
        if x < y {
            return true;
        }
        if x > y {
            return false;
        }
        proof {
            assert(a@.skip(i as int).skip(1) =~= a@.skip(i + 1));
            assert(b@.skip(i as int).skip(1) =~= b@.skip(i + 1));
        }
        i += 1;
    }
    proof {
        if a@.len() < b@.len() {
            assert(a@.skip(i as int).len() == 0);
            assert(b@.skip(i as int).len() > 0);
        } else {
            assert(b@.skip(i as int).len() == 0);
        }
    }
    a.len() < b.len()
}

/// Copies a byte string; returned bytes view-equal to the input.
pub fn copy_bytes(v: &Vec<u8>) -> (r: Vec<u8>)
    ensures
        r@ == v@,
{
    let mut out: Vec<u8> = Vec::new();
    let mut i: usize = 0;
    while i < v.len()
        invariant
            0 <= i <= v@.len(),
            out@ =~= v@.take(i as int),
        decreases v@.len() - i,
    {
        out.push(v[i]);
        proof {
            assert(v@.take(i + 1) =~= v@.take(i as int).push(v@[i as int]));
        }
        i += 1;
    }
    proof {
        assert(v@.take(v@.len() as int) =~= v@);
    }
    out
}

} // verus!
