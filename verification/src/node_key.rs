use vstd::prelude::*;
use crate::order::{
    lex_lt, be_bytes, be_value, pow256, lemma_lex_concat, lemma_lex_total, lemma_lex_strict,
    lemma_be_bytes_len, lemma_be_order, lemma_be_bytes_of_value, lemma_pow256_mono,
    lemma_pow256_8_value,
};

verus! {

/// Maximum number of nibbles on a path from the root: two per byte of a
/// 32-byte hashed account key.
pub const ROOT_NIBBLE_HEIGHT: usize = 64;

/// True of a sequence that holds one 4-bit nibble per byte and is no longer
/// than a full root-to-leaf path.
pub open spec fn valid_nibbles(s: Seq<u8>) -> bool {
    s.len() <= 64 && forall|i: int| 0 <= i < s.len() ==> s[i] < 16
}

/// An ordered sequence of 4-bit nibbles: a prefix of a hashed account key,
/// read from the root.
pub struct NibblePath {
    nibbles: Vec<u8>,
}

impl View for NibblePath {
    type V = Seq<u8>;

    closed spec fn view(&self) -> Seq<u8> {
        self.nibbles@
    }
}

impl NibblePath {
    pub open spec fn wf(&self) -> bool {
        valid_nibbles(self@)
    }

    /// Builds a path from one nibble per byte; rejects a byte that is not a
    /// nibble and a path longer than the tree is deep.
    pub fn new(nibbles: Vec<u8>) -> (r: Option<NibblePath>)
        ensures
            match r {
                Some(p) => p.wf() && p@ == nibbles@,
                None => !valid_nibbles(nibbles@),
            },
    {
        if nibbles.len() > ROOT_NIBBLE_HEIGHT {
            return None;
        }
        let mut i: usize = 0;
        while i < nibbles.len()
            invariant
                0 <= i <= nibbles@.len(),
                forall|j: int| 0 <= j < i ==> nibbles@[j] < 16,
            decreases nibbles@.len() - i,
        {
            if nibbles[i] >= 16 {
                return None;
            }
            i += 1;
        }
        Some(NibblePath { nibbles })
    }

    /// The empty path: the path of a version's root node.
    pub fn empty() -> (r: NibblePath)
        ensures
            r@ == Seq::<u8>::empty(),
            r.wf(),
    {
        NibblePath { nibbles: Vec::new() }
    }

    pub fn num_nibbles(&self) -> (n: usize)
        ensures
            n == self@.len(),
    {
        self.nibbles.len()
    }

    pub fn nibble(&self, i: usize) -> (b: u8)
        requires
            i < self@.len(),
        ensures
            b == self@[i as int],
    {
        self.nibbles[i]
    }

    /// Compares two paths in lexicographic nibble order.
    pub fn lex_lt_path(&self, other: &NibblePath) -> (r: bool)
        ensures
            r == lex_lt(self@, other@),
    {
        crate::node::bytes_lex_lt(&self.nibbles, &other.nibbles)
    }

    /// True exactly when the two paths hold the same nibbles.
    pub fn eq_path(&self, other: &NibblePath) -> (r: bool)
        ensures
            r == (self@ == other@),
    {
        if self.nibbles.len() != other.nibbles.len() {
            proof {
                assert(self@ != other@);
            }
            return false;
        }
        let mut i: usize = 0;
        while i < self.nibbles.len()
            invariant
                0 <= i <= self@.len(),
                self@.len() == other@.len(),
                forall|j: int| 0 <= j < i ==> self@[j] == other@[j],
            decreases self@.len() - i,
        {
            if self.nibbles[i] != other.nibbles[i] {
                return false;
            }
            i += 1;
        }
        proof {
            assert(self@ =~= other@);
        }
        true
    }
}

/// The identity of one physical tree node: the version that created it and
/// its nibble path from the root. Two node keys are ordered by version, then
/// by path length, then by path bytes; see `key_lt`.
pub struct NodeKey {
    pub version: u64,
    pub path: NibblePath,
}

impl NodeKey {
    pub open spec fn wf(&self) -> bool {
        self.path.wf()
    }

    pub fn new(version: u64, path: NibblePath) -> (r: NodeKey)
        ensures
            r.version == version,
            r.path@ == path@,
            path.wf() ==> r.wf(),
    {
        NodeKey { version, path }
    }

    /// Compares two node keys in the ordering of `key_lt`.
    pub fn lt(&self, other: &NodeKey) -> (r: bool)
        ensures
            r == key_lt(*self, *other),
    {
        if self.version < other.version {
            return true;
        }
        if self.version > other.version {
            return false;
        }
        let la = self.path.num_nibbles();
        let lb = other.path.num_nibbles();
        if la < lb {
            return true;
        }
        if la > lb {
            return false;
        }
        self.path.lex_lt_path(&other.path)
    }

    /// True exactly when the two keys name the same node.
    pub fn eq_key(&self, other: &NodeKey) -> (r: bool)
        ensures
            r == key_eq(*self, *other),
    {
        self.version == other.version && self.path.eq_path(&other.path)
    }
}

/// The load-bearing ordering of node keys: version ascending, then path
/// length ascending, then path bytes ascending.
pub open spec fn key_lt(a: NodeKey, b: NodeKey) -> bool {
    a.version < b.version || (a.version == b.version && (a.path@.len() < b.path@.len() || (
    a.path@.len() == b.path@.len() && lex_lt(a.path@, b.path@))))
}

/// Two keys name the same node exactly when version and path agree.
pub open spec fn key_eq(a: NodeKey, b: NodeKey) -> bool {
    a.version == b.version && a.path@ == b.path@
}

/// The byte string a node key is stored under: the version as eight
/// big-endian bytes, the path length as one byte, then the path's nibbles,
/// one per byte.
pub open spec fn encoding(k: NodeKey) -> Seq<u8> {
    be_bytes(k.version as nat, 8) + seq![k.path@.len() as u8] + k.path@
}

/// Node keys are totally ordered: less, greater, or the same node.
pub proof fn lemma_key_total(a: NodeKey, b: NodeKey)
    ensures
        key_lt(a, b) || key_lt(b, a) || key_eq(a, b),
        key_lt(a, b) ==> !key_lt(b, a) && !key_eq(a, b),
{
    lemma_lex_total(a.path@, b.path@);
    lemma_lex_strict(a.path@, b.path@);
}

/// The key ordering is transitive.
pub proof fn lemma_key_trans(a: NodeKey, b: NodeKey, c: NodeKey)
    requires
        key_lt(a, b),
        key_lt(b, c),
    ensures
        key_lt(a, c),
{
    if a.version == b.version && b.version == c.version && a.path@.len() == b.path@.len()
        && b.path@.len() == c.path@.len() {
        crate::order::lemma_lex_trans(a.path@, b.path@, c.path@);
    }
}

proof fn lemma_u64_below_pow256_8(v: u64)
    ensures
        (v as nat) < pow256(8),
{
    lemma_pow256_8_value();
}

/// THE codec contract: byte-string comparison of encodings equals the node
/// key ordering. An ordered store over encoded keys therefore realizes
/// `key_lt` exactly.
pub proof fn lemma_encoding_order(a: NodeKey, b: NodeKey)
    requires
        a.wf(),
        b.wf(),
    ensures
        lex_lt(encoding(a), encoding(b)) <==> key_lt(a, b),
{
    let va = be_bytes(a.version as nat, 8);
    let vb = be_bytes(b.version as nat, 8);
    let ta = seq![a.path@.len() as u8] + a.path@;
    let tb = seq![b.path@.len() as u8] + b.path@;
    lemma_be_bytes_len(a.version as nat, 8);
    lemma_be_bytes_len(b.version as nat, 8);
    assert(encoding(a) =~= va + ta);
    assert(encoding(b) =~= vb + tb);
    lemma_lex_concat(va, ta, vb, tb);
    lemma_u64_below_pow256_8(a.version);
    lemma_u64_below_pow256_8(b.version);
    lemma_be_order(a.version as nat, b.version as nat, 8);
    lemma_lex_concat(seq![a.path@.len() as u8], a.path@, seq![b.path@.len() as u8], b.path@);
    // A one-byte string comparison is a byte comparison.
    assert(lex_lt(seq![a.path@.len() as u8], seq![b.path@.len() as u8])
        <==> a.path@.len() < b.path@.len()) by {
        let la = seq![a.path@.len() as u8];
        let lb = seq![b.path@.len() as u8];
        assert(la[0] == a.path@.len() as u8);
        assert(lb[0] == b.path@.len() as u8);
        assert(la.skip(1) =~= Seq::<u8>::empty());
        assert(lb.skip(1) =~= Seq::<u8>::empty());
        assert(!lex_lt(Seq::<u8>::empty(), Seq::<u8>::empty()));
        assert(a.path@.len() <= 64 && b.path@.len() <= 64);
    }
    if seq![a.path@.len() as u8] == seq![b.path@.len() as u8] {
        assert(a.path@.len() == b.path@.len());
    }
    if a.path@.len() == b.path@.len() {
        assert(seq![a.path@.len() as u8] =~= seq![b.path@.len() as u8]);
    }
}

/// The codec is injective: equal encodings name the same node.
pub proof fn lemma_encoding_injective(a: NodeKey, b: NodeKey)
    requires
        a.wf(),
        b.wf(),
        encoding(a) == encoding(b),
    ensures
        key_eq(a, b),
{
    lemma_encoding_order(a, b);
    lemma_encoding_order(b, a);
    lemma_key_total(a, b);
    lemma_key_total(b, a);
}

impl NodeKey {
    /// Encodes this key to the byte string it is stored under.
    pub fn encode(&self) -> (r: Vec<u8>)
        requires
            self.wf(),
        ensures
            r@ == encoding(*self),
    {
        let v: u64 = self.version;
        let q1: u64 = v / 256;
        let q2: u64 = q1 / 256;
        let q3: u64 = q2 / 256;
        let q4: u64 = q3 / 256;
        let q5: u64 = q4 / 256;
        let q6: u64 = q5 / 256;
        let q7: u64 = q6 / 256;
        let mut out: Vec<u8> = Vec::new();
        out.push((q7 % 256) as u8);
        out.push((q6 % 256) as u8);
        out.push((q5 % 256) as u8);
        out.push((q4 % 256) as u8);
        out.push((q3 % 256) as u8);
        out.push((q2 % 256) as u8);
        out.push((q1 % 256) as u8);
        out.push((v % 256) as u8);
        proof {
            assert(be_bytes(v as nat, 8) == be_bytes(q1 as nat, 7).push((v % 256) as u8));
            assert(be_bytes(q1 as nat, 7) == be_bytes(q2 as nat, 6).push((q1 % 256) as u8));
            assert(be_bytes(q2 as nat, 6) == be_bytes(q3 as nat, 5).push((q2 % 256) as u8));
            assert(be_bytes(q3 as nat, 5) == be_bytes(q4 as nat, 4).push((q3 % 256) as u8));
            assert(be_bytes(q4 as nat, 4) == be_bytes(q5 as nat, 3).push((q4 % 256) as u8));
            assert(be_bytes(q5 as nat, 3) == be_bytes(q6 as nat, 2).push((q5 % 256) as u8));
            assert(be_bytes(q6 as nat, 2) == be_bytes(q7 as nat, 1).push((q6 % 256) as u8));
            assert(be_bytes(q7 as nat, 1) == be_bytes((q7 / 256) as nat, 0).push(
                (q7 % 256) as u8,
            ));
            assert(be_bytes((q7 / 256) as nat, 0) == Seq::<u8>::empty());
            assert(out@ =~= be_bytes(v as nat, 8));
        }
        out.push(self.path.num_nibbles() as u8);
        let mut i: usize = 0;
        while i < self.path.num_nibbles()
            invariant
                0 <= i <= self.path@.len(),
                self.wf(),
                out@ =~= be_bytes(self.version as nat, 8) + seq![self.path@.len() as u8]
                    + self.path@.take(i as int),
            decreases self.path@.len() - i,
        {
            out.push(self.path.nibble(i));
            proof {
                assert(self.path@.take(i + 1) =~= self.path@.take(i as int).push(
                    self.path@[i as int],
                ));
            }
            i += 1;
        }
        proof {
            assert(self.path@.take(self.path@.len() as int) =~= self.path@);
        }
        out
    }

    /// Decodes a stored byte string back to the node key it encodes, or
    /// reports that no well-formed key encodes to it.
    pub fn decode(bytes: &Vec<u8>) -> (r: Option<NodeKey>)
        ensures
            match r {
                Some(k) => k.wf() && encoding(k) == bytes@,
                None => forall|k: NodeKey| k.wf() ==> encoding(k) != bytes@,
            },
    {
        if bytes.len() < 9 {
            proof {
                assert forall|k: NodeKey| k.wf() implies encoding(k) != bytes@ by {
                    lemma_be_bytes_len(k.version as nat, 8);
                    assert(encoding(k).len() >= 9);
                }
            }
            return None;
        }
        let mut v: u64 = 0;
        let mut i: usize = 0;
        proof {
            assert(bytes@.take(0) =~= Seq::<u8>::empty());
        }
        while i < 8
            invariant
                0 <= i <= 8,
                bytes@.len() >= 9,
                v as nat == be_value(bytes@.take(i as int)),
                (v as nat) < pow256(i as nat),
            decreases 8 - i,
        {
            proof {
                assert(bytes@.take(i + 1).drop_last() =~= bytes@.take(i as int));
                assert(bytes@.take(i + 1).last() == bytes@[i as int]);
                assert(pow256((i + 1) as nat) == 256 * pow256(i as nat));
                assert(256 * (v as nat) + bytes@[i as int] < 256 * pow256(i as nat))
                    by (nonlinear_arith)
                    requires
                        (v as nat) < pow256(i as nat),
                        bytes@[i as int] < 256,
                ;
                lemma_pow256_mono((i + 1) as nat, 8);
                lemma_pow256_8_value();
            }
            v = v * 256 + (bytes[i] as u64);
            i += 1;
        }
        let num_nibbles: usize = bytes[8] as usize;
        let good_len: bool = bytes.len() == 9 + num_nibbles;
        if !good_len || num_nibbles > ROOT_NIBBLE_HEIGHT {
            proof {
                assert forall|k: NodeKey| k.wf() implies encoding(k) != bytes@ by {
                    lemma_be_bytes_len(k.version as nat, 8);
                    if encoding(k) == bytes@ {
                        assert(bytes@[8] == k.path@.len() as u8);
                        assert(k.path@.len() <= 64);
                        assert(num_nibbles == k.path@.len());
                        assert(bytes@.len() == 9 + k.path@.len());
                    }
                }
            }
            return None;
        }
        let mut nibs: Vec<u8> = Vec::new();
        let mut j: usize = 0;
        while j < num_nibbles
            invariant
                0 <= j <= num_nibbles,
                bytes@.len() == 9 + num_nibbles,
                num_nibbles <= 64,
                nibs@ =~= bytes@.subrange(9, 9 + j as int),
                forall|t: int| 0 <= t < j ==> nibs@[t] < 16,
            decreases num_nibbles - j,
        {
            let b: u8 = bytes[9 + j];
            if b >= 16 {
                proof {
                    assert forall|k: NodeKey| k.wf() implies encoding(k) != bytes@ by {
                        lemma_be_bytes_len(k.version as nat, 8);
                        if encoding(k) == bytes@ {
                            assert(bytes@[9 + j as int] == k.path@[j as int]);
                            assert(k.path@[j as int] < 16);
                        }
                    }
                }
                return None;
            }
            nibs.push(b);
            proof {
                assert(bytes@.subrange(9, 9 + (j + 1) as int) =~= bytes@.subrange(
                    9,
                    9 + j as int,
                ).push(bytes@[9 + j as int]));
            }
            j += 1;
        }
        let key = NodeKey { version: v, path: NibblePath { nibbles: nibs } };
        proof {
            assert(bytes@.take(8).len() == 8);
            lemma_be_bytes_of_value(bytes@.take(8));
            assert(be_bytes(v as nat, 8) =~= bytes@.take(8));
            assert(encoding(key) =~= bytes@) by {
                assert(key.path@ =~= bytes@.subrange(9, bytes@.len() as int));
                assert(key.path@.len() as u8 == bytes@[8]);
            }
        }
        Some(key)
    }
}

} // verus!
