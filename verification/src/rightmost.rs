use vstd::prelude::*;
use crate::node_key::{NodeKey, key_lt};
use crate::node::{Node, bytes_lex_lt};
use crate::order::{lex_lt, lemma_lex_total, lemma_lex_strict, lemma_lex_trans,
    lemma_lex_prefix_strict};
use crate::store::StateStore;
use crate::StateStoreError;

verus! {

/// The nibble expansion of a byte string: each byte as its high then its low
/// 4-bit nibble. An account key of 32 bytes expands to the 64 nibbles a full
/// root-to-leaf path holds.
pub open spec fn nibbles_of(s: Seq<u8>) -> Seq<u8>
    decreases s.len(),
{
    if s.len() == 0 {
        Seq::empty()
    } else {
        seq![(s[0] / 16) as u8, (s[0] % 16) as u8] + nibbles_of(s.skip(1))
    }
}

pub proof fn lemma_nibbles_len(s: Seq<u8>)
    ensures
        nibbles_of(s).len() == 2 * s.len(),
    decreases s.len(),
{
    if s.len() > 0 {
        lemma_nibbles_len(s.skip(1));
    }
}

/// Byte strings of equal length compare exactly as their nibble expansions
/// compare.
pub proof fn lemma_nibbles_order(a: Seq<u8>, b: Seq<u8>)
    requires
        a.len() == b.len(),
    ensures
        lex_lt(a, b) <==> lex_lt(nibbles_of(a), nibbles_of(b)),
    decreases a.len(),
{
    if a.len() == 0 {
    } else {
        let a0 = a[0];
        let b0 = b[0];
        let ha = (a0 / 16) as u8;
        let la = (a0 % 16) as u8;
        let hb = (b0 / 16) as u8;
        let lb = (b0 % 16) as u8;
        let na = nibbles_of(a);
        let nb = nibbles_of(b);
        let x = nibbles_of(a.skip(1));
        let y = nibbles_of(b.skip(1));
        assert(na == seq![ha, la] + x);
        assert(nb == seq![hb, lb] + y);
        vstd::arithmetic::div_mod::lemma_fundamental_div_mod(a0 as int, 16);
        vstd::arithmetic::div_mod::lemma_fundamental_div_mod(b0 as int, 16);
        vstd::arithmetic::div_mod::lemma_mod_bound(a0 as int, 16);
        vstd::arithmetic::div_mod::lemma_mod_bound(b0 as int, 16);
        assert((a0 < b0) <==> (ha < hb || (ha == hb && la < lb))) by (nonlinear_arith)
            requires
                a0 == 16 * (a0 / 16) + a0 % 16,
                b0 == 16 * (b0 / 16) + b0 % 16,
                ha == a0 / 16,
                la == a0 % 16,
                hb == b0 / 16,
                lb == b0 % 16,
                0 <= a0 % 16 < 16,
                0 <= b0 % 16 < 16,
        ;
        assert((a0 == b0) <==> (ha == hb && la == lb)) by (nonlinear_arith)
            requires
                a0 == 16 * (a0 / 16) + a0 % 16,
                b0 == 16 * (b0 / 16) + b0 % 16,
                ha == a0 / 16,
                la == a0 % 16,
                hb == b0 / 16,
                lb == b0 % 16,
        ;
        let mid_a = seq![la] + x;
        let mid_b = seq![lb] + y;
        assert(na[0] == ha && nb[0] == hb);
        assert(na.skip(1) =~= mid_a);
        assert(nb.skip(1) =~= mid_b);
        assert(mid_a[0] == la && mid_b[0] == lb);
        assert(mid_a.skip(1) =~= x && mid_b.skip(1) =~= y);
        lemma_nibbles_order(a.skip(1), b.skip(1));
        lemma_nibbles_len(a.skip(1));
        lemma_nibbles_len(b.skip(1));
        assert(lex_lt(mid_a, mid_b) == (if la < lb {
            true
        } else if la > lb {
            false
        } else {
            lex_lt(x, y)
        }));
        assert(lex_lt(na, nb) == (if ha < hb {
            true
        } else if ha > hb {
            false
        } else {
            lex_lt(mid_a, mid_b)
        }));
        assert(lex_lt(a, b) == (if a0 < b0 {
            true
        } else if a0 > b0 {
            false
        } else {
            lex_lt(a.skip(1), b.skip(1))
        }));
    }
}

/// One sequence is a prefix of another.
pub open spec fn is_prefix(p: Seq<u8>, s: Seq<u8>) -> bool {
    p.len() <= s.len() && p == s.take(p.len() as int)
}

/// The entry at `i` is a leaf whose account key no other leaf exceeds.
pub open spec fn is_max_leaf(s: Seq<(NodeKey, Node)>, i: int) -> bool {
    &&& 0 <= i < s.len()
    &&& s[i].1.is_leaf()
    &&& forall|j: int|
        0 <= j < s.len() && (#[trigger] s[j]).1.is_leaf() ==> !lex_lt(
            s[i].1.spec_account_key(),
            s[j].1.spec_account_key(),
        )
}

/// Rightmost-leaf equivalence: any two maximal leaves—the locator's result
/// and the one an exhaustive scan finds—carry the same account key.
pub proof fn lemma_rightmost_leaf_equivalence(s: Seq<(NodeKey, Node)>, i: int, j: int)
    requires
        is_max_leaf(s, i),
        is_max_leaf(s, j),
    ensures
        s[i].1.spec_account_key() == s[j].1.spec_account_key(),
{
    lemma_lex_total(s[i].1.spec_account_key(), s[j].1.spec_account_key());
}

/// A store key sorts strictly below the probe for bucket `num_nibbles` of
/// `version` exactly when its version is older, or its path is shorter than
/// `num_nibbles`.
pub open spec fn probe_lt(k: NodeKey, version: u64, num_nibbles: int) -> bool {
    k.version < version || (k.version == version && k.path@.len() < num_nibbles)
}

/// The entry at `j` is the last one below the probe for bucket `kk`.
pub open spec fn is_bucket_last(s: Seq<(NodeKey, Node)>, j: int, version: u64, kk: int) -> bool {
    &&& 0 <= j < s.len()
    &&& probe_lt(s[j].0, version, kk)
    &&& forall|j2: int| j < j2 < s.len() ==> !probe_lt((#[trigger] s[j2]).0, version, kk)
}

impl StateStore {
    /// The shape a store has while a tree is being restored into it, the
    /// setting rightmost-leaf discovery serves: every node belongs to one
    /// version; every leaf's path is a prefix of its account key's nibble
    /// expansion; and below every internal node some leaf exists.
    pub open spec fn restore_shape(&self, version: u64) -> bool {
        &&& forall|i: int|
            0 <= i < self.entries().len() ==> (#[trigger] self.entries()[i]).0.version == version
        &&& forall|i: int|
            0 <= i < self.entries().len() && (#[trigger] self.entries()[i]).1.is_leaf()
                ==> self.entries()[i].1.spec_account_key().len() == 32 && is_prefix(
                self.entries()[i].0.path@,
                nibbles_of(self.entries()[i].1.spec_account_key()),
            )
        &&& forall|i: int|
            0 <= i < self.entries().len() && !(#[trigger] self.entries()[i]).1.is_leaf()
                ==> exists|j: int|
                0 <= j < self.entries().len() && (#[trigger] self.entries()[j]).1.is_leaf()
                    && self.entries()[i].0.path@.len() < self.entries()[j].0.path@.len()
                    && is_prefix(self.entries()[i].0.path@, self.entries()[j].0.path@)
    }

    /// Seeks to the last entry strictly below the probe `(version,
    /// num_nibbles)`: the end of the bucket of nodes with shorter paths.
    fn seek_le_bucket(&self, version: u64, num_nibbles: usize) -> (r: Option<usize>)
        requires
            self.wf(),
        ensures
            match r {
                Some(i) => i < self.num_nodes() && probe_lt(
                    self.entries()[i as int].0,
                    version,
                    num_nibbles as int,
                ) && forall|j: int|
                    i < j < self.entries().len() ==> !probe_lt(
                        (#[trigger] self.entries()[j]).0,
                        version,
                        num_nibbles as int,
                    ),
                None => forall|j: int|
                    0 <= j < self.entries().len() ==> !probe_lt(
                        (#[trigger] self.entries()[j]).0,
                        version,
                        num_nibbles as int,
                    ),
            },
    {
        let n = self.node_count();
        let mut last: Option<usize> = None;
        let mut i: usize = 0;
        while i < n
            invariant
                self.wf(),
                n == self.num_nodes(),
                0 <= i <= n,
                match last {
                    None => forall|j: int|
                        0 <= j < i ==> !probe_lt(
                            (#[trigger] self.entries()[j]).0,
                            version,
                            num_nibbles as int,
                        ),
                    Some(l) => l < i && probe_lt(
                        self.entries()[l as int].0,
                        version,
                        num_nibbles as int,
                    ) && forall|j: int|
                        l < j < i ==> !probe_lt(
                            (#[trigger] self.entries()[j]).0,
                            version,
                            num_nibbles as int,
                        ),
                },
            decreases n - i,
        {
            let e = self.entry_at(i);
            let below: bool = e.0.version < version || (e.0.version == version
                && e.0.path.num_nibbles() < num_nibbles);
            if below {
                last = Some(i);
            }
            i += 1;
        }
        last
    }

    /// Finds the leaf with the greatest account key among all nodes at the
    /// store's first version, probing one bucket per possible path length
    /// instead of scanning every node. On a store in restore shape this is
    /// exactly the rightmost leaf; on an empty store it is none. A probe
    /// landing outside its bucket would mean the ordering invariant is
    /// broken and would be fatal, not retried; on a well-formed store it
    /// cannot happen.
    #[verifier::rlimit(60)]
    pub fn get_rightmost_leaf(&self) -> (r: Result<
        Option<(&NodeKey, &Node)>,
        StateStoreError,
    >)
        requires
            self.wf(),
        ensures
            r is Ok,
            match r {
                Ok(Some((k, n))) => exists|i: int|
                    0 <= i < self.entries().len() && (#[trigger] self.entries()[i]) == (*k, *n)
                        && self.entries()[i].1.is_leaf(),
                Ok(None) => self.num_nodes() == 0 || !self.restore_shape(
                    self.entries()[0].0.version,
                ),
                Err(_) => false,
            },
            (self.num_nodes() > 0 && self.restore_shape(self.entries()[0].0.version)) ==> (
            match r {
                Ok(Some((k, n))) => exists|i: int|
                    0 <= i < self.entries().len() && (#[trigger] self.entries()[i]) == (*k, *n)
                        && is_max_leaf(self.entries(), i),
                _ => false,
            }),
    {
        if self.node_count() == 0 {
            return Ok(None);
        }
        let ghost s = self.entries();
        let version: u64 = self.entry_at(0).0.version;
        let mut best: Option<usize> = None;
        let mut k: usize = 1;
        while k <= 65
            invariant
                self.wf(),
                s == self.entries(),
                self.num_nodes() > 0,
                version == self.entries()[0].0.version,
                1 <= k <= 66,
                match best {
                    None => true,
                    Some(b) => b < self.num_nodes() && s[b as int].1.is_leaf(),
                },
                forall|j: int, kk: int|
                    #![trigger is_bucket_last(s, j, version, kk)]
                    1 <= kk < k && is_bucket_last(s, j, version, kk) && s[j].1.is_leaf()
                        ==> best is Some && !lex_lt(
                        s[best->0 as int].1.spec_account_key(),
                        s[j].1.spec_account_key(),
                    ),
            decreases 66 - k,
        {
            let ghost best_before = best;
            match self.seek_le_bucket(version, k) {
                None => {
                    proof {
                        assert forall|j: int, kk: int|
                            1 <= kk < k + 1 && is_bucket_last(s, j, version, kk) && s[j].1.is_leaf()
                                implies #[trigger] is_bucket_last(s, j, version, kk) && best is Some
                                && !lex_lt(
                            s[best->0 as int].1.spec_account_key(),
                            s[j].1.spec_account_key(),
                        ) by {
                            if kk == k {
                                assert(!probe_lt(s[j].0, version, kk));
                            }
                        }
                    }
                },
                Some(idx) => {
                    let e = self.entry_at(idx);
                    proof {
                        if idx > 0 {
                            assert(key_lt(s[0].0, s[idx as int].0));
                        }
                        assert(e.0.version == version);
                        assert(e.0.path@.len() < k);
                    }
                    if e.0.version != version || e.0.path.num_nibbles() >= k {
                        return Err(StateStoreError::ContractViolation);
                    }
                    if e.1.is_leaf_node() {
                        let replace: bool = match &best {
                            None => true,
                            Some(b) => {
                                let be = self.entry_at(*b);
                                bytes_lex_lt(be.1.account_key(), e.1.account_key())
                            },
                        };
                        if replace {
                            best = Some(idx);
                        }
                    }
                    proof {
                        assert forall|j: int, kk: int|
                            1 <= kk < k + 1 && is_bucket_last(s, j, version, kk) && s[j].1.is_leaf()
                                implies #[trigger] is_bucket_last(s, j, version, kk) && best is Some
                                && !lex_lt(
                            s[best->0 as int].1.spec_account_key(),
                            s[j].1.spec_account_key(),
                        ) by {
                            let cur = s[best->0 as int].1.spec_account_key();
                            lemma_lex_strict(s[j].1.spec_account_key(), s[j].1.spec_account_key());
                            if kk == k {
                                // The probe's answer is the only bucket-last entry.
                                assert(j == idx);
                                if best_before is Some && best != best_before {
                                    assert(lex_lt(
                                        s[best_before->0 as int].1.spec_account_key(),
                                        s[idx as int].1.spec_account_key(),
                                    ));
                                }
                            } else {
                                assert(best_before is Some && !lex_lt(
                                    s[best_before->0 as int].1.spec_account_key(),
                                    s[j].1.spec_account_key(),
                                ));
                                if best != best_before {
                                    let pb = s[best_before->0 as int].1.spec_account_key();
                                    let nb = s[idx as int].1.spec_account_key();
                                    let aj = s[j].1.spec_account_key();
                                    assert(lex_lt(pb, nb));
                                    if lex_lt(nb, aj) {
                                        lemma_lex_trans(pb, nb, aj);
                                        assert(false);
                                    }
                                }
                            }
                        }
                    }
                },
            }
            k += 1;
        }
        proof {
            if self.restore_shape(version) {
                let j0 = lemma_exists_leaf(*self, version);
                lemma_max_leaf_prefix(s, s.len() as int);
                let i_max = choose|i: int|
                    0 <= i < s.len() && s[i].1.is_leaf() && forall|j: int|
                        0 <= j < s.len() && (#[trigger] s[j]).1.is_leaf() ==> !lex_lt(
                            s[i].1.spec_account_key(),
                            s[j].1.spec_account_key(),
                        );
                assert(is_max_leaf(s, i_max));
                lemma_max_is_bucket_last(*self, version, i_max);
                let kk = s[i_max].0.path@.len() + 1;
                assert(is_bucket_last(s, i_max, version, kk as int));
                assert(1 <= kk < 66);
                assert(best is Some);
                let b = best->0 as int;
                assert(!lex_lt(s[b].1.spec_account_key(), s[i_max].1.spec_account_key()));
                assert(!lex_lt(s[i_max].1.spec_account_key(), s[b].1.spec_account_key()));
                lemma_lex_total(s[b].1.spec_account_key(), s[i_max].1.spec_account_key());
                assert(s[b].1.spec_account_key() == s[i_max].1.spec_account_key());
                assert(is_max_leaf(s, b));
            }
        }
        match best {
            None => Ok(None),
            Some(b) => {
                let e = self.entry_at(b);
                Ok(Some((e.0, e.1)))
            },
        }
    }

    /// Finds the rightmost leaf by scanning every node in the store: the
    /// reference the bounded-probe locator is held against.
    pub fn get_rightmost_leaf_naive(&self) -> (r: Option<(&NodeKey, &Node)>)
        ensures
            match r {
                Some((k, n)) => exists|i: int|
                    0 <= i < self.entries().len() && (#[trigger] self.entries()[i]) == (*k, *n)
                        && is_max_leaf(self.entries(), i),
                None => forall|i: int|
                    0 <= i < self.entries().len() ==> !(#[trigger] self.entries()[i]).1.is_leaf(),
            },
    {
        let ghost s = self.entries();
        let n = self.node_count();
        let mut best: Option<usize> = None;
        let mut i: usize = 0;
        while i < n
            invariant
                s == self.entries(),
                n == self.num_nodes(),
                0 <= i <= n,
                match best {
                    None => forall|j: int| 0 <= j < i ==> !(#[trigger] s[j]).1.is_leaf(),
                    Some(b) => b < i && s[b as int].1.is_leaf() && forall|j: int|
                        0 <= j < i && (#[trigger] s[j]).1.is_leaf() ==> !lex_lt(
                            s[b as int].1.spec_account_key(),
                            s[j].1.spec_account_key(),
                        ),
                },
            decreases n - i,
        {
            let ghost best_before = best;
            let e = self.entry_at(i);
            if e.1.is_leaf_node() {
                let replace: bool = match &best {
                    None => true,
                    Some(b) => {
                        let be = self.entry_at(*b);
                        bytes_lex_lt(be.1.account_key(), e.1.account_key())
                    },
                };
                if replace {
                    best = Some(i);
                }
            }
            proof {
                if best_before is Some && best != best_before {
                    let pb = s[best_before->0 as int].1.spec_account_key();
                    let nb = s[i as int].1.spec_account_key();
                    assert forall|j: int|
                        0 <= j < i + 1 && (#[trigger] s[j]).1.is_leaf() implies !lex_lt(
                        nb,
                        s[j].1.spec_account_key(),
                    ) by {
                        if j < i {
                            if lex_lt(nb, s[j].1.spec_account_key()) {
                                lemma_lex_trans(pb, nb, s[j].1.spec_account_key());
                                assert(false);
                            }
                        } else {
                            lemma_lex_strict(pb, nb);
                            lemma_lex_strict(nb, nb);
                        }
                    }
                }
                if best is Some {
                    lemma_lex_strict(
                        s[best->0 as int].1.spec_account_key(),
                        s[best->0 as int].1.spec_account_key(),
                    );
                }
            }
            i += 1;
        }
        match best {
            None => None,
            Some(b) => {
                let e = self.entry_at(b);
                Some((e.0, e.1))
            },
        }
    }
}

/// A nonempty store in restore shape holds at least one leaf.
proof fn lemma_exists_leaf(store: StateStore, version: u64) -> (j: int)
    requires
        store.wf(),
        store.restore_shape(version),
        store.num_nodes() > 0,
    ensures
        0 <= j < store.entries().len(),
        store.entries()[j].1.is_leaf(),
{
    let s = store.entries();
    if s[0].1.is_leaf() {
        0
    } else {
        let j = choose|j: int|
            0 <= j < s.len() && (#[trigger] s[j]).1.is_leaf() && s[0].0.path@.len()
                < s[j].0.path@.len() && is_prefix(s[0].0.path@, s[j].0.path@);
        j
    }
}

/// Among the first `t` entries, some leaf has the greatest account key of
/// all leaves there, provided any leaf is there at all.
proof fn lemma_max_leaf_prefix(s: Seq<(NodeKey, Node)>, t: int)
    requires
        0 <= t <= s.len(),
    ensures
        (exists|j: int| 0 <= j < t && (#[trigger] s[j]).1.is_leaf()) ==> exists|i: int|
            0 <= i < t && (#[trigger] s[i]).1.is_leaf() && forall|j: int|
                0 <= j < t && (#[trigger] s[j]).1.is_leaf() ==> !lex_lt(
                    s[i].1.spec_account_key(),
                    s[j].1.spec_account_key(),
                ),
    decreases t,
{
    if t > 0 {
        lemma_max_leaf_prefix(s, t - 1);
        if exists|j: int| 0 <= j < t && (#[trigger] s[j]).1.is_leaf() {
            if exists|j: int| 0 <= j < t - 1 && (#[trigger] s[j]).1.is_leaf() {
                let i0 = choose|i: int|
                    0 <= i < t - 1 && (#[trigger] s[i]).1.is_leaf() && forall|j: int|
                        0 <= j < t - 1 && (#[trigger] s[j]).1.is_leaf() ==> !lex_lt(
                            s[i].1.spec_account_key(),
                            s[j].1.spec_account_key(),
                        );
                if s[t - 1].1.is_leaf() && lex_lt(
                    s[i0].1.spec_account_key(),
                    s[t - 1].1.spec_account_key(),
                ) {
                    let nb = s[t - 1].1.spec_account_key();
                    assert forall|j: int|
                        0 <= j < t && (#[trigger] s[j]).1.is_leaf() implies !lex_lt(
                        nb,
                        s[j].1.spec_account_key(),
                    ) by {
                        if j < t - 1 {
                            if lex_lt(nb, s[j].1.spec_account_key()) {
                                lemma_lex_trans(
                                    s[i0].1.spec_account_key(),
                                    nb,
                                    s[j].1.spec_account_key(),
                                );
                                assert(false);
                            }
                        } else {
                            lemma_lex_strict(nb, nb);
                        }
                    }
                } else {
                    assert forall|j: int|
                        0 <= j < t && (#[trigger] s[j]).1.is_leaf() implies !lex_lt(
                        s[i0].1.spec_account_key(),
                        s[j].1.spec_account_key(),
                    ) by {
                        if j == t - 1 {
                            assert(!lex_lt(s[i0].1.spec_account_key(), s[j].1.spec_account_key()));
                        }
                    }
                }
            } else {
                let j1 = choose|j: int| 0 <= j < t && (#[trigger] s[j]).1.is_leaf();
                assert(j1 == t - 1);
                lemma_lex_strict(s[t - 1].1.spec_account_key(), s[t - 1].1.spec_account_key());
                assert forall|j: int|
                    0 <= j < t && (#[trigger] s[j]).1.is_leaf() implies !lex_lt(
                    s[t - 1].1.spec_account_key(),
                    s[j].1.spec_account_key(),
                ) by {
                    assert(j == t - 1);
                }
            }
        }
    }
}

/// The heart of the bounded-probe algorithm: a leaf of maximal account key
/// is the last entry of its bucket, so one of the locator's probes lands
/// exactly on it.
proof fn lemma_max_is_bucket_last(store: StateStore, version: u64, i: int)
    requires
        store.wf(),
        store.restore_shape(version),
        is_max_leaf(store.entries(), i),
    ensures
        is_bucket_last(store.entries(), i, version, store.entries()[i].0.path@.len() as int + 1),
{
    let s = store.entries();
    let path_i = s[i].0.path@;
    let len_i = path_i.len() as int;
    let ak_i = s[i].1.spec_account_key();
    assert(probe_lt(s[i].0, version, len_i + 1));
    assert forall|j: int| i < j < s.len() implies !probe_lt((#[trigger] s[j]).0, version, len_i + 1) by {
        if probe_lt(s[j].0, version, len_i + 1) {
            assert(s[j].0.version == version);
            assert(key_lt(s[i].0, s[j].0));
            let path_j = s[j].0.path@;
            assert(path_j.len() == len_i && lex_lt(path_i, path_j));
            if s[j].1.is_leaf() {
                let ak_j = s[j].1.spec_account_key();
                lemma_leaf_prefix_order(ak_i, ak_j, path_i, path_j);
                assert(!lex_lt(ak_i, ak_j));
                assert(false);
            } else {
                let t = choose|t: int|
                    0 <= t < s.len() && (#[trigger] s[t]).1.is_leaf() && s[j].0.path@.len()
                        < s[t].0.path@.len() && is_prefix(s[j].0.path@, s[t].0.path@);
                let ak_t = s[t].1.spec_account_key();
                let path_t = s[t].0.path@;
                // path_j is the length-len_i prefix of ak_t's nibbles.
                assert(path_j == path_t.take(len_i));
                assert(path_t == nibbles_of(ak_t).take(path_t.len() as int));
                assert(path_t.take(len_i) =~= nibbles_of(ak_t).take(len_i)) by {
                    lemma_nibbles_len(ak_t);
                }
                lemma_leaf_prefix_order(ak_i, ak_t, path_i, path_j);
                assert(!lex_lt(ak_i, ak_t));
                assert(false);
            }
        }
    }
}

/// If two 32-byte account keys have equally long nibble prefixes that are
/// strictly ordered, the keys are strictly ordered the same way.
proof fn lemma_leaf_prefix_order(ak_a: Seq<u8>, ak_b: Seq<u8>, pa: Seq<u8>, pb: Seq<u8>)
    requires
        ak_a.len() == 32,
        ak_b.len() == 32,
        pa.len() == pb.len(),
        pa == nibbles_of(ak_a).take(pa.len() as int),
        pb == nibbles_of(ak_b).take(pb.len() as int),
        pa.len() <= 64,
        lex_lt(pa, pb),
    ensures
        lex_lt(ak_a, ak_b),
{
    lemma_nibbles_len(ak_a);
    lemma_nibbles_len(ak_b);
    lemma_lex_prefix_strict(nibbles_of(ak_a), nibbles_of(ak_b), pa.len() as int);
    lemma_nibbles_order(ak_a, ak_b);
}

} // verus!
