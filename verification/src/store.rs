use vstd::prelude::*;
use crate::node_key::{NodeKey, NibblePath, key_lt, key_eq, lemma_key_total, lemma_key_trans};
use crate::node::{Node, copy_bytes};
use crate::StateStoreError;

verus! {

/// One stale-node marker: the version at which the node it names became
/// obsolete, and the key of that node. Written for later pruning only; the
/// read path never consults it.
pub struct StaleNodeIndex {
    pub stale_since_version: u64,
    pub node_key: NodeKey,
}

impl StaleNodeIndex {
    pub open spec fn wf(&self) -> bool {
        self.node_key.wf()
    }
}

/// True when a stored key matches a queried version and path.
pub open spec fn key_matches(k: NodeKey, version: u64, path: Seq<u8>) -> bool {
    k.version == version && k.path@ == path
}

/// First-match lookup of a node by version and path over a sequence of
/// entries.
pub open spec fn seq_get(s: Seq<(NodeKey, Node)>, version: u64, path: Seq<u8>) -> Option<Node>
    decreases s.len(),
{
    if s.len() == 0 {
        None
    } else if key_matches(s[0].0, version, path) {
        Some(s[0].1)
    } else {
        seq_get(s.skip(1), version, path)
    }
}

/// Lookup over a concatenation tries the left part first.
pub proof fn lemma_seq_get_concat(
    a: Seq<(NodeKey, Node)>,
    b: Seq<(NodeKey, Node)>,
    version: u64,
    path: Seq<u8>,
)
    ensures
        seq_get(a + b, version, path) == if seq_get(a, version, path) is Some {
            seq_get(a, version, path)
        } else {
            seq_get(b, version, path)
        },
    decreases a.len(),
{
    if a.len() == 0 {
        assert(a + b =~= b);
    } else {
        assert((a + b)[0] == a[0]);
        assert((a + b).skip(1) =~= a.skip(1) + b);
        lemma_seq_get_concat(a.skip(1), b, version, path);
    }
}

/// What a lookup result says about the entries: a miss means no entry
/// matches; a hit names a matching entry.
pub proof fn lemma_seq_get_index(s: Seq<(NodeKey, Node)>, version: u64, path: Seq<u8>)
    ensures
        match seq_get(s, version, path) {
            None => forall|i: int| 0 <= i < s.len() ==> !key_matches((#[trigger] s[i]).0, version, path),
            Some(n) => exists|i: int|
                0 <= i < s.len() && key_matches((#[trigger] s[i]).0, version, path) && s[i].1 == n,
        },
    decreases s.len(),
{
    if s.len() == 0 {
    } else if key_matches(s[0].0, version, path) {
        assert(seq_get(s, version, path) == Some(s[0].1));
    } else {
        lemma_seq_get_index(s.skip(1), version, path);
        match seq_get(s.skip(1), version, path) {
            None => {
                assert forall|i: int| 0 <= i < s.len() implies !key_matches(
                    (#[trigger] s[i]).0,
                    version,
                    path,
                ) by {
                    if i >= 1 {
                        assert(s.skip(1)[i - 1] == s[i]);
                    }
                }
            },
            Some(n) => {
                let j = choose|j: int|
                    0 <= j < s.skip(1).len() && key_matches(
                        (#[trigger] s.skip(1)[j]).0,
                        version,
                        path,
                    ) && s.skip(1)[j].1 == n;
                assert(s[j + 1] == s.skip(1)[j]);
                assert(key_matches((s[j + 1]).0, version, path) && s[j + 1].1 == n);
            },
        }
    }
}

/// The state store: every tree node ever committed, ordered by node key, and
/// the stale-node markers recorded alongside them. It stands over the
/// physical ordered store; entry order realizes the byte order of encoded
/// keys (see `lemma_encoding_order`).
pub struct StateStore {
    nodes: Vec<(NodeKey, Node)>,
    stale: Vec<StaleNodeIndex>,
}

impl StateStore {
    pub closed spec fn entries(&self) -> Seq<(NodeKey, Node)> {
        self.nodes@
    }

    pub closed spec fn stale_entries(&self) -> Seq<StaleNodeIndex> {
        self.stale@
    }

    /// Entries are strictly sorted by the node-key order, and every entry is
    /// well formed.
    pub open spec fn wf(&self) -> bool {
        &&& forall|i: int, j: int|
            #![trigger self.entries()[i], self.entries()[j]]
            0 <= i < j < self.entries().len() ==> key_lt(self.entries()[i].0, self.entries()[j].0)
        &&& forall|i: int|
            0 <= i < self.entries().len() ==> ((#[trigger] self.entries()[i]).0.wf()
                && self.entries()[i].1.wf())
    }

    pub open spec fn spec_get(&self, version: u64, path: Seq<u8>) -> Option<Node> {
        seq_get(self.entries(), version, path)
    }

    pub open spec fn num_nodes(&self) -> nat {
        self.entries().len()
    }

    pub open spec fn num_stale(&self) -> nat {
        self.stale_entries().len()
    }

    /// A fresh store holding no nodes.
    pub fn new() -> (s: StateStore)
        ensures
            s.wf(),
            s.entries() == Seq::<(NodeKey, Node)>::empty(),
            s.stale_entries() == Seq::<StaleNodeIndex>::empty(),
    {
        StateStore { nodes: Vec::new(), stale: Vec::new() }
    }

    pub fn node_count(&self) -> (n: usize)
        ensures
            n == self.num_nodes(),
    {
        self.nodes.len()
    }

    pub fn stale_count(&self) -> (n: usize)
        ensures
            n == self.num_stale(),
    {
        self.stale.len()
    }

    /// Borrows the `i`-th entry in key order.
    pub fn entry_at(&self, i: usize) -> (r: (&NodeKey, &Node))
        requires
            i < self.num_nodes(),
        ensures
            (*r.0, *r.1) == self.entries()[i as int],
    {
        let e = &self.nodes[i];
        (&e.0, &e.1)
    }

    /// Reads one node by key, or reports that the store holds none under it.
    pub fn get_node_option(&self, key: &NodeKey) -> (r: Option<&Node>)
        ensures
            match r {
                Some(n) => self.spec_get(key.version, key.path@) == Some(*n),
                None => self.spec_get(key.version, key.path@) is None,
            },
    {
        let mut i: usize = 0;
        proof {
            assert(self.entries().skip(0) =~= self.entries());
        }
        while i < self.nodes.len()
            invariant
                0 <= i <= self.entries().len(),
                seq_get(self.entries(), key.version, key.path@) == seq_get(
                    self.entries().skip(i as int),
                    key.version,
                    key.path@,
                ),
            decreases self.entries().len() - i,
        {
            let e = &self.nodes[i];
            proof {
                assert(self.entries().skip(i as int)[0] == self.entries()[i as int]);
                assert(self.entries().skip(i as int).skip(1) =~= self.entries().skip(i + 1));
            }
            if e.0.eq_key(key) {
                return Some(&e.1);
            }
            i += 1;
        }
        proof {
            assert(self.entries().skip(i as int).len() == 0);
        }
        None
    }

    /// The root hash of a version, if that version has a committed root: the
    /// hash of the node whose path is empty.
    pub fn get_root_hash_option(&self, version: u64) -> (r: Option<Vec<u8>>)
        ensures
            match (r, self.spec_get(version, Seq::<u8>::empty())) {
                (Some(h), Some(n)) => h@ == n.spec_hash(),
                (None, None) => true,
                _ => false,
            },
    {
        let root = NodeKey::new(version, NibblePath::empty());
        match self.get_node_option(&root) {
            Some(n) => Some(copy_bytes(n.hash())),
            None => None,
        }
    }

    /// As `get_root_hash_option`, but a version with no committed root is an
    /// error.
    pub fn get_root_hash(&self, version: u64) -> (r: Result<Vec<u8>, StateStoreError>)
        ensures
            match (r, self.spec_get(version, Seq::<u8>::empty())) {
                (Ok(h), Some(n)) => h@ == n.spec_hash(),
                (Err(e), None) => e == StateStoreError::NotFound,
                _ => false,
            },
    {
        match self.get_root_hash_option(version) {
            Some(h) => Ok(h),
            None => Err(StateStoreError::NotFound),
        }
    }

    /// Inserts one node under its key, keeping entries sorted; a second write
    /// to the same key replaces the node.
    fn insert_node(&mut self, key: NodeKey, node: Node)
        requires
            old(self).wf(),
            key.wf(),
            node.wf(),
        ensures
            final(self).wf(),
            final(self).stale_entries() == old(self).stale_entries(),
            final(self).spec_get(key.version, key.path@) == Some(node),
            forall|v2: u64, p2: Seq<u8>|
                !(v2 == key.version && p2 == key.path@) ==> #[trigger] final(self).spec_get(v2, p2)
                    == old(self).spec_get(v2, p2),
            old(self).spec_get(key.version, key.path@) is None ==> final(self).num_nodes() == old(
                self,
            ).num_nodes() + 1,
            old(self).spec_get(key.version, key.path@) is Some ==> final(self).num_nodes() == old(
                self,
            ).num_nodes(),
    {
        let ghost s0 = self.nodes@;
        let mut i: usize = 0;
        while i < self.nodes.len() && self.nodes[i].0.lt(&key)
            invariant
                0 <= i <= self.nodes@.len(),
                self.nodes@ == s0,
                old(self).wf(),
                self == old(self),
                forall|j: int| 0 <= j < i ==> key_lt((#[trigger] s0[j]).0, key),
            decreases self.nodes@.len() - i,
        {
            i += 1;
        }
        let at_end: bool = i == self.nodes.len();
        let replace: bool = if at_end {
            false
        } else {
            self.nodes[i].0.eq_key(&key)
        };
        proof {
            lemma_seq_get_concat(s0.take(i as int), s0.skip(i as int), key.version, key.path@);
            assert(s0.take(i as int) + s0.skip(i as int) =~= s0);
            lemma_seq_get_index(s0.take(i as int), key.version, key.path@);
            assert forall|j: int| 0 <= j < i implies !key_matches(
                (#[trigger] s0.take(i as int)[j]).0,
                key.version,
                key.path@,
            ) by {
                assert(s0.take(i as int)[j] == s0[j]);
                lemma_key_total(s0[j].0, key);
            }
            if seq_get(s0.take(i as int), key.version, key.path@) is Some {
                lemma_seq_get_index(s0.take(i as int), key.version, key.path@);
                assert(false);
            }
        }
        if replace {
            self.nodes.remove(i);
            self.nodes.insert(i, (key, node));
            proof {
                let s1 = self.nodes@;
                assert(s1 =~= s0.take(i as int) + seq![(key, node)] + s0.skip(i + 1));
                assert(s0 =~= s0.take(i as int) + seq![s0[i as int]] + s0.skip(i + 1));
                lemma_insert_shape(s0, s1, i as int, key, node, *old(self), *self);
                assert(key_eq(s0[i as int].0, key));
                assert forall|a: int, b: int|
                    0 <= a < b < s1.len() implies key_lt((#[trigger] s1[a]).0, (#[trigger] s1[b]).0) by {
                    assert(s1.len() == s0.len());
                    if a != i && b != i {
                        assert(s1[a] == s0[a] && s1[b] == s0[b]);
                    } else if a == i {
                        assert(s1[b] == s0[b]);
                        assert(key_lt(s0[i as int].0, s0[b].0));
                    } else {
                        assert(s1[a] == s0[a]);
                        assert(key_lt(s0[a].0, s0[i as int].0));
                    }
                }
            }
        } else {
            self.nodes.insert(i, (key, node));
            proof {
                let s1 = self.nodes@;
                assert(s1 =~= s0.take(i as int) + seq![(key, node)] + s0.skip(i as int));
                lemma_insert_shape_fresh(s0, s1, i as int, key, node, *old(self), *self);
                // Sortedness around the insertion point.
                assert forall|a: int, b: int|
                    0 <= a < b < s1.len() implies key_lt((#[trigger] s1[a]).0, (#[trigger] s1[b]).0) by {
                    if !at_end {
                        lemma_key_total(s0[i as int].0, key);
                    }
                    assert forall|j: int| i <= j < s0.len() implies key_lt(
                        key,
                        (#[trigger] s0[j]).0,
                    ) by {
                        lemma_key_total(s0[i as int].0, key);
                        if j > i {
                            lemma_key_trans(key, s0[i as int].0, s0[j].0);
                        }
                    }
                    if a < i && b < i {
                        assert(s1[a] == s0[a] && s1[b] == s0[b]);
                    } else if a < i && b == i {
                        assert(s1[a] == s0[a]);
                    } else if a < i && b > i {
                        assert(s1[a] == s0[a] && s1[b] == s0[b - 1]);
                    } else if a == i {
                        assert(s1[b] == s0[b - 1]);
                    } else {
                        assert(s1[a] == s0[a - 1] && s1[b] == s0[b - 1]);
                    }
                }
            }
        }
    }
}

/// Mutations staged for one atomic write: node puts and stale-node markers.
/// Nothing becomes durable until the whole batch is committed at once.
pub struct SchemaBatch {
    pub node_puts: Vec<(NodeKey, Node)>,
    pub stale_puts: Vec<StaleNodeIndex>,
}

impl SchemaBatch {
    /// Every staged key, node and marker is well formed.
    pub open spec fn wf(&self) -> bool {
        &&& forall|i: int|
            0 <= i < self.node_puts@.len() ==> ((#[trigger] self.node_puts@[i]).0.wf()
                && self.node_puts@[i].1.wf())
        &&& forall|i: int| 0 <= i < self.stale_puts@.len() ==> (#[trigger] self.stale_puts@[i]).wf()
    }

    pub fn new() -> (b: SchemaBatch)
        ensures
            b.node_puts@ == Seq::<(NodeKey, Node)>::empty(),
            b.stale_puts@ == Seq::<StaleNodeIndex>::empty(),
            b.wf(),
    {
        SchemaBatch { node_puts: Vec::new(), stale_puts: Vec::new() }
    }
}

/// No two staged puts write the same node key.
pub open spec fn distinct_keys(s: Seq<(NodeKey, Node)>) -> bool {
    forall|i: int, j: int|
        0 <= i < j < s.len() ==> !key_eq((#[trigger] s[i]).0, (#[trigger] s[j]).0)
}

/// Every staged key is absent from the store.
pub open spec fn all_fresh(store: StateStore, s: Seq<(NodeKey, Node)>) -> bool {
    forall|i: int|
        0 <= i < s.len() ==> store.spec_get((#[trigger] s[i]).0.version, s[i].0.path@) is None
}

/// Stages a set of node writes into a batch, after everything already staged.
pub fn add_node_batch(batch: &mut SchemaBatch, node_batch: Vec<(NodeKey, Node)>)
    ensures
        final(batch).node_puts@ == old(batch).node_puts@ + node_batch@,
        final(batch).stale_puts@ == old(batch).stale_puts@,
{
    let ghost orig = node_batch@;
    let ghost start = old(batch).node_puts@;
    let mut rest = node_batch;
    proof {
        assert(start + orig =~= batch.node_puts@ + rest@);
    }
    while rest.len() > 0
        invariant
            start + orig =~= batch.node_puts@ + rest@,
            batch.stale_puts@ == old(batch).stale_puts@,
        decreases rest@.len(),
    {
        let e = rest.remove(0);
        batch.node_puts.push(e);
        proof {
            assert(start + orig =~= batch.node_puts@ + rest@);
        }
    }
    proof {
        assert(batch.node_puts@ + rest@ =~= batch.node_puts@);
        assert(batch.node_puts@ =~= start + orig);
    }
}

/// Last-match lookup over staged puts: a later put to the same key wins.
pub open spec fn seq_get_last(s: Seq<(NodeKey, Node)>, version: u64, path: Seq<u8>) -> Option<
    Node,
>
    decreases s.len(),
{
    if s.len() == 0 {
        None
    } else if key_matches(s.last().0, version, path) {
        Some(s.last().1)
    } else {
        seq_get_last(s.drop_last(), version, path)
    }
}

/// What a committed batch leaves under a key: the last staged put for it,
/// or what the store held before.
pub open spec fn get_after_commit(
    pre: StateStore,
    staged: Seq<(NodeKey, Node)>,
    version: u64,
    path: Seq<u8>,
) -> Option<Node> {
    if seq_get_last(staged, version, path) is Some {
        seq_get_last(staged, version, path)
    } else {
        pre.spec_get(version, path)
    }
}

/// What a staged lookup result says about the staged puts.
pub proof fn lemma_seq_get_last_index(s: Seq<(NodeKey, Node)>, version: u64, path: Seq<u8>)
    ensures
        match seq_get_last(s, version, path) {
            None => forall|i: int| 0 <= i < s.len() ==> !key_matches((#[trigger] s[i]).0, version, path),
            Some(n) => exists|i: int|
                0 <= i < s.len() && key_matches((#[trigger] s[i]).0, version, path) && s[i].1 == n,
        },
    decreases s.len(),
{
    if s.len() == 0 {
    } else if key_matches(s.last().0, version, path) {
        assert(s[s.len() - 1] == s.last());
    } else {
        lemma_seq_get_last_index(s.drop_last(), version, path);
        match seq_get_last(s.drop_last(), version, path) {
            None => {
                assert forall|i: int| 0 <= i < s.len() implies !key_matches(
                    (#[trigger] s[i]).0,
                    version,
                    path,
                ) by {
                    if i < s.len() - 1 {
                        assert(s.drop_last()[i] == s[i]);
                    } else {
                        assert(s[i] == s.last());
                    }
                }
            },
            Some(n) => {
                let j = choose|j: int|
                    0 <= j < s.drop_last().len() && key_matches(
                        (#[trigger] s.drop_last()[j]).0,
                        version,
                        path,
                    ) && s.drop_last()[j].1 == n;
                assert(s[j] == s.drop_last()[j]);
            },
        }
    }
}

impl StateStore {
    /// Applies a staged batch to the store as one atomic unit: afterwards
    /// every key holds the last node staged for it, or what it held before;
    /// every stale marker is appended to the stale index.
    #[verifier::rlimit(60)]
    pub fn commit(&mut self, batch: SchemaBatch)
        requires
            old(self).wf(),
            batch.wf(),
        ensures
            final(self).wf(),
            final(self).stale_entries() == old(self).stale_entries() + batch.stale_puts@,
            forall|v2: u64, p2: Seq<u8>|
                #[trigger] final(self).spec_get(v2, p2) == get_after_commit(
                    *old(self),
                    batch.node_puts@,
                    v2,
                    p2,
                ),
            (distinct_keys(batch.node_puts@) && all_fresh(*old(self), batch.node_puts@))
                ==> final(self).num_nodes() == old(self).num_nodes() + batch.node_puts@.len(),
    {
        let SchemaBatch { node_puts, stale_puts } = batch;
        let ghost orig = node_puts@;
        let ghost pre = *old(self);
        let mut rest = node_puts;
        let total: usize = rest.len();
        proof {
            assert(rest@ =~= orig.skip(0));
            assert(total == orig.len());
            assert(orig.take(0) =~= Seq::<(NodeKey, Node)>::empty());
            assert forall|v2: u64, p2: Seq<u8>| #[trigger] self.spec_get(v2, p2)
                == get_after_commit(pre, orig.take(0), v2, p2) by {
                assert(seq_get_last(orig.take(0), v2, p2) is None);
            }
        }
        let mut t: usize = 0;
        while rest.len() > 0
            invariant
                self.wf(),
                orig.len() == total,
                0 <= t <= orig.len(),
                rest@ =~= orig.skip(t as int),
                self.stale_entries() == pre.stale_entries(),
                forall|i: int| 0 <= i < orig.len() ==> ((#[trigger] orig[i]).0.wf() && orig[i].1.wf()),
                forall|v2: u64, p2: Seq<u8>| #[trigger] self.spec_get(v2, p2) == get_after_commit(
                    pre,
                    orig.take(t as int),
                    v2,
                    p2,
                ),
                (distinct_keys(orig) && all_fresh(pre, orig)) ==> self.num_nodes()
                    == pre.num_nodes() + t,
            decreases rest@.len(),
        {
            let ghost self_before = *self;
            let e = rest.remove(0);
            proof {
                assert(orig.skip(t as int)[0] == orig[t as int]);
                assert(e == orig[t as int]);
                assert(orig.skip(t as int).skip(1) =~= orig.skip(t + 1));
            }
            let (key, node) = e;
            proof {
                if distinct_keys(orig) && all_fresh(pre, orig) {
                    lemma_seq_get_last_index(orig.take(t as int), key.version, key.path@);
                    if seq_get_last(orig.take(t as int), key.version, key.path@) is Some {
                        let j = choose|j: int|
                            0 <= j < orig.take(t as int).len() && key_matches(
                                (#[trigger] orig.take(t as int)[j]).0,
                                key.version,
                                key.path@,
                            ) && true;
                        assert(orig.take(t as int)[j] == orig[j]);
                        assert(!key_eq(orig[j].0, orig[t as int].0));
                        assert(false);
                    }
                    assert(self_before.spec_get(key.version, key.path@) == pre.spec_get(
                        key.version,
                        key.path@,
                    ));
                    assert(pre.spec_get(key.version, key.path@) is None);
                }
            }
            self.insert_node(key, node);
            proof {
                let ghost s_new = orig.take(t + 1);
                assert(s_new.drop_last() =~= orig.take(t as int));
                assert(s_new.last() == orig[t as int]);
                assert forall|v2: u64, p2: Seq<u8>| #[trigger] self.spec_get(v2, p2)
                    == get_after_commit(pre, s_new, v2, p2) by {
                    if key_matches(key, v2, p2) {
                        assert(v2 == key.version && p2 == key.path@);
                        assert(self.spec_get(v2, p2) == Some(node));
                        assert(seq_get_last(s_new, v2, p2) == Some(node));
                    } else {
                        assert(!(v2 == key.version && p2 == key.path@));
                        assert(self.spec_get(v2, p2) == self_before.spec_get(v2, p2));
                        assert(seq_get_last(s_new, v2, p2) == seq_get_last(
                            s_new.drop_last(),
                            v2,
                            p2,
                        ));
                    }
                }
            }
            t += 1;
        }
        proof {
            assert(orig.skip(t as int).len() == 0);
            assert(t == orig.len());
            assert(orig.take(t as int) =~= orig);
        }
        let ghost mid = *self;
        let mut stales = stale_puts;
        let ghost sorig = stales@;
        let ghost sstart = self.stale@;
        proof {
            assert(sstart + sorig =~= self.stale@ + stales@);
        }
        while stales.len() > 0
            invariant
                self.nodes@ == mid.nodes@,
                sstart + sorig =~= self.stale@ + stales@,
            decreases stales@.len(),
        {
            let m = stales.remove(0);
            self.stale.push(m);
            proof {
                assert(sstart + sorig =~= self.stale@ + stales@);
            }
        }
        proof {
            assert(self.stale@ + stales@ =~= self.stale@);
            assert(self.stale@ =~= sstart + sorig);
            assert(self.entries() == mid.entries());
            assert(batch.node_puts@ == orig);
            assert forall|v2: u64, p2: Seq<u8>| #[trigger] self.spec_get(v2, p2)
                == get_after_commit(pre, batch.node_puts@, v2, p2) by {
                assert(mid.spec_get(v2, p2) == get_after_commit(pre, orig.take(orig.len() as int), v2, p2));
                assert(orig.take(orig.len() as int) =~= orig);
                assert(self.spec_get(v2, p2) == mid.spec_get(v2, p2));
            }
            assert(self.num_nodes() == mid.num_nodes());
        }
    }

    /// Writes a pre-built set of nodes directly: stages them into a fresh
    /// batch and commits it. No statistics or stale-index bookkeeping is
    /// performed on this path.
    pub fn write_node_batch(&mut self, node_batch: Vec<(NodeKey, Node)>)
        requires
            old(self).wf(),
            forall|i: int|
                0 <= i < node_batch@.len() ==> ((#[trigger] node_batch@[i]).0.wf()
                    && node_batch@[i].1.wf()),
        ensures
            final(self).wf(),
            final(self).stale_entries() == old(self).stale_entries(),
            forall|v2: u64, p2: Seq<u8>|
                #[trigger] final(self).spec_get(v2, p2) == get_after_commit(
                    *old(self),
                    node_batch@,
                    v2,
                    p2,
                ),
            (distinct_keys(node_batch@) && all_fresh(*old(self), node_batch@))
                ==> final(self).num_nodes() == old(self).num_nodes() + node_batch@.len(),
    {
        let mut batch = SchemaBatch::new();
        add_node_batch(&mut batch, node_batch);
        proof {
            assert(batch.node_puts@ =~= node_batch@);
            assert(batch.stale_puts@ =~= Seq::<StaleNodeIndex>::empty());
        }
        self.commit(batch);
        proof {
            assert(self.stale_entries() =~= old(self).stale_entries());
        }
    }
}

/// Shape facts after replacing the entry at `i` of `s0` with `(key, node)`,
/// where the old entry matched `key` and earlier entries do not match it.
proof fn lemma_insert_shape(
    s0: Seq<(NodeKey, Node)>,
    s1: Seq<(NodeKey, Node)>,
    i: int,
    key: NodeKey,
    node: Node,
    pre: StateStore,
    post: StateStore,
)
    requires
        pre.wf(),
        0 <= i < s0.len(),
        pre.entries() == s0,
        post.entries() == s1,
        s1 == s0.take(i) + seq![(key, node)] + s0.skip(i + 1),
        s0 == s0.take(i) + seq![s0[i]] + s0.skip(i + 1),
        key_eq(s0[i].0, key),
        key.wf(),
        node.wf(),
        seq_get(s0.take(i), key.version, key.path@) is None,
        forall|j: int| 0 <= j < i ==> !key_matches((#[trigger] s0.take(i)[j]).0, key.version, key.path@),
    ensures
        post.spec_get(key.version, key.path@) == Some(node),
        forall|v2: u64, p2: Seq<u8>|
            !(v2 == key.version && p2 == key.path@) ==> #[trigger] post.spec_get(v2, p2)
                == pre.spec_get(v2, p2),
        post.num_nodes() == pre.num_nodes(),
        forall|j: int| 0 <= j < s1.len() ==> ((#[trigger] s1[j]).0.wf() && s1[j].1.wf()),
{
    let head = s0.take(i);
    let mid_new = seq![(key, node)];
    let mid_old = seq![s0[i]];
    let tail = s0.skip(i + 1);
    assert forall|v2: u64, p2: Seq<u8>| true implies #[trigger] seq_get(s1, v2, p2) == if seq_get(
        head,
        v2,
        p2,
    ) is Some {
        seq_get(head, v2, p2)
    } else if key_matches(key, v2, p2) {
        Some(node)
    } else {
        seq_get(tail, v2, p2)
    } by {
        lemma_seq_get_concat(head + mid_new, tail, v2, p2);
        lemma_seq_get_concat(head, mid_new, v2, p2);
        assert((head + mid_new) + tail =~= s1);
        assert(mid_new.skip(1) =~= Seq::<(NodeKey, Node)>::empty());
        assert(seq_get(Seq::<(NodeKey, Node)>::empty(), v2, p2) is None);
        assert(mid_new[0] == (key, node));
    }
    assert forall|v2: u64, p2: Seq<u8>| true implies #[trigger] seq_get(s0, v2, p2) == if seq_get(
        head,
        v2,
        p2,
    ) is Some {
        seq_get(head, v2, p2)
    } else if key_matches(s0[i].0, v2, p2) {
        Some(s0[i].1)
    } else {
        seq_get(tail, v2, p2)
    } by {
        lemma_seq_get_concat(head + mid_old, tail, v2, p2);
        lemma_seq_get_concat(head, mid_old, v2, p2);
        assert((head + mid_old) + tail =~= s0);
        assert(mid_old.skip(1) =~= Seq::<(NodeKey, Node)>::empty());
        assert(seq_get(Seq::<(NodeKey, Node)>::empty(), v2, p2) is None);
        assert(mid_old[0] == s0[i]);
    }
    assert(key_matches(key, key.version, key.path@));
    assert forall|j: int| 0 <= j < s1.len() implies ((#[trigger] s1[j]).0.wf() && s1[j].1.wf()) by {
        if j < i {
            assert(s1[j] == s0[j]);
        } else if j > i {
            assert(s1[j] == s0[j]);
        }
    }
}

/// Shape facts after inserting `(key, node)` at position `i` of `s0`, where
/// no entry of `s0` matches `key`.
proof fn lemma_insert_shape_fresh(
    s0: Seq<(NodeKey, Node)>,
    s1: Seq<(NodeKey, Node)>,
    i: int,
    key: NodeKey,
    node: Node,
    pre: StateStore,
    post: StateStore,
)
    requires
        pre.wf(),
        0 <= i <= s0.len(),
        pre.entries() == s0,
        post.entries() == s1,
        s1 == s0.take(i) + seq![(key, node)] + s0.skip(i),
        key.wf(),
        node.wf(),
        seq_get(s0.take(i), key.version, key.path@) is None,
        forall|j: int| i <= j < s0.len() ==> !key_matches((#[trigger] s0[j]).0, key.version, key.path@),
    ensures
        post.spec_get(key.version, key.path@) == Some(node),
        forall|v2: u64, p2: Seq<u8>|
            !(v2 == key.version && p2 == key.path@) ==> #[trigger] post.spec_get(v2, p2)
                == pre.spec_get(v2, p2),
        pre.spec_get(key.version, key.path@) is None,
        post.num_nodes() == pre.num_nodes() + 1,
        forall|j: int| 0 <= j < s1.len() ==> ((#[trigger] s1[j]).0.wf() && s1[j].1.wf()),
{
    let head = s0.take(i);
    let mid = seq![(key, node)];
    let tail = s0.skip(i);
    assert(s0 =~= head + tail);
    assert forall|v2: u64, p2: Seq<u8>| true implies #[trigger] seq_get(s1, v2, p2) == if seq_get(
        head,
        v2,
        p2,
    ) is Some {
        seq_get(head, v2, p2)
    } else if key_matches(key, v2, p2) {
        Some(node)
    } else {
        seq_get(tail, v2, p2)
    } by {
        lemma_seq_get_concat(head + mid, tail, v2, p2);
        lemma_seq_get_concat(head, mid, v2, p2);
        assert((head + mid) + tail =~= s1);
        assert(mid.skip(1) =~= Seq::<(NodeKey, Node)>::empty());
        assert(seq_get(Seq::<(NodeKey, Node)>::empty(), v2, p2) is None);
        assert(mid[0] == (key, node));
    }
    assert forall|v2: u64, p2: Seq<u8>| true implies #[trigger] seq_get(s0, v2, p2) == if seq_get(
        head,
        v2,
        p2,
    ) is Some {
        seq_get(head, v2, p2)
    } else {
        seq_get(tail, v2, p2)
    } by {
        lemma_seq_get_concat(head, tail, v2, p2);
    }
    lemma_seq_get_index(tail, key.version, key.path@);
    if seq_get(tail, key.version, key.path@) is Some {
        let j = choose|j: int|
            0 <= j < tail.len() && key_matches((#[trigger] tail[j]).0, key.version, key.path@)
                && tail[j].1 == seq_get(tail, key.version, key.path@)->0;
        assert(tail[j] == s0[i + j]);
        assert(false);
    }
    assert(key_matches(key, key.version, key.path@));
    assert forall|j: int| 0 <= j < s1.len() implies ((#[trigger] s1[j]).0.wf() && s1[j].1.wf()) by {
        if j < i {
            assert(s1[j] == s0[j]);
        } else if j > i {
            assert(s1[j] == s0[j - 1]);
        }
    }
}

} // verus!
