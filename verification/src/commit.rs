use vstd::prelude::*;
use crate::node_key::NodeKey;
use crate::node::Node;
use crate::store::{StateStore, StaleNodeIndex, SchemaBatch, add_node_batch};
use crate::StateStoreError;

verus! {

/// The four per-version counters a commit reports to the ledger's counter
/// collaborator.
#[derive(Clone, Copy, PartialEq, Eq, Structural, Debug)]
pub enum LedgerCounter {
    NewStateNodes,
    NewStateLeaves,
    StaleStateNodes,
    StaleStateLeaves,
}

/// One counter bump: which version, which counter, by how much.
pub struct CounterBump {
    pub version: u64,
    pub counter: LedgerCounter,
    pub amount: usize,
}

/// Per-version statistics the tree engine reports for one new version.
#[derive(Clone, Copy)]
pub struct NodeStats {
    pub new_nodes: usize,
    pub new_leaves: usize,
    pub stale_nodes: usize,
    pub stale_leaves: usize,
}

/// The tree engine's structural diff for a batch of write-sets: the new
/// nodes, the keys they supersede, and per-version statistics.
pub struct TreeUpdateBatch {
    pub node_batch: Vec<(NodeKey, Node)>,
    pub stale_node_index_batch: Vec<StaleNodeIndex>,
    pub node_stats: Vec<NodeStats>,
}

/// The accumulator a commit stages into: one atomic schema batch plus the
/// counter bumps to publish with it. Durability is the caller's step.
pub struct ChangeSet {
    pub batch: SchemaBatch,
    pub counters: Vec<CounterBump>,
}

impl ChangeSet {
    pub fn new() -> (cs: ChangeSet)
        ensures
            cs.batch.node_puts@ == Seq::<(NodeKey, Node)>::empty(),
            cs.batch.stale_puts@ == Seq::<StaleNodeIndex>::empty(),
            cs.counters@ == Seq::<CounterBump>::empty(),
    {
        ChangeSet { batch: SchemaBatch::new(), counters: Vec::new() }
    }
}

/// Total new nodes across a run of per-version statistics.
pub open spec fn sum_new_nodes(stats: Seq<NodeStats>) -> int
    decreases stats.len(),
{
    if stats.len() == 0 {
        0
    } else {
        stats[0].new_nodes + sum_new_nodes(stats.skip(1))
    }
}

/// Total stale nodes across a run of per-version statistics.
pub open spec fn sum_stale_nodes(stats: Seq<NodeStats>) -> int
    decreases stats.len(),
{
    if stats.len() == 0 {
        0
    } else {
        stats[0].stale_nodes + sum_stale_nodes(stats.skip(1))
    }
}

/// A tree update is consistent when its statistics count exactly what it
/// stages: as many new nodes as node puts, as many stale nodes as markers.
pub open spec fn consistent_update(u: TreeUpdateBatch) -> bool {
    u.node_batch@.len() == sum_new_nodes(u.node_stats@) && u.stale_node_index_batch@.len()
        == sum_stale_nodes(u.node_stats@)
}

/// The four bumps staged for version `first_version + i` of a commit.
pub open spec fn bumps_at(cs: Seq<CounterBump>, base: int, first_version: u64, stats: Seq<
    NodeStats,
>, i: int) -> bool {
    &&& cs[base + 4 * i] == (CounterBump {
        version: (first_version + i) as u64,
        counter: LedgerCounter::NewStateNodes,
        amount: stats[i].new_nodes,
    })
    &&& cs[base + 4 * i + 1] == (CounterBump {
        version: (first_version + i) as u64,
        counter: LedgerCounter::NewStateLeaves,
        amount: stats[i].new_leaves,
    })
    &&& cs[base + 4 * i + 2] == (CounterBump {
        version: (first_version + i) as u64,
        counter: LedgerCounter::StaleStateNodes,
        amount: stats[i].stale_nodes,
    })
    &&& cs[base + 4 * i + 3] == (CounterBump {
        version: (first_version + i) as u64,
        counter: LedgerCounter::StaleStateLeaves,
        amount: stats[i].stale_leaves,
    })
}

impl StateStore {
    /// Stages the outcome of one batched multi-version commit.
    ///
    /// The embedder hashes the addresses of `num_write_sets` write-sets (see
    /// `hash_account_state_sets`), hands them to the tree engine with
    /// `first_version`, and passes the engine's reply here as
    /// `new_root_hashes` and `tree_update`. This function enforces the
    /// engine's interface contract—one root hash and one statistics record
    /// per write-set; a mismatch is a fatal `ContractViolation` and stages
    /// nothing—then bumps the four counters for each version and stages
    /// every node write and stale-node marker into `cs`. Durability is the
    /// caller's: nothing is written until `cs.batch` is committed.
    #[verifier::rlimit(30)]
    pub fn put_account_state_sets(
        &self,
        num_write_sets: usize,
        first_version: u64,
        new_root_hashes: Vec<Vec<u8>>,
        tree_update: TreeUpdateBatch,
        cs: &mut ChangeSet,
    ) -> (r: Result<Vec<Vec<u8>>, StateStoreError>)
        requires
            first_version as int + num_write_sets as int <= u64::MAX as int,
        ensures
            (r is Ok) <==> (new_root_hashes@.len() == num_write_sets
                && tree_update.node_stats@.len() == num_write_sets),
            r is Err ==> r == Err::<Vec<Vec<u8>>, StateStoreError>(
                StateStoreError::ContractViolation,
            ) && *final(cs) == *old(cs),
            r is Ok ==> {
                &&& r == Ok::<Vec<Vec<u8>>, StateStoreError>(new_root_hashes)
                &&& final(cs).batch.node_puts@ == old(cs).batch.node_puts@
                    + tree_update.node_batch@
                &&& final(cs).batch.stale_puts@ == old(cs).batch.stale_puts@
                    + tree_update.stale_node_index_batch@
                &&& final(cs).counters@.len() == old(cs).counters@.len() + 4
                    * tree_update.node_stats@.len()
                &&& final(cs).counters@.take(old(cs).counters@.len() as int) == old(cs).counters@
                &&& forall|i: int|
                    0 <= i < tree_update.node_stats@.len() ==> bumps_at(
                        final(cs).counters@,
                        old(cs).counters@.len() as int,
                        first_version,
                        tree_update.node_stats@,
                        i,
                    )
            },
    {
        if new_root_hashes.len() != num_write_sets || tree_update.node_stats.len()
            != num_write_sets {
            return Err(StateStoreError::ContractViolation);
        }
        let TreeUpdateBatch { node_batch, stale_node_index_batch, node_stats } = tree_update;
        let ghost base = cs.counters@.len() as int;
        let ghost stats0 = node_stats@;
        let mut i: usize = 0;
        while i < node_stats.len()
            invariant
                node_stats@ == stats0,
                stats0.len() == num_write_sets,
                first_version as int + num_write_sets as int <= u64::MAX as int,
                0 <= i <= stats0.len(),
                cs.batch == old(cs).batch,
                cs.counters@.len() == base + 4 * i,
                cs.counters@.take(base) == old(cs).counters@,
                base == old(cs).counters@.len(),
                forall|j: int| 0 <= j < i ==> bumps_at(cs.counters@, base, first_version, stats0, j),
            decreases stats0.len() - i,
        {
            let ghost cs_before = cs.counters@;
            let st = node_stats[i];
            let version: u64 = first_version + (i as u64);
            cs.counters.push(
                CounterBump { version, counter: LedgerCounter::NewStateNodes, amount: st.new_nodes },
            );
            cs.counters.push(
                CounterBump {
                    version,
                    counter: LedgerCounter::NewStateLeaves,
                    amount: st.new_leaves,
                },
            );
            cs.counters.push(
                CounterBump {
                    version,
                    counter: LedgerCounter::StaleStateNodes,
                    amount: st.stale_nodes,
                },
            );
            cs.counters.push(
                CounterBump {
                    version,
                    counter: LedgerCounter::StaleStateLeaves,
                    amount: st.stale_leaves,
                },
            );
            proof {
                assert(cs.counters@.take(base) =~= cs_before.take(base));
                assert forall|j: int| 0 <= j < i + 1 implies bumps_at(
                    cs.counters@,
                    base,
                    first_version,
                    stats0,
                    j,
                ) by {
                    if j < i {
                        assert(bumps_at(cs_before, base, first_version, stats0, j));
                        assert(cs.counters@[base + 4 * j] == cs_before[base + 4 * j]);
                        assert(cs.counters@[base + 4 * j + 1] == cs_before[base + 4 * j + 1]);
                        assert(cs.counters@[base + 4 * j + 2] == cs_before[base + 4 * j + 2]);
                        assert(cs.counters@[base + 4 * j + 3] == cs_before[base + 4 * j + 3]);
                    }
                }
            }
            i += 1;
        }
        add_node_batch(&mut cs.batch, node_batch);
        let mut stales = stale_node_index_batch;
        let ghost sorig = stales@;
        let ghost sstart = cs.batch.stale_puts@;
        let ghost counters_done = cs.counters@;
        let ghost puts_done = cs.batch.node_puts@;
        proof {
            assert(sstart + sorig =~= cs.batch.stale_puts@ + stales@);
        }
        while stales.len() > 0
            invariant
                sstart + sorig =~= cs.batch.stale_puts@ + stales@,
                cs.counters@ == counters_done,
                cs.batch.node_puts@ == puts_done,
            decreases stales@.len(),
        {
            let m = stales.remove(0);
            cs.batch.stale_puts.push(m);
            proof {
                assert(sstart + sorig =~= cs.batch.stale_puts@ + stales@);
            }
        }
        proof {
            assert(cs.batch.stale_puts@ + stales@ =~= cs.batch.stale_puts@);
            assert(cs.batch.stale_puts@ =~= sstart + sorig);
        }
        Ok(new_root_hashes)
    }
}

/// Monotonic statistics: when a consistent tree update—one whose statistics
/// count exactly the nodes and stale markers it stages—is committed onto a
/// store with fresh, distinct keys, the store's live-node balance (nodes
/// minus stale markers) moves by exactly the update's new-node total minus
/// its stale-node total. Summed over every committed version, new nodes
/// minus stale nodes therefore equals the live nodes in the store.
pub proof fn lemma_statistics_balance(pre: StateStore, post: StateStore, u: TreeUpdateBatch)
    requires
        consistent_update(u),
        post.num_nodes() == pre.num_nodes() + u.node_batch@.len(),
        post.num_stale() == pre.num_stale() + u.stale_node_index_batch@.len(),
    ensures
        post.num_nodes() - post.num_stale() == pre.num_nodes() - pre.num_stale() + sum_new_nodes(
            u.node_stats@,
        ) - sum_stale_nodes(u.node_stats@),
{
}

} // verus!
