//! In-memory skiplist index mapping inode numbers to their data-node
//! chains.
//!
//! Nodes are kept in an arena ordered by key, so the level-0 list is the
//! arena itself and the forward reference of a node at level `l` is the
//! next arena entry whose own level reaches `l`. Owning pointers between
//! nodes are avoided on purpose; a node carries only its key, its level and
//! its data chain.

use vstd::prelude::*;
use crate::NeFSError;
use crate::neutronfs::ClusterNumber;
use crate::neutronfs::DataNode;
use crate::neutronfs::MAX_LEVELS;
use crate::neutronfs::generate_level;

verus! {

/// Inode = Index Node: one key of the skiplist, with the file's data-node
/// chain. A node with level `l` participates in every level `0..=l`.
#[derive(Debug)]
pub struct INode {
    pub value: u64,
    pub level: u64,
    pub data: Vec<DataNode>,
}

/// The physical clusters of one run, in order.
pub open spec fn run_clusters(run: DataNode) -> Seq<u64> {
    Seq::new(run.clusters_used as nat, |i: int| (run.cluster_start_number + i) as u64)
}

/// The physical clusters of a whole chain, in file order.
pub open spec fn chain_clusters(chain: Seq<DataNode>) -> Seq<u64>
    decreases chain.len(),
{
    if chain.len() == 0 {
        Seq::empty()
    } else {
        run_clusters(chain[0]) + chain_clusters(chain.drop_first())
    }
}

/// No run of the chain wraps past the end of the cluster address space.
pub open spec fn chain_runs_wf(chain: Seq<DataNode>) -> bool {
    forall|i: int|
        0 <= i < chain.len() ==> (#[trigger] chain[i]).cluster_start_number + chain[i].clusters_used
            <= u64::MAX
}

impl INode {
    /// A fresh node for key `value` at skiplist level `level` owning the
    /// chain `data`.
    pub fn new(value: u64, level: u64, data: Vec<DataNode>) -> (res: Self)
        ensures
            res.value == value,
            res.level == level,
            res.data == data,
    {
        Self { value, level, data }
    }

    /// The node's key (its inode number).
    pub fn val(&self) -> (v: u64)
        ensures
            v == self.value,
    {
        self.value
    }

    /// Every physical cluster of the node's chain, in file order.
    pub fn get_all_data(&self) -> (res: Vec<ClusterNumber>)
        requires
            chain_runs_wf(self.data@),
            chain_clusters(self.data@).len() <= usize::MAX,
        ensures
            res@ == chain_clusters(self.data@),
    {
        let mut res: Vec<ClusterNumber> = Vec::new();
        let mut i: usize = 0;
        while i < self.data.len()
            invariant
                i <= self.data@.len(),
                chain_runs_wf(self.data@),
                chain_clusters(self.data@).len() <= usize::MAX,
                res@ == chain_clusters(self.data@.take(i as int)),
            decreases self.data@.len() - i,
        {
            let run = self.data[i];
            proof {
                lemma_chain_clusters_take_step(self.data@, i as int);
                lemma_chain_clusters_prefix_len(self.data@, i + 1);
            }
            let mut k: u64 = 0;
            while k < run.clusters_used
                invariant
                    k <= run.clusters_used,
                    run.cluster_start_number + run.clusters_used <= u64::MAX,
                    res@.len() + run.clusters_used - k <= usize::MAX,
                    res@ == chain_clusters(self.data@.take(i as int)) + run_clusters(run).take(
                        k as int,
                    ),
                decreases run.clusters_used - k,
            {
                res.push(run.cluster_start_number + k);
                k = k + 1;
                proof {
                    assert(res@ =~= chain_clusters(self.data@.take(i as int)) + run_clusters(
                        run,
                    ).take(k as int));
                }
            }
            i = i + 1;
            proof {
                assert(run_clusters(run).take(run.clusters_used as int) =~= run_clusters(run));
                assert(res@ =~= chain_clusters(self.data@.take(i as int)));
            }
        }
        proof {
            assert(self.data@.take(self.data@.len() as int) =~= self.data@);
        }
        res
    }

    /// Translates the `index`-th logical cluster of the file to its
    /// physical cluster number, walking the chain run by run; `None` when
    /// the file has no `index`-th cluster.
    pub fn get_data(&self, index: u64) -> (res: Option<ClusterNumber>)
        requires
            chain_runs_wf(self.data@),
        ensures
            index < chain_clusters(self.data@).len() ==> res == Some(
                chain_clusters(self.data@)[index as int],
            ),
            index >= chain_clusters(self.data@).len() ==> res is None,
    {
        let mut remaining: u64 = index;
        let mut i: usize = 0;
        proof {
            assert(self.data@.skip(0) =~= self.data@);
        }
        while i < self.data.len()
            invariant
                i <= self.data@.len(),
                chain_runs_wf(self.data@),
                remaining <= index,
                index < chain_clusters(self.data@).len() ==> remaining < chain_clusters(
                    self.data@.skip(i as int),
                ).len() && chain_clusters(self.data@.skip(i as int))[remaining as int]
                    == chain_clusters(self.data@)[index as int],
                index >= chain_clusters(self.data@).len() ==> remaining >= chain_clusters(
                    self.data@.skip(i as int),
                ).len(),
            decreases self.data@.len() - i,
        {
            let run = self.data[i];
            proof {
                assert(self.data@.skip(i as int)[0] == self.data@[i as int]);
                assert(self.data@.skip(i as int).drop_first() =~= self.data@.skip(i as int + 1));
            }
            if remaining < run.clusters_used {
                return Some(run.cluster_start_number + remaining);
            }
            remaining = remaining - run.clusters_used;
            i = i + 1;
        }
        proof {
            assert(self.data@.skip(self.data@.len() as int) =~= Seq::<DataNode>::empty());
        }
        None
    }
}

/// Keys strictly increase along the arena: the level-0 traversal order.
pub open spec fn strictly_sorted(s: Seq<INode>) -> bool {
    forall|i: int, j: int| 0 <= i < j < s.len() ==> s[i].value < s[j].value
}

/// Some arena entry holds key `k`.
pub open spec fn seq_contains_key(s: Seq<INode>, k: u64) -> bool {
    exists|i: int| 0 <= i < s.len() && (#[trigger] s[i]).value == k
}

/// The arena index holding key `k` (meaningful only when present).
pub open spec fn seq_index_of(s: Seq<INode>, k: u64) -> int {
    choose|i: int| 0 <= i < s.len() && (#[trigger] s[i]).value == k
}

/// The mapping the arena represents: key to data-node chain.
pub open spec fn seq_view(s: Seq<INode>) -> Map<u64, Seq<DataNode>> {
    Map::new(|k: u64| seq_contains_key(s, k), |k: u64| s[seq_index_of(s, k)].data@)
}

/// In a sorted arena an existing key sits at exactly one index.
pub proof fn lemma_index_of(s: Seq<INode>, k: u64)
    requires
        strictly_sorted(s),
        seq_contains_key(s, k),
    ensures
        0 <= seq_index_of(s, k) < s.len(),
        s[seq_index_of(s, k)].value == k,
        forall|i: int| 0 <= i < s.len() && (#[trigger] s[i]).value == k ==> i == seq_index_of(s, k),
{
    let idx = seq_index_of(s, k);
    assert(0 <= idx < s.len() && s[idx].value == k);
    assert forall|i: int| 0 <= i < s.len() && (#[trigger] s[i]).value == k implies i == idx by {
        if i < idx {
            assert(s[i].value < s[idx].value);
        } else if i > idx {
            assert(s[idx].value < s[i].value);
        }
    }
}

/// The root of the skiplist index: the number of levels in use and the
/// arena of nodes in level-0 (key) order.
#[derive(Debug)]
pub struct RootList {
    pub n_inode_levels: u64,
    // each level's list is the subsequence of nodes whose level reaches it
    pub inodes: Vec<INode>,
}

impl View for RootList {
    type V = Map<u64, Seq<DataNode>>;

    /// The mapping from inode number to data-node chain.
    open spec fn view(&self) -> Map<u64, Seq<DataNode>> {
        seq_view(self.inodes@)
    }
}

impl RootList {
    /// The structural invariant: keys strictly increase at level 0, every
    /// node's level lies below the root's level count, and the level count
    /// stays within `MAX_LEVELS`.
    pub open spec fn wf(&self) -> bool {
        &&& strictly_sorted(self.inodes@)
        &&& self.n_inode_levels <= MAX_LEVELS as u64
        &&& forall|i: int|
            0 <= i < self.inodes@.len() ==> (#[trigger] self.inodes@[i]).level
                < self.n_inode_levels
    }

    /// Whether key `k` is currently indexed.
    pub open spec fn contains_key(&self, k: u64) -> bool {
        seq_contains_key(self.inodes@, k)
    }

    /// The keys in level-0 traversal order.
    pub open spec fn key_seq(&self) -> Seq<u64> {
        self.inodes@.map_values(|n: INode| n.value)
    }

    /// Builds a root list from its parts.
    pub fn new(n_inode_levels: u64, inodes: Vec<INode>) -> (res: Self)
        requires
            strictly_sorted(inodes@),
            n_inode_levels <= MAX_LEVELS as u64,
            forall|i: int| 0 <= i < inodes@.len() ==> (#[trigger] inodes@[i]).level < n_inode_levels,
        ensures
            res.wf(),
            res.n_inode_levels == n_inode_levels,
            res.inodes == inodes,
    {
        Self { n_inode_levels, inodes }
    }

    /// An empty index.
    pub fn new_empty() -> (res: Self)
        ensures
            res.wf(),
            res@ == Map::<u64, Seq<DataNode>>::empty(),
            res.inodes@.len() == 0,
    {
        let res = Self { n_inode_levels: 0, inodes: Vec::new() };
        proof {
            assert(res@ =~= Map::<u64, Seq<DataNode>>::empty());
        }
        res
    }

    /// Searches for an inode number, descending the levels from the top:
    /// at each level the position advances while the next node on that
    /// level holds a smaller key, then drops one level; at level 0 the node
    /// is either found or absent.
    pub fn search(&self, val: u64) -> (res: Option<&INode>)
        requires
            self.wf(),
        ensures
            res is Some <==> self.contains_key(val),
            res is Some <==> self@.dom().contains(val),
            res matches Some(node) ==> node.value == val && self.inodes@[seq_index_of(
                self.inodes@,
                val,
            )] == *node && self@[val] == node.data@,
    {
        // `pos` is the greatest arena index known to hold a key below `val`.
        let mut pos: Option<usize> = None;
        let mut level: usize = self.n_inode_levels as usize;
        let n_nodes = self.inodes.len();

        // Express lanes: levels above 0.
        while level > 1
            invariant
                self.wf(),
                level <= MAX_LEVELS,
                n_nodes == self.inodes@.len(),
                match pos {
                    Some(p) => p < n_nodes && self.inodes@[p as int].value < val,
                    None => true,
                },
            decreases level,
        {
            level = level - 1;
            let lvl = level as u64;
            let mut scan: usize = match pos {
                None => 0,
                Some(p) => p + 1,
            };
            while scan < self.inodes.len()
                invariant
                    self.wf(),
                    scan <= self.inodes@.len(),
                    n_nodes == self.inodes@.len(),
                    match pos {
                        Some(p) => p < scan && self.inodes@[p as int].value < val,
                        None => true,
                    },
                decreases self.inodes@.len() - scan,
            {
                if self.inodes[scan].level >= lvl {
                    if self.inodes[scan].value < val {
                        pos = Some(scan);
                        scan = scan + 1;
                    } else {
                        break ;
                    }
                } else {
                    scan = scan + 1;
                }
            }
        }

        // Level 0: every node participates, so walk to the first key >= val.
        let mut scan: usize = match pos {
            None => 0,
            Some(p) => p + 1,
        };
        proof {
            assert forall|j: int| 0 <= j < scan implies self.inodes@[j].value < val by {
                match pos {
                    Some(p) => {
                        if j < p as int {
                            assert(self.inodes@[j].value < self.inodes@[p as int].value);
                        }
                    },
                    None => {},
                }
            }
        }
        while scan < self.inodes.len()
            invariant_except_break
                self.wf(),
                scan <= self.inodes@.len(),
                forall|j: int| 0 <= j < scan ==> self.inodes@[j].value < val,
            ensures
                scan <= self.inodes@.len(),
                forall|j: int| 0 <= j < scan ==> self.inodes@[j].value < val,
                scan < self.inodes@.len() ==> self.inodes@[scan as int].value >= val,
            decreases self.inodes@.len() - scan,
        {
            if self.inodes[scan].value < val {
                scan = scan + 1;
            } else {
                break ;
            }
        }
        if scan < self.inodes.len() {
            let node = &self.inodes[scan];
            if node.value == val {
                proof {
                    lemma_index_of(self.inodes@, val);
                    assert(seq_index_of(self.inodes@, val) == scan as int);
                }
                Some(node)
            } else {
                proof {
                    assert forall|i: int|
                        0 <= i < self.inodes@.len() implies (#[trigger] self.inodes@[i]).value
                        != val by {
                        if i < scan as int {
                        } else if i > scan as int {
                            assert(self.inodes@[scan as int].value < self.inodes@[i].value);
                        }
                    }
                }
                None
            }
        } else {
            None
        }
    }

    /// Inserts a fresh key at the given level, splicing the node into every
    /// level `0..=level` of the structure; rejects a key that is already
    /// indexed with `DuplicateKey`.
    pub fn add_node(&mut self, val: u64, level: u64) -> (res: Result<(), NeFSError>)
        requires
            old(self).wf(),
            level < MAX_LEVELS as u64,
        ensures
            final(self).wf(),
            res matches Ok(()) ==> !old(self).contains_key(val) && final(self)@ == old(
                self,
            )@.insert(val, Seq::<DataNode>::empty()) && final(self).key_seq().to_set() == old(
                self,
            ).key_seq().to_set().insert(val),
            res matches Err(e) ==> e == NeFSError::DuplicateKey && old(self).contains_key(val)
                && *final(self) == *old(self),
    {
        // find the splice position: the first arena index whose key is not
        // below val
        let mut idx: usize = 0;
        while idx < self.inodes.len()
            invariant_except_break
                self.wf(),
                idx <= self.inodes@.len(),
                forall|j: int| 0 <= j < idx ==> self.inodes@[j].value < val,
            ensures
                idx <= self.inodes@.len(),
                forall|j: int| 0 <= j < idx ==> self.inodes@[j].value < val,
                idx < self.inodes@.len() ==> self.inodes@[idx as int].value >= val,
            decreases self.inodes@.len() - idx,
        {
            if self.inodes[idx].value < val {
                idx = idx + 1;
            } else {
                break ;
            }
        }
        if idx < self.inodes.len() && self.inodes[idx].value == val {
            return Err(NeFSError::DuplicateKey);
        }
        proof {
            assert forall|i: int| idx as int <= i < self.inodes@.len() implies val < (
            #[trigger] self.inodes@[i]).value by {
                if i > idx as int {
                    assert(self.inodes@[idx as int].value < self.inodes@[i].value);
                }
            }
            assert(!old(self).contains_key(val));
        }
        let node = INode::new(val, level, Vec::new());
        self.inodes.insert(idx, node);
        if level + 1 > self.n_inode_levels {
            self.n_inode_levels = level + 1;
        }
        proof {
            lemma_view_after_insert(old(self).inodes@, self.inodes@, idx as int, node);
            lemma_key_set_after_insert(old(self).inodes@, self.inodes@, idx as int, node);
        }
        Ok(())
    }

    /// Removes a key, unsplicing its node from every level it participated
    /// in; an absent key is rejected with `NotFound`.
    pub fn remove_node(&mut self, val: u64) -> (res: Result<(), NeFSError>)
        requires
            old(self).wf(),
        ensures
            final(self).wf(),
            res matches Ok(()) ==> old(self).contains_key(val) && final(self)@ == old(
                self,
            )@.remove(val) && final(self).key_seq().to_set() == old(self).key_seq().to_set().remove(
                val,
            ),
            res matches Err(e) ==> e == NeFSError::NotFound && !old(self).contains_key(val)
                && *final(self) == *old(self),
    {
        let mut idx: usize = 0;
        while idx < self.inodes.len()
            invariant_except_break
                self.wf(),
                idx <= self.inodes@.len(),
                forall|j: int| 0 <= j < idx ==> self.inodes@[j].value != val,
            ensures
                idx <= self.inodes@.len(),
                forall|j: int| 0 <= j < idx ==> self.inodes@[j].value != val,
                idx < self.inodes@.len() ==> self.inodes@[idx as int].value == val,
            decreases self.inodes@.len() - idx,
        {
            if self.inodes[idx].value == val {
                break ;
            }
            idx = idx + 1;
        }
        if idx == self.inodes.len() {
            return Err(NeFSError::NotFound);
        }
        proof {
            lemma_index_of(self.inodes@, val);
        }
        self.inodes.remove(idx);
        proof {
            lemma_view_after_remove(old(self).inodes@, self.inodes@, idx as int, val);
            lemma_key_set_after_remove(old(self).inodes@, self.inodes@, idx as int, val);
        }
        Ok(())
    }

    /// Replaces the data-node chain attached to an existing key; an absent
    /// key is rejected with `NotFound`.
    pub fn set_data(&mut self, val: u64, data: Vec<DataNode>) -> (res: Result<(), NeFSError>)
        requires
            old(self).wf(),
        ensures
            final(self).wf(),
            final(self).n_inode_levels == old(self).n_inode_levels,
            res matches Ok(()) ==> old(self).contains_key(val) && final(self)@ == old(self)@.insert(
                val,
                data@,
            ) && final(self).key_seq() == old(self).key_seq(),
            res matches Err(e) ==> e == NeFSError::NotFound && !old(self).contains_key(val)
                && *final(self) == *old(self),
    {
        let mut idx: usize = 0;
        while idx < self.inodes.len()
            invariant_except_break
                self.wf(),
                idx <= self.inodes@.len(),
                forall|j: int| 0 <= j < idx ==> self.inodes@[j].value != val,
            ensures
                idx <= self.inodes@.len(),
                forall|j: int| 0 <= j < idx ==> self.inodes@[j].value != val,
                idx < self.inodes@.len() ==> self.inodes@[idx as int].value == val,
            decreases self.inodes@.len() - idx,
        {
            if self.inodes[idx].value == val {
                break ;
            }
            idx = idx + 1;
        }
        if idx == self.inodes.len() {
            return Err(NeFSError::NotFound);
        }
        proof {
            lemma_index_of(self.inodes@, val);
        }
        let level = self.inodes[idx].level;
        let node = INode::new(val, level, data);
        self.inodes.set(idx, node);
        proof {
            lemma_view_after_update(old(self).inodes@, self.inodes@, idx as int, node);
            assert(self.key_seq() =~= old(self).key_seq());
        }
        Ok(())
    }

    /// The keys as seen by a level-0 traversal, in order.
    pub fn level_zero_keys(&self) -> (res: Vec<u64>)
        requires
            self.wf(),
        ensures
            res@ == self.key_seq(),
    {
        let mut res: Vec<u64> = Vec::new();
        let mut i: usize = 0;
        while i < self.inodes.len()
            invariant
                i <= self.inodes@.len(),
                res@.len() == i,
                forall|j: int| 0 <= j < i ==> res@[j] == self.inodes@[j].value,
            decreases self.inodes@.len() - i,
        {
            res.push(self.inodes[i].val());
            i = i + 1;
        }
        proof {
            assert(res@ =~= self.key_seq());
        }
        res
    }
}

/// The level-0 traversal lists exactly the keys currently inserted, in
/// strictly increasing order: together with the contracts of `add_node`,
/// `remove_node` and `search`, after any sequence of inserts and removes a
/// search finds a key exactly when it is in the represented mapping, and
/// walking level 0 yields the key set sorted.
pub proof fn lemma_level_zero_traversal(l: RootList)
    requires
        l.wf(),
    ensures
        forall|i: int, j: int| 0 <= i < j < l.key_seq().len() ==> l.key_seq()[i] < l.key_seq()[j],
        forall|k: u64| l@.dom().contains(k) <==> l.key_seq().contains(k),
{
    assert forall|i: int, j: int|
        0 <= i < j < l.key_seq().len() implies l.key_seq()[i] < l.key_seq()[j] by {
        assert(l.inodes@[i].value < l.inodes@[j].value);
    }
    assert forall|k: u64| l@.dom().contains(k) implies l.key_seq().contains(k) by {
        let i = choose|i: int| 0 <= i < l.inodes@.len() && (#[trigger] l.inodes@[i]).value == k;
        assert(l.key_seq()[i] == k);
    }
    assert forall|k: u64| l.key_seq().contains(k) implies l@.dom().contains(k) by {
        let i = choose|i: int| 0 <= i < l.key_seq().len() && l.key_seq()[i] == k;
        assert(l.inodes@[i].value == k);
    }
}

/// Inserting a fresh key between its neighbours keeps the arena sorted and
/// adds exactly that key to the represented mapping.
proof fn lemma_view_after_insert(s0: Seq<INode>, s1: Seq<INode>, p: int, node: INode)
    requires
        strictly_sorted(s0),
        0 <= p <= s0.len(),
        s1 == s0.insert(p, node),
        forall|j: int| 0 <= j < p ==> s0[j].value < node.value,
        forall|j: int| p <= j < s0.len() ==> node.value < (#[trigger] s0[j]).value,
    ensures
        strictly_sorted(s1),
        seq_view(s1) == seq_view(s0).insert(node.value, node.data@),
{
    assert forall|i: int, j: int| 0 <= i < j < s1.len() implies s1[i].value < s1[j].value by {
        if i < p && j < p {
        } else if i < p && j == p {
        } else if i < p && j > p {
        } else if i == p {
        } else {
        }
    }
    assert forall|k: u64| seq_contains_key(s1, k) implies (k == node.value || seq_contains_key(
        s0,
        k,
    )) by {
        let i = choose|i: int| 0 <= i < s1.len() && (#[trigger] s1[i]).value == k;
        if i < p {
            assert(s0[i].value == k);
        } else if i > p {
            assert(s0[i - 1].value == k);
        }
    }
    assert forall|k: u64| seq_contains_key(s0, k) implies seq_contains_key(s1, k) by {
        let i = choose|i: int| 0 <= i < s0.len() && (#[trigger] s0[i]).value == k;
        if i < p {
            assert(s1[i].value == k);
        } else {
            assert(s1[i + 1].value == k);
        }
    }
    assert(s1[p].value == node.value);
    assert(seq_contains_key(s1, node.value));
    assert forall|k: u64| seq_contains_key(s1, k) && k != node.value implies seq_view(s1)[k]
        == seq_view(s0)[k] by {
        lemma_index_of(s1, k);
        lemma_index_of(s0, k);
        let i1 = seq_index_of(s1, k);
        let i0 = seq_index_of(s0, k);
        if i1 < p {
            assert(s1[i1] == s0[i1]);
            assert(i0 == i1);
        } else {
            assert(s1[i1] == s0[i1 - 1]);
            assert(i0 == i1 - 1);
        }
    }
    assert(seq_view(s1)[node.value] == node.data@) by {
        lemma_index_of(s1, node.value);
        assert(seq_index_of(s1, node.value) == p);
    }
    assert(seq_view(s1) =~= seq_view(s0).insert(node.value, node.data@));
}

/// The key set after an insert gains exactly the new key.
proof fn lemma_key_set_after_insert(s0: Seq<INode>, s1: Seq<INode>, p: int, node: INode)
    requires
        0 <= p <= s0.len(),
        s1 == s0.insert(p, node),
    ensures
        s1.map_values(|n: INode| n.value).to_set() == s0.map_values(
            |n: INode| n.value,
        ).to_set().insert(node.value),
{
    let k0 = s0.map_values(|n: INode| n.value);
    let k1 = s1.map_values(|n: INode| n.value);
    assert forall|v: u64| k1.to_set().contains(v) implies k0.to_set().insert(node.value).contains(
        v,
    ) by {
        let i = choose|i: int| 0 <= i < k1.len() && k1[i] == v;
        if i < p {
            assert(k0[i] == v);
            assert(k0.to_set().contains(v));
        } else if i > p {
            assert(k0[i - 1] == v);
            assert(k0.to_set().contains(v));
        }
    }
    assert forall|v: u64| k0.to_set().insert(node.value).contains(v) implies k1.to_set().contains(
        v,
    ) by {
        if v == node.value {
            assert(k1[p] == v);
        } else {
            let i = choose|i: int| 0 <= i < k0.len() && k0[i] == v;
            if i < p {
                assert(k1[i] == v);
            } else {
                assert(k1[i + 1] == v);
            }
        }
    }
    assert(k1.to_set() =~= k0.to_set().insert(node.value));
}

/// Removing the node of a key keeps the arena sorted and removes exactly
/// that key from the represented mapping.
proof fn lemma_view_after_remove(s0: Seq<INode>, s1: Seq<INode>, p: int, val: u64)
    requires
        strictly_sorted(s0),
        0 <= p < s0.len(),
        s0[p].value == val,
        s1 == s0.remove(p),
    ensures
        strictly_sorted(s1),
        seq_view(s1) == seq_view(s0).remove(val),
{
    assert forall|i: int, j: int| 0 <= i < j < s1.len() implies s1[i].value < s1[j].value by {
        if j < p {
        } else if i < p {
            assert(s1[j] == s0[j + 1]);
        } else {
            assert(s1[i] == s0[i + 1]);
            assert(s1[j] == s0[j + 1]);
        }
    }
    assert forall|k: u64| seq_contains_key(s1, k) implies seq_contains_key(s0, k) && k != val by {
        let i = choose|i: int| 0 <= i < s1.len() && (#[trigger] s1[i]).value == k;
        if i < p {
            assert(s0[i].value == k);
            if k == val {
                assert(s0[i].value < s0[p].value);
            }
        } else {
            assert(s0[i + 1].value == k);
            if k == val {
                assert(s0[p].value < s0[i + 1].value);
            }
        }
    }
    assert forall|k: u64| seq_contains_key(s0, k) && k != val implies seq_contains_key(s1, k) by {
        let i = choose|i: int| 0 <= i < s0.len() && (#[trigger] s0[i]).value == k;
        assert(i != p);
        if i < p {
            assert(s1[i].value == k);
        } else {
            assert(s1[i - 1].value == k);
        }
    }
    assert forall|k: u64| seq_contains_key(s1, k) implies seq_view(s1)[k] == seq_view(s0)[k] by {
        lemma_index_of(s1, k);
        lemma_index_of(s0, k);
        let i1 = seq_index_of(s1, k);
        let i0 = seq_index_of(s0, k);
        if i1 < p {
            assert(s1[i1] == s0[i1]);
            assert(i0 == i1);
        } else {
            assert(s1[i1] == s0[i1 + 1]);
            assert(i0 == i1 + 1);
        }
    }
    assert(seq_view(s1) =~= seq_view(s0).remove(val));
}

/// Updating the node of a key in place, keeping its key, keeps the arena
/// sorted and only rebinds that key in the represented mapping.
proof fn lemma_view_after_update(s0: Seq<INode>, s1: Seq<INode>, p: int, node: INode)
    requires
        strictly_sorted(s0),
        0 <= p < s0.len(),
        s0[p].value == node.value,
        s1 == s0.update(p, node),
    ensures
        strictly_sorted(s1),
        seq_view(s1) == seq_view(s0).insert(node.value, node.data@),
{
    assert forall|i: int, j: int| 0 <= i < j < s1.len() implies s1[i].value < s1[j].value by {
        assert(s1[i].value == s0[i].value);
        assert(s1[j].value == s0[j].value);
    }
    assert forall|k: u64| seq_contains_key(s1, k) implies seq_contains_key(s0, k) by {
        let i = choose|i: int| 0 <= i < s1.len() && (#[trigger] s1[i]).value == k;
        assert(s0[i].value == k);
    }
    assert forall|k: u64| seq_contains_key(s0, k) implies seq_contains_key(s1, k) by {
        let i = choose|i: int| 0 <= i < s0.len() && (#[trigger] s0[i]).value == k;
        assert(s1[i].value == k);
    }
    assert forall|k: u64| seq_contains_key(s1, k) && k != node.value implies seq_view(s1)[k]
        == seq_view(s0)[k] by {
        lemma_index_of(s1, k);
        lemma_index_of(s0, k);
        let i1 = seq_index_of(s1, k);
        assert(i1 != p);
        assert(s0[i1].value == k);
        assert(seq_index_of(s0, k) == i1);
    }
    assert(seq_view(s1)[node.value] == node.data@) by {
        lemma_index_of(s1, node.value);
        assert(s1[p].value == node.value);
        assert(seq_index_of(s1, node.value) == p);
    }
    assert(seq_contains_key(s1, node.value)) by {
        assert(s1[p].value == node.value);
    }
    assert(seq_view(s1) =~= seq_view(s0).insert(node.value, node.data@));
}

/// The key set after a remove loses exactly the removed key.
proof fn lemma_key_set_after_remove(s0: Seq<INode>, s1: Seq<INode>, p: int, val: u64)
    requires
        strictly_sorted(s0),
        0 <= p < s0.len(),
        s0[p].value == val,
        s1 == s0.remove(p),
    ensures
        s1.map_values(|n: INode| n.value).to_set() == s0.map_values(
            |n: INode| n.value,
        ).to_set().remove(val),
{
    let k0 = s0.map_values(|n: INode| n.value);
    let k1 = s1.map_values(|n: INode| n.value);
    assert forall|v: u64| k1.to_set().contains(v) implies k0.to_set().remove(val).contains(v) by {
        let i = choose|i: int| 0 <= i < k1.len() && k1[i] == v;
        if i < p {
            assert(k0[i] == v);
            if v == val {
                assert(s0[i].value < s0[p].value);
            }
        } else {
            assert(k0[i + 1] == v);
            if v == val {
                assert(s0[p].value < s0[i + 1].value);
            }
        }
    }
    assert forall|v: u64| k0.to_set().remove(val).contains(v) implies k1.to_set().contains(v) by {
        let i = choose|i: int| 0 <= i < k0.len() && k0[i] == v;
        if i < p {
            assert(k1[i] == v);
        } else if i > p {
            assert(k1[i - 1] == v);
        }
    }
    assert(k1.to_set() =~= k0.to_set().remove(val));
}

/// Chain prefix decomposition: one more run appends its clusters.
proof fn lemma_chain_clusters_take_step(chain: Seq<DataNode>, i: int)
    requires
        0 <= i < chain.len(),
    ensures
        chain_clusters(chain.take(i + 1)) == chain_clusters(chain.take(i)) + run_clusters(chain[i]),
    decreases i,
{
    if i == 0 {
        assert(chain.take(0) =~= Seq::<DataNode>::empty());
        assert(chain.take(1).drop_first() =~= Seq::<DataNode>::empty());
        assert(chain.take(1)[0] == chain[0]);
        assert(chain_clusters(chain.take(1)) =~= chain_clusters(chain.take(0)) + run_clusters(
            chain[0],
        ));
    } else {
        lemma_chain_clusters_take_step(chain.drop_first(), i - 1);
        assert(chain.take(i + 1).drop_first() =~= chain.drop_first().take(i));
        assert(chain.take(i).drop_first() =~= chain.drop_first().take(i - 1));
        assert(chain.drop_first()[i - 1] == chain[i]);
        assert(chain_clusters(chain.take(i + 1)) == run_clusters(chain[0]) + chain_clusters(
            chain.drop_first().take(i),
        ));
        assert(chain_clusters(chain.take(i)) == run_clusters(chain[0]) + chain_clusters(
            chain.drop_first().take(i - 1),
        ));
        assert(chain_clusters(chain.take(i + 1)) =~= chain_clusters(chain.take(i)) + run_clusters(
            chain[i],
        ));
    }
}

/// A chain prefix never yields more clusters than the whole chain.
proof fn lemma_chain_clusters_prefix_len(chain: Seq<DataNode>, i: int)
    requires
        0 <= i <= chain.len(),
    ensures
        chain_clusters(chain.take(i)).len() <= chain_clusters(chain).len(),
    decreases chain.len(),
{
    if chain.len() == 0 {
        assert(chain.take(i) =~= chain);
    } else if i == 0 {
        assert(chain.take(0) =~= Seq::<DataNode>::empty());
    } else {
        lemma_chain_clusters_prefix_len(chain.drop_first(), i - 1);
        assert(chain.take(i).drop_first() =~= chain.drop_first().take(i - 1));
        assert(chain.take(i)[0] == chain[0]);
        assert(chain_clusters(chain.take(i)) == run_clusters(chain[0]) + chain_clusters(
            chain.drop_first().take(i - 1),
        ));
    }
}

/// One node of the on-disk free-cluster chain; the chain always grows at
/// the front (LIFO).
#[derive(Debug)]
pub struct FreeClusterNode {
    pub cluster_number: u64,
    pub next_nodes: Vec<FreeClusterNode>,
}

impl FreeClusterNode {
    /// A chain node for `cluster_number` linking to `next_nodes`.
    pub fn new(cluster_number: u64, next_nodes: Vec<FreeClusterNode>) -> (res: Self)
        ensures
            res.cluster_number == cluster_number,
            res.next_nodes == next_nodes,
    {
        Self { cluster_number, next_nodes }
    }
}

/// Clusters whose blocks are wanted from the medium.
#[derive(Debug)]
pub struct ReadQueue {
    // want to read these blocks
    pub queue: Vec<u64>,
}

/// Records that `cluster_number` is wanted from the medium.
pub fn push_read_request(q: &mut ReadQueue, cluster_number: u64)
    ensures
        final(q).queue@ == old(q).queue@.push(cluster_number),
{
    q.queue.push(cluster_number);
}

/// Draws a level for a fresh key from the generator and splices the key
/// into the index at that level.
pub fn add_node(list: &mut RootList, mt: &mut rand_mt::Mt64, val: u64) -> (res: Result<
    (),
    NeFSError,
>)
    requires
        old(list).wf(),
    ensures
        final(list).wf(),
        res matches Ok(()) ==> !old(list).contains_key(val) && final(list)@ == old(list)@.insert(
            val,
            Seq::<DataNode>::empty(),
        ),
        res matches Err(e) ==> e == NeFSError::DuplicateKey && old(list).contains_key(val)
            && *final(list) == *old(list),
{
    // use mt
    let level = generate_level(mt);
    list.add_node(val, level)
}

} // verus!
