//! The virtual partition medium, the request handler cycle, and the
//! free-cluster allocator.
//!
//! The medium is a flat array of 4096-byte blocks addressed by cluster
//! number. The handler cycle services at most one read and one write
//! request per call, so that neither queue starves the other; a cluster
//! number beyond the partition bounds fails that single request with
//! `OutOfRange` and never the handler itself.

use vstd::prelude::*;
use crate::NeFSError;
use crate::block::Block;
use crate::block::NeutronDriver;
use crate::block::make_block;
use crate::neutronfs::ClusterNumber;

verus! {

/// In-memory view of a partition: a fixed number of blocks, all in order.
/// You can only read a single block at a time and write a single block at
/// a time.
#[derive(Debug)]
pub struct VPartition {
    n_blocks: u64,
    blocks: Vec<Block>,
}

impl View for VPartition {
    type V = Seq<Seq<u8>>;

    /// The bytes of each block, in cluster order.
    closed spec fn view(&self) -> Seq<Seq<u8>> {
        self.blocks@.map_values(|b: Block| b@)
    }
}

impl VPartition {
    /// The structural invariant: the block count matches the storage.
    pub closed spec fn wf(&self) -> bool {
        &&& self.blocks@.len() == self.n_blocks
        &&& self.n_blocks <= usize::MAX
    }

    /// Every block of the partition holds exactly 4096 bytes.
    pub proof fn lemma_blocks_are_whole(&self)
        ensures
            forall|i: int| 0 <= i < self@.len() ==> (#[trigger] self@[i]).len() == 4096,
    {
    }

    /// Wraps existing storage as a partition.
    pub fn new(n_blocks: u64, blocks: Vec<Block>) -> (res: Self)
        requires
            blocks@.len() == n_blocks,
        ensures
            res.wf(),
            res@ == blocks@.map_values(|b: Block| b@),
            res@.len() == n_blocks,
    {
        let n = blocks.len();
        proof {
            assert(n <= usize::MAX);
        }
        Self { n_blocks, blocks }
    }

    /// A partition of `n_blocks` zeroed blocks.
    pub fn new_empty(n_blocks: u64) -> (res: Self)
        requires
            n_blocks <= usize::MAX,
        ensures
            res.wf(),
            res@.len() == n_blocks,
            forall|i: int| 0 <= i < n_blocks ==> res@[i] == crate::block::empty_block(),
    {
        let mut blocks_zeroed: Vec<Block> = Vec::new();
        let mut i: u64 = 0;
        while i < n_blocks
            invariant
                i <= n_blocks,
                blocks_zeroed@.len() == i,
                forall|j: int|
                    0 <= j < i ==> (#[trigger] blocks_zeroed@[j])@ == crate::block::empty_block(),
            decreases n_blocks - i,
        {
            blocks_zeroed.push(make_block());
            i = i + 1;
        }
        let res = Self { n_blocks, blocks: blocks_zeroed };
        proof {
            assert(forall|j: int| 0 <= j < n_blocks ==> res@[j] == crate::block::empty_block());
        }
        res
    }

    /// The number of blocks the partition holds.
    pub fn max_size(&self) -> (n: u64)
        requires
            self.wf(),
        ensures
            n == self@.len(),
            n <= usize::MAX,
    {
        self.n_blocks
    }

    /// Reads one whole block.
    pub fn get_block(&mut self, block_id: u64) -> (res: Block)
        requires
            old(self).wf(),
            block_id < old(self)@.len(),
        ensures
            *final(self) == *old(self),
            res@ == old(self)@[block_id as int],
    {
        self.blocks[block_id as usize]
    }

    /// Writes one whole block.
    pub fn write_block(&mut self, block_id: u64, block: Block)
        requires
            old(self).wf(),
            block_id < old(self)@.len(),
        ensures
            final(self).wf(),
            final(self)@ == old(self)@.update(block_id as int, block@),
    {
        self.blocks[block_id as usize] = block;
        proof {
            assert(self@ =~= old(self)@.update(block_id as int, block@));
        }
    }
}

/// Outcome of servicing one read request: the cluster asked for and either
/// the block read or the per-request error.
pub struct ReadCompletion {
    pub cluster_number: ClusterNumber,
    pub result: Result<Block, NeFSError>,
}

/// Outcome of servicing one write request.
pub struct WriteCompletion {
    pub cluster_number: ClusterNumber,
    pub result: Result<(), NeFSError>,
}

/// One cycle of the handler loop: services at most one read request and
/// then at most one write request, so neither queue starves the other. An
/// out-of-range cluster fails that single request with `OutOfRange`; the
/// handler itself carries on.
pub fn handle_request_cycle(driver: &mut NeutronDriver, medium: &mut VPartition) -> (res: (
    Option<ReadCompletion>,
    Option<WriteCompletion>,
))
    requires
        old(driver).inv(),
        old(medium).wf(),
    ensures
        final(driver).inv(),
        final(medium).wf(),
        final(medium)@.len() == old(medium)@.len(),
        ({
            let rr = old(driver).read_requests();
            match res.0 {
                None => rr.len() == 0 && final(driver).read_requests() == rr,
                Some(rc) => {
                    &&& rr.len() > 0
                    &&& final(driver).read_requests() == rr.drop_first()
                    &&& rc.cluster_number == rr[0].0
                    &&& rr[0].0 < old(medium)@.len() ==> (rc.result matches Ok(b) && b@ == old(
                        medium,
                    )@[rr[0].0 as int])
                    &&& rr[0].0 >= old(medium)@.len() ==> (rc.result matches Err(e) && e
                        == NeFSError::OutOfRange)
                },
            }
        }),
        ({
            let wr = old(driver).write_requests();
            match res.1 {
                None => wr.len() == 0 && final(driver).write_requests() == wr && final(medium)@
                    == old(medium)@,
                Some(wc) => {
                    &&& wr.len() > 0
                    &&& final(driver).write_requests() == wr.drop_first()
                    &&& wc.cluster_number == wr[0].0
                    &&& wr[0].0 < old(medium)@.len() ==> (wc.result matches Ok(u)
                        && final(medium)@ == old(medium)@.update(wr[0].0 as int, wr[0].1@))
                    &&& wr[0].0 >= old(medium)@.len() ==> (wc.result matches Err(e) && e
                        == NeFSError::OutOfRange && final(medium)@ == old(medium)@)
                },
            }
        }),
{
    // check read requests
    let read_completion: Option<ReadCompletion> = match driver.pop_read_request() {
        Some(req) => {
            let cluster_number = req.0;
            if cluster_number < medium.max_size() {
                let block = medium.get_block(cluster_number);
                Some(ReadCompletion { cluster_number, result: Ok(block) })
            } else {
                // invalid block number: fatal for this request only
                Some(ReadCompletion { cluster_number, result: Err(NeFSError::OutOfRange) })
            }
        },
        None => None,
    };
    // check write requests
    let write_completion: Option<WriteCompletion> = match driver.pop_write_request() {
        Some(req) => {
            let cluster_number = req.0;
            if cluster_number < medium.max_size() {
                medium.write_block(cluster_number, req.1);
                Some(WriteCompletion { cluster_number, result: Ok(()) })
            } else {
                Some(WriteCompletion { cluster_number, result: Err(NeFSError::OutOfRange) })
            }
        },
        None => None,
    };
    (read_completion, write_completion)
}

/// Cluster 0 and the three superblock locations are reserved and never
/// allocatable.
pub open spec fn spec_reserved_cluster(c: u64) -> bool {
    c == 0 || c == 16 || c == 32 || c == 48
}

/// Whether `c` is one of the reserved cluster numbers.
pub fn is_reserved_cluster(c: u64) -> (res: bool)
    ensures
        res == spec_reserved_cluster(c),
{
    c == 0 || c == 16 || c == 32 || c == 48
}

/// LIFO free-cluster tracking: `free` holds every free cluster number,
/// newest at the end; allocation pops from the end in O(1).
#[derive(Debug)]
pub struct ClusterAllocator {
    free: Vec<ClusterNumber>,
    n_total: u64,
}

impl View for ClusterAllocator {
    type V = Seq<ClusterNumber>;

    /// The free clusters, oldest first.
    closed spec fn view(&self) -> Seq<ClusterNumber> {
        self.free@
    }
}

impl ClusterAllocator {
    /// The allocator invariant: free clusters are distinct, addressable and
    /// never reserved.
    pub closed spec fn wf(&self) -> bool {
        &&& forall|i: int, j: int| 0 <= i < j < self.free@.len() ==> self.free@[i] != self.free@[j]
        &&& forall|i: int|
            0 <= i < self.free@.len() ==> (#[trigger] self.free@[i]) < self.n_total
                && !spec_reserved_cluster(self.free@[i])
    }

    /// The size of the cluster address space being tracked.
    pub closed spec fn total(&self) -> u64 {
        self.n_total
    }

    /// An allocator for a medium of `n_total` clusters with every
    /// addressable, non-reserved cluster free.
    pub fn new_full(n_total: u64) -> (res: Self)
        requires
            n_total <= usize::MAX,
        ensures
            res.wf(),
            res.total() == n_total,
            res@.to_set() == Set::new(|c: u64| c < n_total && !spec_reserved_cluster(c)),
    {
        let mut free: Vec<ClusterNumber> = Vec::new();
        let mut c: u64 = 0;
        while c < n_total
            invariant
                c <= n_total,
                forall|i: int, j: int| 0 <= i < j < free@.len() ==> free@[i] != free@[j],
                forall|i: int|
                    0 <= i < free@.len() ==> (#[trigger] free@[i]) < c && !spec_reserved_cluster(
                        free@[i],
                    ),
                forall|x: u64| x < c && !spec_reserved_cluster(x) ==> free@.contains(x),
            decreases n_total - c,
        {
            if !is_reserved_cluster(c) {
                let ghost prev = free@;
                free.push(c);
                proof {
                    assert forall|x: u64|
                        x < c + 1 && !spec_reserved_cluster(x) implies free@.contains(x) by {
                        if x < c {
                            let k = choose|k: int| 0 <= k < prev.len() && prev[k] == x;
                            assert(free@[k] == x);
                        } else {
                            assert(free@[free@.len() - 1] == c);
                        }
                    }
                }
            } else {
                proof {
                    assert forall|x: u64|
                        x < c + 1 && !spec_reserved_cluster(x) implies free@.contains(x) by {}
                }
            }
            c = c + 1;
        }
        let res = Self { free, n_total };
        proof {
            assert forall|x: u64| res@.contains(x) implies x < n_total && !spec_reserved_cluster(
                x,
            ) by {
                let k = choose|k: int| 0 <= k < res@.len() && res@[k] == x;
                assert(res@[k] < n_total && !spec_reserved_cluster(res@[k]));
            }
            assert(res@.to_set() =~= Set::new(|x: u64| x < n_total && !spec_reserved_cluster(x)));
        }
        res
    }

    /// How many clusters are currently free.
    pub fn n_free(&self) -> (n: usize)
        ensures
            n == self@.len(),
    {
        self.free.len()
    }

    /// Whether `c` is currently on the free list.
    pub fn is_free(&self, c: ClusterNumber) -> (res: bool)
        ensures
            res == self@.contains(c),
    {
        let mut i: usize = 0;
        while i < self.free.len()
            invariant
                i <= self.free@.len(),
                forall|j: int| 0 <= j < i ==> self.free@[j] != c,
            decreases self.free@.len() - i,
        {
            if self.free[i] == c {
                return true;
            }
            i = i + 1;
        }
        false
    }

    /// Pops `n_clusters` free clusters, newest first: all or nothing. Fails
    /// with `OutOfSpace`, leaving the free list untouched, exactly when
    /// fewer than `n_clusters` are free.
    pub fn allocate(&mut self, n_clusters: u64) -> (res: Result<Vec<ClusterNumber>, NeFSError>)
        requires
            old(self).wf(),
        ensures
            final(self).wf(),
            final(self).total() == old(self).total(),
            res matches Err(e) ==> e == NeFSError::OutOfSpace && old(self)@.len() < n_clusters
                && final(self)@ == old(self)@,
            res matches Ok(v) ==> {
                &&& old(self)@.len() >= n_clusters
                &&& v@.len() == n_clusters
                &&& final(self)@ == old(self)@.take(old(self)@.len() - n_clusters)
                &&& v@ == old(self)@.skip(old(self)@.len() - n_clusters).reverse()
                &&& forall|i: int, j: int| 0 <= i < j < v@.len() ==> v@[i] != v@[j]
                &&& forall|i: int|
                    0 <= i < v@.len() ==> (#[trigger] v@[i]) < old(self).total()
                        && !spec_reserved_cluster(v@[i]) && old(self)@.contains(v@[i])
                        && !final(self)@.contains(v@[i])
            },
    {
        if (self.free.len() as u64) < n_clusters {
            return Err(NeFSError::OutOfSpace);
        }
        let n = n_clusters as usize;
        let mut v: Vec<ClusterNumber> = Vec::new();
        let mut k: usize = 0;
        while k < n
            invariant
                k <= n,
                n <= old(self)@.len(),
                self.n_total == old(self).n_total,
                self.free@ == old(self)@.take(old(self)@.len() - k),
                v@.len() == k,
                forall|j: int| 0 <= j < k ==> v@[j] == old(self)@[old(self)@.len() - 1 - j],
                old(self).wf(),
            decreases n - k,
        {
            let c = self.free.pop().unwrap();
            v.push(c);
            k = k + 1;
            proof {
                assert(self.free@ =~= old(self)@.take(old(self)@.len() - k));
            }
        }
        proof {
            assert(self.wf());
            assert(v@ =~= old(self)@.skip(old(self)@.len() - n_clusters).reverse());
            let len = old(self)@.len() as int;
            assert forall|i: int, j: int| 0 <= i < j < v@.len() implies v@[i] != v@[j] by {
                assert(v@[i] == old(self)@[len - 1 - i]);
                assert(v@[j] == old(self)@[len - 1 - j]);
            }
            assert forall|i: int|
                0 <= i < v@.len() implies (#[trigger] v@[i]) < old(self).total()
                && !spec_reserved_cluster(v@[i]) && old(self)@.contains(v@[i]) && !self@.contains(
                v@[i],
            ) by {
                assert(v@[i] == old(self)@[len - 1 - i]);
                assert(old(self)@.contains(v@[i]));
                if self@.contains(v@[i]) {
                    let j = choose|j: int| 0 <= j < self@.len() && self@[j] == v@[i];
                    assert(old(self)@[j] == old(self)@[len - 1 - i]);
                    assert(j < len - (n_clusters as int));
                    assert(len - 1 - i >= len - (n_clusters as int));
                    assert(false);
                }
            }
        }
        Ok(v)
    }

    /// Pushes a cluster back to the head of the free list. Fails with
    /// `OutOfRange` for a cluster that is not addressable or is reserved,
    /// and with `DoubleFree` — an allocator invariant violation — for a
    /// cluster that is already free; exactly in those cases the list is
    /// left untouched.
    pub fn deallocate(&mut self, cluster_number: ClusterNumber) -> (res: Result<(), NeFSError>)
        requires
            old(self).wf(),
        ensures
            final(self).wf(),
            final(self).total() == old(self).total(),
            res matches Ok(u) ==> cluster_number < old(self).total() && !spec_reserved_cluster(
                cluster_number,
            ) && !old(self)@.contains(cluster_number) && final(self)@ == old(self)@.push(
                cluster_number,
            ),
            res matches Err(e) ==> final(self)@ == old(self)@ && (e == NeFSError::OutOfRange || e
                == NeFSError::DoubleFree) && (e == NeFSError::OutOfRange <==> (cluster_number
                >= old(self).total() || spec_reserved_cluster(cluster_number))) && (e
                == NeFSError::DoubleFree <==> (cluster_number < old(self).total()
                && !spec_reserved_cluster(cluster_number) && old(self)@.contains(cluster_number))),
    {
        if cluster_number >= self.n_total || is_reserved_cluster(cluster_number) {
            return Err(NeFSError::OutOfRange);
        }
        if self.is_free(cluster_number) {
            return Err(NeFSError::DoubleFree);
        }
        self.free.push(cluster_number);
        proof {
            assert forall|i: int, j: int|
                0 <= i < j < self.free@.len() implies self.free@[i] != self.free@[j] by {
                if j == self.free@.len() - 1 {
                    assert(!old(self)@.contains(cluster_number));
                    assert(old(self)@[i] != cluster_number);
                }
            }
        }
        Ok(())
    }
}

/// Allocating any number of clusters and then returning every one of them
/// restores the free list to its original set of available cluster
/// numbers: after `allocate(n)` the free list is the original minus its
/// last `n` entries, the allocation holds those entries newest-first, and
/// deallocating each of them in turn appends them again, so the final free
/// list holds exactly the original set (order aside).
pub proof fn lemma_allocate_then_deallocate_restores(orig: Seq<u64>, n: int)
    requires
        0 <= n <= orig.len(),
    ensures
        (orig.take(orig.len() - n) + orig.skip(orig.len() - n).reverse()).to_set() == orig.to_set(),
{
    let cut = orig.len() - n;
    let fin = orig.take(cut) + orig.skip(cut).reverse();
    assert forall|x: u64| fin.contains(x) implies orig.contains(x) by {
        let i = choose|i: int| 0 <= i < fin.len() && fin[i] == x;
        if i < cut {
            assert(orig[i] == x);
        } else {
            assert(orig[cut + (n - 1 - (i - cut))] == x);
        }
    }
    assert forall|x: u64| orig.contains(x) implies fin.contains(x) by {
        let i = choose|i: int| 0 <= i < orig.len() && orig[i] == x;
        if i < cut {
            assert(fin[i] == x);
        } else {
            assert(fin[cut + (n - 1 - (i - cut))] == x);
        }
    }
    assert(fin.to_set() =~= orig.to_set());
}

} // verus!
