//! The partition manager: owns the in-memory superblock, the skiplist
//! index root and the free-cluster list of one partition, and coordinates
//! them with the block medium through the request queues.
//!
//! Every file's chain is kept as single-cluster runs (the allocator hands
//! clusters out one at a time, LIFO, trading locality for O(1) behaviour),
//! so a file's length is always a whole number of clusters and byte `j` of
//! a file lives at byte `j % 4096` of the chain's `j / 4096`-th cluster.

use vstd::prelude::*;
use vstd::arithmetic::div_mod::lemma_fundamental_div_mod;
use vstd::pervasive::unreached;
use crate::NeFSError;
use crate::block::Block;
use crate::block::BlockDriver;
use crate::block::NeutronDriver;
use crate::block::empty_block;
use crate::block::make_block;
use crate::neutronfs::generate_level;
use crate::neutronfs::ClusterNumber;
use crate::neutronfs::DataNode;
use crate::neutronfs::FSUUID;
use crate::neutronfs::InodeNumber;
use crate::neutronfs::SuperBlock;
use crate::neutronfs::SUPERBLOCK_MAGIC;
use crate::neutronfs::spec_superblock_block;
use crate::neutronfs::spec_superblock_body;
use crate::neutronfs::spec_decodes_to;
use crate::neutronfs::spec_valid_superblock_block;
use crate::neutronfs::lemma_superblock_block_decodes;
use crate::neutronfs::lemma_decode_unique;
use crate::neutronfs::validate_superblock;
use crate::neutronfs::crc32c_of;
use crate::neutronfs::u64_from_le_at;
use crate::partition::VPartition;
use crate::partition::ClusterAllocator;
use crate::partition::handle_request_cycle;
use crate::partition::spec_reserved_cluster;
use crate::skiplist::RootList;

verus! {

/// Cluster numbers of the three redundant superblock copies (byte offsets
/// 0x10000, 0x20000 and 0x30000 from the partition start).
pub const SUPERBLOCK_CLUSTER_PRIMARY: u64 = 16;

/// Cluster of the secondary superblock copy.
pub const SUPERBLOCK_CLUSTER_SECONDARY: u64 = 32;

/// Cluster of the tertiary superblock copy.
pub const SUPERBLOCK_CLUSTER_TERTIARY: u64 = 48;

/// Largest supported cluster count, so that every byte offset of a file
/// fits comfortably in a `u64`.
pub const MAX_CLUSTER_COUNT: u64 = 0x1000000000000;

/// Reads one block by parking a read request in the queue and letting one
/// handler cycle service it.
fn read_cluster_queued(driver: &mut NeutronDriver, medium: &mut VPartition, cluster: u64) -> (res:
    Block)
    requires
        old(driver).inv(),
        old(driver).read_requests().len() == 0,
        old(driver).write_requests().len() == 0,
        old(medium).wf(),
        cluster < old(medium)@.len(),
    ensures
        final(driver).inv(),
        final(driver).read_requests().len() == 0,
        final(driver).write_requests().len() == 0,
        final(medium).wf(),
        final(medium)@ == old(medium)@,
        res@ == old(medium)@[cluster as int],
{
    let mut buf = make_block();
    driver.push_read_request(&mut buf, cluster);
    let cycle = handle_request_cycle(driver, medium);
    match cycle.0 {
        Some(completion) => match completion.result {
            Ok(block) => block,
            Err(_) => unreached(),
        },
        None => unreached(),
    }
}

/// Writes one block by parking a write request in the queue and letting
/// one handler cycle service it.
fn write_cluster_queued(driver: &mut NeutronDriver, medium: &mut VPartition, cluster: u64, block: Block)
    requires
        old(driver).inv(),
        old(driver).read_requests().len() == 0,
        old(driver).write_requests().len() == 0,
        old(medium).wf(),
        cluster < old(medium)@.len(),
    ensures
        final(driver).inv(),
        final(driver).read_requests().len() == 0,
        final(driver).write_requests().len() == 0,
        final(medium).wf(),
        final(medium)@ == old(medium)@.update(cluster as int, block@),
{
    driver.push_write_request(cluster, block);
    let cycle = handle_request_cycle(driver, medium);
    proof {
        assert(cycle.1 is Some);
    }
}

/// The bytes of the file described by `chain` on the given medium: the
/// ordered concatenation of its single-cluster runs.
pub open spec fn spec_file_content(chain: Seq<DataNode>, disk: Seq<Seq<u8>>) -> Seq<u8> {
    Seq::new(
        (4096 * chain.len()) as nat,
        |j: int| disk[chain[j / 4096].cluster_start_number as int][j % 4096],
    )
}

/// The content of a freshly created file: `n_clusters` clusters of zeroes.
pub open spec fn spec_zero_bytes(n_clusters: int) -> Seq<u8> {
    Seq::new((4096 * n_clusters) as nat, |j: int| 0u8)
}

/// `content` with `data` written over the bytes starting at `offset`.
pub open spec fn spec_write_bytes(content: Seq<u8>, offset: int, data: Seq<u8>) -> Seq<u8> {
    Seq::new(
        content.len(),
        |t: int|
            if offset <= t < offset + data.len() {
                data[t - offset]
            } else {
                content[t]
            },
    )
}

/// A strictly bounded sequence of distinct cluster numbers cannot hold
/// more entries than the address space has clusters.
proof fn lemma_distinct_bounded(s: Seq<u64>, total: u64)
    requires
        forall|i: int, j: int| 0 <= i < j < s.len() ==> s[i] != s[j],
        forall|i: int| 0 <= i < s.len() ==> s[i] < total,
    ensures
        s.len() <= total,
{
    let si = s.map_values(|x: u64| x as int);
    assert forall|i: int, j: int| 0 <= i < j < si.len() implies si[i] != si[j] by {
        assert(s[i] != s[j]);
    }
    si.unique_seq_to_set();
    let range = vstd::set_lib::set_int_range(0, total as int);
    vstd::set_lib::lemma_int_range(0, total as int);
    assert forall|x: int| si.to_set().contains(x) implies range.contains(x) by {
        let k = choose|k: int| 0 <= k < si.len() && si[k] == x;
        assert(s[k] < total);
    }
    assert(si.to_set().subset_of(range));
    vstd::set_lib::lemma_len_subset(si.to_set(), range);
    assert(s.len() == si.len());
}

/// Whether the superblock copy in block `ci` of the medium is trustworthy
/// and consistent with the medium it sits on.
pub open spec fn spec_copy_ok(d: Seq<Seq<u8>>, ci: int) -> bool {
    &&& spec_valid_superblock_block(d[ci])
    &&& u64_from_le_at(d[ci], 312) == d.len()
    &&& u64_from_le_at(d[ci], 320) <= u64_from_le_at(d[ci], 312)
}

/// The generation counter stored in the superblock copy in block `ci`.
pub open spec fn spec_copy_generation(d: Seq<Seq<u8>>, ci: int) -> u64 {
    u64_from_le_at(d[ci], 280)
}

/// Which superblock copy a mount trusts: among the valid copies, the one
/// with the highest generation, the earlier location winning ties; `-1`
/// when no copy validates.
pub open spec fn spec_pick_superblock(d: Seq<Seq<u8>>) -> int {
    let ok16 = spec_copy_ok(d, 16);
    let ok32 = spec_copy_ok(d, 32);
    let ok48 = spec_copy_ok(d, 48);
    let g16 = spec_copy_generation(d, 16);
    let g32 = spec_copy_generation(d, 32);
    let g48 = spec_copy_generation(d, 48);
    if ok16 && (!ok32 || g16 >= g32) && (!ok48 || g16 >= g48) {
        16
    } else if ok32 && (!ok48 || g32 >= g48) {
        32
    } else if ok48 {
        48
    } else {
        -1
    }
}

/// The partition manager: exclusive owner of the in-memory superblock,
/// skiplist index root and free-cluster list of one partition, and of the
/// medium and request queues it drives.
pub struct PartitionManager {
    super_block: SuperBlock,
    index: RootList,
    allocator: ClusterAllocator,
    medium: VPartition,
    driver: Box<NeutronDriver>,
}

impl PartitionManager {
    /// The whole-partition invariant: the parts are well-formed and agree
    /// on the cluster count; between operations both queues are drained;
    /// every file chain consists of distinct, addressable, non-reserved
    /// single-cluster runs; chains of different files never overlap; and no
    /// cluster is both free and in use.
    pub closed spec fn wf(&self) -> bool {
        &&& self.super_block.wf()
        &&& self.index.wf()
        &&& self.allocator.wf()
        &&& self.medium.wf()
        &&& self.driver.inv()
        &&& self.driver.read_requests().len() == 0
        &&& self.driver.write_requests().len() == 0
        &&& self.medium@.len() == self.super_block.n_sectors_total
        &&& self.allocator.total() == self.super_block.n_sectors_total
        &&& self.super_block.n_sectors_total <= MAX_CLUSTER_COUNT
        &&& self.super_block.n_sectors_total > SUPERBLOCK_CLUSTER_TERTIARY
        &&& chains_wf(self.index@, self.super_block.n_sectors_total)
        &&& chains_free_disjoint(self.index@, self.allocator@)
        &&& clusters_covered(self.index@, self.allocator@, self.super_block.n_sectors_total)
    }

    /// The superblock as currently held in memory.
    pub closed spec fn superblock(&self) -> SuperBlock {
        self.super_block
    }

    /// The free clusters, in list order.
    pub closed spec fn free_clusters(&self) -> Seq<u64> {
        self.allocator@
    }

    /// The bytes of each block of the medium.
    pub closed spec fn disk(&self) -> Seq<Seq<u8>> {
        self.medium@
    }

    /// Whether `inode_number` names a file.
    pub closed spec fn has_file(&self, inode_number: u64) -> bool {
        self.index.contains_key(inode_number)
    }

    /// The chain of the given file.
    pub closed spec fn chain_of(&self, inode_number: u64) -> Seq<DataNode> {
        self.index@[inode_number]
    }

    /// The length of the given file in bytes: a whole number of clusters.
    pub open spec fn file_length(&self, inode_number: u64) -> int {
        4096 * self.chain_of(inode_number).len() as int
    }

    /// Every file, by inode number, as its current content bytes.
    pub open spec fn files(&self) -> Map<u64, Seq<u8>> {
        Map::new(
            |k: u64| self.has_file(k),
            |k: u64| spec_file_content(self.chain_of(k), self.disk()),
        )
    }
}

/// Every chain consists of single-cluster runs on distinct, addressable,
/// non-reserved clusters, and no cluster belongs to two files.
pub open spec fn chains_wf(m: Map<u64, Seq<DataNode>>, total: u64) -> bool {
    &&& forall|k: u64, i: int|
        m.dom().contains(k) && 0 <= i < m[k].len() ==> (#[trigger] m[k][i]).clusters_used == 1
            && m[k][i].cluster_start_number < total && !spec_reserved_cluster(
            m[k][i].cluster_start_number,
        )
    &&& forall|k: u64, i1: int, i2: int|
        m.dom().contains(k) && 0 <= i1 < i2 < m[k].len() ==> (
        #[trigger] m[k][i1]).cluster_start_number != (#[trigger] m[k][i2]).cluster_start_number
    &&& forall|k1: u64, k2: u64, i1: int, i2: int|
        m.dom().contains(k1) && m.dom().contains(k2) && k1 != k2 && 0 <= i1 < m[k1].len() && 0 <= i2
            < m[k2].len() ==> (#[trigger] m[k1][i1]).cluster_start_number != (
        #[trigger] m[k2][i2]).cluster_start_number
}

/// No cluster is both on the free list and inside a file chain.
pub open spec fn chains_free_disjoint(m: Map<u64, Seq<DataNode>>, free: Seq<u64>) -> bool {
    forall|k: u64, i: int|
        m.dom().contains(k) && 0 <= i < m[k].len() ==> !free.contains(
            (#[trigger] m[k][i]).cluster_start_number,
        )
}

/// Cluster `c` sits inside some file's chain.
pub open spec fn cluster_in_some_chain(m: Map<u64, Seq<DataNode>>, c: u64) -> bool {
    exists|k: u64, i: int|
        m.dom().contains(k) && 0 <= i < m[k].len() && (#[trigger] m[k][i]).cluster_start_number
            == c
}

/// The free list and the file chains together cover the whole addressable
/// cluster space minus the reserved clusters.
pub open spec fn clusters_covered(m: Map<u64, Seq<DataNode>>, free: Seq<u64>, total: u64) -> bool {
    forall|c: u64|
        c < total && !(#[trigger] spec_reserved_cluster(c)) ==> free.contains(c)
            || cluster_in_some_chain(m, c)
}

impl PartitionManager {
    /// Formats a medium: writes a generation-0 superblock at the three
    /// fixed copy locations and hands back a manager over an empty index
    /// with every non-reserved cluster free.
    #[verifier::rlimit(100)]
    pub fn format(medium: VPartition, fs_uuid: FSUUID, label: [u8; 256]) -> (res: Self)
        requires
            medium.wf(),
            SUPERBLOCK_CLUSTER_TERTIARY < medium@.len() <= MAX_CLUSTER_COUNT,
        ensures
            res.wf(),
            res.files() == Map::<u64, Seq<u8>>::empty(),
            forall|k: u64| !(#[trigger] res.has_file(k)),
            res.superblock().magic == SUPERBLOCK_MAGIC,
            res.superblock().fs_uuid == fs_uuid,
            res.superblock().label == label,
            res.superblock().generation == 0,
            res.superblock().n_sectors_total == medium@.len(),
            res.free_clusters().to_set() == Set::new(
                |c: u64| c < medium@.len() && !spec_reserved_cluster(c),
            ),
            res.disk() == medium@.update(16, spec_superblock_block(res.superblock())).update(
                32,
                spec_superblock_block(res.superblock()),
            ).update(48, spec_superblock_block(res.superblock())),
            spec_pick_superblock(res.disk()) == 16,
    {
        let n_total = medium.max_size();
        let super_block = SuperBlock::new(
            fs_uuid,
            label,
            0,  // generation
            0,  // physical_addr_of_partition
            0,  // core_fs_skiplist_addr
            0,  // free_cluster_list_addr
            n_total,
            4,  // the four reserved clusters
            4096,
            4096,
        );
        let encoded = super_block.to_disk_format();
        let mut medium = medium;
        medium.write_block(SUPERBLOCK_CLUSTER_PRIMARY, encoded);
        medium.write_block(SUPERBLOCK_CLUSTER_SECONDARY, encoded);
        medium.write_block(SUPERBLOCK_CLUSTER_TERTIARY, encoded);
        let res = PartitionManager {
            super_block,
            index: RootList::new_empty(),
            allocator: ClusterAllocator::new_full(n_total),
            medium,
            driver: Box::new(NeutronDriver::new_empty()),
        };
        proof {
            assert(res.files() =~= Map::<u64, Seq<u8>>::empty());
            let sbv = spec_superblock_block(super_block);
            lemma_superblock_block_decodes(super_block, sbv);
            assert(res.disk()[16] == sbv);
            assert(res.disk()[32] == sbv);
            assert(res.disk()[48] == sbv);
            let decoded = SuperBlock { checksum: crc32c_of(spec_superblock_body(super_block)), ..super_block };
            assert(spec_decodes_to(sbv, decoded));
            assert(spec_copy_ok(res.disk(), 16));
            assert(spec_copy_ok(res.disk(), 32));
            assert(spec_copy_ok(res.disk(), 48));
            assert(spec_copy_generation(res.disk(), 16) == decoded.generation);
            assert(spec_copy_generation(res.disk(), 32) == decoded.generation);
            assert(spec_copy_generation(res.disk(), 48) == decoded.generation);
            assert(spec_pick_superblock(res.disk()) == 16);
            assert forall|c: u64|
                c < n_total && !(#[trigger] spec_reserved_cluster(c)) implies
                res.allocator@.contains(c) by {
                let u = Set::new(|x: u64| x < n_total && !spec_reserved_cluster(x));
                assert(u.contains(c));
                assert(res.allocator@.to_set().contains(c));
            }
        }
        res
    }

    /// Mounts a medium: reads the three superblock copies, validates each
    /// (magic, trailing checksum, consistency with the medium), and trusts
    /// the valid copy with the highest generation. Fails with
    /// `CorruptSuperblock` exactly when no copy validates. The manager's
    /// in-memory index starts empty and its free list full, as on a freshly
    /// formatted partition.
    pub fn mount(medium: VPartition) -> (res: Result<Self, NeFSError>)
        requires
            medium.wf(),
        ensures
            res matches Err(e) ==> e == NeFSError::CorruptSuperblock && (medium@.len()
                <= SUPERBLOCK_CLUSTER_TERTIARY || medium@.len() > MAX_CLUSTER_COUNT
                || spec_pick_superblock(medium@) == -1),
            res matches Ok(m) ==> {
                &&& m.wf()
                &&& SUPERBLOCK_CLUSTER_TERTIARY < medium@.len() <= MAX_CLUSTER_COUNT
                &&& spec_pick_superblock(medium@) >= 0
                &&& spec_decodes_to(medium@[spec_pick_superblock(medium@)], m.superblock())
                &&& m.files() == Map::<u64, Seq<u8>>::empty()
                &&& forall|k: u64| !(#[trigger] m.has_file(k))
                &&& m.disk() == medium@
            },
    {
        if medium.max_size() <= SUPERBLOCK_CLUSTER_TERTIARY || medium.max_size()
            > MAX_CLUSTER_COUNT {
            return Err(NeFSError::CorruptSuperblock);
        }
        let mut medium = medium;
        let n_total = medium.max_size();
        let b16 = medium.get_block(SUPERBLOCK_CLUSTER_PRIMARY);
        let b32 = medium.get_block(SUPERBLOCK_CLUSTER_SECONDARY);
        let b48 = medium.get_block(SUPERBLOCK_CLUSTER_TERTIARY);
        let ok16 = Self::copy_ok(&b16, n_total);
        let ok32 = Self::copy_ok(&b32, n_total);
        let ok48 = Self::copy_ok(&b48, n_total);
        let sb16 = SuperBlock::from_disk_format(&b16);
        let sb32 = SuperBlock::from_disk_format(&b32);
        let sb48 = SuperBlock::from_disk_format(&b48);
        let picked: SuperBlock = if ok16 && (!ok32 || sb16.generation >= sb32.generation) && (!ok48
            || sb16.generation >= sb48.generation) {
            sb16
        } else if ok32 && (!ok48 || sb32.generation >= sb48.generation) {
            sb32
        } else if ok48 {
            sb48
        } else {
            return Err(NeFSError::CorruptSuperblock);
        };
        let res = PartitionManager {
            super_block: picked,
            index: RootList::new_empty(),
            allocator: ClusterAllocator::new_full(n_total),
            medium,
            driver: Box::new(NeutronDriver::new_empty()),
        };
        proof {
            assert(res.files() =~= Map::<u64, Seq<u8>>::empty());
            assert forall|c: u64|
                c < n_total && !(#[trigger] spec_reserved_cluster(c)) implies
                res.allocator@.contains(c) by {
                let u = Set::new(|x: u64| x < n_total && !spec_reserved_cluster(x));
                assert(u.contains(c));
                assert(res.allocator@.to_set().contains(c));
            }
        }
        Ok(res)
    }

    /// Creates a file of `n_clusters` fresh zeroed clusters under a new
    /// inode number: allocates the clusters, zeroes them through the write
    /// queue, splices the key into the index at a level drawn from the
    /// generator, and bumps the generation. Fails with `DuplicateKey` when
    /// the inode number is already indexed, and with `OutOfSpace` when
    /// fewer than `n_clusters` clusters are free; either failure leaves
    /// the partition unchanged.
    #[verifier::rlimit(100)]
    pub fn create_file(
        &mut self,
        inode_number: InodeNumber,
        n_clusters: u64,
        mt: &mut rand_mt::Mt64,
    ) -> (res: Result<(), NeFSError>)
        requires
            old(self).wf(),
        ensures
            final(self).wf(),
            res is Ok <==> !old(self).has_file(inode_number) && old(self).free_clusters().len()
                >= n_clusters,
            res matches Err(e) ==> {
                &&& final(self).files() == old(self).files()
                &&& final(self).free_clusters() == old(self).free_clusters()
                &&& final(self).superblock() == old(self).superblock()
                &&& final(self).disk() == old(self).disk()
                &&& (e == NeFSError::DuplicateKey <==> old(self).has_file(inode_number))
                &&& (e == NeFSError::OutOfSpace <==> !old(self).has_file(inode_number) && old(
                    self,
                ).free_clusters().len() < n_clusters)
            },
            res matches Ok(()) ==> {
                &&& !old(self).has_file(inode_number)
                &&& old(self).free_clusters().len() >= n_clusters
                &&& final(self).has_file(inode_number)
                &&& final(self).files() == old(self).files().insert(
                    inode_number,
                    spec_zero_bytes(n_clusters as int),
                )
                &&& final(self).file_length(inode_number) == 4096 * n_clusters as int
                &&& final(self).free_clusters() == old(self).free_clusters().take(
                    old(self).free_clusters().len() - n_clusters,
                )
                &&& final(self).superblock().generation == (if old(self).superblock().generation
                    < u64::MAX {
                    old(self).superblock().generation + 1
                } else {
                    old(self).superblock().generation as int
                })
                &&& final(self).superblock().n_sectors_total == old(
                    self,
                ).superblock().n_sectors_total
                &&& final(self).superblock().fs_uuid == old(self).superblock().fs_uuid
                &&& final(self).superblock().label == old(self).superblock().label
            },
    {
        if self.index.search(inode_number).is_some() {
            return Err(NeFSError::DuplicateKey);
        }
        let clusters = match self.allocator.allocate(n_clusters) {
            Ok(v) => v,
            Err(_) => {
                return Err(NeFSError::OutOfSpace);
            },
        };
        let ghost v = clusters@;
        let ghost disk0 = self.medium@;
        let ghost index0 = self.index;
        let ghost sb0 = self.super_block;
        let ghost alloc0 = self.allocator;

        // zero the fresh clusters through the write queue
        let mut t: usize = 0;
        while t < clusters.len()
            invariant
                t <= clusters@.len(),
                clusters@ == v,
                self.index == index0,
                self.super_block == sb0,
                self.allocator == alloc0,
                self.driver.inv(),
                self.driver.read_requests().len() == 0,
                self.driver.write_requests().len() == 0,
                self.medium.wf(),
                self.medium@.len() == disk0.len(),
                disk0.len() == sb0.n_sectors_total,
                forall|i: int| 0 <= i < v.len() ==> (#[trigger] v[i]) < sb0.n_sectors_total,
                forall|x: int|
                    0 <= x < disk0.len() ==> self.medium@[x] == (if v.take(t as int).contains(
                        x as u64,
                    ) {
                        empty_block()
                    } else {
                        disk0[x]
                    }),
            decreases clusters@.len() - t,
        {
            let c = clusters[t];
            let ghost before = self.medium@;
            write_cluster_queued(&mut *self.driver, &mut self.medium, c, make_block());
            t = t + 1;
            proof {
                assert forall|x: int|
                    0 <= x < disk0.len() implies self.medium@[x] == (if v.take(t as int).contains(
                        x as u64,
                    ) {
                        empty_block()
                    } else {
                        disk0[x]
                    }) by {
                    if x == c as int {
                        assert(v.take(t as int)[t - 1] == c);
                        assert(v.take(t as int).contains(x as u64));
                    } else {
                        assert(self.medium@[x] == before[x]);
                        if v.take(t as int).contains(x as u64) {
                            let j = choose|j: int|
                                0 <= j < t && (#[trigger] v.take(t as int)[j]) == x as u64;
                            assert(j != t - 1);
                            assert(v.take(t - 1 as int)[j] == x as u64);
                            assert(v.take(t - 1 as int).contains(x as u64));
                        } else if v.take(t - 1 as int).contains(x as u64) {
                            let j = choose|j: int|
                                0 <= j < t - 1 && (#[trigger] v.take(t - 1 as int)[j]) == x as u64;
                            assert(v.take(t as int)[j] == x as u64);
                            assert(v.take(t as int).contains(x as u64));
                        }
                    }
                }
            }
        }
        proof {
            assert(v.take(v.len() as int) =~= v);
        }

        // splice the key into the index at a freshly drawn level
        proof {
            assert(!self.index.contains_key(inode_number));
        }
        let level = generate_level(mt);
        let added = self.index.add_node(inode_number, level);
        proof {
            assert(added is Ok);
        }
        match added {
            Ok(()) => (),
            Err(_) => unreached(),
        };

        // attach the chain of single-cluster runs
        let mut chain: Vec<DataNode> = Vec::new();
        let mut k: usize = 0;
        while k < clusters.len()
            invariant
                k <= clusters@.len(),
                clusters@ == v,
                chain@.len() == k,
                forall|j: int|
                    0 <= j < k ==> (#[trigger] chain@[j]) == (DataNode {
                        clusters_used: 1,
                        cluster_start_number: v[j],
                    }),
            decreases clusters@.len() - k,
        {
            chain.push(DataNode::new(1, clusters[k]));
            k = k + 1;
        }
        let ghost chainv = chain@;
        proof {
            assert(self.index@.dom().contains(inode_number));
            assert(self.index.contains_key(inode_number));
        }
        match self.index.set_data(inode_number, chain) {
            Ok(()) => (),
            Err(_) => unreached(),
        };

        // commit the structural change
        let gen = self.super_block.generation;
        self.super_block.generation = if gen < u64::MAX {
            gen + 1
        } else {
            gen
        };
        let used = self.super_block.n_sectors_used;
        let room = self.super_block.n_sectors_total - used;
        self.super_block.n_sectors_used = if n_clusters > room {
            self.super_block.n_sectors_total
        } else {
            used + n_clusters
        };
        proof {
            // the index now maps the new key to the fresh chain
            assert(self.index@ =~= index0@.insert(inode_number, chainv));
            // whatever is still free was free before
            assert forall|x: u64| self.allocator@.contains(x) implies old(
                self,
            ).allocator@.contains(x) by {
                let j = choose|j: int| 0 <= j < self.allocator@.len() && self.allocator@[j] == x;
                assert(old(self).allocator@[j] == x);
            }
            lemma_create_file_restores(
                index0@,
                self.index@,
                old(self).allocator@,
                self.allocator@,
                chainv,
                v,
                inode_number,
                sb0.n_sectors_total,
            );
            lemma_create_file_contents(
                index0@,
                chainv,
                v,
                inode_number,
                old(self).allocator@,
                disk0,
                self.medium@,
                sb0.n_sectors_total,
            );
            let target = old(self).files().insert(inode_number, spec_zero_bytes(n_clusters as int));
            assert forall|k: u64| #[trigger] self.files().dom().contains(k) implies
                target.dom().contains(k) && self.files()[k] == target[k] by {
                if k == inode_number {
                    assert(self.index@[k] == chainv);
                    assert(chainv.len() == n_clusters);
                } else {
                    assert(self.index.contains_key(k));
                    assert(self.index@.dom().contains(k));
                    assert(index0@.dom().contains(k));
                    assert(self.index@[k] == index0@[k]);
                    assert(spec_file_content(index0@[k], self.medium@) == spec_file_content(
                        index0@[k],
                        disk0,
                    ));
                }
            }
            assert forall|k: u64| #[trigger] target.dom().contains(k) implies
                self.files().dom().contains(k) by {
                if k == inode_number {
                    assert(self.index@.dom().contains(k));
                } else {
                    assert(old(self).files().dom().contains(k));
                    assert(index0@.dom().contains(k));
                    assert(self.index@.dom().contains(k));
                }
            }
            assert(self.files() =~= target);
            // cluster accounting: what left the free list went into the new chain
            let free_old = old(self).allocator@;
            let cut = free_old.len() - n_clusters;
            assert forall|c: u64|
                c < sb0.n_sectors_total && !(#[trigger] spec_reserved_cluster(c)) implies
                self.allocator@.contains(c) || cluster_in_some_chain(self.index@, c) by {
                assert(free_old.contains(c) || cluster_in_some_chain(index0@, c));
                if free_old.contains(c) {
                    let idx = choose|idx: int| 0 <= idx < free_old.len() && free_old[idx] == c;
                    if idx < cut {
                        assert(self.allocator@[idx] == c);
                        assert(self.allocator@.contains(c));
                    } else {
                        let j = free_old.len() - 1 - idx;
                        assert(v[j] == free_old[idx]);
                        assert(chainv[j].cluster_start_number == c);
                        assert(self.index@[inode_number][j].cluster_start_number == c);
                        assert(cluster_in_some_chain(self.index@, c));
                    }
                } else {
                    let (k, i) = choose|k: u64, i: int|
                        index0@.dom().contains(k) && 0 <= i < index0@[k].len() && (
                        #[trigger] index0@[k][i]).cluster_start_number == c;
                    assert(k != inode_number);
                    assert(self.index@[k] == index0@[k]);
                    assert(self.index@.dom().contains(k));
                    assert(self.index@[k][i].cluster_start_number == c);
                    assert(cluster_in_some_chain(self.index@, c));
                }
            }
        }
        Ok(())
    }

    /// Creates a directory: a fresh key in the index whose entries are
    /// resolved through the index on demand, so it starts with no clusters
    /// of its own. Fails with `DuplicateKey`, leaving the partition
    /// unchanged, when the inode number is already indexed.
    pub fn create_dir(&mut self, inode_number: InodeNumber, mt: &mut rand_mt::Mt64) -> (res:
        Result<(), NeFSError>)
        requires
            old(self).wf(),
        ensures
            final(self).wf(),
            res matches Ok(()) ==> !old(self).has_file(inode_number) && final(self).files() == old(
                self,
            ).files().insert(inode_number, Seq::<u8>::empty()) && final(self).free_clusters()
                == old(self).free_clusters() && final(self).file_length(inode_number) == 0,
            res matches Err(e) ==> e == NeFSError::DuplicateKey && old(self).has_file(inode_number)
                && final(self).files() == old(self).files() && final(self).free_clusters() == old(
                self,
            ).free_clusters() && final(self).superblock() == old(self).superblock(),
    {
        let res = self.create_file(inode_number, 0, mt);
        proof {
            if res is Ok {
                assert(spec_zero_bytes(0) =~= Seq::<u8>::empty());
                assert(old(self).free_clusters().take(old(self).free_clusters().len() as int)
                    =~= old(self).free_clusters());
            }
        }
        match res {
            Ok(()) => Ok(()),
            Err(e) => Err(e),
        }
    }

    /// Reads a whole file back, from its first byte to its length.
    pub fn read_all(&mut self, inode_number: InodeNumber) -> (res: Result<Vec<u8>, NeFSError>)
        requires
            old(self).wf(),
        ensures
            final(self).wf(),
            final(self).files() == old(self).files(),
            final(self).free_clusters() == old(self).free_clusters(),
            final(self).superblock() == old(self).superblock(),
            final(self).disk() == old(self).disk(),
            res matches Ok(v) ==> old(self).has_file(inode_number) && v@ == old(self).files()[
                inode_number],
            res matches Err(e) ==> e == NeFSError::NotFound && !old(self).has_file(inode_number),
    {
        let flen = match self.file_size(inode_number) {
            Ok(n) => n,
            Err(_) => {
                return Err(NeFSError::NotFound);
            },
        };
        match self.read_at(inode_number, 0, flen) {
            Ok(v) => {
                proof {
                    assert(old(self).files()[inode_number].subrange(
                        0,
                        old(self).files()[inode_number].len() as int,
                    ) =~= old(self).files()[inode_number]);
                }
                Ok(v)
            },
            Err(_) => unreached(),
        }
    }

    /// Deletes a file: unsplices its key from the index, returns every
    /// cluster of its chain to the free list, and bumps the generation.
    /// Fails with `NotFound`, leaving the partition unchanged, exactly when
    /// the inode number is not indexed.
    #[verifier::rlimit(100)]
    pub fn delete_file(&mut self, inode_number: InodeNumber) -> (res: Result<(), NeFSError>)
        requires
            old(self).wf(),
        ensures
            final(self).wf(),
            res is Ok <==> old(self).has_file(inode_number),
            res matches Err(e) ==> e == NeFSError::NotFound && !old(self).has_file(inode_number)
                && final(self).files() == old(self).files()
                && final(self).free_clusters() == old(self).free_clusters()
                && final(self).superblock() == old(self).superblock()
                && final(self).disk() == old(self).disk(),
            res matches Ok(()) ==> {
                &&& old(self).has_file(inode_number)
                &&& !final(self).has_file(inode_number)
                &&& final(self).files() == old(self).files().remove(inode_number)
                &&& final(self).free_clusters() == old(self).free_clusters() + old(self).chain_of(
                    inode_number,
                ).map_values(|r: DataNode| r.cluster_start_number)
                &&& final(self).disk() == old(self).disk()
                &&& final(self).superblock().generation == (if old(self).superblock().generation
                    < u64::MAX {
                    old(self).superblock().generation + 1
                } else {
                    old(self).superblock().generation as int
                })
                &&& final(self).superblock().n_sectors_total == old(
                    self,
                ).superblock().n_sectors_total
            },
    {
        // read the chain out of the index
        let mut clusters: Vec<ClusterNumber> = Vec::new();
        match self.index.search(inode_number) {
            None => {
                return Err(NeFSError::NotFound);
            },
            Some(node) => {
                let mut k: usize = 0;
                while k < node.data.len()
                    invariant
                        k <= node.data@.len(),
                        clusters@.len() == k,
                        forall|j: int|
                            0 <= j < k ==> clusters@[j] == (#[trigger] node.data@[j]).cluster_start_number,
                    decreases node.data@.len() - k,
                {
                    clusters.push(node.data[k].cluster_start_number);
                    k = k + 1;
                }
            },
        };
        let ghost chain = old(self).chain_of(inode_number);
        let ghost v = clusters@;
        proof {
            assert(v =~= chain.map_values(|r: DataNode| r.cluster_start_number));
        }
        let ghost index0 = self.index;
        let ghost sb0 = self.super_block;
        let ghost disk0 = self.medium@;
        let ghost free0 = self.allocator@;

        // unsplice the node
        match self.index.remove_node(inode_number) {
            Ok(()) => (),
            Err(_) => unreached(),
        };

        // return every cluster of the chain to the free list
        let mut t: usize = 0;
        while t < clusters.len()
            invariant
                t <= clusters@.len(),
                clusters@ == v,
                v =~= chain.map_values(|r: DataNode| r.cluster_start_number),
                self.index@ == index0@.remove(inode_number),
                self.index.wf(),
                self.super_block == sb0,
                self.medium@ == disk0,
                self.medium.wf(),
                self.driver.inv(),
                self.driver.read_requests().len() == 0,
                self.driver.write_requests().len() == 0,
                self.allocator.wf(),
                self.allocator.total() == sb0.n_sectors_total,
                self.allocator@ == free0 + v.take(t as int),
                index0@.dom().contains(inode_number),
                index0@[inode_number] == chain,
                chains_wf(index0@, sb0.n_sectors_total),
                chains_free_disjoint(index0@, free0),
                chain.len() == v.len(),
                forall|j: int| 0 <= j < chain.len() ==> (#[trigger] chain[j]).cluster_start_number == v[j],
            decreases clusters@.len() - t,
        {
            let c = clusters[t];
            proof {
                assert(chain[t as int].cluster_start_number == c);
                assert(c < sb0.n_sectors_total && !spec_reserved_cluster(c));
                // the cluster is not on the free list yet
                if self.allocator@.contains(c) {
                    let j = choose|j: int|
                        0 <= j < self.allocator@.len() && self.allocator@[j] == c;
                    if j < free0.len() {
                        assert(free0[j] == c);
                        assert(free0.contains(c));
                        assert(false);
                    } else {
                        assert(v.take(t as int)[j - free0.len()] == c);
                        assert(chain[j - free0.len()].cluster_start_number == c);
                        assert(false);
                    }
                }
            }
            match self.allocator.deallocate(c) {
                Ok(()) => (),
                Err(_) => unreached(),
            };
            t = t + 1;
            proof {
                assert(self.allocator@ =~= free0 + v.take(t as int));
            }
        }
        proof {
            assert(v.take(v.len() as int) =~= v);
        }

        // commit the structural change
        let gen = self.super_block.generation;
        self.super_block.generation = if gen < u64::MAX {
            gen + 1
        } else {
            gen
        };
        let used = self.super_block.n_sectors_used;
        let n_freed = clusters.len() as u64;
        let freed = if n_freed > used {
            used
        } else {
            n_freed
        };
        self.super_block.n_sectors_used = used - freed;
        proof {
            lemma_delete_file_restores(
                index0@,
                self.index@,
                free0,
                self.allocator@,
                chain,
                v,
                inode_number,
                sb0.n_sectors_total,
            );
            assert(!self.index@.dom().contains(inode_number));
            assert(!self.index.contains_key(inode_number));
            let target = old(self).files().remove(inode_number);
            assert forall|k: u64| #[trigger] self.files().dom().contains(k) implies
                target.dom().contains(k) && self.files()[k] == target[k] by {
                assert(self.index.contains_key(k));
                assert(self.index@.dom().contains(k));
                assert(k != inode_number);
                assert(index0@.dom().contains(k));
                assert(self.index@[k] == index0@[k]);
                assert(old(self).files().dom().contains(k));
            }
            assert forall|k: u64| #[trigger] target.dom().contains(k) implies
                self.files().dom().contains(k) by {
                assert(old(self).files().dom().contains(k));
                assert(index0@.dom().contains(k));
                assert(k != inode_number);
                assert(self.index@.dom().contains(k));
            }
            assert(self.files() =~= target);
            // cluster accounting: the deleted chain's clusters are free again
            assert forall|c: u64|
                c < sb0.n_sectors_total && !(#[trigger] spec_reserved_cluster(c)) implies
                self.allocator@.contains(c) || cluster_in_some_chain(self.index@, c) by {
                assert(free0.contains(c) || cluster_in_some_chain(index0@, c));
                if free0.contains(c) {
                    let idx = choose|idx: int| 0 <= idx < free0.len() && free0[idx] == c;
                    assert(self.allocator@[idx] == c);
                    assert(self.allocator@.contains(c));
                } else {
                    let (k, i) = choose|k: u64, i: int|
                        index0@.dom().contains(k) && 0 <= i < index0@[k].len() && (
                        #[trigger] index0@[k][i]).cluster_start_number == c;
                    if k == inode_number {
                        assert(chain[i].cluster_start_number == c);
                        assert(v[i] == c);
                        assert(self.allocator@[free0.len() + i] == c);
                        assert(self.allocator@.contains(c));
                    } else {
                        assert(self.index@[k] == index0@[k]);
                        assert(self.index@.dom().contains(k));
                        assert(self.index@[k][i].cluster_start_number == c);
                        assert(cluster_in_some_chain(self.index@, c));
                    }
                }
            }
        }
        Ok(())
    }

    /// The length of a file in bytes, a whole number of clusters. Fails
    /// with `NotFound` exactly when the inode number is not indexed.
    pub fn file_size(&self, inode_number: InodeNumber) -> (res: Result<u64, NeFSError>)
        requires
            self.wf(),
        ensures
            res matches Ok(n) ==> self.has_file(inode_number) && n == self.file_length(
                inode_number,
            ),
            res matches Err(e) ==> e == NeFSError::NotFound && !self.has_file(inode_number),
    {
        let node = match self.index.search(inode_number) {
            None => {
                return Err(NeFSError::NotFound);
            },
            Some(n) => n,
        };
        proof {
            lemma_chain_len_bounded(self.index@, inode_number, self.super_block.n_sectors_total);
        }
        let n_clusters = node.data.len();
        Ok((n_clusters as u64) * 4096)
    }

    /// Reads up to `len` bytes of a file starting at byte `offset`,
    /// resolving each byte to its cluster through the skiplist and issuing
    /// the block reads through the request queue. Fewer bytes than asked
    /// for come back only at end-of-file; reading at or past the end
    /// returns zero bytes and is not an error. Fails with `NotFound`
    /// exactly when the inode number is not indexed.
    #[verifier::rlimit(100)]
    pub fn read_at(&mut self, inode_number: InodeNumber, offset: u64, len: u64) -> (res: Result<
        Vec<u8>,
        NeFSError,
    >)
        requires
            old(self).wf(),
        ensures
            final(self).wf(),
            final(self).files() == old(self).files(),
            final(self).free_clusters() == old(self).free_clusters(),
            final(self).superblock() == old(self).superblock(),
            final(self).disk() == old(self).disk(),
            res matches Err(e) ==> e == NeFSError::NotFound && !old(self).has_file(inode_number),
            res matches Ok(v) ==> old(self).has_file(inode_number) && ({
                let content = old(self).files()[inode_number];
                let end = if offset + len <= content.len() {
                    offset as int + len as int
                } else {
                    content.len() as int
                };
                let start = if offset as int <= end {
                    offset as int
                } else {
                    end
                };
                v@ == content.subrange(start, end)
            }),
    {
        let node = match self.index.search(inode_number) {
            None => {
                return Err(NeFSError::NotFound);
            },
            Some(n) => n,
        };
        proof {
            lemma_chain_len_bounded(self.index@, inode_number, self.super_block.n_sectors_total);
        }
        let n_clusters = node.data.len();
        let flen: u64 = (n_clusters as u64) * 4096;
        let end: u64 = if offset >= flen {
            flen
        } else if len > flen - offset {
            flen
        } else {
            offset + len
        };
        let start: u64 = if offset <= end {
            offset
        } else {
            end
        };
        let ghost chain = node.data@;
        let ghost disk0 = self.medium@;
        let ghost content = spec_file_content(chain, disk0);
        let ghost index0 = self.index;
        let ghost sb0 = self.super_block;
        let ghost alloc0 = self.allocator;
        let mut v: Vec<u8> = Vec::new();
        let mut j: u64 = start;
        while j < end
            invariant
                start <= j <= end,
                end <= flen,
                flen == 4096 * n_clusters,
                n_clusters == chain.len(),
                chain == node.data@,
                self.index == index0,
                self.super_block == sb0,
                self.allocator == alloc0,
                index0@.dom().contains(inode_number),
                index0@[inode_number] == chain,
                chains_wf(index0@, sb0.n_sectors_total),
                self.medium.wf(),
                self.medium@ == disk0,
                disk0.len() == sb0.n_sectors_total,
                self.driver.inv(),
                self.driver.read_requests().len() == 0,
                self.driver.write_requests().len() == 0,
                content == spec_file_content(chain, disk0),
                v@ == content.subrange(start as int, j as int),
            decreases end - j,
        {
            proof {
                lemma_byte_position(j as int, n_clusters as int);
            }
            let k_idx = (j / 4096) as usize;
            let w = (j % 4096) as usize;
            let c = node.data[k_idx].cluster_start_number;
            proof {
                assert(index0@[inode_number][k_idx as int].cluster_start_number == c);
                assert(c < sb0.n_sectors_total);
            }
            let block = read_cluster_queued(&mut *self.driver, &mut self.medium, c);
            v.push(block[w]);
            j = j + 1;
            proof {
                assert(content[j - 1] == disk0[c as int][w as int]);
                assert(v@ =~= content.subrange(start as int, j as int));
            }
        }
        proof {
            assert(self.files() =~= old(self).files());
            assert(old(self).files()[inode_number] == content);
        }
        Ok(v)
    }

    /// Reads exactly `len` bytes of a file starting at byte `offset`.
    /// Succeeds exactly when the file exists and reaches `offset + len`;
    /// a file too short for the exact read fails with `UnexpectedEof`.
    pub fn read_exact_at(&mut self, inode_number: InodeNumber, offset: u64, len: u64) -> (res:
        Result<Vec<u8>, NeFSError>)
        requires
            old(self).wf(),
        ensures
            final(self).wf(),
            final(self).files() == old(self).files(),
            final(self).free_clusters() == old(self).free_clusters(),
            final(self).superblock() == old(self).superblock(),
            final(self).disk() == old(self).disk(),
            res is Ok <==> old(self).has_file(inode_number) && offset as int + len as int <= old(
                self,
            ).file_length(inode_number),
            res matches Ok(v) ==> v@ == old(self).files()[inode_number].subrange(
                offset as int,
                offset as int + len as int,
            ),
            res matches Err(e) ==> (e == NeFSError::NotFound || e == NeFSError::UnexpectedEof) && (
            e == NeFSError::NotFound <==> !old(self).has_file(inode_number)) && (e
                == NeFSError::UnexpectedEof <==> old(self).has_file(inode_number) && offset as int
                + len as int > old(self).file_length(inode_number)),
    {
        let flen = match self.file_size(inode_number) {
            Ok(n) => n,
            Err(_) => {
                return Err(NeFSError::NotFound);
            },
        };
        if offset > flen || len > flen - offset {
            return Err(NeFSError::UnexpectedEof);
        }
        proof {
            lemma_chain_len_bounded(self.index@, inode_number, self.super_block.n_sectors_total);
        }
        match self.read_at(inode_number, offset, len) {
            Ok(v) => Ok(v),
            Err(_) => unreached(),
        }
    }

    /// Writes `buf` over the bytes of a file starting at byte `offset`,
    /// reading, patching and writing each covered cluster through the
    /// request queues. Succeeds exactly when the file exists and its
    /// allocated extent reaches `offset + buf.len()`, returning how many
    /// bytes were written; a write past the allocated extent fails with
    /// `OutOfSpace` and an unknown inode number with `NotFound`, leaving
    /// the partition unchanged.
    #[verifier::rlimit(100)]
    pub fn write_at(&mut self, inode_number: InodeNumber, buf: &[u8], offset: u64) -> (res: Result<
        usize,
        NeFSError,
    >)
        requires
            old(self).wf(),
        ensures
            final(self).wf(),
            final(self).free_clusters() == old(self).free_clusters(),
            final(self).superblock() == old(self).superblock(),
            res is Ok <==> old(self).has_file(inode_number) && offset as int + buf@.len() <= old(
                self,
            ).file_length(inode_number),
            res matches Ok(n) ==> n == buf@.len() && final(self).has_file(inode_number)
                && final(self).file_length(inode_number) == old(self).file_length(inode_number)
                && final(self).files() == old(self).files().insert(
                inode_number,
                spec_write_bytes(old(self).files()[inode_number], offset as int, buf@),
            ),
            res matches Err(e) ==> final(self).files() == old(self).files() && final(self).disk()
                == old(self).disk() && (e == NeFSError::NotFound || e == NeFSError::OutOfSpace) && (
            e == NeFSError::NotFound <==> !old(self).has_file(inode_number)) && (e
                == NeFSError::OutOfSpace <==> old(self).has_file(inode_number) && offset as int
                + buf@.len() > old(self).file_length(inode_number)),
    {
        let node = match self.index.search(inode_number) {
            None => {
                return Err(NeFSError::NotFound);
            },
            Some(n) => n,
        };
        proof {
            lemma_chain_len_bounded(self.index@, inode_number, self.super_block.n_sectors_total);
        }
        let n_clusters = node.data.len();
        let flen: u64 = (n_clusters as u64) * 4096;
        let buf_len = buf.len();
        if offset > flen || (buf_len as u64) > flen - offset {
            return Err(NeFSError::OutOfSpace);
        }
        let ghost chain = node.data@;
        let ghost disk0 = self.medium@;
        let ghost content0 = spec_file_content(chain, disk0);
        let ghost index0 = self.index;
        let ghost sb0 = self.super_block;
        let ghost alloc0 = self.allocator;
        let mut i: usize = 0;
        while i < buf_len
            invariant
                i <= buf_len,
                buf_len == buf@.len(),
                offset + buf_len <= flen,
                flen == 4096 * n_clusters,
                n_clusters == chain.len(),
                chain == node.data@,
                self.index == index0,
                self.super_block == sb0,
                self.allocator == alloc0,
                index0@.dom().contains(inode_number),
                index0@[inode_number] == chain,
                chains_wf(index0@, sb0.n_sectors_total),
                self.medium.wf(),
                self.medium@.len() == disk0.len(),
                disk0.len() == sb0.n_sectors_total,
                self.driver.inv(),
                self.driver.read_requests().len() == 0,
                self.driver.write_requests().len() == 0,
                content0 == spec_file_content(chain, disk0),
                content0.len() == 4096 * chain.len(),
                spec_file_content(chain, self.medium@) == spec_write_bytes(
                    content0,
                    offset as int,
                    buf@.take(i as int),
                ),
                forall|k: u64|
                    index0@.dom().contains(k) && k != inode_number ==> spec_file_content(
                        #[trigger] index0@[k],
                        self.medium@,
                    ) == spec_file_content(index0@[k], disk0),
            decreases buf_len - i,
        {
            let j = offset + (i as u64);
            proof {
                lemma_byte_position(j as int, n_clusters as int);
            }
            let k_idx = (j / 4096) as usize;
            let w = (j % 4096) as usize;
            let c = node.data[k_idx].cluster_start_number;
            proof {
                assert(index0@[inode_number][k_idx as int].cluster_start_number == c);
                assert(c < sb0.n_sectors_total);
            }
            let ghost disk_prev = self.medium@;
            let mut block = read_cluster_queued(&mut *self.driver, &mut self.medium, c);
            block[w] = buf[i];
            write_cluster_queued(&mut *self.driver, &mut self.medium, c, block);
            i = i + 1;
            proof {
                lemma_write_byte_step(
                    index0@,
                    inode_number,
                    chain,
                    disk_prev,
                    self.medium@,
                    content0,
                    offset as int,
                    buf@,
                    i as int,
                    sb0.n_sectors_total,
                );
                assert forall|k: u64|
                    index0@.dom().contains(k) && k != inode_number implies spec_file_content(
                    #[trigger] index0@[k],
                    self.medium@,
                ) == spec_file_content(index0@[k], disk0) by {
                    assert(spec_file_content(index0@[k], self.medium@) == spec_file_content(
                        index0@[k],
                        disk_prev,
                    ));
                    assert(spec_file_content(index0@[k], disk_prev) == spec_file_content(
                        index0@[k],
                        disk0,
                    ));
                }
            }
        }
        proof {
            assert(buf@.take(buf_len as int) =~= buf@);
            let target = old(self).files().insert(
                inode_number,
                spec_write_bytes(content0, offset as int, buf@),
            );
            assert forall|k: u64| #[trigger] self.files().dom().contains(k) implies
                target.dom().contains(k) && self.files()[k] == target[k] by {
                assert(self.index.contains_key(k));
                assert(self.index@.dom().contains(k));
                if k != inode_number {
                    assert(spec_file_content(index0@[k], self.medium@) == spec_file_content(
                        index0@[k],
                        disk0,
                    ));
                    assert(old(self).files().dom().contains(k));
                }
            }
            assert forall|k: u64| #[trigger] target.dom().contains(k) implies
                self.files().dom().contains(k) by {
                if k != inode_number {
                    assert(old(self).files().dom().contains(k));
                    assert(index0@.dom().contains(k));
                }
                assert(self.index@.dom().contains(k));
            }
            assert(self.files() =~= target);
            assert(old(self).files()[inode_number] == content0);
        }
        Ok(buf_len)
    }

    /// The superblock as currently held in memory, by value.
    pub fn get_superblock(&self) -> (sb: SuperBlock)
        ensures
            sb == self.superblock(),
    {
        self.super_block
    }

    /// Whether `c` is currently on the free-cluster list.
    pub fn is_cluster_free(&self, c: ClusterNumber) -> (res: bool)
        ensures
            res == self.free_clusters().contains(c),
    {
        self.allocator.is_free(c)
    }

    /// How many clusters are currently free.
    pub fn free_cluster_count(&self) -> (n: usize)
        ensures
            n == self.free_clusters().len(),
    {
        self.allocator.n_free()
    }

    /// Whether `inode_number` names a file, by a skiplist search.
    pub fn has_inode(&self, inode_number: InodeNumber) -> (res: bool)
        requires
            self.wf(),
        ensures
            res == self.has_file(inode_number),
    {
        self.index.search(inode_number).is_some()
    }

    /// The physical clusters of a file's chain, in file order. Fails with
    /// `NotFound` exactly when the inode number is not indexed.
    pub fn file_clusters(&self, inode_number: InodeNumber) -> (res: Result<
        Vec<ClusterNumber>,
        NeFSError,
    >)
        requires
            self.wf(),
        ensures
            res matches Ok(v) ==> self.has_file(inode_number) && v@ == self.chain_of(
                inode_number,
            ).map_values(|r: DataNode| r.cluster_start_number),
            res matches Err(e) ==> e == NeFSError::NotFound && !self.has_file(inode_number),
    {
        let node = match self.index.search(inode_number) {
            None => {
                return Err(NeFSError::NotFound);
            },
            Some(n) => n,
        };
        let mut v: Vec<ClusterNumber> = Vec::new();
        let mut k: usize = 0;
        while k < node.data.len()
            invariant
                k <= node.data@.len(),
                v@.len() == k,
                forall|j: int|
                    0 <= j < k ==> v@[j] == (#[trigger] node.data@[j]).cluster_start_number,
            decreases node.data@.len() - k,
        {
            v.push(node.data[k].cluster_start_number);
            k = k + 1;
        }
        proof {
            assert(v@ =~= self.chain_of(inode_number).map_values(
                |r: DataNode| r.cluster_start_number,
            ));
        }
        Ok(v)
    }

    /// Releases the backing medium, e.g. to hand it to a later mount.
    pub fn into_medium(self) -> (res: VPartition)
        requires
            self.wf(),
        ensures
            res.wf(),
            res@ == self.disk(),
    {
        self.medium
    }

    /// Bridges the invariant's cluster accounting to the public surface.
    proof fn lemma_accounting_parts(&self, c: u64)
        requires
            self.wf(),
            c < self.superblock().n_sectors_total,
            !spec_reserved_cluster(c),
        ensures
            self.free_clusters().contains(c) || (exists|k: u64, i: int|
                self.has_file(k) && 0 <= i < self.chain_of(k).len() && (
                #[trigger] self.chain_of(k)[i]).cluster_start_number == c),
            !(self.free_clusters().contains(c) && (exists|k: u64, i: int|
                self.has_file(k) && 0 <= i < self.chain_of(k).len() && (
                #[trigger] self.chain_of(k)[i]).cluster_start_number == c)),
    {
        assert(self.allocator@.contains(c) || cluster_in_some_chain(self.index@, c));
        if !self.allocator@.contains(c) {
            let (k, i) = choose|k: u64, i: int|
                self.index@.dom().contains(k) && 0 <= i < self.index@[k].len() && (
                #[trigger] self.index@[k][i]).cluster_start_number == c;
            assert(self.index.contains_key(k));
            assert(self.has_file(k));
            assert(self.chain_of(k)[i].cluster_start_number == c);
        }
        if self.free_clusters().contains(c) {
            if exists|k: u64, i: int|
                self.has_file(k) && 0 <= i < self.chain_of(k).len() && (
                #[trigger] self.chain_of(k)[i]).cluster_start_number == c {
                let (k, i) = choose|k: u64, i: int|
                    self.has_file(k) && 0 <= i < self.chain_of(k).len() && (
                    #[trigger] self.chain_of(k)[i]).cluster_start_number == c;
                assert(self.index@.dom().contains(k));
                assert(!self.allocator@.contains(self.index@[k][i].cluster_start_number));
                assert(false);
            }
        }
    }

    /// Checks one superblock copy: signature, trailing checksum, and
    /// agreement with the medium's cluster count.
    fn copy_ok(b: &Block, n_total: u64) -> (res: bool)
        ensures
            res == (spec_valid_superblock_block(b@) && u64_from_le_at(b@, 312) == n_total
                && u64_from_le_at(b@, 320) <= u64_from_le_at(b@, 312)),
    {
        let valid = validate_superblock(b);
        if !valid {
            return false;
        }
        let sb = SuperBlock::from_disk_format(b);
        sb.n_sectors_total == n_total && sb.n_sectors_used <= sb.n_sectors_total
    }
}

/// A byte position inside a file splits into a cluster index and an
/// in-cluster offset.
proof fn lemma_byte_position(j: int, m: int)
    requires
        0 <= j,
        0 <= m,
        j < 4096 * m,
    ensures
        0 <= j / 4096 < m,
        0 <= j % 4096 < 4096,
        j == 4096 * (j / 4096) + j % 4096,
{
    lemma_fundamental_div_mod(j, 4096);
    vstd::arithmetic::div_mod::lemma_mod_division_less_than_divisor(j, 4096);
    let q = j / 4096;
    let r = j % 4096;
    assert(0 <= q < m) by (nonlinear_arith)
        requires
            j == 4096 * q + r,
            0 <= r < 4096,
            0 <= j,
            j < 4096 * m,
    ;
}

/// After a create, every chain is still made of distinct, addressable,
/// non-reserved single clusters, chains still never overlap, and nothing
/// both free and in use exists: the new chain was carved out of the old
/// free list, which the old chains never touched.
proof fn lemma_create_file_restores(
    m0: Map<u64, Seq<DataNode>>,
    m1: Map<u64, Seq<DataNode>>,
    f0: Seq<u64>,
    f1: Seq<u64>,
    chain: Seq<DataNode>,
    v: Seq<u64>,
    inum: u64,
    total: u64,
)
    requires
        chains_wf(m0, total),
        chains_free_disjoint(m0, f0),
        !m0.dom().contains(inum),
        m1 == m0.insert(inum, chain),
        chain.len() == v.len(),
        forall|j: int|
            0 <= j < chain.len() ==> (#[trigger] chain[j]) == (DataNode {
                clusters_used: 1,
                cluster_start_number: v[j],
            }),
        forall|i: int, j: int| 0 <= i < j < v.len() ==> v[i] != v[j],
        forall|i: int|
            0 <= i < v.len() ==> (#[trigger] v[i]) < total && !spec_reserved_cluster(v[i])
                && f0.contains(v[i]) && !f1.contains(v[i]),
        forall|x: u64| f1.contains(x) ==> f0.contains(x),
    ensures
        chains_wf(m1, total),
        chains_free_disjoint(m1, f1),
{
    assert forall|k: u64, i: int|
        m1.dom().contains(k) && 0 <= i < m1[k].len() implies (#[trigger] m1[k][i]).clusters_used
        == 1 && m1[k][i].cluster_start_number < total && !spec_reserved_cluster(
        m1[k][i].cluster_start_number,
    ) && !f1.contains(m1[k][i].cluster_start_number) by {
        if k == inum {
            assert(chain[i].cluster_start_number == v[i]);
        } else {
            assert(m1[k] == m0[k]);
            assert(!f0.contains(m0[k][i].cluster_start_number));
        }
    }
    assert forall|k: u64, i1: int, i2: int|
        m1.dom().contains(k) && 0 <= i1 < i2 < m1[k].len() implies (
    #[trigger] m1[k][i1]).cluster_start_number != (
    #[trigger] m1[k][i2]).cluster_start_number by {
        if k == inum {
            assert(chain[i1].cluster_start_number == v[i1]);
            assert(chain[i2].cluster_start_number == v[i2]);
        } else {
            assert(m1[k] == m0[k]);
        }
    }
    assert forall|k1: u64, k2: u64, i1: int, i2: int|
        m1.dom().contains(k1) && m1.dom().contains(k2) && k1 != k2 && 0 <= i1 < m1[k1].len() && 0
            <= i2 < m1[k2].len() implies (#[trigger] m1[k1][i1]).cluster_start_number != (
    #[trigger] m1[k2][i2]).cluster_start_number by {
        if k1 == inum {
            assert(chain[i1].cluster_start_number == v[i1]);
            assert(f0.contains(v[i1]));
            assert(m1[k2] == m0[k2]);
            assert(!f0.contains(m0[k2][i2].cluster_start_number));
        } else if k2 == inum {
            assert(chain[i2].cluster_start_number == v[i2]);
            assert(f0.contains(v[i2]));
            assert(m1[k1] == m0[k1]);
            assert(!f0.contains(m0[k1][i1].cluster_start_number));
        } else {
            assert(m1[k1] == m0[k1]);
            assert(m1[k2] == m0[k2]);
        }
    }
}

/// After a create, the new file reads as all zeroes and no other file's
/// content moved: the zeroed clusters came from the free list, which no
/// existing chain touches.
proof fn lemma_create_file_contents(
    m0: Map<u64, Seq<DataNode>>,
    chain: Seq<DataNode>,
    v: Seq<u64>,
    inum: u64,
    f0: Seq<u64>,
    disk0: Seq<Seq<u8>>,
    disk1: Seq<Seq<u8>>,
    total: u64,
)
    requires
        chains_wf(m0, total),
        chains_free_disjoint(m0, f0),
        chain.len() == v.len(),
        forall|j: int|
            0 <= j < chain.len() ==> (#[trigger] chain[j]) == (DataNode {
                clusters_used: 1,
                cluster_start_number: v[j],
            }),
        forall|i: int| 0 <= i < v.len() ==> (#[trigger] v[i]) < total && f0.contains(v[i]),
        disk0.len() == total,
        disk1.len() == total,
        forall|x: int|
            0 <= x < total ==> disk1[x] == (if v.contains(x as u64) {
                empty_block()
            } else {
                disk0[x]
            }),
    ensures
        spec_file_content(chain, disk1) == spec_zero_bytes(chain.len() as int),
        forall|k: u64|
            m0.dom().contains(k) && k != inum ==> spec_file_content(m0[k], disk1)
                == spec_file_content(#[trigger] m0[k], disk0),
{
    assert forall|j: int|
        0 <= j < 4096 * chain.len() implies spec_file_content(chain, disk1)[j] == 0u8 by {
        lemma_byte_position(j, chain.len() as int);
        let q = j / 4096;
        assert(chain[q].cluster_start_number == v[q]);
        assert(v.contains(v[q]));
        assert(disk1[v[q] as int] == empty_block());
    }
    assert(spec_file_content(chain, disk1) =~= spec_zero_bytes(chain.len() as int));
    assert forall|k: u64|
        m0.dom().contains(k) && k != inum implies spec_file_content(m0[k], disk1)
        == spec_file_content(#[trigger] m0[k], disk0) by {
        let c = m0[k];
        assert forall|j: int|
            0 <= j < 4096 * c.len() implies spec_file_content(c, disk1)[j] == spec_file_content(
            c,
            disk0,
        )[j] by {
            lemma_byte_position(j, c.len() as int);
            let q = j / 4096;
            let start = c[q].cluster_start_number;
            assert(start < total && !f0.contains(start));
            if v.contains(start) {
                let i = choose|i: int| 0 <= i < v.len() && v[i] == start;
                assert(f0.contains(v[i]));
                assert(false);
            }
            assert(disk1[start as int] == disk0[start as int]);
        }
        assert(spec_file_content(c, disk1) =~= spec_file_content(c, disk0));
    }
}

/// After a delete, the remaining chains are untouched and still avoid the
/// grown free list: the returned clusters belonged only to the deleted
/// file.
proof fn lemma_delete_file_restores(
    m0: Map<u64, Seq<DataNode>>,
    m1: Map<u64, Seq<DataNode>>,
    f0: Seq<u64>,
    f1: Seq<u64>,
    chain: Seq<DataNode>,
    v: Seq<u64>,
    inum: u64,
    total: u64,
)
    requires
        chains_wf(m0, total),
        chains_free_disjoint(m0, f0),
        m0.dom().contains(inum),
        m0[inum] == chain,
        m1 == m0.remove(inum),
        f1 == f0 + v,
        chain.len() == v.len(),
        forall|j: int| 0 <= j < chain.len() ==> (#[trigger] chain[j]).cluster_start_number == v[j],
    ensures
        chains_wf(m1, total),
        chains_free_disjoint(m1, f1),
{
    assert forall|k: u64, i: int|
        m1.dom().contains(k) && 0 <= i < m1[k].len() implies (#[trigger] m1[k][i]).clusters_used
        == 1 && m1[k][i].cluster_start_number < total && !spec_reserved_cluster(
        m1[k][i].cluster_start_number,
    ) && !f1.contains(m1[k][i].cluster_start_number) by {
        assert(m1[k] == m0[k]);
        let start = m0[k][i].cluster_start_number;
        assert(!f0.contains(start));
        if f1.contains(start) {
            let j = choose|j: int| 0 <= j < f1.len() && f1[j] == start;
            if j < f0.len() {
                assert(f0[j] == start);
                assert(f0.contains(start));
                assert(false);
            } else {
                assert(v[j - f0.len()] == start);
                assert(chain[j - f0.len()].cluster_start_number == start);
                assert(m0[inum][j - f0.len()].cluster_start_number == m0[k][i].cluster_start_number);
                assert(false);
            }
        }
    }
    assert forall|k: u64, i1: int, i2: int|
        m1.dom().contains(k) && 0 <= i1 < i2 < m1[k].len() implies (
    #[trigger] m1[k][i1]).cluster_start_number != (
    #[trigger] m1[k][i2]).cluster_start_number by {
        assert(m1[k] == m0[k]);
    }
    assert forall|k1: u64, k2: u64, i1: int, i2: int|
        m1.dom().contains(k1) && m1.dom().contains(k2) && k1 != k2 && 0 <= i1 < m1[k1].len() && 0
            <= i2 < m1[k2].len() implies (#[trigger] m1[k1][i1]).cluster_start_number != (
    #[trigger] m1[k2][i2]).cluster_start_number by {
        assert(m1[k1] == m0[k1]);
        assert(m1[k2] == m0[k2]);
    }
}

/// A well-formed chain cannot hold more clusters than the address space.
proof fn lemma_chain_len_bounded(m: Map<u64, Seq<DataNode>>, inum: u64, total: u64)
    requires
        chains_wf(m, total),
        m.dom().contains(inum),
    ensures
        m[inum].len() <= total,
{
    let starts = m[inum].map_values(|r: DataNode| r.cluster_start_number);
    assert forall|i: int, j: int| 0 <= i < j < starts.len() implies starts[i] != starts[j] by {
        assert(m[inum][i].cluster_start_number != m[inum][j].cluster_start_number);
    }
    assert forall|i: int| 0 <= i < starts.len() implies starts[i] < total by {
        assert(m[inum][i].cluster_start_number < total);
    }
    lemma_distinct_bounded(starts, total);
}

/// One read-patch-write of a single byte moves the file's content one byte
/// further towards the target write, and moves no other file's content at
/// all: the patched cluster belongs to this file's chain alone.
proof fn lemma_write_byte_step(
    m: Map<u64, Seq<DataNode>>,
    inum: u64,
    chain: Seq<DataNode>,
    disk_prev: Seq<Seq<u8>>,
    disk_new: Seq<Seq<u8>>,
    content0: Seq<u8>,
    offset: int,
    buf: Seq<u8>,
    i: int,
    total: u64,
)
    requires
        chains_wf(m, total),
        m.dom().contains(inum),
        m[inum] == chain,
        disk_prev.len() == total,
        disk_new.len() == total,
        content0.len() == 4096 * chain.len(),
        0 <= offset,
        offset + buf.len() <= content0.len(),
        0 < i <= buf.len(),
        ({
            let j = offset + i - 1;
            let c = chain[j / 4096].cluster_start_number as int;
            disk_new == disk_prev.update(c, disk_prev[c].update(j % 4096, buf[i - 1]))
        }),
        disk_prev[chain[(offset + i - 1) / 4096].cluster_start_number as int].len() == 4096,
        spec_file_content(chain, disk_prev) == spec_write_bytes(content0, offset, buf.take(i - 1)),
    ensures
        spec_file_content(chain, disk_new) == spec_write_bytes(content0, offset, buf.take(i)),
        forall|k: u64|
            m.dom().contains(k) && k != inum ==> spec_file_content(#[trigger] m[k], disk_new)
                == spec_file_content(m[k], disk_prev),
{
    let j = offset + i - 1;
    lemma_byte_position(j, chain.len() as int);
    let kj = j / 4096;
    let w = j % 4096;
    let c = chain[kj].cluster_start_number as int;
    assert(chain[kj].cluster_start_number < total);
    assert forall|t: int|
        0 <= t < 4096 * chain.len() implies spec_file_content(chain, disk_new)[t]
        == spec_write_bytes(content0, offset, buf.take(i))[t] by {
        lemma_byte_position(t, chain.len() as int);
        let q = t / 4096;
        let r = t % 4096;
        let prev = spec_file_content(chain, disk_prev)[t];
        if chain[q].cluster_start_number as int == c {
            assert(q == kj) by {
                if q < kj {
                    assert(chain[q].cluster_start_number != chain[kj].cluster_start_number);
                } else if q > kj {
                    assert(chain[kj].cluster_start_number != chain[q].cluster_start_number);
                }
            }
            if r == w {
                assert(t == j);
                assert(spec_file_content(chain, disk_new)[t] == buf[i - 1]);
            } else {
                assert(t != j);
                assert(spec_file_content(chain, disk_new)[t] == disk_prev[c][r]);
                assert(spec_file_content(chain, disk_new)[t] == prev);
            }
        } else {
            assert(disk_new[chain[q].cluster_start_number as int] == disk_prev[chain[q].cluster_start_number as int]);
            assert(spec_file_content(chain, disk_new)[t] == prev);
        }
        if t != j {
            assert(spec_write_bytes(content0, offset, buf.take(i))[t] == spec_write_bytes(
                content0,
                offset,
                buf.take(i - 1),
            )[t]);
        }
    }
    assert(spec_file_content(chain, disk_new) =~= spec_write_bytes(content0, offset, buf.take(i)));
    assert forall|k: u64|
        m.dom().contains(k) && k != inum implies spec_file_content(#[trigger] m[k], disk_new)
        == spec_file_content(m[k], disk_prev) by {
        let ch = m[k];
        assert forall|t: int|
            0 <= t < 4096 * ch.len() implies spec_file_content(ch, disk_new)[t]
            == spec_file_content(ch, disk_prev)[t] by {
            lemma_byte_position(t, ch.len() as int);
            let q = t / 4096;
            assert(ch[q].cluster_start_number != chain[kj].cluster_start_number);
            assert(disk_new[ch[q].cluster_start_number as int] == disk_prev[ch[q].cluster_start_number as int]);
        }
        assert(spec_file_content(ch, disk_new) =~= spec_file_content(ch, disk_prev));
    }
}

/// Round trip: writing `data` over a file at `offset` and then reading
/// exactly `data.len()` bytes back at `offset` yields `data`, for any
/// offset and length within the file's extent. Together with the contracts
/// of `write_at` and `read_exact_at`, which phrase the file's content after
/// a write as `spec_write_bytes` and the bytes read as a `subrange` of the
/// content, this pins the write-then-read behaviour down.
pub proof fn lemma_write_read_roundtrip(content: Seq<u8>, offset: int, data: Seq<u8>)
    requires
        0 <= offset,
        offset + data.len() <= content.len(),
    ensures
        spec_write_bytes(content, offset, data).subrange(offset, offset + data.len()) == data,
{
    assert(spec_write_bytes(content, offset, data).subrange(offset, offset + data.len()) =~= data);
}

/// Boundary: the window that `read_at` serves at `offset == file length`
/// is empty, so such a read returns zero bytes — and, by `read_at`'s
/// contract, it is not an error. An exact read of any positive length
/// there fails with `UnexpectedEof` by `read_exact_at`'s contract.
pub proof fn lemma_read_at_eof_empty(content: Seq<u8>)
    ensures
        content.subrange(content.len() as int, content.len() as int) == Seq::<u8>::empty(),
{
    assert(content.subrange(content.len() as int, content.len() as int) =~= Seq::<u8>::empty());
}

/// Cluster accounting: in every reachable partition state, an addressable,
/// non-reserved cluster is either on the free list or inside exactly one
/// file's chain — never both and never neither.
pub proof fn lemma_cluster_accounting(m: &PartitionManager, c: u64)
    requires
        m.wf(),
        c < m.superblock().n_sectors_total,
        !spec_reserved_cluster(c),
    ensures
        m.free_clusters().contains(c) || (exists|k: u64, i: int|
            m.has_file(k) && 0 <= i < m.chain_of(k).len() && (
            #[trigger] m.chain_of(k)[i]).cluster_start_number == c),
        !(m.free_clusters().contains(c) && (exists|k: u64, i: int|
            m.has_file(k) && 0 <= i < m.chain_of(k).len() && (
            #[trigger] m.chain_of(k)[i]).cluster_start_number == c)),
{
    m.lemma_accounting_parts(c);
}

/// Mounting is idempotent: two mounts of an unmodified medium trust the
/// same superblock copy and decode it to the same in-memory superblock.
pub proof fn lemma_mount_idempotent(d: Seq<Seq<u8>>, sb1: SuperBlock, sb2: SuperBlock)
    requires
        spec_pick_superblock(d) >= 0,
        spec_decodes_to(d[spec_pick_superblock(d)], sb1),
        spec_decodes_to(d[spec_pick_superblock(d)], sb2),
    ensures
        sb1 == sb2,
{
    lemma_decode_unique(d[spec_pick_superblock(d)], sb1, sb2);
}

} // verus!
