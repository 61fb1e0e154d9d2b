//! A simple block driver over a fixed run of clusters that services each
//! request immediately instead of queueing it.

use vstd::prelude::*;
use crate::block::Block;
use crate::block::BlockDriver;

verus! {

/// Number of clusters the simple driver manages.
pub const SIMPLE_DRIVER_CLUSTERS: usize = 1000;

/// A block driver backed by a fixed in-memory run of clusters; requests
/// block until served.
pub struct SimpleBlockDriver {
    clusters: Vec<Block>,
    curr_gpt_entries: usize,
}

/// One partition table entry. The name is in UTF-16.
pub struct GPTEntry {
    pub partition_type: u128,
    pub guid: u128,
    pub first_lba: u64,
    pub last_lba: u64,
    pub flags: u64,
    pub name: [u16; 36],
}

impl GPTEntry {
    /// A partition table entry from its raw fields.
    pub fn new(
        partition_type: u128,
        guid: u128,
        first_lba: u64,
        last_lba: u64,
        flags: u64,
        name: [u16; 36],
    ) -> (res: Self)
        ensures
            res.partition_type == partition_type,
            res.guid == guid,
            res.first_lba == first_lba,
            res.last_lba == last_lba,
            res.flags == flags,
            res.name == name,
    {
        Self { partition_type, guid, first_lba, last_lba, flags, name }
    }
}

impl View for SimpleBlockDriver {
    type V = Seq<Seq<u8>>;

    /// The bytes of each cluster, in order.
    closed spec fn view(&self) -> Seq<Seq<u8>> {
        self.clusters@.map_values(|b: Block| b@)
    }
}

impl SimpleBlockDriver {
    /// The structural invariant: the driver holds its fixed run of
    /// clusters.
    pub closed spec fn inv(&self) -> bool {
        self.clusters@.len() == SIMPLE_DRIVER_CLUSTERS
    }

    /// How many partition table entries have been created so far.
    pub closed spec fn gpt_entries(&self) -> int {
        self.curr_gpt_entries as int
    }

    /// A driver over the given clusters with `curr_gpt_entries` partition
    /// table entries already taken.
    pub fn new(clusters: Vec<Block>, curr_gpt_entries: usize) -> (res: Self)
        requires
            clusters@.len() == SIMPLE_DRIVER_CLUSTERS,
        ensures
            res.inv(),
            res@ == clusters@.map_values(|b: Block| b@),
            res.gpt_entries() == curr_gpt_entries,
    {
        Self { clusters, curr_gpt_entries }
    }

    /// Takes the partition table slot for the protective EFI partition at
    /// the front of the medium.
    pub fn create_efi_partition(&mut self)
        requires
            old(self).gpt_entries() < usize::MAX,
        ensures
            final(self)@ == old(self)@,
            final(self).inv() == old(self).inv(),
            final(self).gpt_entries() == old(self).gpt_entries() + 1,
    {
        self.curr_gpt_entries = self.curr_gpt_entries + 1;
    }

    /// Takes a partition table slot for a NeutronFS partition of
    /// `size_bytes` bytes laid out from cluster 34, and returns the first
    /// cluster number past its end.
    pub fn create_nefs_partition(&mut self, size_bytes: usize) -> (end_cluster: u64)
        requires
            old(self).gpt_entries() < usize::MAX,
            34 * 4096 + size_bytes <= u64::MAX,
        ensures
            final(self)@ == old(self)@,
            final(self).inv() == old(self).inv(),
            final(self).gpt_entries() == old(self).gpt_entries() + 1,
            end_cluster == (34 * 4096 + size_bytes as int) / 4096,
    {
        // the partition body starts at cluster 34
        let start_addr: u64 = 34 * 4096;
        let end_cluster = SimpleBlockDriver::ceil_addr_to_cluster_number(
            start_addr + size_bytes as u64,
        );
        self.curr_gpt_entries = self.curr_gpt_entries + 1;
        end_cluster
    }

    /// The cluster holding the byte at address `addr`.
    pub fn ceil_addr_to_cluster_number(addr: u64) -> (res: u64)
        ensures
            res == addr as int / 4096,
    {
        addr / 4096
    }
}

impl BlockDriver for SimpleBlockDriver {
    open spec fn wf(&self) -> bool {
        self.inv()
    }

    /// Services the read at once: the cluster's bytes are copied straight
    /// into the caller's buffer; an out-of-range cluster leaves the buffer
    /// untouched.
    fn push_read_request(&mut self, buf: &mut [u8], cluster_number: u64)
        ensures
            final(self)@ == old(self)@,
            cluster_number < SIMPLE_DRIVER_CLUSTERS ==> final(buf)@ == old(self)@[
                cluster_number as int],
            cluster_number >= SIMPLE_DRIVER_CLUSTERS ==> final(buf)@ == old(buf)@,
    {
        if cluster_number < SIMPLE_DRIVER_CLUSTERS as u64 {
            let block = &self.clusters[cluster_number as usize];
            let mut i: usize = 0;
            while i < 4096
                invariant
                    i <= 4096,
                    buf@.len() == 4096,
                    block@.len() == 4096,
                    forall|j: int| 0 <= j < i ==> buf@[j] == block@[j],
                decreases 4096 - i,
            {
                buf[i] = block[i];
                i = i + 1;
            }
            proof {
                assert(buf@ =~= block@);
            }
        }
    }

    /// Services the write at once: the block replaces the cluster's
    /// content; an out-of-range cluster is ignored.
    fn push_write_request(&mut self, cluster_number: u64, block: Block)
        ensures
            cluster_number < SIMPLE_DRIVER_CLUSTERS ==> final(self)@ == old(self)@.update(
                cluster_number as int,
                block@,
            ),
            cluster_number >= SIMPLE_DRIVER_CLUSTERS ==> final(self)@ == old(self)@,
    {
        if cluster_number < SIMPLE_DRIVER_CLUSTERS as u64 {
            self.clusters.set(cluster_number as usize, block);
            proof {
                assert(self@ =~= old(self)@.update(cluster_number as int, block@));
            }
        }
    }
}

} // verus!
