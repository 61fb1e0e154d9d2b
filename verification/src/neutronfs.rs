//! On-disk definitions of the filesystem: the superblock and its stable
//! little-endian encoding, node headers, data-node descriptors, the
//! free-cluster chain, and probabilistic level generation for the skiplist
//! index.

use vstd::prelude::*;
use crate::block::Block;
use crate::block::make_block;

verus! {

// ----------------
// DISK DEFINITIONS
// ----------------
/// Size of a single leaf node on disk.
pub const DEFAULT_LEAF_NODE_SIZE: u16 = 4096;

/// Size of a single internal node on disk.
pub const DEFAULT_INTERNAL_NODE_SIZE: u8 = 40;

/// Bytes per sector.
pub const SECTOR_SIZE: u64 = 4096;

/// Bytes per page; pages and sectors coincide on this medium.
pub const PAGE_SIZE: u64 = 4096;

/// A skiplist node's level is drawn from `[0, MAX_LEVELS)`.
pub const MAX_LEVELS: usize = 4095;

/// Media lookup number of one cluster.
pub type ClusterNumber = u64;

/// Key number that sorts the inode index.
pub type InodeNumber = u64;

/// Key number that sorts a data-node chain.
pub type DataNodeNumber = u64;

/// Upper bound on data nodes per file.
pub const MAX_DATA_NODES: u64 = 8192;

/// Keys held by one internal node on disk.
pub const MAX_INTERNAL_ITEMS_PER_NODE: usize = 20;

/// Items held by one leaf node on disk.
pub const MAX_LEAF_ITEMS_PER_NODE: usize = 20;

// ---------------
// DISK STRUCTURES
// ---------------
/// Filesystem UUID.
pub type FSUUID = [u8; 16];

/// 32-bit integrity checksum.
pub type Checksum32 = u32;

/// 160-bit integrity checksum.
pub type ChecksumSHA1 = [u8; 20];

/// One cluster's worth of raw bytes.
pub type ClusterData = [u8; 4096];

/// Marker wrapper for values that are staged for a whole-cluster write.
pub struct Align4096<T>(pub T);

/// Magic signature identifying a NeutronFS superblock.
pub const SUPERBLOCK_MAGIC: u64 = 0x4e65_7546_5342_4c4b;

/// Byte length of the encoded superblock record, checksum included.
pub const SUPERBLOCK_ENCODED_LEN: usize = 336;

/// Core metadata of the filesystem held in memory. On disk it is written
/// as a fixed-size little-endian record with a trailing CRC-32-Castagnoli
/// checksum covering all preceding bytes (see `to_disk_format`).
#[derive(Debug, Clone, Copy, PartialEq, Eq)]
pub struct SuperBlock {
    // AUTHENTICITY OF FS
    pub magic: u64,
    pub fs_uuid: FSUUID,
    // INTEGRITY
    pub checksum: Checksum32,
    // LABELS
    pub label: [u8; 256],
    pub generation: u64,
    // OFFSETS
    pub physical_addr_of_partition: u64,
    pub core_fs_skiplist_addr: u64,
    pub free_cluster_list_addr: u64,
    // TOTAL SIZES
    pub n_sectors_total: u64,
    pub n_sectors_used: u64,
    // FEATURE SIZE
    pub sector_size_bytes: u16,
    pub fs_node_size_bytes: u16,
}

/// Little-endian bytes of a `u64`.
pub open spec fn u64_le_bytes(x: u64) -> Seq<u8> {
    seq![
        (x & 0xff) as u8,
        ((x >> 8) & 0xff) as u8,
        ((x >> 16) & 0xff) as u8,
        ((x >> 24) & 0xff) as u8,
        ((x >> 32) & 0xff) as u8,
        ((x >> 40) & 0xff) as u8,
        ((x >> 48) & 0xff) as u8,
        ((x >> 56) & 0xff) as u8,
    ]
}

/// Little-endian bytes of a `u32`.
pub open spec fn u32_le_bytes(x: u32) -> Seq<u8> {
    seq![(x & 0xff) as u8, ((x >> 8) & 0xff) as u8, ((x >> 16) & 0xff) as u8, ((x >> 24) & 0xff) as u8]
}

/// Little-endian bytes of a `u16`.
pub open spec fn u16_le_bytes(x: u16) -> Seq<u8> {
    seq![(x & 0xff) as u8, ((x >> 8) & 0xff) as u8]
}

/// The `u64` encoded little-endian at byte offset `off` of `s`.
pub open spec fn u64_from_le_at(s: Seq<u8>, off: int) -> u64 {
    (s[off] as u64) | ((s[off + 1] as u64) << 8) | ((s[off + 2] as u64) << 16) | ((s[off + 3] as u64)
        << 24) | ((s[off + 4] as u64) << 32) | ((s[off + 5] as u64) << 40) | ((s[off + 6] as u64)
        << 48) | ((s[off + 7] as u64) << 56)
}

/// The `u32` encoded little-endian at byte offset `off` of `s`.
pub open spec fn u32_from_le_at(s: Seq<u8>, off: int) -> u32 {
    (s[off] as u32) | ((s[off + 1] as u32) << 8) | ((s[off + 2] as u32) << 16) | ((s[off + 3] as u32)
        << 24)
}

/// The `u16` encoded little-endian at byte offset `off` of `s`.
pub open spec fn u16_from_le_at(s: Seq<u8>, off: int) -> u16 {
    (s[off] as u16) | ((s[off + 1] as u16) << 8)
}

/// The checksummed portion of the encoded superblock record.
pub open spec fn spec_superblock_body(sb: SuperBlock) -> Seq<u8> {
    u64_le_bytes(sb.magic) + sb.fs_uuid@ + sb.label@ + u64_le_bytes(sb.generation) + u64_le_bytes(
        sb.physical_addr_of_partition,
    ) + u64_le_bytes(sb.core_fs_skiplist_addr) + u64_le_bytes(sb.free_cluster_list_addr)
        + u64_le_bytes(sb.n_sectors_total) + u64_le_bytes(sb.n_sectors_used) + u16_le_bytes(
        sb.sector_size_bytes,
    ) + u16_le_bytes(sb.fs_node_size_bytes)
}

/// The whole encoded block: body, trailing checksum, zero padding.
pub open spec fn spec_superblock_block(sb: SuperBlock) -> Seq<u8> {
    spec_superblock_body(sb) + u32_le_bytes(crc32c_of(spec_superblock_body(sb))) + Seq::new(
        3760,
        |i: int| 0u8,
    )
}

/// A block holds a trustworthy superblock record: the magic signature
/// matches and the trailing checksum validates against the preceding bytes.
pub open spec fn spec_valid_superblock_block(b: Seq<u8>) -> bool {
    &&& b.len() == 4096
    &&& u64_from_le_at(b, 0) == SUPERBLOCK_MAGIC
    &&& u32_from_le_at(b, 332) == crc32c_of(b.take(332))
}

/// `sb` is the in-memory reading of the record held in `b`.
pub open spec fn spec_decodes_to(b: Seq<u8>, sb: SuperBlock) -> bool {
    &&& sb.magic == u64_from_le_at(b, 0)
    &&& sb.fs_uuid@ == b.subrange(8, 24)
    &&& sb.label@ == b.subrange(24, 280)
    &&& sb.generation == u64_from_le_at(b, 280)
    &&& sb.physical_addr_of_partition == u64_from_le_at(b, 288)
    &&& sb.core_fs_skiplist_addr == u64_from_le_at(b, 296)
    &&& sb.free_cluster_list_addr == u64_from_le_at(b, 304)
    &&& sb.n_sectors_total == u64_from_le_at(b, 312)
    &&& sb.n_sectors_used == u64_from_le_at(b, 320)
    &&& sb.sector_size_bytes == u16_from_le_at(b, 328)
    &&& sb.fs_node_size_bytes == u16_from_le_at(b, 330)
    &&& sb.checksum == u32_from_le_at(b, 332)
}

/// One block decodes to a single in-memory superblock value.
pub proof fn lemma_decode_unique(b: Seq<u8>, sb1: SuperBlock, sb2: SuperBlock)
    requires
        spec_decodes_to(b, sb1),
        spec_decodes_to(b, sb2),
    ensures
        sb1 == sb2,
{
    assert(sb1.fs_uuid =~= sb2.fs_uuid);
    assert(sb1.label =~= sb2.label);
}

impl SuperBlock {
    /// The structural invariant: the signature is set and no more sectors
    /// are used than exist.
    pub open spec fn wf(&self) -> bool {
        &&& self.magic == SUPERBLOCK_MAGIC
        &&& self.n_sectors_used <= self.n_sectors_total
    }

    /// A fresh superblock. The checksum field is left unset; it is computed
    /// whenever the record is encoded for disk.
    pub fn new(
        fs_uuid: FSUUID,
        label: [u8; 256],
        generation: u64,
        physical_addr_of_partition: u64,
        core_fs_skiplist_addr: u64,
        free_cluster_list_addr: u64,
        n_sectors_total: u64,
        n_sectors_used: u64,
        sector_size_bytes: u16,
        fs_node_size_bytes: u16,
    ) -> (res: Self)
        requires
            n_sectors_used <= n_sectors_total,
        ensures
            res.wf(),
            res == (SuperBlock {
                magic: SUPERBLOCK_MAGIC,
                fs_uuid,
                checksum: 0u32,
                label,
                generation,
                physical_addr_of_partition,
                core_fs_skiplist_addr,
                free_cluster_list_addr,
                n_sectors_total,
                n_sectors_used,
                sector_size_bytes,
                fs_node_size_bytes,
            }),
    {
        SuperBlock {
            magic: SUPERBLOCK_MAGIC,
            fs_uuid,
            checksum: 0,
            label,
            generation,
            physical_addr_of_partition,
            core_fs_skiplist_addr,
            free_cluster_list_addr,
            n_sectors_total,
            n_sectors_used,
            sector_size_bytes,
            fs_node_size_bytes,
        }
    }
}

/// Appends the little-endian bytes of `x` to `v`.
fn push_u64_le(v: &mut Vec<u8>, x: u64)
    ensures
        final(v)@ == old(v)@ + u64_le_bytes(x),
{
    v.push((x & 0xff) as u8);
    v.push(((x >> 8) & 0xff) as u8);
    v.push(((x >> 16) & 0xff) as u8);
    v.push(((x >> 24) & 0xff) as u8);
    v.push(((x >> 32) & 0xff) as u8);
    v.push(((x >> 40) & 0xff) as u8);
    v.push(((x >> 48) & 0xff) as u8);
    v.push(((x >> 56) & 0xff) as u8);
    proof {
        assert(v@ =~= old(v)@ + u64_le_bytes(x));
    }
}

/// Appends the little-endian bytes of `x` to `v`.
fn push_u32_le(v: &mut Vec<u8>, x: u32)
    ensures
        final(v)@ == old(v)@ + u32_le_bytes(x),
{
    v.push((x & 0xff) as u8);
    v.push(((x >> 8) & 0xff) as u8);
    v.push(((x >> 16) & 0xff) as u8);
    v.push(((x >> 24) & 0xff) as u8);
    proof {
        assert(v@ =~= old(v)@ + u32_le_bytes(x));
    }
}

/// Appends the little-endian bytes of `x` to `v`.
fn push_u16_le(v: &mut Vec<u8>, x: u16)
    ensures
        final(v)@ == old(v)@ + u16_le_bytes(x),
{
    v.push((x & 0xff) as u8);
    v.push(((x >> 8) & 0xff) as u8);
    proof {
        assert(v@ =~= old(v)@ + u16_le_bytes(x));
    }
}

/// Appends the bytes of `a` to `v`.
fn push_bytes<const N: usize>(v: &mut Vec<u8>, a: &[u8; N])
    requires
        old(v)@.len() + N <= usize::MAX as int,
    ensures
        final(v)@ == old(v)@ + a@,
{
    let mut i: usize = 0;
    while i < N
        invariant
            i <= N,
            v@ == old(v)@ + a@.take(i as int),
        decreases N - i,
    {
        v.push(a[i]);
        i = i + 1;
        proof {
            assert(v@ =~= old(v)@ + a@.take(i as int));
        }
    }
    proof {
        assert(a@.take(N as int) =~= a@);
    }
}

/// Reads `N` bytes of `b` starting at `off`.
fn read_bytes<const N: usize>(b: &Block, off: usize) -> (res: [u8; N])
    requires
        off + N <= 4096,
    ensures
        res@ == b@.subrange(off as int, off as int + N as int),
{
    let mut res: [u8; N] = [0; N];
    let mut i: usize = 0;
    while i < N
        invariant
            i <= N,
            off + N <= 4096,
            b@.len() == 4096,
            res@.len() == N,
            forall|j: int| 0 <= j < i ==> res@[j] == b@[off + j],
        decreases N - i,
    {
        res[i] = b[off + i];
        i = i + 1;
    }
    proof {
        assert(res@ =~= b@.subrange(off as int, off as int + N as int));
    }
    res
}

/// Reads the `u64` encoded little-endian at `off`.
fn read_u64_le(b: &Block, off: usize) -> (x: u64)
    requires
        off + 8 <= 4096,
    ensures
        x == u64_from_le_at(b@, off as int),
{
    (b[off] as u64) | ((b[off + 1] as u64) << 8) | ((b[off + 2] as u64) << 16) | ((b[off + 3] as u64)
        << 24) | ((b[off + 4] as u64) << 32) | ((b[off + 5] as u64) << 40) | ((b[off + 6] as u64)
        << 48) | ((b[off + 7] as u64) << 56)
}

/// Reads the `u32` encoded little-endian at `off`.
fn read_u32_le(b: &Block, off: usize) -> (x: u32)
    requires
        off + 4 <= 4096,
    ensures
        x == u32_from_le_at(b@, off as int),
{
    (b[off] as u32) | ((b[off + 1] as u32) << 8) | ((b[off + 2] as u32) << 16) | ((b[off + 3] as u32)
        << 24)
}

/// Reads the `u16` encoded little-endian at `off`.
fn read_u16_le(b: &Block, off: usize) -> (x: u16)
    requires
        off + 2 <= 4096,
    ensures
        x == u16_from_le_at(b@, off as int),
{
    (b[off] as u16) | ((b[off + 1] as u16) << 8)
}

impl SuperBlock {
    /// Serializes the record for disk: the little-endian body, the trailing
    /// CRC-32-Castagnoli checksum over it, and zero padding up to one block.
    pub fn to_disk_format(&self) -> (b: Block)
        ensures
            b@ == spec_superblock_block(*self),
            spec_decodes_to(b@, SuperBlock { checksum: crc32c_of(spec_superblock_body(*self)), ..*self }),
    {
        let mut v: Vec<u8> = Vec::new();
        push_u64_le(&mut v, self.magic);
        push_bytes(&mut v, &self.fs_uuid);
        push_bytes(&mut v, &self.label);
        push_u64_le(&mut v, self.generation);
        push_u64_le(&mut v, self.physical_addr_of_partition);
        push_u64_le(&mut v, self.core_fs_skiplist_addr);
        push_u64_le(&mut v, self.free_cluster_list_addr);
        push_u64_le(&mut v, self.n_sectors_total);
        push_u64_le(&mut v, self.n_sectors_used);
        push_u16_le(&mut v, self.sector_size_bytes);
        push_u16_le(&mut v, self.fs_node_size_bytes);
        proof {
            assert(v@ =~= spec_superblock_body(*self));
        }
        let c = checksum32(v.as_slice());
        push_u32_le(&mut v, c);
        let mut b = make_block();
        let mut i: usize = 0;
        while i < 336
            invariant
                i <= 336,
                v@.len() == 336,
                v@ == spec_superblock_body(*self) + u32_le_bytes(crc32c_of(spec_superblock_body(*self))),
                b@.len() == 4096,
                forall|j: int| 0 <= j < i ==> b@[j] == v@[j],
                forall|j: int| i <= j < 4096 ==> b@[j] == 0u8,
            decreases 336 - i,
        {
            b[i] = v[i];
            i = i + 1;
        }
        proof {
            assert(b@ =~= spec_superblock_block(*self));
            lemma_superblock_block_decodes(*self, b@);
        }
        b
    }

    /// Reads the record held in `b`; the caller checks validity separately
    /// with `validate_superblock`.
    pub fn from_disk_format(b: &Block) -> (res: Self)
        ensures
            spec_decodes_to(b@, res),
    {
        SuperBlock {
            magic: read_u64_le(b, 0),
            fs_uuid: read_bytes::<16>(b, 8),
            label: read_bytes::<256>(b, 24),
            generation: read_u64_le(b, 280),
            physical_addr_of_partition: read_u64_le(b, 288),
            core_fs_skiplist_addr: read_u64_le(b, 296),
            free_cluster_list_addr: read_u64_le(b, 304),
            n_sectors_total: read_u64_le(b, 312),
            n_sectors_used: read_u64_le(b, 320),
            sector_size_bytes: read_u16_le(b, 328),
            fs_node_size_bytes: read_u16_le(b, 330),
            checksum: read_u32_le(b, 332),
        }
    }
}

/// Checks the magic signature and the trailing checksum of a block that is
/// supposed to hold a superblock record. The checksum is always computed
/// and compared; a zero stored checksum is never taken as valid by default.
pub fn validate_superblock(b: &Block) -> (ok: bool)
    ensures
        ok == spec_valid_superblock_block(b@),
{
    let magic = read_u64_le(b, 0);
    if magic != SUPERBLOCK_MAGIC {
        return false;
    }
    let stored = read_u32_le(b, 332);
    let body: &[u8] = &b.as_slice()[0..332];
    proof {
        assert(body@ =~= b@.take(332));
    }
    let computed = checksum32(body);
    stored == computed
}

/// An encoded superblock block decodes back to the same field values, with
/// the checksum field set to the computed checksum.
pub proof fn lemma_superblock_block_decodes(sb: SuperBlock, b: Seq<u8>)
    requires
        b == spec_superblock_block(sb),
    ensures
        spec_decodes_to(b, SuperBlock { checksum: crc32c_of(spec_superblock_body(sb)), ..sb }),
        sb.magic == SUPERBLOCK_MAGIC ==> spec_valid_superblock_block(b),
{
    let body = spec_superblock_body(sb);
    assert(body.len() == 332);
    assert(b.len() == 4096);
    lemma_u64_roundtrip_at(b, 0, sb.magic);
    assert(b.subrange(8, 24) =~= sb.fs_uuid@);
    assert(b.subrange(24, 280) =~= sb.label@);
    lemma_u64_roundtrip_at(b, 280, sb.generation);
    lemma_u64_roundtrip_at(b, 288, sb.physical_addr_of_partition);
    lemma_u64_roundtrip_at(b, 296, sb.core_fs_skiplist_addr);
    lemma_u64_roundtrip_at(b, 304, sb.free_cluster_list_addr);
    lemma_u64_roundtrip_at(b, 312, sb.n_sectors_total);
    lemma_u64_roundtrip_at(b, 320, sb.n_sectors_used);
    lemma_u16_roundtrip_at(b, 328, sb.sector_size_bytes);
    lemma_u16_roundtrip_at(b, 330, sb.fs_node_size_bytes);
    lemma_u32_roundtrip_at(b, 332, crc32c_of(body));
    assert(b.take(332) =~= body);
}

/// Decoding little-endian `u64` bytes recovers the value.
proof fn lemma_u64_roundtrip_at(s: Seq<u8>, off: int, x: u64)
    requires
        0 <= off,
        off + 8 <= s.len(),
        forall|k: int| 0 <= k < 8 ==> s[off + k] == u64_le_bytes(x)[k],
    ensures
        u64_from_le_at(s, off) == x,
{
    assert(((x & 0xff) as u8 as u64) | (((x >> 8) & 0xff) as u8 as u64) << 8 | (((x >> 16)
        & 0xff) as u8 as u64) << 16 | (((x >> 24) & 0xff) as u8 as u64) << 24 | (((x >> 32)
        & 0xff) as u8 as u64) << 32 | (((x >> 40) & 0xff) as u8 as u64) << 40 | (((x >> 48)
        & 0xff) as u8 as u64) << 48 | (((x >> 56) & 0xff) as u8 as u64) << 56 == x) by (bit_vector);
    assert(s[off + 0] == u64_le_bytes(x)[0]);
    assert(s[off + 1] == u64_le_bytes(x)[1]);
    assert(s[off + 2] == u64_le_bytes(x)[2]);
    assert(s[off + 3] == u64_le_bytes(x)[3]);
    assert(s[off + 4] == u64_le_bytes(x)[4]);
    assert(s[off + 5] == u64_le_bytes(x)[5]);
    assert(s[off + 6] == u64_le_bytes(x)[6]);
    assert(s[off + 7] == u64_le_bytes(x)[7]);
    assert(s[off] == (x & 0xff) as u8);
}

/// Decoding little-endian `u32` bytes recovers the value.
proof fn lemma_u32_roundtrip_at(s: Seq<u8>, off: int, x: u32)
    requires
        0 <= off,
        off + 4 <= s.len(),
        forall|k: int| 0 <= k < 4 ==> s[off + k] == u32_le_bytes(x)[k],
    ensures
        u32_from_le_at(s, off) == x,
{
    assert(((x & 0xff) as u8 as u32) | (((x >> 8) & 0xff) as u8 as u32) << 8 | (((x >> 16)
        & 0xff) as u8 as u32) << 16 | (((x >> 24) & 0xff) as u8 as u32) << 24 == x) by (bit_vector);
    assert(s[off + 0] == u32_le_bytes(x)[0]);
    assert(s[off + 1] == u32_le_bytes(x)[1]);
    assert(s[off + 2] == u32_le_bytes(x)[2]);
    assert(s[off + 3] == u32_le_bytes(x)[3]);
    assert(s[off] == (x & 0xff) as u8);
}

/// Decoding little-endian `u16` bytes recovers the value.
proof fn lemma_u16_roundtrip_at(s: Seq<u8>, off: int, x: u16)
    requires
        0 <= off,
        off + 2 <= s.len(),
        forall|k: int| 0 <= k < 2 ==> s[off + k] == u16_le_bytes(x)[k],
    ensures
        u16_from_le_at(s, off) == x,
{
    assert(((x & 0xff) as u8 as u16) | (((x >> 8) & 0xff) as u8 as u16) << 8 == x) by (bit_vector);
    assert(s[off + 0] == u16_le_bytes(x)[0]);
    assert(s[off + 1] == u16_le_bytes(x)[1]);
    assert(s[off] == (x & 0xff) as u8);
}

/// Header carried by every on-disk index node.
#[derive(Debug)]
pub struct NodeHeader {
    pub checksum: ChecksumSHA1,
    pub size_bytes: u64,
    pub generation_number: u64,
    pub n_levels: u64,
}

/// An internal node stores keys only, plus pointers to lower nodes;
/// pointer 0 always leads towards the root node.
#[derive(Debug)]
pub struct InternalNode {
    pub header: NodeHeader,
    pub pointers: [u64; 20],
}

/// What a leaf node stores.
#[derive(Debug)]
pub enum ItemType {
    Payload,
}

/// In-line leaf payload.
#[derive(Debug)]
pub struct Payload {}

/// A leaf node of the on-disk index.
#[derive(Debug)]
pub struct LeafNode {
    pub header: NodeHeader,
    pub item_type: ItemType,
}

/// One contiguous run of allocated clusters. A file's content is the
/// ordered concatenation of its data-node chain.
#[derive(Debug, Clone, Copy, PartialEq, Eq, Structural)]
pub struct DataNode {
    pub clusters_used: u64,
    pub cluster_start_number: ClusterNumber,
}

impl DataNode {
    /// A run of `clusters_used` clusters starting at `cluster_start_number`.
    pub fn new(clusters_used: u64, cluster_start_number: ClusterNumber) -> (res: Self)
        ensures
            res.clusters_used == clusters_used,
            res.cluster_start_number == cluster_start_number,
    {
        Self { clusters_used, cluster_start_number }
    }
}

/// One node of the on-disk free-cluster chain. The chain always grows at
/// the front (LIFO).
#[derive(Debug)]
pub struct FreeClusterNode {
    pub cluster_number: u64,
    pub next_nodes: Vec<FreeClusterNode>,
}

impl FreeClusterNode {
    /// A chain node for `cluster_number` linking to `next_nodes`.
    pub fn new(cluster_number: u64, next_nodes: Vec<FreeClusterNode>) -> (res: Self)
        ensures
            res.cluster_number == cluster_number,
            res.next_nodes == next_nodes,
    {
        Self { cluster_number, next_nodes }
    }
}

/// Handle to one indexed file: its key in the inode skiplist.
#[derive(Debug, Clone, Copy, PartialEq, Eq, Structural)]
pub struct Inode {
    pub inode_number: InodeNumber,
}

// -----------------
// LEVEL GENERATION
// -----------------
/// The Mersenne Twister generator of the `rand_mt` crate, used as the
/// seeded, reproducible source of level bits.
#[verifier::external_type_specification]
#[verifier::external_body]
pub struct ExMt64(rand_mt::Mt64);

/// Relies on rand_mt::Mt64::new: builds a Mersenne Twister generator
/// deterministically seeded with `seed`.
pub assume_specification[ rand_mt::Mt64::new ](seed: u64) -> rand_mt::Mt64;

/// Relies on rand_mt::Mt64::new_unseeded: builds a generator from the
/// crate's fixed default seed.
pub assume_specification[ rand_mt::Mt64::new_unseeded ]() -> rand_mt::Mt64;

/// Relies on rand_mt::Mt64::next_u64: draws the generator's next output and
/// advances its state. Nothing is assumed of the value drawn.
pub assume_specification[ rand_mt::Mt64::next_u64 ](rng: &mut rand_mt::Mt64) -> u64;

/// Draws a level for a new skiplist node: a fair bit is flipped until it
/// comes up tails, counting heads, so that P(level >= k) = 2^-k, capped at
/// `MAX_LEVELS - 1`. The generator is passed in explicitly so that a fixed
/// seed yields a reproducible structure.
pub fn generate_level(mt: &mut rand_mt::Mt64) -> (level: u64)
    ensures
        level < MAX_LEVELS as u64,
{
    let mut level: u64 = 0;

    // keep generating a level by % 2
    while level + 1 < MAX_LEVELS as u64
        invariant
            level < MAX_LEVELS as u64,
        decreases MAX_LEVELS as u64 - level,
    {
        let val = mt.next_u64() % 2;
        // rolled a nothing, break
        if val == 0 {
            break ;
        }
        // rolled a 1, increment level
        level = level + 1;
    }
    level
}

// -----------------
// CHECKSUM
// -----------------
/// The CRC-32-Castagnoli value of a byte sequence, as the `crc32c` crate
/// computes it: a function of the data alone.
pub uninterp spec fn crc32c_of(data: Seq<u8>) -> u32;

/// Relies on crc32c::crc32c: computes the CRC-32-Castagnoli of the bytes,
/// a pure function of the data.
#[verifier::external_body]
fn checksum32(data: &[u8]) -> (r: u32)
    ensures
        r == crc32c_of(data@),
{
    crc32c::crc32c(data)
}

} // verus!
