use neutron_fs::NeFSError;
use neutron_fs::cli::get_help_message;
use neutron_fs::manager::PartitionManager;
use neutron_fs::neutronfs::DataNode;
use neutron_fs::neutronfs::FreeClusterNode;
use neutron_fs::neutronfs::SuperBlock;
use neutron_fs::neutronfs::generate_level;
use neutron_fs::neutronfs::validate_superblock;
use neutron_fs::partition::ClusterAllocator;
use neutron_fs::partition::VPartition;
use neutron_fs::ram::DirData;
use neutron_fs::ram::FileData;
use neutron_fs::ram::FileEncoding;
use neutron_fs::ram::NeFSFile;
use neutron_fs::simple_block::GPTEntry;
use neutron_fs::simple_block::SimpleBlockDriver;
use neutron_fs::skiplist::INode;
use neutron_fs::skiplist::ReadQueue;
use neutron_fs::skiplist::RootList;
use neutron_fs::skiplist::add_node;
use neutron_fs::skiplist::push_read_request;
use neutron_fs::block::BlockDriver;
use neutron_fs::block::make_block;

#[test]
fn test_basics() {}

#[test]
fn main_test_stuff() {
    assert_eq!(1, 1);
}

#[test]
fn cli_test_stuff() {
    assert_eq!(1, 1);
}

#[test]
fn help_message_text() {
    let msg = get_help_message();
    assert_eq!(
        msg,
        "\n    cli\n        -r <file> \t[read a file]\n        -b        \t[build a struct]\n        -o <file> \t[output an in memory struct to a file]\n    "
    );
}

#[test]
fn skiplist_search_tracks_inserts_and_removes() {
    let mut list = RootList::new_empty();
    assert!(list.add_node(10, 0).is_ok());
    assert!(list.add_node(5, 2).is_ok());
    assert!(list.add_node(20, 1).is_ok());
    assert!(matches!(list.add_node(10, 3), Err(NeFSError::DuplicateKey)));
    assert!(list.search(5).is_some());
    assert_eq!(list.search(10).unwrap().val(), 10);
    assert!(list.search(20).is_some());
    assert!(list.search(7).is_none());
    assert!(list.remove_node(10).is_ok());
    assert!(list.search(10).is_none());
    assert!(matches!(list.remove_node(10), Err(NeFSError::NotFound)));
    // level-0 traversal lists the remaining keys in sorted order
    let keys = list.level_zero_keys();
    assert_eq!(keys, vec![5u64, 20u64]);
}

#[test]
fn skiplist_built_from_parts() {
    let nodes = vec![
        INode::new(1, 0, Vec::new()),
        INode::new(4, 1, Vec::new()),
        INode::new(9, 0, Vec::new()),
    ];
    let list = RootList::new(2, nodes);
    assert!(list.search(4).is_some());
    assert!(list.search(2).is_none());
    assert_eq!(list.level_zero_keys(), vec![1u64, 4u64, 9u64]);
}

#[test]
fn skiplist_add_node_with_generator() {
    let mut list = RootList::new_empty();
    let mut mt = rand_mt::Mt64::new(99);
    assert!(add_node(&mut list, &mut mt, 77).is_ok());
    assert!(matches!(
        add_node(&mut list, &mut mt, 77),
        Err(NeFSError::DuplicateKey)
    ));
    assert!(list.search(77).is_some());
}

#[test]
fn generate_level_is_reproducible() {
    let mut a = rand_mt::Mt64::new(42);
    let mut b = rand_mt::Mt64::new(42);
    let la = generate_level(&mut a);
    let lb = generate_level(&mut b);
    assert_eq!(la, lb);
    assert!(la < 4095);
    // the default seed is fixed too
    let mut c = rand_mt::Mt64::new_unseeded();
    let mut d = rand_mt::Mt64::new_unseeded();
    assert_eq!(generate_level(&mut c), generate_level(&mut d));
}

#[test]
fn inode_address_translation() {
    let node = INode::new(9, 1, vec![DataNode::new(2, 10), DataNode::new(1, 50)]);
    assert_eq!(node.val(), 9);
    assert_eq!(node.get_all_data(), vec![10u64, 11u64, 50u64]);
    assert_eq!(node.get_data(0), Some(10));
    assert_eq!(node.get_data(1), Some(11));
    assert_eq!(node.get_data(2), Some(50));
    assert_eq!(node.get_data(3), None);
}

#[test]
fn free_cluster_nodes_link() {
    let tail = FreeClusterNode::new(7, Vec::new());
    let head = FreeClusterNode::new(3, vec![tail]);
    assert_eq!(head.cluster_number, 3);
    assert_eq!(head.next_nodes[0].cluster_number, 7);
    let other = neutron_fs::skiplist::FreeClusterNode::new(12, Vec::new());
    assert_eq!(other.cluster_number, 12);
}

#[test]
fn skiplist_read_queue_records_requests() {
    let mut q = ReadQueue { queue: Vec::new() };
    push_read_request(&mut q, 31);
    push_read_request(&mut q, 7);
    assert_eq!(q.queue, vec![31u64, 7u64]);
}

#[test]
fn allocator_allocate_then_deallocate_restores_set() {
    let mut alloc = ClusterAllocator::new_full(100);
    // 100 clusters minus the four reserved ones
    assert_eq!(alloc.n_free(), 96);
    assert!(!alloc.is_free(0));
    assert!(!alloc.is_free(16));
    assert!(!alloc.is_free(32));
    assert!(!alloc.is_free(48));
    assert!(alloc.is_free(1));

    let got = alloc.allocate(5).unwrap();
    assert_eq!(got.len(), 5);
    assert_eq!(alloc.n_free(), 91);
    for c in &got {
        assert!(!alloc.is_free(*c));
    }
    for c in &got {
        assert!(alloc.deallocate(*c).is_ok());
    }
    assert_eq!(alloc.n_free(), 96);
    for c in &got {
        assert!(alloc.is_free(*c));
    }
    // freeing an already-free cluster is an allocator invariant violation
    assert!(matches!(alloc.deallocate(got[0]), Err(NeFSError::DoubleFree)));
    // freeing a reserved or unaddressable cluster is out of range
    assert!(matches!(alloc.deallocate(16), Err(NeFSError::OutOfRange)));
    assert!(matches!(alloc.deallocate(100), Err(NeFSError::OutOfRange)));
    // all-or-nothing allocation
    assert!(matches!(alloc.allocate(97), Err(NeFSError::OutOfSpace)));
    assert_eq!(alloc.n_free(), 96);
}

#[test]
fn superblock_codec_roundtrip() {
    let sb = SuperBlock::new([5u8; 16], [7u8; 256], 3, 0, 0, 0, 100, 4, 4096, 4096);
    let block = sb.to_disk_format();
    assert!(validate_superblock(&block));
    let back = SuperBlock::from_disk_format(&block);
    assert_eq!(back.magic, sb.magic);
    assert_eq!(back.fs_uuid, [5u8; 16]);
    assert_eq!(back.label, [7u8; 256]);
    assert_eq!(back.generation, 3);
    assert_eq!(back.n_sectors_total, 100);
    assert_eq!(back.n_sectors_used, 4);
    assert_eq!(back.sector_size_bytes, 4096);
    // one flipped byte breaks the trailing checksum
    let mut bad = block;
    bad[100] ^= 0xff;
    assert!(!validate_superblock(&bad));
}

#[test]
fn mount_is_idempotent() {
    let uuid = [9u8; 16];
    let label = [3u8; 256];
    let mgr1 = PartitionManager::format(VPartition::new_empty(100), uuid, label);
    let mgr2 = PartitionManager::format(VPartition::new_empty(100), uuid, label);
    let m1 = PartitionManager::mount(mgr1.into_medium()).unwrap();
    let m2 = PartitionManager::mount(mgr2.into_medium()).unwrap();
    let sb1 = m1.get_superblock();
    let sb2 = m2.get_superblock();
    assert_eq!(sb1, sb2);
    assert_eq!(sb1.generation, 0);
    assert_eq!(sb1.fs_uuid, uuid);
    assert_eq!(sb1.n_sectors_total, 100);
}

#[test]
fn mount_rejects_corrupt_superblocks() {
    // a zeroed medium has no valid superblock copy
    let empty = VPartition::new_empty(100);
    assert!(matches!(
        PartitionManager::mount(empty),
        Err(NeFSError::CorruptSuperblock)
    ));
    // tampering with all three copies makes the partition unmountable
    let mgr = PartitionManager::format(VPartition::new_empty(100), [1u8; 16], [0u8; 256]);
    let mut medium = mgr.into_medium();
    let mut tampered = medium.get_block(16);
    tampered[40] ^= 0x55;
    medium.write_block(16, tampered);
    medium.write_block(32, tampered);
    medium.write_block(48, tampered);
    assert!(matches!(
        PartitionManager::mount(medium),
        Err(NeFSError::CorruptSuperblock)
    ));
    // with only one copy tampered the redundant copies still mount
    let mgr2 = PartitionManager::format(VPartition::new_empty(100), [1u8; 16], [0u8; 256]);
    let mut medium2 = mgr2.into_medium();
    let mut bad = medium2.get_block(16);
    bad[40] ^= 0x55;
    medium2.write_block(16, bad);
    assert!(PartitionManager::mount(medium2).is_ok());
}

#[test]
fn write_then_read_exact_roundtrip() {
    let mut mgr = PartitionManager::format(VPartition::new_empty(100), [7u8; 16], [0u8; 256]);
    let mut mt = rand_mt::Mt64::new(1234);
    mgr.create_file(1, 2, &mut mt).unwrap();
    // a fresh file reads as zeroes
    let zeroes = mgr.read_exact_at(1, 0, 8192).unwrap();
    assert_eq!(zeroes.len(), 8192);
    for b in &zeroes {
        assert_eq!(*b, 0u8);
    }
    // write 300 bytes straddling the cluster boundary, read them back
    let mut data: Vec<u8> = Vec::new();
    for i in 0..300u64 {
        data.push((i % 251) as u8);
    }
    let written = mgr.write_at(1, &data, 4000).unwrap();
    assert_eq!(written, 300);
    let back = mgr.read_exact_at(1, 4000, 300).unwrap();
    assert_eq!(back, data);
    // bytes around the window are untouched
    let before = mgr.read_exact_at(1, 3999, 1).unwrap();
    assert_eq!(before[0], 0u8);
    let after = mgr.read_exact_at(1, 4300, 1).unwrap();
    assert_eq!(after[0], 0u8);
}

#[test]
fn read_boundary_at_file_length() {
    let mut mgr = PartitionManager::format(VPartition::new_empty(100), [7u8; 16], [0u8; 256]);
    let mut mt = rand_mt::Mt64::new(5);
    mgr.create_file(2, 2, &mut mt).unwrap();
    let flen = mgr.file_size(2).unwrap();
    assert_eq!(flen, 8192);
    // a read at offset == file length returns zero bytes and is not an error
    let empty = mgr.read_at(2, flen, 10).unwrap();
    assert_eq!(empty.len(), 0);
    // an exact read there fails with UnexpectedEof
    assert!(matches!(
        mgr.read_exact_at(2, flen, 1),
        Err(NeFSError::UnexpectedEof)
    ));
    // a read_at short of the end truncates instead of failing
    let tail = mgr.read_at(2, 8000, 4096).unwrap();
    assert_eq!(tail.len(), 192);
    // writing past the allocated extent is refused
    assert!(matches!(
        mgr.write_at(2, &[1u8, 2u8, 3u8], flen - 1),
        Err(NeFSError::OutOfSpace)
    ));
    // unknown inode numbers are reported
    assert!(matches!(mgr.read_at(9, 0, 1), Err(NeFSError::NotFound)));
    assert!(matches!(mgr.write_at(9, &[1u8], 0), Err(NeFSError::NotFound)));
    assert!(matches!(mgr.read_exact_at(9, 0, 1), Err(NeFSError::NotFound)));
    assert!(matches!(mgr.file_size(9), Err(NeFSError::NotFound)));
}

#[test]
fn format_create_write_read_delete_scenario() {
    // format a 100-cluster medium, create a 3-cluster file, fill it with
    // 0xAB, read it back, delete it, and watch the clusters reappear free
    let mut mgr = PartitionManager::format(VPartition::new_empty(100), [1u8; 16], [0u8; 256]);
    let mut mt = rand_mt::Mt64::new(7);
    let free_before = mgr.free_cluster_count();
    let gen_before = mgr.get_superblock().generation;

    mgr.create_file(42, 3, &mut mt).unwrap();
    assert_eq!(mgr.free_cluster_count(), free_before - 3);
    assert!(mgr.has_inode(42));
    assert!(matches!(
        mgr.create_file(42, 1, &mut mt),
        Err(NeFSError::DuplicateKey)
    ));
    let clusters = mgr.file_clusters(42).unwrap();
    assert_eq!(clusters.len(), 3);
    for c in &clusters {
        assert!(!mgr.is_cluster_free(*c));
    }

    let pattern = vec![0xABu8; 3 * 4096];
    let n = mgr.write_at(42, &pattern, 0).unwrap();
    assert_eq!(n, 3 * 4096);
    let back = mgr.read_exact_at(42, 0, 3 * 4096).unwrap();
    assert_eq!(back.len(), 3 * 4096);
    for b in &back {
        assert_eq!(*b, 0xABu8);
    }

    mgr.delete_file(42).unwrap();
    assert!(!mgr.has_inode(42));
    assert_eq!(mgr.free_cluster_count(), free_before);
    for c in &clusters {
        assert!(mgr.is_cluster_free(*c));
    }
    assert!(matches!(mgr.delete_file(42), Err(NeFSError::NotFound)));
    // every structural change bumped the generation counter
    assert!(mgr.get_superblock().generation > gen_before);
    // asking for more clusters than exist is rejected all-or-nothing
    assert!(matches!(
        mgr.create_file(43, 1000, &mut mt),
        Err(NeFSError::OutOfSpace)
    ));
    assert_eq!(mgr.free_cluster_count(), free_before);
}

#[test]
fn two_files_do_not_disturb_each_other() {
    let mut mgr = PartitionManager::format(VPartition::new_empty(100), [2u8; 16], [1u8; 256]);
    let mut mt = rand_mt::Mt64::new(11);
    mgr.create_file(1, 1, &mut mt).unwrap();
    mgr.create_file(2, 1, &mut mt).unwrap();
    mgr.write_at(1, &[0x11u8; 4096], 0).unwrap();
    mgr.write_at(2, &[0x22u8; 4096], 0).unwrap();
    let one = mgr.read_exact_at(1, 0, 4096).unwrap();
    let two = mgr.read_exact_at(2, 0, 4096).unwrap();
    for i in 0..4096 {
        assert_eq!(one[i], 0x11u8);
        assert_eq!(two[i], 0x22u8);
    }
    mgr.delete_file(1).unwrap();
    let still = mgr.read_exact_at(2, 0, 4096).unwrap();
    for i in 0..4096 {
        assert_eq!(still[i], 0x22u8);
    }
}

#[test]
fn directories_and_whole_file_reads() {
    let mut mgr = PartitionManager::format(VPartition::new_empty(100), [4u8; 16], [0u8; 256]);
    let mut mt = rand_mt::Mt64::new(3);
    mgr.create_dir(7, &mut mt).unwrap();
    assert!(mgr.has_inode(7));
    assert_eq!(mgr.file_size(7).unwrap(), 0);
    assert!(matches!(mgr.create_dir(7, &mut mt), Err(NeFSError::DuplicateKey)));
    mgr.create_file(8, 1, &mut mt).unwrap();
    mgr.write_at(8, &[9u8; 100], 0).unwrap();
    let all = mgr.read_all(8).unwrap();
    assert_eq!(all.len(), 4096);
    assert_eq!(all[0], 9u8);
    assert_eq!(all[99], 9u8);
    assert_eq!(all[100], 0u8);
    assert!(matches!(mgr.read_all(99), Err(NeFSError::NotFound)));
    mgr.delete_file(7).unwrap();
    assert!(!mgr.has_inode(7));
}

#[test]
fn ram_directory_operations() {
    let file = FileData {
        name: "readme".to_string(),
        file_type: "text".to_string(),
        encoding: FileEncoding::UTF8,
        data: vec![104u8, 105u8],
    };
    let mut dir = DirData::new_dir("home".to_string(), Vec::new(), 1);
    assert_eq!(dir.name, "home");
    assert_eq!(dir.parent, 1);
    dir.add_file(NeFSFile::File(file));
    dir.add_file(NeFSFile::Device);
    assert_eq!(dir.files.len(), 2);
    dir.remove_file(1);
    assert_eq!(dir.files.len(), 1);

    let mut entry = match dir.files.pop() {
        Some(e) => e,
        None => panic!("directory lost its file"),
    };
    assert!(entry.rename("notes".to_string()));
    match &entry {
        NeFSFile::File(fd) => assert_eq!(fd.name, "notes"),
        _ => panic!("entry changed kind"),
    }
    let mut dev = NeFSFile::Pipe;
    assert!(!dev.rename("nameless".to_string()));
}

#[test]
fn simple_block_driver_services_requests() {
    let mut clusters = Vec::new();
    for _ in 0..1000 {
        clusters.push(make_block());
    }
    let mut drv = SimpleBlockDriver::new(clusters, 0);
    drv.create_efi_partition();
    let end = drv.create_nefs_partition(10000);
    // (34 * 4096 + 10000) / 4096
    assert_eq!(end, 36);
    assert_eq!(SimpleBlockDriver::ceil_addr_to_cluster_number(8192), 2);
    assert_eq!(SimpleBlockDriver::ceil_addr_to_cluster_number(8191), 1);

    drv.push_write_request(5, [0x77u8; 4096]);
    let mut buf = [0u8; 4096];
    drv.push_read_request(&mut buf, 5);
    for i in 0..4096 {
        assert_eq!(buf[i], 0x77u8);
    }
}

#[test]
fn gpt_entry_holds_fields() {
    let e = GPTEntry::new(1, 2, 34, 2048, 0, [0u16; 36]);
    assert_eq!(e.partition_type, 1);
    assert_eq!(e.guid, 2);
    assert_eq!(e.first_lba, 34);
    assert_eq!(e.last_lba, 2048);
    assert_eq!(e.flags, 0);
    assert_eq!(e.name[0], 0);
}

#[test]
fn data_node_describes_a_run() {
    let d = DataNode::new(4, 77);
    assert_eq!(d.clusters_used, 4);
    assert_eq!(d.cluster_start_number, 77);
}
