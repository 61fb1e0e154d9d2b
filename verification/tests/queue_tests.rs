use neutron_fs::NeFSError;
use neutron_fs::block::Block;
use neutron_fs::block::BlockDriver;
use neutron_fs::block::MAX_QUEUE_SIZE;
use neutron_fs::block::NeutronDriver;
use neutron_fs::block::ReadQueue;
use neutron_fs::block::RingBuffer;
use neutron_fs::block::WriteQueue;
use neutron_fs::block::make_block;
use neutron_fs::partition::VPartition;
use neutron_fs::partition::handle_request_cycle;

#[test]
fn make_block_is_zeroed() {
    let b = make_block();
    for i in 0..4096 {
        assert_eq!(b[i], 0u8);
    }
}

#[test]
fn ring_buffer_fifo_order() {
    let mut rb: RingBuffer<(u64, u64), 4> = RingBuffer::new_cluster_queue([(0, 0); 4]);
    assert_eq!(rb.len(), 0);
    rb.push((1, 10));
    rb.push((2, 20));
    rb.push((3, 30));
    assert_eq!(rb.len(), 3);
    assert_eq!(rb.pop(), (1, 10));
    assert_eq!(rb.pop(), (2, 20));
    rb.push((4, 40));
    rb.push((5, 50));
    assert_eq!(rb.pop(), (3, 30));
    assert_eq!(rb.pop(), (4, 40));
    assert_eq!(rb.pop(), (5, 50));
    assert_eq!(rb.len(), 0);
}

#[test]
fn ring_buffer_overwrites_oldest_when_full() {
    let mut rb: RingBuffer<(u64, u64), 4> = RingBuffer::new_cluster_queue([(0, 0); 4]);
    for i in 1..=5u64 {
        rb.push((i, i * 10));
    }
    // capacity 4: the oldest entry (1, 10) was evicted
    assert_eq!(rb.len(), 4);
    assert_eq!(rb.pop(), (2, 20));
    assert_eq!(rb.pop(), (3, 30));
    assert_eq!(rb.pop(), (4, 40));
    assert_eq!(rb.pop(), (5, 50));
}

#[test]
fn ring_buffer_new_from_parts() {
    let rb: RingBuffer<(u64, u64), 4> = RingBuffer::new(0, 0, 4, [(9, 9); 4]);
    let mut rb = rb;
    assert_eq!(rb.len(), 0);
    rb.push((1, 1));
    assert_eq!(rb.pop(), (1, 1));
}

#[test]
fn write_queue_push_pop() {
    let mut q = WriteQueue::new_empty();
    assert!(q.pop().is_none());
    q.push(3, [7u8; 4096]);
    q.push(4, [8u8; 4096]);
    let (c, b) = q.pop().unwrap();
    assert_eq!(c, 3);
    assert_eq!(b[0], 7u8);
    let (c2, b2) = q.pop().unwrap();
    assert_eq!(c2, 4);
    assert_eq!(b2[4095], 8u8);
    assert!(q.pop().is_none());
}

#[test]
fn write_queue_wraps_ring_buffer() {
    let rb: RingBuffer<(u64, Block), MAX_QUEUE_SIZE> =
        RingBuffer::new_cluster_queue([(0u64, [0u8; 4096]); MAX_QUEUE_SIZE]);
    let mut q = WriteQueue::new(rb);
    assert!(q.pop().is_none());
    q.push(11, [1u8; 4096]);
    assert_eq!(q.pop().unwrap().0, 11);
}

#[test]
fn read_queue_snapshots_buffer() {
    let mut q = ReadQueue::new_empty();
    assert!(q.pop().is_none());
    let mut buf = [5u8; 4096];
    q.push(&mut buf, 9);
    let (c, b) = q.pop().unwrap();
    assert_eq!(c, 9);
    for i in 0..4096 {
        assert_eq!(b[i], 5u8);
    }
}

#[test]
fn read_queue_wraps_ring_buffer() {
    let rb: RingBuffer<(u64, Block), MAX_QUEUE_SIZE> =
        RingBuffer::new_cluster_queue([(0u64, [0u8; 4096]); MAX_QUEUE_SIZE]);
    let mut q = ReadQueue::new(rb);
    let mut buf = [0u8; 4096];
    q.push(&mut buf, 2);
    assert_eq!(q.len(), 1);
    assert_eq!(q.pop().unwrap().0, 2);
}

#[test]
fn queue_overwrite_keeps_newest_sixty_four() {
    // pushing MAX_QUEUE_SIZE + 1 read requests without a pop keeps exactly
    // MAX_QUEUE_SIZE entries, the oldest one evicted
    let mut q = ReadQueue::new_empty();
    let mut buf = [0u8; 4096];
    let n = (MAX_QUEUE_SIZE + 1) as u64;
    for i in 0..n {
        q.push(&mut buf, i);
    }
    assert_eq!(q.len(), MAX_QUEUE_SIZE);
    let mut expected: u64 = 1;
    loop {
        match q.pop() {
            None => break,
            Some((c, _)) => {
                assert_eq!(c, expected);
                expected += 1;
            }
        }
    }
    assert_eq!(expected, n);
}

#[test]
fn driver_queues_and_handler_cycle() {
    let mut driver = NeutronDriver::new_empty();
    let mut medium = VPartition::new_empty(8);
    medium.write_block(3, [0xCD; 4096]);

    let mut buf = [0u8; 4096];
    driver.push_read_request(&mut buf, 3);
    driver.push_write_request(5, [0x42; 4096]);

    let (r, w) = handle_request_cycle(&mut driver, &mut medium);
    let rc = r.unwrap();
    assert_eq!(rc.cluster_number, 3);
    let block = rc.result.unwrap();
    assert_eq!(block[0], 0xCD);
    let wc = w.unwrap();
    assert_eq!(wc.cluster_number, 5);
    assert!(wc.result.is_ok());
    assert_eq!(medium.get_block(5)[100], 0x42);

    // an out-of-range request fails that request, not the handler
    driver.push_read_request(&mut buf, 99);
    driver.push_write_request(77, [0u8; 4096]);
    let (r2, w2) = handle_request_cycle(&mut driver, &mut medium);
    let rc2 = r2.unwrap();
    assert_eq!(rc2.cluster_number, 99);
    assert_eq!(rc2.result.unwrap_err(), NeFSError::OutOfRange);
    let wc2 = w2.unwrap();
    assert_eq!(wc2.cluster_number, 77);
    assert_eq!(wc2.result.unwrap_err(), NeFSError::OutOfRange);
    // the handler still services later requests
    driver.push_read_request(&mut buf, 3);
    let (r3, _) = handle_request_cycle(&mut driver, &mut medium);
    assert!(r3.unwrap().result.is_ok());
}

#[test]
fn fifty_reads_fifty_writes_disjoint_clusters() {
    // fifty read and fifty write requests to disjoint clusters: every one
    // completes exactly once, and every written block comes out whole
    let mut driver = NeutronDriver::new_empty();
    let mut medium = VPartition::new_empty(200);
    for i in 0..50u64 {
        let mut buf = [0u8; 4096];
        driver.push_read_request(&mut buf, i);
        driver.push_write_request(100 + i, [i as u8; 4096]);
    }
    let mut reads_done: u64 = 0;
    let mut writes_done: u64 = 0;
    loop {
        let (r, w) = handle_request_cycle(&mut driver, &mut medium);
        if r.is_none() && w.is_none() {
            break;
        }
        if let Some(rc) = r {
            assert!(rc.result.is_ok());
            reads_done += 1;
        }
        if let Some(wc) = w {
            assert!(wc.result.is_ok());
            writes_done += 1;
        }
    }
    assert_eq!(reads_done, 50);
    assert_eq!(writes_done, 50);
    for i in 0..50u64 {
        let b = medium.get_block(100 + i);
        for k in 0..4096 {
            assert_eq!(b[k], i as u8);
        }
    }
}

#[test]
fn vpartition_read_write_blocks() {
    let blocks = vec![[1u8; 4096], [2u8; 4096], [3u8; 4096]];
    let mut p = VPartition::new(3, blocks);
    assert_eq!(p.max_size(), 3);
    assert_eq!(p.get_block(1)[0], 2u8);
    p.write_block(1, [9u8; 4096]);
    assert_eq!(p.get_block(1)[4095], 9u8);
    assert_eq!(p.get_block(0)[0], 1u8);
}
