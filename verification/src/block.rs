//! Block I/O layer: fixed 4096-byte blocks and the ring-buffered request
//! queues that decouple request submission from fulfilment.
//!
//! A queue holds at most `MAX_QUEUE_SIZE` entries. Pushing into a full queue
//! overwrites the oldest unconsumed entry (fire-and-forget backpressure);
//! popping returns entries in FIFO order for all entries that were not
//! overwritten.

use vstd::prelude::*;
use vstd::arithmetic::div_mod::lemma_small_mod;
use vstd::arithmetic::div_mod::lemma_mod_multiples_vanish;
use crate::neutronfs::ClusterNumber;

verus! {

/// One block: the atomic unit of transfer against the medium.
pub type Block = [u8; 4096];

/// A zeroed block.
pub fn make_block() -> (res: Block)
    ensures
        res@ == empty_block(),
{
    let res: [u8; 4096] = [0; 4096];
    proof {
        assert(res@ =~= empty_block());
    }
    res
}

/// The bytes of a zeroed block.
pub open spec fn empty_block() -> Seq<u8> {
    Seq::new(4096, |i: int| 0u8)
}

/// For `0 <= x < 2 * m`, reduction modulo `m` subtracts `m` at most once.
proof fn lemma_mod_in_range(x: int, m: int)
    requires
        0 < m,
        0 <= x < 2 * m,
    ensures
        x % m == if x < m {
            x
        } else {
            x - m
        },
{
    if x < m {
        lemma_small_mod(x as nat, m as nat);
    } else {
        lemma_mod_multiples_vanish(1, x - m, m);
        lemma_small_mod((x - m) as nat, m as nat);
    }
}

/// Fixed-capacity circular buffer. The oldest live entry sits at
/// `curr_head`; `n_elements` entries are live. Pushing into a full buffer
/// evicts the oldest entry.
#[derive(Debug)]
pub struct RingBuffer<T, const SIZE: usize> {
    curr_head: usize,
    n_elements: usize,
    max_size: usize,
    buffer: [T; SIZE],
}

impl<T, const SIZE: usize> View for RingBuffer<T, SIZE> {
    type V = Seq<T>;

    /// The live entries, oldest first.
    closed spec fn view(&self) -> Seq<T> {
        Seq::new(
            self.n_elements as nat,
            |i: int| self.buffer@[(self.curr_head + i) % (SIZE as int)],
        )
    }
}

impl<T, const SIZE: usize> RingBuffer<T, SIZE> {
    /// The structural invariant of the circular buffer.
    pub closed spec fn wf(&self) -> bool {
        &&& self.max_size == SIZE
        &&& SIZE > 0
        &&& 2 * (SIZE as int) <= usize::MAX as int
        &&& self.curr_head < SIZE
        &&& self.n_elements <= SIZE
    }
}

impl<T: Copy, const SIZE: usize> RingBuffer<T, SIZE> {
    /// Builds a buffer from its raw parts.
    pub fn new(curr_head: usize, n_elements: usize, max_size: usize, buffer: [T; SIZE]) -> (res:
        Self)
        requires
            max_size == SIZE,
            SIZE > 0,
            2 * (SIZE as int) <= usize::MAX as int,
            curr_head < SIZE,
            n_elements <= SIZE,
        ensures
            res.wf(),
            res@ == Seq::new(
                n_elements as nat,
                |i: int| buffer@[(curr_head + i) % (SIZE as int)],
            ),
    {
        Self { curr_head, n_elements, max_size, buffer }
    }

    /// An empty request queue over the given backing storage.
    pub fn new_cluster_queue(buf: [T; SIZE]) -> (res: Self)
        requires
            SIZE > 0,
            2 * (SIZE as int) <= usize::MAX as int,
        ensures
            res.wf(),
            res@ == Seq::<T>::empty(),
    {
        let res = Self { curr_head: 0, n_elements: 0, max_size: SIZE, buffer: buf };
        proof {
            assert(res@ =~= Seq::<T>::empty());
        }
        res
    }

    /// Number of live entries.
    pub fn len(&self) -> (n: usize)
        requires
            self.wf(),
        ensures
            n == self@.len(),
    {
        self.n_elements
    }

    /// Appends an entry. If the buffer is full, the oldest entry is
    /// overwritten instead of blocking or failing.
    pub fn push(&mut self, t: T)
        requires
            old(self).wf(),
        ensures
            final(self).wf(),
            old(self)@.len() < SIZE ==> final(self)@ == old(self)@.push(t),
            old(self)@.len() == SIZE ==> final(self)@ == old(self)@.drop_first().push(t),
    {
        let ghost head0: int = self.curr_head as int;
        let ghost n0: int = self.n_elements as int;
        let ind = (self.curr_head + self.n_elements) % self.max_size;
        self.buffer[ind] = t;
        if self.n_elements < self.max_size {
            self.n_elements = self.n_elements + 1;
            proof {
                lemma_mod_in_range(head0 + n0, SIZE as int);
                assert forall|i: int| 0 <= i < n0 implies self@[i] == old(self)@[i] by {
                    lemma_mod_in_range(head0 + i, SIZE as int);
                }
                assert(self@[n0] == t);
                assert(self@ =~= old(self)@.push(t));
            }
        } else {
            proof {
                lemma_mod_in_range(head0 + n0, SIZE as int);
                assert(ind == head0);
            }
            self.curr_head = (ind + 1) % self.max_size;
            proof {
                lemma_mod_in_range(head0 + 1, SIZE as int);
                assert forall|i: int| 0 <= i < n0 - 1 implies self@[i] == old(self)@[i + 1] by {
                    lemma_mod_in_range(head0 + 1 + i, SIZE as int);
                    lemma_mod_in_range(head0 + (i + 1), SIZE as int);
                    if head0 + 1 + i >= SIZE as int {
                        lemma_mod_in_range(head0 + 1 + i - SIZE as int, SIZE as int);
                    }
                }
                assert(self@[n0 - 1] == t) by {
                    lemma_mod_in_range(self.curr_head + (n0 - 1), SIZE as int);
                }
                assert(self@ =~= old(self)@.drop_first().push(t));
            }
        }
    }

    /// Removes and returns the oldest entry.
    pub fn pop(&mut self) -> (t: T)
        requires
            old(self).wf(),
            old(self)@.len() > 0,
        ensures
            final(self).wf(),
            t == old(self)@[0],
            final(self)@ == old(self)@.drop_first(),
    {
        let ghost head0: int = self.curr_head as int;
        let ind = self.curr_head;
        self.curr_head = (self.curr_head + 1) % self.max_size;
        self.n_elements = self.n_elements - 1;
        let t = self.buffer[ind];
        proof {
            lemma_small_mod(head0 as nat, SIZE as nat);
            assert forall|i: int| 0 <= i < self@.len() implies self@[i] == old(self)@[i + 1] by {
                lemma_mod_in_range(head0 + 1, SIZE as int);
                lemma_mod_in_range(head0 + (i + 1), SIZE as int);
                if head0 + 1 < SIZE as int {
                    lemma_mod_in_range(head0 + 1 + i, SIZE as int);
                } else {
                    lemma_mod_in_range(head0 + 1 - SIZE as int + i, SIZE as int);
                }
            }
            assert(self@ =~= old(self)@.drop_first());
        }
        t
    }
}

/// Capacity of each request queue.
pub const MAX_QUEUE_SIZE: usize = 64;

/// Queue of pending read requests: cluster number and a snapshot of the
/// caller's buffer.
#[derive(Debug)]
pub struct ReadQueue {
    queue: RingBuffer<(ClusterNumber, Block), MAX_QUEUE_SIZE>,
}

/// Queue of pending write requests: cluster number and the block payload to
/// be written.
#[derive(Debug)]
pub struct WriteQueue {
    queue: RingBuffer<(ClusterNumber, Block), MAX_QUEUE_SIZE>,
}

impl View for WriteQueue {
    type V = Seq<(ClusterNumber, Block)>;

    /// Pending entries, oldest first.
    closed spec fn view(&self) -> Seq<(ClusterNumber, Block)> {
        self.queue@
    }
}

impl View for ReadQueue {
    type V = Seq<(ClusterNumber, Block)>;

    /// Pending entries, oldest first.
    closed spec fn view(&self) -> Seq<(ClusterNumber, Block)> {
        self.queue@
    }
}

impl WriteQueue {
    /// The structural invariant of the queue.
    pub closed spec fn wf(&self) -> bool {
        self.queue.wf()
    }

    /// Wraps an existing ring buffer as a write queue.
    pub fn new(queue: RingBuffer<(ClusterNumber, Block), MAX_QUEUE_SIZE>) -> (res: Self)
        requires
            queue.wf(),
        ensures
            res.wf(),
            res@ == queue@,
    {
        Self { queue }
    }

    /// An empty write queue.
    pub fn new_empty() -> (res: Self)
        ensures
            res.wf(),
            res@ == Seq::<(ClusterNumber, Block)>::empty(),
    {
        let ringbuffer = RingBuffer::new_cluster_queue([(0u64, [0u8; 4096]);MAX_QUEUE_SIZE]);
        Self { queue: ringbuffer }
    }

    /// Number of pending entries.
    pub fn len(&self) -> (n: usize)
        requires
            self.wf(),
        ensures
            n == self@.len(),
    {
        self.queue.len()
    }

    /// Enqueues a write request. If the queue is full the oldest pending
    /// entry is overwritten.
    pub fn push(&mut self, cluster_number: ClusterNumber, block: Block)
        requires
            old(self).wf(),
        ensures
            final(self).wf(),
            old(self)@.len() < MAX_QUEUE_SIZE ==> final(self)@ == old(self)@.push(
                (cluster_number, block),
            ),
            old(self)@.len() == MAX_QUEUE_SIZE ==> final(self)@ == old(self)@.drop_first().push(
                (cluster_number, block),
            ),
    {
        self.queue.push((cluster_number, block));
    }

    /// Dequeues the oldest pending write request, or `None` if the queue is
    /// empty.
    pub fn pop(&mut self) -> (res: Option<(ClusterNumber, Block)>)
        requires
            old(self).wf(),
        ensures
            final(self).wf(),
            old(self)@.len() == 0 ==> res is None && final(self)@ == old(self)@,
            old(self)@.len() > 0 ==> res == Some(old(self)@[0]) && final(self)@ == old(
                self,
            )@.drop_first(),
    {
        if self.queue.len() == 0 {
            None
        } else {
            Some(self.queue.pop())
        }
    }
}

impl ReadQueue {
    /// The structural invariant of the queue.
    pub closed spec fn wf(&self) -> bool {
        self.queue.wf()
    }

    /// Wraps an existing ring buffer as a read queue.
    pub fn new(queue: RingBuffer<(ClusterNumber, Block), MAX_QUEUE_SIZE>) -> (res: Self)
        requires
            queue.wf(),
        ensures
            res.wf(),
            res@ == queue@,
    {
        Self { queue }
    }

    /// An empty read queue.
    pub fn new_empty() -> (res: Self)
        ensures
            res.wf(),
            res@ == Seq::<(ClusterNumber, Block)>::empty(),
    {
        let ringbuffer = RingBuffer::new_cluster_queue([(0u64, [0u8; 4096]);MAX_QUEUE_SIZE]);
        Self { queue: ringbuffer }
    }

    /// Number of pending entries.
    pub fn len(&self) -> (n: usize)
        requires
            self.wf(),
        ensures
            n == self@.len(),
    {
        self.queue.len()
    }

    /// Enqueues a read request for `cluster_number`, snapshotting the
    /// caller's buffer. If the queue is full the oldest pending entry is
    /// overwritten.
    pub fn push(&mut self, buf: &mut [u8], cluster_number: ClusterNumber)
        requires
            old(self).wf(),
            old(buf)@.len() == 4096,
        ensures
            final(self).wf(),
            final(buf)@ == old(buf)@,
            ({
                let entry = (cluster_number, final(self)@.last().1);
                &&& final(self)@.last().1@ == old(buf)@
                &&& final(self)@.last().0 == cluster_number
                &&& old(self)@.len() < MAX_QUEUE_SIZE ==> final(self)@ == old(self)@.push(entry)
                &&& old(self)@.len() == MAX_QUEUE_SIZE ==> final(self)@ == old(
                    self,
                )@.drop_first().push(entry)
            }),
    {
        let mut new_buf: Block = make_block();
        let mut i: usize = 0;
        while i < 4096
            invariant
                i <= 4096,
                buf@ == old(buf)@,
                buf@.len() == 4096,
                new_buf@.len() == 4096,
                forall|j: int| 0 <= j < i ==> new_buf@[j] == buf@[j],
            decreases 4096 - i,
        {
            new_buf[i] = buf[i];
            i = i + 1;
        }
        proof {
            assert(new_buf@ =~= old(buf)@);
        }
        self.queue.push((cluster_number, new_buf));
    }

    /// Dequeues the oldest pending read request, or `None` if the queue is
    /// empty.
    pub fn pop(&mut self) -> (res: Option<(ClusterNumber, Block)>)
        requires
            old(self).wf(),
        ensures
            final(self).wf(),
            old(self)@.len() == 0 ==> res is None && final(self)@ == old(self)@,
            old(self)@.len() > 0 ==> res == Some(old(self)@[0]) && final(self)@ == old(
                self,
            )@.drop_first(),
    {
        if self.queue.len() == 0 {
            None
        } else {
            Some(self.queue.pop())
        }
    }
}

/// Interface for block drivers to implement: the capability surface through
/// which callers submit single-block read and write requests.
pub trait BlockDriver {
    /// Whether the driver is in a usable state.
    spec fn wf(&self) -> bool;

    /// Submits a read request for `cluster_number`; `buf` is the caller's
    /// 4096-byte destination buffer.
    fn push_read_request(&mut self, buf: &mut [u8], cluster_number: u64)
        requires
            old(self).wf(),
            old(buf)@.len() == 4096,
        ensures
            final(self).wf(),
            final(buf)@.len() == old(buf)@.len(),
    ;

    /// Submits a write request carrying the whole block payload.
    fn push_write_request(&mut self, cluster_number: u64, block: Block)
        requires
            old(self).wf(),
        ensures
            final(self).wf(),
    ;
}

/// Queue-backed driver: requests are parked in the bounded queues and
/// serviced later by the handler loop.
pub struct NeutronDriver {
    read_queue: ReadQueue,
    write_queue: WriteQueue,
}

impl NeutronDriver {
    /// The structural invariant of both queues.
    pub closed spec fn inv(&self) -> bool {
        &&& self.read_queue.wf()
        &&& self.write_queue.wf()
    }

    /// Pending read requests, oldest first.
    pub closed spec fn read_requests(&self) -> Seq<(ClusterNumber, Block)> {
        self.read_queue@
    }

    /// Pending write requests, oldest first.
    pub closed spec fn write_requests(&self) -> Seq<(ClusterNumber, Block)> {
        self.write_queue@
    }

    /// A driver with empty queues.
    pub fn new_empty() -> (res: Self)
        ensures
            res.inv(),
            res.read_requests() == Seq::<(ClusterNumber, Block)>::empty(),
            res.write_requests() == Seq::<(ClusterNumber, Block)>::empty(),
    {
        Self { read_queue: ReadQueue::new_empty(), write_queue: WriteQueue::new_empty() }
    }

    /// Dequeues the oldest read request for servicing.
    pub fn pop_read_request(&mut self) -> (res: Option<(ClusterNumber, Block)>)
        requires
            old(self).inv(),
        ensures
            final(self).inv(),
            final(self).write_requests() == old(self).write_requests(),
            old(self).read_requests().len() == 0 ==> res is None && final(self).read_requests()
                == old(self).read_requests(),
            old(self).read_requests().len() > 0 ==> res == Some(old(self).read_requests()[0])
                && final(self).read_requests() == old(self).read_requests().drop_first(),
    {
        self.read_queue.pop()
    }

    /// Dequeues the oldest write request for servicing.
    pub fn pop_write_request(&mut self) -> (res: Option<(ClusterNumber, Block)>)
        requires
            old(self).inv(),
        ensures
            final(self).inv(),
            final(self).read_requests() == old(self).read_requests(),
            old(self).write_requests().len() == 0 ==> res is None && final(self).write_requests()
                == old(self).write_requests(),
            old(self).write_requests().len() > 0 ==> res == Some(old(self).write_requests()[0])
                && final(self).write_requests() == old(self).write_requests().drop_first(),
    {
        self.write_queue.pop()
    }
}

impl BlockDriver for NeutronDriver {
    open spec fn wf(&self) -> bool {
        self.inv()
    }

    fn push_read_request(&mut self, buf: &mut [u8], cluster_number: u64)
        ensures
            final(self).write_requests() == old(self).write_requests(),
            final(self).read_requests().last().0 == cluster_number,
            final(self).read_requests().last().1@ == old(buf)@,
            old(self).read_requests().len() < MAX_QUEUE_SIZE ==> final(self).read_requests()
                == old(self).read_requests().push(final(self).read_requests().last()),
            old(self).read_requests().len() == MAX_QUEUE_SIZE ==> final(self).read_requests()
                == old(self).read_requests().drop_first().push(final(self).read_requests().last()),
    {
        self.read_queue.push(buf, cluster_number);
    }

    fn push_write_request(&mut self, cluster_number: u64, block: Block)
        ensures
            final(self).read_requests() == old(self).read_requests(),
            old(self).write_requests().len() < MAX_QUEUE_SIZE ==> final(self).write_requests()
                == old(self).write_requests().push((cluster_number, block)),
            old(self).write_requests().len() == MAX_QUEUE_SIZE ==> final(self).write_requests()
                == old(self).write_requests().drop_first().push((cluster_number, block)),
    {
        self.write_queue.push(cluster_number, block);
    }
}

} // verus!
