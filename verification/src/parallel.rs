//! Hashing input as it arrives, with the work handed to a thread pool one
//! job at a time.
//!
//! The input is cut into jobs of one length, a power-of-two number of full
//! leaves. A full job buffer goes to a worker, which hashes it as an interior
//! tree and hands back the digest and the buffer. The receivers wait in a
//! queue in the order of the input, so that the digests reach the merger in
//! that order whichever worker ends first.

use crate::merger::{lemma_popcount_positive, popcount, State};
use crate::node::Finalization;
use crate::pieces::{
    lemma_piece_hashes_prefix, lemma_piece_offsets, lemma_piece_offsets_ordered,
    lemma_piece_prefix, lemma_pushed_pieces_drain_to_tree, lemma_pushed_pieces_step, piece,
    pushed_pieces,
};
use crate::shape::{
    is_power_of_two, is_subtree_len, lemma_subtree_len_doubles, CHUNK_SIZE, HASH_SIZE,
};
use crate::tree::{hash_recurse, root_hash, tree_hash};
use crossbeam_channel::{Receiver, RecvError, Sender};
use std::collections::VecDeque;
use vstd::prelude::*;

verus! {

/// The length of a job of a [`RayonWriter`] made by [`RayonWriter::new`].
pub const JOB_SIZE: usize = 65536;

/// A worker went away without handing back its digest.
#[derive(Clone, Copy, Debug, PartialEq, Eq)]
pub struct WorkerHungUp;

#[verifier::external_type_specification]
#[verifier::external_body]
#[verifier::reject_recursive_types(T)]
pub struct ExReceiver<T>(Receiver<T>);

#[verifier::external_type_specification]
#[verifier::external_body]
#[verifier::reject_recursive_types(T)]
pub struct ExSender<T>(Sender<T>);

#[verifier::external_type_specification]
#[verifier::external_body]
pub struct ExRecvError(RecvError);

/// The bytes of the job whose result a receiver made by `spawn_job` delivers.
pub uninterp spec fn job_input(receiver: Receiver<([u8; HASH_SIZE], Vec<u8>)>) -> Seq<u8>;

/// `core::mem::replace` moves `src` into `dest` and returns what `dest`
/// held before.
pub assume_specification<T>[ core::mem::replace::<T> ](dest: &mut T, src: T) -> (previous: T)
    ensures
        *final(dest) == src,
        previous == *old(dest),
;

/// Calls `num_cpus::get`, which always returns at least 1.
#[verifier::external_body]
fn cpu_count() -> (cpus: usize)
    ensures
        cpus >= 1,
{
    num_cpus::get()
}

/// Calls `crossbeam_channel::Sender::send` and drops its result: the
/// receiver may be gone. Every message on a job's channel is sent here, so
/// every message is a buffer with the digest of the tree over its bytes.
/// `run_job` sends the buffer that it was given, as it was given.
#[verifier::external_body]
fn send_result(sender: Sender<([u8; HASH_SIZE], Vec<u8>)>, hash: [u8; HASH_SIZE], buf: Vec<u8>)
    requires
        hash@ == tree_hash(buf@, Finalization::NotRoot),
{
    let _ = sender.send((hash, buf));
}

/// What a worker does with a full job buffer: it hashes the buffer as an
/// interior tree and sends the digest back together with the buffer.
fn run_job(sender: Sender<([u8; HASH_SIZE], Vec<u8>)>, full_buf: Vec<u8>) {
    let hash = hash_recurse(full_buf.as_slice(), Finalization::NotRoot);
    send_result(sender, hash, full_buf);
}

/// Calls `crossbeam_channel::bounded` for a channel of one message and
/// `rayon::spawn` with a closure that runs `run_job` on the sender and the
/// buffer. The contract says that the receiver is the one of the job over
/// the buffer's bytes.
#[verifier::external_body]
fn spawn_job(full_buf: Vec<u8>) -> (receiver: Receiver<([u8; HASH_SIZE], Vec<u8>)>)
    ensures
        job_input(receiver) == full_buf@,
{
    let (sender, receiver) = crossbeam_channel::bounded(1);
    rayon::spawn(move || run_job(sender, full_buf));
    receiver
}

/// Calls `crossbeam_channel::Receiver::recv`, which blocks until the message
/// is there or the sender is gone. The contract says that a message received
/// is the job's buffer, with the bytes it was handed over with, and the
/// digest of the tree over them: the only message on a job's channel is the
/// one that `run_job` sends.
#[verifier::external_body]
fn recv_job(receiver: &Receiver<([u8; HASH_SIZE], Vec<u8>)>) -> (received: Result<
    ([u8; HASH_SIZE], Vec<u8>),
    RecvError,
>)
    ensures
        received matches Ok(job) ==> job.1@ == job_input(*receiver) && job.0@ == tree_hash(
            job_input(*receiver),
            Finalization::NotRoot,
        ),
{
    receiver.recv()
}

/// A number with a single one in its binary representation is a power of
/// two, and no other number is.
pub proof fn lemma_one_bit_is_power_of_two(n: nat)
    ensures
        popcount(n) == 1 <==> is_power_of_two(n),
    decreases n,
{
    if n >= 2 {
        lemma_one_bit_is_power_of_two(n / 2);
        lemma_popcount_positive(n / 2);
    } else {
        assert(popcount(0) == 0);
    }
}

/// Whether jobs can be `job_size` bytes long: a power-of-two number of full
/// leaves.
pub fn valid_job_size(job_size: usize) -> (valid: bool)
    ensures
        valid == is_subtree_len(job_size as nat),
{
    proof {
        lemma_one_bit_is_power_of_two(job_size as nat / CHUNK_SIZE as nat);
    }
    let leaves = (job_size / CHUNK_SIZE) as u64;
    job_size % CHUNK_SIZE == 0 && leaves.count_ones() == 1
}

/// What has come back from a worker: the digest and the buffer that it
/// sent, or the news that it hung up without sending them.
pub fn received_job(received: Result<([u8; HASH_SIZE], Vec<u8>), RecvError>) -> (job: Result<
    ([u8; HASH_SIZE], Vec<u8>),
    WorkerHungUp,
>)
    ensures
        received matches Ok(sent) ==> job == Ok::<([u8; HASH_SIZE], Vec<u8>), WorkerHungUp>(sent),
        received is Err ==> job == Err::<([u8; HASH_SIZE], Vec<u8>), WorkerHungUp>(WorkerHungUp),
{
    match received {
        Ok(sent) => Ok(sent),
        Err(_) => Err(WorkerHungUp),
    }
}

/// 8 jobs for each of `cpus` processors, as far as a `usize` can hold.
pub open spec fn spec_default_max_jobs(cpus: usize) -> usize {
    if 8 * cpus <= usize::MAX {
        (8 * cpus) as usize
    } else {
        usize::MAX
    }
}

/// The number of jobs that a [`RayonWriter`] made by [`RayonWriter::new`]
/// has in flight at most, on a machine with `cpus` processors.
pub fn default_max_jobs(cpus: usize) -> (jobs: usize)
    ensures
        jobs == spec_default_max_jobs(cpus),
{
    if cpus <= usize::MAX / 8 {
        8 * cpus
    } else {
        usize::MAX
    }
}

/// The number of jobs that a [`RayonWriter`] made by [`RayonWriter::new`]
/// has in flight at most.
pub fn max_jobs() -> (jobs: usize)
    ensures
        exists|cpus: usize| cpus >= 1 && jobs == spec_default_max_jobs(cpus),
        jobs >= 8,
{
    default_max_jobs(cpu_count())
}

/// Whether the receivers of a queue are those of the jobs of `input` from
/// index `first` on, in order.
pub open spec fn queue_follows(
    receivers: Seq<Receiver<([u8; HASH_SIZE], Vec<u8>)>>,
    input: Seq<u8>,
    unit: nat,
    first: nat,
) -> bool {
    forall|i: int|
        0 <= i < receivers.len() ==> job_input(#[trigger] receivers[i]) == piece(
            input,
            unit,
            (first + i) as nat,
        )
}

/// More input leaves the jobs in a queue as they are.
proof fn lemma_queue_follows_more(
    receivers: Seq<Receiver<([u8; HASH_SIZE], Vec<u8>)>>,
    input: Seq<u8>,
    more: Seq<u8>,
    unit: nat,
    first: nat,
)
    requires
        queue_follows(receivers, input, unit, first),
        (first + receivers.len()) * unit <= input.len(),
    ensures
        queue_follows(receivers, input + more, unit, first),
{
    assert forall|i: int| 0 <= i < receivers.len() implies job_input(#[trigger] receivers[i])
        == piece(input + more, unit, (first + i) as nat) by {
        lemma_piece_offsets_ordered(unit, (first + i + 1) as nat, first + receivers.len());
        lemma_piece_prefix(input, more, unit, (first + i) as nat);
    }
}

/// The oldest receiver in a queue is that of the first job, and the others
/// are those of the jobs after it.
proof fn lemma_queue_follows_pop(
    receivers: Seq<Receiver<([u8; HASH_SIZE], Vec<u8>)>>,
    input: Seq<u8>,
    unit: nat,
    first: nat,
)
    requires
        queue_follows(receivers, input, unit, first),
        receivers.len() > 0,
    ensures
        job_input(receivers[0]) == piece(input, unit, first),
        queue_follows(receivers.subrange(1, receivers.len() as int), input, unit, first + 1),
{
}

/// An incremental hasher like [`crate::Writer`] that hashes on the thread
/// pool.
pub struct RayonWriter {
    state: State,
    total_len: u64,
    current_buf: Vec<u8>,
    free_bufs: Vec<Vec<u8>>,
    receivers: VecDeque<Receiver<([u8; HASH_SIZE], Vec<u8>)>>,
    job_size: usize,
    max_jobs: usize,
    written: Ghost<Seq<u8>>,
}

impl View for RayonWriter {
    type V = Seq<u8>;

    /// All the bytes written so far, in order.
    closed spec fn view(&self) -> Seq<u8> {
        self.written@
    }
}

impl RayonWriter {
    /// The length of a job.
    pub closed spec fn spec_job_size(&self) -> nat {
        self.job_size as nat
    }

    /// The most jobs in flight at once.
    pub closed spec fn spec_max_jobs(&self) -> nat {
        self.max_jobs as nat
    }

    /// The buffers that the writer holds besides the current one: those of
    /// the jobs in flight and those at rest.
    pub closed spec fn spec_buffers(&self) -> nat {
        self.receivers@.len() + self.free_bufs@.len()
    }

    /// Whether what has been written, with `more` bytes added, fits into as
    /// many jobs as can be in flight.
    pub open spec fn fits_in_flight(&self, more: nat) -> bool {
        self@.len() + more <= self.spec_job_size() * self.spec_max_jobs()
    }

    /// The number of jobs handed to workers so far.
    spec fn spawned(&self) -> nat {
        self.state.count() + self.receivers@.len()
    }

    /// The jobs before the current one are in the merger or in the queue, in
    /// the order of the input: the merger holds what the first of them
    /// leave, and the receivers in the queue are those of the jobs that
    /// follow. The current job's bytes are in the current buffer, which is
    /// empty only while nothing has been written. Buffers at rest and
    /// buffers at work are no more than the most jobs in flight.
    pub closed spec fn wf(&self) -> bool {
        let unit = self.job_size as nat;
        &&& is_subtree_len(unit)
        &&& self.max_jobs >= 1
        &&& self.written@.len() == self.total_len
        &&& self.current_buf@.len() <= unit
        &&& self.total_len == self.spawned() * unit + self.current_buf@.len()
        &&& self.total_len > 0 ==> self.current_buf@.len() > 0
        &&& self.current_buf@ =~= self.written@.subrange(
            (self.spawned() * unit) as int,
            self.total_len as int,
        )
        &&& self.state.wf()
        &&& self.state.stack() =~= pushed_pieces(self.written@, unit, self.state.count())
        &&& queue_follows(self.receivers@, self.written@, unit, self.state.count())
        &&& self.spec_buffers() <= self.max_jobs
    }

    /// Whether everything but the merger, the queue and the buffers at rest
    /// is the same in both.
    spec fn same_outside_queue(&self, other: &Self) -> bool {
        &&& self.total_len == other.total_len
        &&& self.current_buf == other.current_buf
        &&& self.job_size == other.job_size
        &&& self.max_jobs == other.max_jobs
        &&& self.written == other.written
    }

    /// Whether the buffers at rest are those of the jobs from index `first`
    /// on, in order, with their bytes still in them.
    spec fn rested_follow(&self, first: nat) -> bool {
        forall|i: int|
            0 <= i < self.free_bufs@.len() ==> (#[trigger] self.free_bufs@[i])@ == piece(
                self.written@,
                self.job_size as nat,
                (first + i) as nat,
            )
    }

    /// Whether everything but the merger is the same in both.
    spec fn same_outside_merger(&self, other: &Self) -> bool {
        &&& self.total_len == other.total_len
        &&& self.current_buf == other.current_buf
        &&& self.free_bufs == other.free_bufs
        &&& self.receivers == other.receivers
        &&& self.job_size == other.job_size
        &&& self.max_jobs == other.max_jobs
        &&& self.written == other.written
    }

    /// The merger has room for as many subtrees as there are jobs, and more.
    proof fn lemma_jobs_fit(&self)
        requires
            self.wf(),
        ensures
            self.spawned() + self.current_buf@.len() <= self.total_len,
            self.job_size >= CHUNK_SIZE,
    {
        lemma_subtree_len_doubles(self.job_size as nat);
        lemma_piece_offsets_ordered(self.spawned(), 1, self.job_size as nat);
        assert(self.spawned() * self.job_size as nat == self.job_size as nat * self.spawned())
            by (nonlinear_arith);
    }

    pub fn new() -> (writer: Self)
        ensures
            writer.wf(),
            writer@ == Seq::<u8>::empty(),
            writer.spec_job_size() == JOB_SIZE,
            writer.spec_max_jobs() >= 8,
            writer.spec_buffers() == 0,
    {
        proof {
            assert(is_subtree_len(JOB_SIZE as nat)) by {
                reveal_with_fuel(is_power_of_two, 5);
            }
        }
        Self::new_benchmarking(JOB_SIZE, max_jobs())
    }

    /// A writer with jobs of `job_size` bytes, of which at most `max_jobs`
    /// are in flight at once.
    pub fn new_benchmarking(job_size: usize, max_jobs: usize) -> (writer: Self)
        requires
            is_subtree_len(job_size as nat),
            max_jobs >= 1,
        ensures
            writer.wf(),
            writer@ == Seq::<u8>::empty(),
            writer.spec_job_size() == job_size,
            writer.spec_max_jobs() == max_jobs,
            writer.spec_buffers() == 0,
    {
        let writer = Self {
            state: State::new(),
            total_len: 0,
            // Use new() instead of with_capacity() to avoid a big allocation
            // in the small case.
            current_buf: Vec::new(),
            free_bufs: Vec::new(),
            receivers: VecDeque::new(),
            job_size,
            max_jobs,
            written: Ghost(Seq::empty()),
        };
        proof {
            assert(writer.spawned() * job_size as nat == 0) by (nonlinear_arith)
                requires
                    writer.spawned() == 0,
            ;
        }
        writer
    }

    /// Takes what the oldest job in the queue has handed back: adds its
    /// digest to the merger and returns its buffer.
    fn merge_oldest(&mut self, job: ([u8; HASH_SIZE], Vec<u8>)) -> (buf: Vec<u8>)
        requires
            old(self).state.wf(),
            old(self).state.count() < u64::MAX,
            old(self).state.stack() == pushed_pieces(
                old(self).written@,
                old(self).job_size as nat,
                old(self).state.count(),
            ),
            job.0@ == tree_hash(
                piece(old(self).written@, old(self).job_size as nat, old(self).state.count()),
                Finalization::NotRoot,
            ),
        ensures
            buf == job.1,
            final(self).state.wf(),
            final(self).state.count() == old(self).state.count() + 1,
            final(self).state.stack() == pushed_pieces(
                old(self).written@,
                old(self).job_size as nat,
                old(self).state.count() + 1,
            ),
            final(self).same_outside_merger(old(self)),
    {
        proof {
            lemma_pushed_pieces_step(self.written@, self.job_size as nat, self.state.count());
        }
        self.state.push_subtree(job.0);
        job.1
    }

    // Blocking on the very first channel would mean frequent context
    // switches to the calling thread, which is substantial overhead. But
    // blocking on the very last channel would starve the other worker threads
    // for input, as they all slept waiting for the last one to finish.
    // Instead, block on the middle receiver.
    //
    // With a full queue and no buffer at rest, this waits for the job in the
    // middle of the queue, then takes the jobs before it off the queue in
    // order, adds the digest of each to the merger and puts its buffer to
    // rest, and last does the same with the job in the middle, whose buffer
    // it returns. The first worker found to have hung up ends this: the jobs
    // before it have been merged by then, and its receiver is gone from the
    // queue unless it was the one in the middle.
    fn await_half(&mut self) -> (buf: Result<Vec<u8>, WorkerHungUp>)
        requires
            old(self).wf(),
            old(self).receivers@.len() == old(self).max_jobs,
        ensures
            final(self).same_outside_queue(old(self)),
            final(self).state.wf(),
            final(self).state.count() >= old(self).state.count(),
            final(self).state.stack() == pushed_pieces(
                old(self).written@,
                old(self).job_size as nat,
                final(self).state.count(),
            ),
            final(self).rested_follow(old(self).state.count()),
            buf matches Ok(halfway_buf) ==> {
                let halfway = old(self).receivers@.len() as int / 2;
                &&& final(self).wf()
                &&& final(self).state.count() == old(self).state.count() + halfway + 1
                &&& final(self).free_bufs@.len() == halfway
                &&& final(self).receivers@ == old(self).receivers@.subrange(
                    halfway + 1,
                    old(self).receivers@.len() as int,
                )
                &&& halfway_buf@ == piece(
                    old(self).written@,
                    old(self).job_size as nat,
                    (old(self).state.count() + halfway) as nat,
                )
            },
            buf is Err ==> {
                let halfway = old(self).receivers@.len() as int / 2;
                let merged = final(self).state.count() - old(self).state.count();
                &&& final(self).free_bufs@.len() == merged
                &&& merged == 0 && final(self).receivers@ == old(self).receivers@ || merged
                    < halfway && final(self).receivers@ == old(self).receivers@.subrange(
                    merged + 1,
                    old(self).receivers@.len() as int,
                )
            },
    {
        proof {
            self.lemma_jobs_fit();
        }
        let halfway = self.receivers.len() / 2;
        // Await the halfway receiver.
        let halfway_job = match received_job(recv_job(&self.receivers[halfway])) {
            Ok(job) => job,
            Err(hung_up) => {
                return Err(hung_up);
            },
        };
        // Remove and process all the prior receivers.
        let ghost merged_before = self.state.count();
        let mut drained: usize = 0;
        while drained < halfway
            invariant
                self.wf(),
                self.same_outside_queue(old(self)),
                self.rested_follow(merged_before),
                drained <= halfway < old(self).max_jobs,
                halfway == old(self).receivers@.len() / 2,
                old(self).receivers@.len() == old(self).max_jobs,
                self.receivers@ == old(self).receivers@.subrange(
                    drained as int,
                    old(self).receivers@.len() as int,
                ),
                self.free_bufs@.len() == drained,
                self.state.count() == merged_before + drained,
                merged_before == old(self).state.count(),
                halfway_job.1@ == job_input(old(self).receivers@[halfway as int]),
                halfway_job.0@ == tree_hash(
                    job_input(old(self).receivers@[halfway as int]),
                    Finalization::NotRoot,
                ),
            decreases halfway - drained,
        {
            proof {
                self.lemma_jobs_fit();
                lemma_queue_follows_pop(
                    self.receivers@,
                    self.written@,
                    self.job_size as nat,
                    self.state.count(),
                );
            }
            let receiver = self.receivers.pop_front().unwrap();
            assert(self.receivers@ == old(self).receivers@.subrange(
                drained + 1,
                old(self).receivers@.len() as int,
            ));
            match received_job(recv_job(&receiver)) {
                Ok(job) => {
                    let received_buf = self.merge_oldest(job);
                    self.free_bufs.push(received_buf);
                },
                Err(hung_up) => {
                    return Err(hung_up);
                },
            }
            drained += 1;
        }
        // Remove the halfway receiver and process the results we got from it
        // above. Return its buffer directly to the caller.
        proof {
            self.lemma_jobs_fit();
            lemma_queue_follows_pop(
                self.receivers@,
                self.written@,
                self.job_size as nat,
                self.state.count(),
            );
        }
        self.receivers.pop_front();
        Ok(self.merge_oldest(halfway_job))
    }

    /// Takes all of `input` and returns its length, unless a worker has hung
    /// up: then the writer cannot be used any more. No worker is waited for
    /// while all that has been written fits into as many jobs as can be in
    /// flight.
    pub fn write(&mut self, input: &[u8]) -> (accepted: Result<usize, WorkerHungUp>)
        requires
            old(self).wf(),
            old(self)@.len() + input@.len() <= u64::MAX,
        ensures
            old(self).fits_in_flight(input@.len()) ==> accepted is Ok,
            accepted matches Ok(n) ==> {
                &&& n == input@.len()
                &&& final(self).wf()
                &&& final(self)@ == old(self)@ + input@
                &&& final(self).spec_job_size() == old(self).spec_job_size()
                &&& final(self).spec_max_jobs() == old(self).spec_max_jobs()
                &&& final(self).spec_buffers() <= final(self).spec_max_jobs()
            },
    {
        let input_len = input.len();
        let mut remaining = input;
        while !remaining.is_empty()
            invariant
                self.wf(),
                self.job_size == old(self).job_size,
                self.max_jobs == old(self).max_jobs,
                self@ + remaining@ == old(self)@ + input@,
                self@.len() + remaining@.len() == old(self)@.len() + input@.len(),
                self@.len() + remaining@.len() <= u64::MAX,
            decreases remaining@.len(),
        {
            let ghost unit = self.job_size as nat;
            proof {
                self.lemma_jobs_fit();
            }
            if self.current_buf.len() == self.job_size {
                // First, get our hands on a new buffer. If we have a free
                // one, or if we have capacity to create a new one, use that.
                // Otherwise, await half the outstanding receivers to free up
                // buffers.
                let mut new_buf;
                if let Some(buf) = self.free_bufs.pop() {
                    // A free buffer is already available.
                    new_buf = buf;
                } else if self.receivers.len() < self.max_jobs {
                    // We have space to create new buffers.
                    new_buf = Vec::with_capacity(self.job_size);
                } else {
                    // We need to await some existing buffers.
                    proof {
                        lemma_piece_offsets_ordered(unit, self.max_jobs as nat, self.spawned());
                        assert(unit * self.max_jobs as nat == self.max_jobs as nat * unit)
                            by (nonlinear_arith);
                    }
                    match self.await_half() {
                        Ok(buf) => {
                            new_buf = buf;
                        },
                        Err(hung_up) => {
                            return Err(hung_up);
                        },
                    }
                }
                new_buf.clear();

                // Now swap the buffers and send the full one to a new job.
                proof {
                    lemma_piece_offsets(unit, self.spawned());
                    lemma_piece_prefix(self.written@, Seq::empty(), unit, self.spawned());
                }
                let full_buf = std::mem::replace(&mut self.current_buf, new_buf);
                let receiver = spawn_job(full_buf);
                self.receivers.push_back(receiver);
            }
            let want = self.job_size - self.current_buf.len();
            let take = if want < remaining.len() {
                want
            } else {
                remaining.len()
            };
            let (taken, rest) = remaining.split_at(take);
            proof {
                lemma_piece_offsets_ordered(unit, self.state.count(), self.spawned());
                lemma_piece_hashes_prefix(self.written@, taken@, unit, self.state.count());
                lemma_queue_follows_more(
                    self.receivers@,
                    self.written@,
                    taken@,
                    unit,
                    self.state.count(),
                );
            }
            self.current_buf.extend_from_slice(taken);
            self.total_len += take as u64;
            self.written = Ghost(self.written@ + taken@);
            remaining = rest;
        }
        Ok(input_len)
    }

    /// Does nothing: jobs are sent off as their buffers fill.
    pub fn flush(&mut self)
        ensures
            *final(self) == *old(self),
    {
    }

    /// After feeding all the input bytes to `write`, return the root digest,
    /// unless a worker has hung up. No worker is waited for after an input of
    /// at most one job. The writer cannot be used after this.
    pub fn finish(&mut self) -> (hash: Result<crate::node::Hash, WorkerHungUp>)
        requires
            old(self).wf(),
        ensures
            old(self)@.len() <= old(self).spec_job_size() ==> hash is Ok,
            hash matches Ok(root) ==> root@ == root_hash(old(self)@),
    {
        let ghost unit = self.job_size as nat;
        proof {
            self.lemma_jobs_fit();
            if self.spawned() == 0 {
                assert(self.spawned() * unit == 0) by (nonlinear_arith)
                    requires
                        self.spawned() == 0,
                ;
                assert(self.written@.subrange(0, self.total_len as int) =~= self.written@);
            } else {
                lemma_piece_offsets_ordered(unit, 1, self.spawned());
            }
        }
        if self.total_len <= self.job_size as u64 {
            return Ok(
                hash_recurse(self.current_buf.as_slice(), Finalization::Root(self.total_len)),
            );
        }
        let last_job_hash = hash_recurse(self.current_buf.as_slice(), Finalization::NotRoot);
        while self.receivers.len() > 0
            invariant
                self.wf(),
                self@ == old(self)@,
                self.current_buf@ == old(self).current_buf@,
                self.job_size == old(self).job_size,
                self.total_len == old(self).total_len,
                self.total_len > self.job_size,
            decreases self.receivers@.len(),
        {
            proof {
                self.lemma_jobs_fit();
                lemma_queue_follows_pop(
                    self.receivers@,
                    self.written@,
                    self.job_size as nat,
                    self.state.count(),
                );
            }
            let receiver = self.receivers.pop_front().unwrap();
            match received_job(recv_job(&receiver)) {
                Ok(job) => {
                    self.merge_oldest(job);
                },
                Err(hung_up) => {
                    return Err(hung_up);
                },
            }
        }
        proof {
            let jobs = self.state.count();
            self.lemma_jobs_fit();
            lemma_piece_offsets(unit, jobs);
            lemma_pushed_pieces_step(self.written@, unit, jobs);
            lemma_pushed_pieces_drain_to_tree(
                self.written@,
                unit,
                jobs,
                Finalization::Root(self.total_len),
            );
        }
        self.state.push_subtree(last_job_hash);
        Ok(self.state.finish(Finalization::Root(self.total_len)))
    }
}

} // verus!
