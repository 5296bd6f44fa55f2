use std::marker::PhantomData;
use crossbeam_channel::{bounded, unbounded};
use scoped_threadpool::Pool;
use vstd::prelude::*;

verus! {

/// The thread pool of scoped_threadpool.
#[verifier::external_type_specification]
#[verifier::external_body]
pub struct ExPool(Pool);

/// Builds a pool with `scoped_threadpool::Pool::new`, which takes one thread at least.
#[verifier::external_body]
fn new_pool(thread_count: u32) -> (pool: Pool)
    requires
        thread_count >= 1,
{
    Pool::new(thread_count)
}

/// Runs the operator on every job, on the threads of the pool, and hands back what the
/// jobs returned, each with the position of its job, in the order in which they came.
///
/// Makes one channel with `crossbeam_channel::bounded`, where a capacity is given, or with
/// `crossbeam_channel::unbounded`. Inside one call of `scoped_threadpool::Pool::scoped` it
/// hands each job to `Scope::execute`, where the operator runs on the job and the output
/// is sent with `Sender::send`. `scoped` returns when all jobs have run; then
/// `Receiver::try_iter` takes what was sent. A job that cannot send into a full channel
/// would wait for ever, so the capacity must hold the whole batch.
///
/// The contract claims that exactly one output came for each job of the batch, since
/// `scoped` waits for every job and every job sends once, and that each output is
/// something that the operator can return for the job at its position. It claims nothing
/// of the order in which the outputs came.
#[verifier::external_body]
fn run_jobs<INPUT: Sync, OUTPUT: Send, F: Fn(&INPUT) -> OUTPUT + Sync>(
    pool: &mut Pool,
    capacity: Option<usize>,
    operator: &F,
    jobs: &Vec<INPUT>,
) -> (received: Vec<(usize, OUTPUT)>)
    requires
        capacity matches Some(limit) ==> jobs@.len() <= limit,
        forall|i: int| 0 <= i < jobs@.len() ==> call_requires(*operator, (&#[trigger] jobs@[i],)),
    ensures
        each_job_once(jobs@.len() as usize, job_indices(received@)),
        every_job_answered(jobs@.len() as usize, job_indices(received@)),
        forall|k: int|
            0 <= k < received@.len() ==> (#[trigger] received@[k]).0 < jobs@.len()
                && call_ensures(*operator, (&jobs@[received@[k].0 as int],), received@[k].1),
{
    let (sender, receiver) = capacity.map_or_else(unbounded, bounded);
    pool.scoped(|scope| {
        jobs.iter().enumerate().for_each(|(index, job)| {
            let sender = sender.clone();
            scope.execute(move || { let _ = sender.send((index, operator(job))); });
        })
    });
    receiver.try_iter().collect()
}

/// Why a batch of jobs has no result.
#[derive(Debug, Clone, Copy, PartialEq, Eq, Structural)]
pub enum BatchError {
    /// One or more jobs returned no output.
    MissingOutput,
    /// An output came for a job that is not in the batch, or a second output came for a
    /// job.
    UnexpectedOutput,
}

impl BatchError {
    /// The error in words.
    pub fn message(&self) -> (text: &'static str)
        ensures
            text@ == (match self {
                BatchError::MissingOutput => "One or more jobs failed to return an output."@,
                BatchError::UnexpectedOutput => "An output came for no job of the batch."@,
            }),
    {
        match self {
            BatchError::MissingOutput => "One or more jobs failed to return an output.",
            BatchError::UnexpectedOutput => "An output came for no job of the batch.",
        }
    }
}

/// The jobs that the outputs came for, in the order in which the outputs came.
pub open spec fn job_indices<OUTPUT>(received: Seq<(usize, OUTPUT)>) -> Seq<usize> {
    Seq::new(received.len(), |k: int| received[k].0)
}

/// Whether every output came for a job of the batch, and no two for the same job.
pub open spec fn each_job_once(job_count: usize, indices: Seq<usize>) -> bool {
    &&& forall|k: int| 0 <= k < indices.len() ==> #[trigger] indices[k] < job_count
    &&& indices.no_duplicates()
}

/// Whether an output came for every job of the batch.
pub open spec fn every_job_answered(job_count: usize, indices: Seq<usize>) -> bool {
    forall|i: usize| i < job_count ==> indices.contains(i)
}

/// Some slots, all empty.
fn empty_slots<OUTPUT>(count: usize) -> (slots: Vec<Option<OUTPUT>>)
    ensures
        slots@.len() == count,
        forall|i: int| 0 <= i < count ==> #[trigger] slots@[i] is None,
{
    let mut slots: Vec<Option<OUTPUT>> = Vec::new();
    let mut i: usize = 0;
    while i < count
        invariant
            i <= count,
            slots@.len() == i,
            forall|a: int| 0 <= a < i ==> #[trigger] slots@[a] is None,
        decreases count - i,
    {
        slots.push(None);
        i += 1;
    }
    slots
}

/// Turns a list around.
fn reversed<T>(list: Vec<T>) -> (turned: Vec<T>)
    ensures
        turned@ == list@.reverse(),
{
    let ghost all = list@;
    let mut rest = list;
    let mut turned: Vec<T> = Vec::with_capacity(rest.len());
    while rest.len() > 0
        invariant
            rest@.len() <= all.len(),
            rest@ == all.take(rest@.len() as int),
            turned@.len() == all.len() - rest@.len(),
            forall|a: int|
                0 <= a < turned@.len() ==> #[trigger] turned@[a] == all[all.len() - 1 - a],
        decreases rest.len(),
    {
        let item = rest.pop().unwrap();
        turned.push(item);
    }
    assert(turned@ =~= all.reverse());
    turned
}

/// Puts the outputs of a batch in the order of its jobs. The outputs come in any order,
/// each with the position of its job in the batch. The result lists them by that
/// position, and fails unless each of the `job_count` jobs has exactly one output.
pub fn place_outputs<OUTPUT>(job_count: usize, received: Vec<(usize, OUTPUT)>) -> (placed: Result<
    Vec<OUTPUT>,
    BatchError,
>)
    ensures
        match placed {
            Ok(outputs) => {
                &&& each_job_once(job_count, job_indices(received@))
                &&& every_job_answered(job_count, job_indices(received@))
                &&& outputs@.len() == job_count
                &&& forall|k: int|
                    0 <= k < received@.len() ==> outputs@[(#[trigger] received@[k]).0 as int]
                        == received@[k].1
            },
            Err(BatchError::UnexpectedOutput) => !each_job_once(job_count, job_indices(received@)),
            Err(BatchError::MissingOutput) => each_job_once(job_count, job_indices(received@))
                && !every_job_answered(job_count, job_indices(received@)),
        },
{
    let ghost all = received@;
    let ghost indices = job_indices(all);
    let mut rest = received;
    let mut slots: Vec<Option<OUTPUT>> = empty_slots(job_count);
    while rest.len() > 0
        invariant
            all == received@,
            indices == job_indices(all),
            rest@.len() <= all.len(),
            rest@ == all.take(rest@.len() as int),
            slots@.len() == job_count,
            forall|k: int| rest@.len() <= k < all.len() ==> #[trigger] indices[k] < job_count,
            forall|a: int, b: int|
                rest@.len() <= a < b < all.len() ==> indices[a] != indices[b],
            forall|k: int|
                rest@.len() <= k < all.len() ==> slots@[#[trigger] indices[k] as int] == Some(
                    all[k].1,
                ),
            forall|i: int|
                0 <= i < job_count && #[trigger] slots@[i] is Some ==> exists|k: int|
                    rest@.len() <= k < all.len() && indices[k] == i,
        decreases rest.len(),
    {
        let ghost before = slots@;
        let ghost remaining = rest@.len();
        let (index, output) = rest.pop().unwrap();
        let ghost n = rest@.len() as int;
        assert(indices[n] == index && all[n].1 == output);
        if index >= job_count {
            assert(!(indices[n] < job_count));
            return Err(BatchError::UnexpectedOutput);
        }
        if slots[index].is_some() {
            proof {
                let k = choose|k: int| remaining <= k < all.len() && indices[k] == index;
                assert(indices[n] == indices[k] && n != k);
            }
            return Err(BatchError::UnexpectedOutput);
        }
        slots.set(index, Some(output));
        proof {
            assert forall|a: int, b: int| n <= a < b < all.len() implies indices[a]
                != indices[b] by {
                if a == n && indices[a] == indices[b] {
                    assert(before[indices[b] as int] == Some(all[b].1));
                }
            }
            assert forall|k: int| n <= k < all.len() implies slots@[#[trigger] indices[k] as int]
                == Some(all[k].1) by {
                if k != n {
                    assert(before[indices[k] as int] == Some(all[k].1));
                }
            }
            assert forall|i: int| 0 <= i < job_count && #[trigger] slots@[i] is Some implies exists|
                k: int,
            | n <= k < all.len() && indices[k] == i by {
                if i == index {
                    assert(n <= n < all.len() && indices[n] == i);
                } else {
                    assert(before[i] is Some);
                    let k = choose|k: int| remaining <= k < all.len() && indices[k] == i;
                    assert(n <= k < all.len() && indices[k] == i);
                }
            }
        }
    }
    proof {
        assert(each_job_once(job_count, indices));
    }
    let ghost filled = slots@;
    let mut backwards: Vec<OUTPUT> = Vec::with_capacity(job_count);
    while slots.len() > 0
        invariant
            filled.len() == job_count,
            slots@.len() <= job_count,
            slots@ == filled.take(slots@.len() as int),
            backwards@.len() == job_count - slots@.len(),
            forall|a: int|
                0 <= a < backwards@.len() ==> Some(#[trigger] backwards@[a]) == filled[job_count
                    - 1 - a],
            all == received@,
            indices == job_indices(all),
            each_job_once(job_count, indices),
            forall|k: int|
                0 <= k < all.len() ==> filled[#[trigger] indices[k] as int] == Some(all[k].1),
            forall|i: int|
                0 <= i < job_count && #[trigger] filled[i] is Some ==> exists|k: int|
                    0 <= k < all.len() && indices[k] == i,
        decreases slots.len(),
    {
        match slots.pop().unwrap() {
            Some(output) => {
                backwards.push(output);
            },
            None => {
                proof {
                    let i = slots@.len() as usize;
                    assert(filled[i as int] is None);
                    if indices.contains(i) {
                        let k = choose|k: int| 0 <= k < indices.len() && indices[k] == i;
                        assert(filled[indices[k] as int] == Some(all[k].1));
                    }
                    assert(i < job_count && !indices.contains(i));
                }
                return Err(BatchError::MissingOutput);
            },
        }
    }
    let outputs = reversed(backwards);
    proof {
        assert forall|i: int| 0 <= i < job_count implies Some(#[trigger] outputs@[i])
            == filled[i] by {
            assert(outputs@[i] == backwards@[job_count - 1 - i]);
        }
        assert forall|i: usize| i < job_count implies indices.contains(i) by {
            assert(Some(outputs@[i as int]) == filled[i as int]);
            let k = choose|k: int| 0 <= k < all.len() && indices[k] == i as int;
            assert(indices[k] == i);
        }
        assert forall|k: int| 0 <= k < all.len() implies outputs@[(#[trigger] all[k]).0 as int]
            == all[k].1 by {
            assert(filled[indices[k] as int] == Some(all[k].1));
            assert(Some(outputs@[indices[k] as int]) == filled[indices[k] as int]);
        }
    }
    Ok(outputs)
}

/// Encapsulates the semantics of distributing tasks across multiple threads.
pub struct Threadrunner<INPUT, OUTPUT, F> {
    pool: Pool,
    max_batch_size: Option<usize>,
    operator: F,
    input: PhantomData<INPUT>,
    output: PhantomData<OUTPUT>,
}

impl<INPUT, OUTPUT, F> Threadrunner<INPUT, OUTPUT, F> where
    INPUT: Send + Sync,
    OUTPUT: Send + Sync + 'static,
    F: Fn(&INPUT) -> OUTPUT + Send + Sync,
 {
    /// The operator that runs on each job.
    pub closed spec fn operator(&self) -> F {
        self.operator
    }

    /// The greatest number of jobs that a batch may hold, where there is a limit.
    pub closed spec fn max_batch_size(&self) -> Option<usize> {
        self.max_batch_size
    }

    /// A runner with the given number of threads, for batches of any size.
    pub fn new(thread_count: u32, operator: F) -> (runner: Threadrunner<INPUT, OUTPUT, F>)
        requires
            thread_count >= 1,
        ensures
            runner.operator() == operator,
            runner.max_batch_size() is None,
    {
        Threadrunner {
            pool: new_pool(thread_count),
            max_batch_size: None,
            operator: operator,
            input: PhantomData,
            output: PhantomData,
        }
    }

    /// A runner with the given number of threads, for batches of `max_batch_size` jobs at
    /// most.
    pub fn new_with_max_batch_size(thread_count: u32, max_batch_size: usize, operator: F) -> (runner:
        Threadrunner<INPUT, OUTPUT, F>)
        requires
            thread_count >= 1,
        ensures
            runner.operator() == operator,
            runner.max_batch_size() == Some(max_batch_size),
    {
        Threadrunner {
            pool: new_pool(thread_count),
            max_batch_size: Some(max_batch_size),
            operator: operator,
            input: PhantomData,
            output: PhantomData,
        }
    }

    /// Runs the operator on every job of a batch, on the threads of the pool, and lists
    /// the outputs in the order of the jobs.
    pub fn run_batch(&mut self, jobs: &Vec<INPUT>) -> (outputs: Result<Vec<OUTPUT>, BatchError>)
        requires
            old(self).max_batch_size() matches Some(limit) ==> jobs@.len() <= limit,
            forall|i: int|
                0 <= i < jobs@.len() ==> call_requires(old(self).operator(), (&#[trigger] jobs@[i],)),
        ensures
            final(self).operator() == old(self).operator(),
            final(self).max_batch_size() == old(self).max_batch_size(),
            outputs is Ok,
            outputs matches Ok(list) ==> list@.len() == jobs@.len() && forall|i: int|
                0 <= i < jobs@.len() ==> call_ensures(
                    old(self).operator(),
                    (&jobs@[i],),
                    #[trigger] list@[i],
                ),
    {
        // A channel with a limit is made as large as the batch, which the limit allows.
        let capacity = match self.max_batch_size {
            Some(_) => Some(jobs.len()),
            None => None,
        };
        let received = run_jobs(&mut self.pool, capacity, &self.operator, jobs);
        let ghost indices = job_indices(received@);
        let placed = place_outputs(jobs.len(), received);
        proof {
            if placed is Ok {
                let list = placed->Ok_0;
                assert forall|i: int| 0 <= i < jobs@.len() implies call_ensures(
                    self.operator,
                    (&jobs@[i],),
                    #[trigger] list@[i],
                ) by {
                    assert(indices.contains(i as usize));
                    let k = choose|k: int| 0 <= k < indices.len() && indices[k] == i as usize;
                    assert(list@[received@[k].0 as int] == received@[k].1);
                }
            }
        }
        placed
    }
}

} // verus!
