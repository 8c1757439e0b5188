//! What jobs that run at once share: permits to use the disk, and memory.
//!
//! A guard stands for what a job has taken; whoever holds the resources waits where
//! there is nothing to take, and gives a guard back when its job is done with it.

use vstd::prelude::*;

verus! {

/// The least memory that a job is taken to need.
pub const MIN_MEMORY_JOB_BYTES: u64 = 33_554_432;

/// The memory that is set aside for each thread.
pub const MEMORY_BYTES_PER_THREAD: u64 = 100_663_296;

/// The least memory that is set aside.
pub const MIN_MEMORY_BUDGET_BYTES: u64 = 268_435_456;

/// Time that a job has waited for resources, in nanoseconds.
#[derive(Clone, Copy, Debug, Default)]
pub struct ResourceWait {
    pub memory: u64,
    pub io_decode: u64,
    pub io_write: u64,
}

/// Permits that a job has taken.
#[derive(Debug)]
pub struct PermitGuard {
    pub permits: usize,
}

/// Memory that a job has taken.
#[derive(Debug)]
pub struct MemoryGuard {
    pub bytes: u64,
}

/// A number of permits, some of which may be taken.
#[derive(Debug)]
pub struct Semaphore {
    pub available: usize,
    pub total: usize,
}

impl Semaphore {
    /// Whether no more permits are available than there are.
    pub open spec fn well_formed(&self) -> bool {
        self.available <= self.total
    }

    pub fn new(permits: usize) -> (semaphore: Semaphore)
        ensures
            semaphore == (Semaphore { available: permits, total: permits }),
    {
        Semaphore { available: permits, total: permits }
    }

    /// Takes `permits` permits, if that many are available.
    pub fn acquire(&mut self, permits: usize) -> (guard: Option<PermitGuard>)
        requires
            old(self).well_formed(),
        ensures
            final(self).well_formed(),
            match guard {
                Some(guard) => {
                    &&& old(self).available >= permits
                    &&& guard == (PermitGuard { permits })
                    &&& *final(self) == (Semaphore {
                        available: (old(self).available - permits) as usize,
                        ..*old(self)
                    })
                },
                None => old(self).available < permits && *final(self) == *old(self),
            },
    {
        if self.available < permits {
            return None;
        }
        self.available = self.available - permits;
        Some(PermitGuard { permits })
    }

    /// Gives permits back that were taken.
    pub fn release(&mut self, guard: PermitGuard)
        requires
            old(self).well_formed(),
            old(self).available + guard.permits <= old(self).total,
        ensures
            final(self).well_formed(),
            *final(self) == (Semaphore {
                available: (old(self).available + guard.permits) as usize,
                ..*old(self)
            }),
    {
        self.available = self.available + guard.permits;
    }
}

/// An amount of memory, some of which may be taken.
#[derive(Debug)]
pub struct MemoryLimiter {
    pub available: u64,
    pub budget: u64,
}

/// What a job gets that asks for `bytes`.
pub open spec fn granted(bytes: u64, budget: u64) -> u64 {
    if bytes < budget {
        bytes
    } else {
        budget
    }
}

/// `limiter` once `request` bytes more are taken.
pub open spec fn taken_memory(limiter: MemoryLimiter, request: u64) -> MemoryLimiter {
    MemoryLimiter { available: (limiter.available - request) as u64, ..limiter }
}

/// `limiter` once `bytes` bytes are given back.
pub open spec fn returned_memory(limiter: MemoryLimiter, bytes: u64) -> MemoryLimiter {
    MemoryLimiter {
        available: if limiter.available + bytes < limiter.budget {
            (limiter.available + bytes) as u64
        } else {
            limiter.budget
        },
        ..limiter
    }
}

impl MemoryLimiter {
    /// Whether no more memory is available than there is.
    pub open spec fn well_formed(&self) -> bool {
        self.available <= self.budget
    }

    pub fn new(budget: u64) -> (limiter: MemoryLimiter)
        ensures
            limiter == (MemoryLimiter { available: budget, budget }),
    {
        MemoryLimiter { available: budget, budget }
    }

    /// Takes `bytes` bytes or the whole budget, whichever is less, if that much is
    /// available.
    pub fn acquire(&mut self, bytes: u64) -> (guard: Option<MemoryGuard>)
        requires
            old(self).well_formed(),
        ensures
            final(self).well_formed(),
            ({
                let request = granted(bytes, old(self).budget);
                match guard {
                    Some(guard) => {
                        &&& old(self).available >= request
                        &&& guard == (MemoryGuard { bytes: request })
                        &&& *final(self) == taken_memory(*old(self), request)
                    },
                    None => old(self).available < request && *final(self) == *old(self),
                }
            }),
    {
        let request = if bytes < self.budget {
            bytes
        } else {
            self.budget
        };
        if self.available < request {
            return None;
        }
        self.available = self.available - request;
        Some(MemoryGuard { bytes: request })
    }

    /// Gives memory back, up to the budget.
    pub fn release(&mut self, guard: MemoryGuard)
        requires
            old(self).well_formed(),
            old(self).available + guard.bytes <= u64::MAX,
        ensures
            final(self).well_formed(),
            *final(self) == returned_memory(*old(self), guard.bytes),
    {
        let available = self.available + guard.bytes;
        self.available = if available < self.budget {
            available
        } else {
            self.budget
        };
    }
}

/// Memory that was taken and given back is available as before.
pub proof fn law_memory_comes_back(before: MemoryLimiter, request: u64)
    requires
        before.well_formed(),
        request <= before.available,
    ensures
        returned_memory(taken_memory(before, request), request) == before,
{
}

/// The sum of what jobs hold.
pub open spec fn held_total(held: Seq<u64>) -> nat
    decreases held.len(),
{
    if held.len() == 0 {
        0
    } else {
        held_total(held.drop_last()) + held.last() as nat
    }
}

proof fn lemma_held_without(held: Seq<u64>, i: int)
    requires
        0 <= i < held.len(),
    ensures
        held_total(held.remove(i)) + held[i] == held_total(held),
    decreases held.len(),
{
    if i < held.len() - 1 {
        lemma_held_without(held.drop_last(), i);
        assert(held.remove(i).drop_last() =~= held.drop_last().remove(i));
    } else {
        assert(held.remove(i) =~= held.drop_last());
    }
}

/// What jobs hold and what is available make up the budget, whichever job takes memory
/// or gives it back.
pub proof fn law_memory_is_conserved(limiter: MemoryLimiter, held: Seq<u64>, request: u64, i: int)
    requires
        limiter.available + held_total(held) == limiter.budget,
    ensures
        request <= limiter.available ==> taken_memory(limiter, request).available + held_total(
            held.push(request),
        ) == limiter.budget,
        0 <= i < held.len() ==> returned_memory(limiter, held[i]).available + held_total(
            held.remove(i),
        ) == limiter.budget,
{
    assert(held.push(request).drop_last() =~= held);
    if 0 <= i < held.len() {
        lemma_held_without(held, i);
    }
}

/// The resources of a run.
#[derive(Debug)]
pub struct RuntimeResources {
    pub io: Semaphore,
    pub memory: MemoryLimiter,
    pub memory_budget_bytes: u64,
}

/// The permits to use the disk for a run of `threads` threads.
pub open spec fn io_permits(threads: usize) -> usize {
    if threads < 1 {
        1
    } else if threads > 4 {
        4
    } else {
        threads
    }
}

/// The memory that is set aside for a run of `threads` threads.
pub open spec fn memory_budget(threads: usize) -> int {
    if threads * MEMORY_BYTES_PER_THREAD > MIN_MEMORY_BUDGET_BYTES {
        threads * MEMORY_BYTES_PER_THREAD
    } else {
        MIN_MEMORY_BUDGET_BYTES as int
    }
}

/// The memory that a job with a file of `size` bytes asks for, out of `budget`.
pub open spec fn job_memory(size: u64, budget: u64) -> u64 {
    let wanted = if size * 4 > u64::MAX {
        u64::MAX
    } else {
        (size * 4) as u64
    };
    let needed = if wanted < MIN_MEMORY_JOB_BYTES {
        MIN_MEMORY_JOB_BYTES
    } else {
        wanted
    };
    granted(needed, budget)
}

impl RuntimeResources {
    /// Whether no more is available than there is.
    pub open spec fn well_formed(&self) -> bool {
        &&& self.io.well_formed()
        &&& self.memory.well_formed()
        &&& self.memory.budget == self.memory_budget_bytes
        &&& self.io.total >= 1
    }

    /// The resources of a run of `thread_count` threads, with nothing taken.
    pub fn for_thread_count(thread_count: usize) -> (resources: RuntimeResources)
        requires
            thread_count * MEMORY_BYTES_PER_THREAD <= u64::MAX,
        ensures
            resources.well_formed(),
            resources.io == (Semaphore {
                available: io_permits(thread_count),
                total: io_permits(thread_count),
            }),
            resources.memory_budget_bytes == memory_budget(thread_count),
            resources.memory == (MemoryLimiter {
                available: resources.memory_budget_bytes,
                budget: resources.memory_budget_bytes,
            }),
    {
        let permits: usize = if thread_count < 1 {
            1
        } else if thread_count > 4 {
            4
        } else {
            thread_count
        };
        let wanted = thread_count as u64 * MEMORY_BYTES_PER_THREAD;
        let budget = if wanted > MIN_MEMORY_BUDGET_BYTES {
            wanted
        } else {
            MIN_MEMORY_BUDGET_BYTES
        };
        RuntimeResources {
            io: Semaphore::new(permits),
            memory: MemoryLimiter::new(budget),
            memory_budget_bytes: budget,
        }
    }

    /// Takes a permit to read, if one is available.
    pub fn acquire_decode_io(&mut self) -> (guard: Option<PermitGuard>)
        requires
            old(self).well_formed(),
        ensures
            final(self).well_formed(),
            final(self).memory == old(self).memory,
            final(self).memory_budget_bytes == old(self).memory_budget_bytes,
            final(self).io.total == old(self).io.total,
            match guard {
                Some(guard) => {
                    &&& guard == (PermitGuard { permits: 1 })
                    &&& final(self).io.available == old(self).io.available - 1
                },
                None => old(self).io.available == 0 && *final(self) == *old(self),
            },
    {
        self.io.acquire(1)
    }

    /// Takes a permit to write, if one is available.
    pub fn acquire_write_io(&mut self) -> (guard: Option<PermitGuard>)
        requires
            old(self).well_formed(),
        ensures
            final(self).well_formed(),
            final(self).memory == old(self).memory,
            final(self).memory_budget_bytes == old(self).memory_budget_bytes,
            final(self).io.total == old(self).io.total,
            match guard {
                Some(guard) => {
                    &&& guard == (PermitGuard { permits: 1 })
                    &&& final(self).io.available == old(self).io.available - 1
                },
                None => old(self).io.available == 0 && *final(self) == *old(self),
            },
    {
        self.io.acquire(1)
    }

    /// Takes the memory for a job with a file of that size, if it is available.
    pub fn acquire_memory_for_job(&mut self, estimated_size_bytes: u64) -> (guard: Option<
        MemoryGuard,
    >)
        requires
            old(self).well_formed(),
        ensures
            final(self).well_formed(),
            final(self).io == old(self).io,
            final(self).memory_budget_bytes == old(self).memory_budget_bytes,
            ({
                let request = job_memory(estimated_size_bytes, old(self).memory_budget_bytes);
                match guard {
                    Some(guard) => {
                        &&& guard == (MemoryGuard { bytes: request })
                        &&& final(self).memory == taken_memory(old(self).memory, request)
                        &&& request <= old(self).memory.available
                    },
                    None => old(self).memory.available < request && *final(self) == *old(self),
                }
            }),
    {
        let wanted = if estimated_size_bytes > u64::MAX / 4 {
            u64::MAX
        } else {
            estimated_size_bytes * 4
        };
        let needed = if wanted < MIN_MEMORY_JOB_BYTES {
            MIN_MEMORY_JOB_BYTES
        } else {
            wanted
        };
        let request = if needed < self.memory_budget_bytes {
            needed
        } else {
            self.memory_budget_bytes
        };
        self.memory.acquire(request)
    }

    /// Gives a permit back.
    pub fn release_io(&mut self, guard: PermitGuard)
        requires
            old(self).well_formed(),
            old(self).io.available + guard.permits <= old(self).io.total,
        ensures
            final(self).well_formed(),
            *final(self) == (RuntimeResources {
                io: Semaphore {
                    available: (old(self).io.available + guard.permits) as usize,
                    ..old(self).io
                },
                ..*old(self)
            }),
    {
        self.io.release(guard);
    }

    /// Gives memory back.
    pub fn release_memory(&mut self, guard: MemoryGuard)
        requires
            old(self).well_formed(),
            old(self).memory.available + guard.bytes <= old(self).memory_budget_bytes,
        ensures
            final(self).well_formed(),
            *final(self) == (RuntimeResources {
                memory: returned_memory(old(self).memory, guard.bytes),
                ..*old(self)
            }),
    {
        self.memory.release(guard);
    }

    /// The memory that is set aside.
    pub fn memory_budget_bytes(&self) -> (bytes: u64)
        ensures
            bytes == self.memory_budget_bytes,
    {
        self.memory_budget_bytes
    }
}

/// A job never asks for more memory than is set aside, so it gets it once the others
/// are done.
pub proof fn law_job_memory_is_served(size: u64, budget: u64)
    ensures
        job_memory(size, budget) <= budget,
        granted(job_memory(size, budget), budget) == job_memory(size, budget),
{
}

/// A run may use the disk with as many threads as it has, from one to four, and has 96 MiB
/// for each thread, 256 MiB at least.
pub proof fn law_resources_follow_threads(threads: usize)
    ensures
        1 <= io_permits(threads) <= 4,
        1 <= threads <= 4 ==> io_permits(threads) == threads,
        threads > 4 ==> io_permits(threads) == 4,
        memory_budget(threads) >= 256 * 1024 * 1024,
        memory_budget(threads) >= threads * (96 * 1024 * 1024),
        memory_budget(threads) == 256 * 1024 * 1024 || memory_budget(threads) == threads * (96
            * 1024 * 1024),
{
}

/// A job asks for four times the size of its file, 32 MiB at least, but for no more than
/// there is.
pub proof fn law_job_memory_follows_size(size: u64, budget: u64)
    ensures
        4 * size >= budget ==> job_memory(size, budget) == budget,
        4 * size < budget ==> job_memory(size, budget) >= 4 * size,
        budget >= 32 * 1024 * 1024 ==> job_memory(size, budget) >= 32 * 1024 * 1024,
        job_memory(size, budget) == budget || job_memory(size, budget) == 32 * 1024 * 1024
            || job_memory(size, budget) == 4 * size,
        4 * size > 32 * 1024 * 1024 && 4 * size < budget ==> job_memory(size, budget) == 4 * size,
        job_memory(size, budget) <= budget,
{
}

/// A job gets what it asks for, or the whole budget where it asks for more.
pub proof fn law_job_gets_what_it_asks_for(bytes: u64, budget: u64)
    ensures
        bytes <= budget ==> granted(bytes, budget) == bytes,
        bytes > budget ==> granted(bytes, budget) == budget,
{
}

} // verus!
