use vstd::prelude::*;

verus! {

/// An allocation would have gone over the limit.
#[derive(Debug, PartialEq, Eq, Clone, Copy)]
pub struct MemoryLimitExceededError;

/// Keeps the books on how much memory is in use, against a limit. Whoever allocates is handed the
/// limiter for the time of the allocation, so that any number of buffers can share it.
#[derive(Debug)]
pub struct SharedMemoryLimiter {
    current_usage: usize,
    max: usize,
}

/// A number of bytes, or the largest that can be counted.
pub open spec fn counted(byte_count: nat) -> nat {
    if byte_count <= usize::MAX {
        byte_count
    } else {
        usize::MAX as nat
    }
}

impl SharedMemoryLimiter {
    /// How many bytes are in use.
    pub closed spec fn spec_current_usage(self) -> nat {
        self.current_usage as nat
    }

    /// How many bytes may be in use.
    pub closed spec fn spec_max(self) -> nat {
        self.max as nat
    }

    /// A limiter with nothing in use.
    #[must_use]
    pub fn new(max: usize) -> (limiter: Self)
        ensures
            limiter.spec_max() == max,
            limiter.spec_current_usage() == 0,
    {
        SharedMemoryLimiter { current_usage: 0, max }
    }

    /// How many bytes are in use.
    #[must_use]
    pub fn current_usage(&self) -> (byte_count: usize)
        ensures
            byte_count == self.spec_current_usage(),
    {
        self.current_usage
    }

    /// Enters `byte_count` more bytes into the books. It is an error if they are over the limit.
    pub fn increase_usage(&mut self, byte_count: usize) -> (res: Result<(), MemoryLimitExceededError>)
        ensures
            final(self).spec_max() == old(self).spec_max(),
            final(self).spec_current_usage() == counted(
                old(self).spec_current_usage() + byte_count as nat,
            ),
            res is Ok <==> old(self).spec_current_usage() + byte_count <= old(self).spec_max(),
    {
        match self.current_usage.checked_add(byte_count) {
            Some(usage) => {
                self.current_usage = usage;
                if usage > self.max {
                    Err(MemoryLimitExceededError)
                } else {
                    Ok(())
                }
            },
            None => {
                self.current_usage = usize::MAX;
                Err(MemoryLimitExceededError)
            },
        }
    }
}

/// What is counted in two parts is what is counted at once, and a count never goes down.
pub proof fn law_counting_in_parts(used: nat, first: nat, second: nat)
    ensures
        counted(counted(used + first) + second) == counted(used + first + second),
        counted(used + first) >= counted(used),
        used <= usize::MAX ==> counted(used) == used,
        counted(used) <= usize::MAX,
        used > usize::MAX ==> counted(used) == usize::MAX,
{
}

/// Bytes are taken exactly if they and those in use are within the limit. They are entered either
/// way.
pub proof fn law_increase_usage(byte_count: usize, res: Result<(), MemoryLimitExceededError>)
    ensures
        forall|limiter: &mut SharedMemoryLimiter|
            #[trigger] call_ensures(
                SharedMemoryLimiter::increase_usage,
                (limiter, byte_count),
                res,
            ) ==> {
                let before = limiter.spec_current_usage();
                let after = (*final(limiter)).spec_current_usage();
                &&& res is Ok <==> before + byte_count <= limiter.spec_max()
                &&& before + byte_count <= usize::MAX ==> after == before + byte_count
                &&& before + byte_count > usize::MAX ==> after == usize::MAX
                &&& (*final(limiter)).spec_max() == limiter.spec_max()
            },
{
}

} // verus!
