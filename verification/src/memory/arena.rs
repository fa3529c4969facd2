use super::limiter::{counted, MemoryLimitExceededError, SharedMemoryLimiter};
use vstd::prelude::*;
use vstd::slice::slice_subrange;

verus! {

/// Preallocated region of memory that can grow and never deallocates.
#[derive(Debug)]
pub struct Arena {
    data: Vec<u8>,
    /// Offset of the live region within `data`. `shift` only advances this; the dead prefix is
    /// reclaimed by the next `append`.
    start: usize,
}

/// How many bytes a vector can hold without another allocation.
///
/// Calls `Vec::capacity`. Believed of it: no less than the vector holds. How much more depends on
/// the allocator, and is left open.
#[verifier::external_body]
fn capacity_of(data: &Vec<u8>) -> (capacity: usize)
    ensures
        capacity >= data@.len(),
{
    data.capacity()
}

/// Makes room for `additional` more bytes, and says whether that could be done.
///
/// Calls `Vec::try_reserve_exact`. Believed of it: the vector holds what it held before. Whether
/// there is room depends on the allocator, and is left open.
#[verifier::external_body]
fn try_reserve_exact(data: &mut Vec<u8>, additional: usize) -> (reserved: bool)
    ensures
        final(data)@ == old(data)@,
{
    data.try_reserve_exact(additional).is_ok()
}

/// By how much a capacity is too small for `more` bytes behind the `len` bytes that are there.
pub open spec fn missing(capacity: nat, len: nat, more: nat) -> nat {
    if len + more > capacity {
        (len + more - capacity) as nat
    } else {
        0
    }
}

/// Asks for room for `more` bytes behind the `len` bytes that are there, in a vector of some
/// capacity: whether memory has to be allocated for them. What the capacity lacks is entered into
/// the books, and it is an error if that is over the limit.
pub fn request_room(
    limiter: &mut SharedMemoryLimiter,
    capacity: usize,
    len: usize,
    more: usize,
) -> (res: Result<bool, MemoryLimitExceededError>)
    requires
        len <= capacity,
    ensures
        final(limiter).spec_max() == old(limiter).spec_max(),
        ({
            let additional = missing(capacity as nat, len as nat, more as nat);
            if additional == 0 {
                &&& final(limiter).spec_current_usage() == old(limiter).spec_current_usage()
                &&& res == Ok::<bool, MemoryLimitExceededError>(false)
            } else {
                &&& final(limiter).spec_current_usage() == counted(
                    old(limiter).spec_current_usage() + additional,
                )
                &&& res == (if old(limiter).spec_current_usage() + additional <= old(
                    limiter,
                ).spec_max() {
                    Ok::<bool, MemoryLimitExceededError>(true)
                } else {
                    Err(MemoryLimitExceededError)
                })
            }
        }),
{
    let free: usize = capacity - len;
    if free < more {
        match limiter.increase_usage(more - free) {
            Ok(_) => Ok(true),
            Err(error) => Err(error),
        }
    } else {
        Ok(false)
    }
}

/// How much memory is to be reserved for `more` bytes once room was asked for: for all of them, if
/// memory has to be allocated.
pub fn reservation(requested: &Result<bool, MemoryLimitExceededError>, more: usize) -> (amount: Option<
    usize,
>)
    ensures
        amount == (if *requested == Ok::<bool, MemoryLimitExceededError>(true) {
            Some(more)
        } else {
            None
        }),
{
    match requested {
        Ok(true) => Some(more),
        _ => None,
    }
}

/// Whether a vector that holds some bytes may say this when room for more is reserved.
pub closed spec fn may_reserve(held: Seq<u8>, more: nat, reserved: bool) -> bool {
    exists|data: &mut Vec<u8>, additional: usize|
        {
            &&& #[trigger] call_ensures(try_reserve_exact, (data, additional), reserved)
            &&& data@ == held
            &&& additional == more
        }
}

/// Whether the books may look like this after an attempt to put `more` bytes behind those that are
/// held, in a vector of some capacity. What the capacity lacks is entered, and the attempt fails if
/// that is over the limit; otherwise it succeeds if room for the bytes could be reserved. Where
/// nothing is lacking, nothing is entered and the attempt succeeds.
pub open spec fn is_charged(
    capacity: nat,
    held: Seq<u8>,
    more: nat,
    before: SharedMemoryLimiter,
    after: SharedMemoryLimiter,
    res: Result<(), MemoryLimitExceededError>,
) -> bool {
    let additional = missing(capacity, held.len(), more);
    &&& capacity >= held.len()
    &&& after.spec_max() == before.spec_max()
    &&& additional == 0 ==> res is Ok && after.spec_current_usage() == before.spec_current_usage()
    &&& additional > 0 ==> after.spec_current_usage() == counted(
        before.spec_current_usage() + additional,
    )
    &&& additional > 0 && before.spec_current_usage() + additional > before.spec_max() ==> res is Err
    &&& additional > 0 && before.spec_current_usage() + additional <= before.spec_max()
        ==> may_reserve(held, more, res is Ok)
}

impl View for Arena {
    type V = Seq<u8>;

    closed spec fn view(&self) -> Seq<u8> {
        self.data@.skip(self.start as int)
    }
}

impl Arena {
    #[verifier::type_invariant]
    spec fn is_well_formed(self) -> bool {
        self.start <= self.data@.len()
    }

    /// For how many bytes there is memory in any case: those that are there, and those that were
    /// dropped from the front and not reclaimed yet.
    pub closed spec fn spec_held(self) -> nat {
        self.data@.len()
    }

    /// Whether this may be the capacity of the arena, as far as its vector tells.
    pub closed spec fn may_have(self, capacity: nat) -> bool {
        exists|told: usize|
            told == capacity && #[trigger] call_ensures(capacity_of, (&self.data,), told)
    }

    /// An empty arena, for which memory is allocated if there is any.
    pub fn new(limiter: &mut SharedMemoryLimiter, preallocated_size: usize) -> (arena: Self)
        ensures
            arena@ == Seq::<u8>::empty(),
            arena.spec_held() == 0,
            final(limiter).spec_max() == old(limiter).spec_max(),
            final(limiter).spec_current_usage() == counted(
                old(limiter).spec_current_usage() + preallocated_size as nat,
            ),
    {
        let mut data: Vec<u8> = Vec::new();
        if limiter.increase_usage(preallocated_size).is_ok() {
            try_reserve_exact(&mut data, preallocated_size);
        }
        assert(data@.skip(0) =~= Seq::<u8>::empty());
        Arena { data, start: 0 }
    }

    /// Reclaims the dead prefix that `shift` left behind.
    fn compact(&mut self)
        ensures
            final(self)@ == old(self)@,
            final(self).start == 0,
            old(self).spec_held() >= old(self)@.len(),
    {
        proof {
            use_type_invariant(&*self);
        }
        let start: usize = self.start;
        if start > 0 {
            self.start = 0;
            let mut data: Vec<u8> = Vec::new();
            std::mem::swap(&mut data, &mut self.data);
            let ghost before = data@;
            let live: usize = data.len() - start;
            let mut i: usize = 0;
            while i < live
                invariant
                    0 < start,
                    i <= live,
                    live == before.len() - start,
                    before.len() <= usize::MAX,
                    data@.len() == before.len(),
                    forall|k: int| 0 <= k < i ==> data@[k] == before[start + k],
                    forall|k: int| i <= k < before.len() ==> data@[k] == before[k],
                decreases live - i,
            {
                data[i] = data[start + i];
                i = i + 1;
            }
            data.truncate(live);
            assert(data@ =~= before.skip(start as int));
            self.data = data;
            assert(self.data@.skip(0) =~= self.data@);
        }
    }

    /// Puts bytes behind those that are there, in a vector of some capacity, with nothing to
    /// reclaim.
    fn append_within(
        &mut self,
        limiter: &mut SharedMemoryLimiter,
        slice: &[u8],
        capacity: usize,
    ) -> (res: Result<(), MemoryLimitExceededError>)
        requires
            old(self).start == 0,
            old(self)@.len() <= capacity,
        ensures
            final(self)@ == (if res is Ok {
                old(self)@ + slice@
            } else {
                old(self)@
            }),
            final(self).spec_held() == final(self)@.len(),
            is_charged(
                capacity as nat,
                old(self)@,
                slice@.len(),
                *old(limiter),
                *final(limiter),
                res,
            ),
    {
        assert(self@ =~= self.data@);
        let requested = request_room(limiter, capacity, self.data.len(), slice.len());
        let reserved = match reservation(&requested, slice.len()) {
            Some(amount) => {
                let mut data: Vec<u8> = Vec::new();
                std::mem::swap(&mut data, &mut self.data);
                let reserve = try_reserve_exact;
                let reserved = reserve(&mut data, amount);
                assert(may_reserve(old(self)@, slice@.len(), reserved));
                self.data = data;
                reserved
            },
            None => false,
        };
        self.append_reserved(slice, requested, reserved)
    }

    /// Puts bytes behind those that are there, once room was asked for and memory was reserved where
    /// it had to be. They are refused if the room was, or the memory.
    pub fn append_reserved(
        &mut self,
        slice: &[u8],
        requested: Result<bool, MemoryLimitExceededError>,
        reserved: bool,
    ) -> (res: Result<(), MemoryLimitExceededError>)
        ensures
            res is Ok <==> (requested matches Ok(allocate) && (!allocate || reserved)),
            final(self)@ == (if res is Ok {
                old(self)@ + slice@
            } else {
                old(self)@
            }),
            old(self)@.len() <= old(self).spec_held(),
            final(self).spec_held() == old(self).spec_held() + (if res is Ok {
                slice@.len()
            } else {
                0
            }),
    {
        proof {
            use_type_invariant(&*self);
        }
        match requested {
            Ok(allocate) => if !allocate || reserved {
                let start: usize = self.start;
                self.start = 0;
                let mut data: Vec<u8> = Vec::new();
                std::mem::swap(&mut data, &mut self.data);
                data.extend_from_slice(slice);
                self.data = data;
                self.start = start;
                assert(self@ =~= old(self)@ + slice@);
                Ok(())
            } else {
                Err(MemoryLimitExceededError)
            },
            Err(error) => Err(error),
        }
    }

    /// Puts bytes behind those that are there. The memory of bytes that were dropped from the front
    /// is used again.
    ///
    /// What of the rest is entered into the books depends on the capacity that the vector tells, and
    /// whether there is memory for it on what the vector says when it is reserved. Both are up to the
    /// allocator, and left open here.
    pub fn append(&mut self, limiter: &mut SharedMemoryLimiter, slice: &[u8]) -> (res: Result<
        (),
        MemoryLimitExceededError,
    >)
        ensures
            final(self)@ == (if res is Ok {
                old(self)@ + slice@
            } else {
                old(self)@
            }),
            final(self).spec_held() == final(self)@.len(),
            old(self)@.len() <= old(self).spec_held(),
            exists|capacity: nat|
                old(self).may_have(capacity) && old(self).spec_held() <= capacity
                    && #[trigger] is_charged(
                    capacity,
                    old(self)@,
                    slice@.len(),
                    *old(limiter),
                    *final(limiter),
                    res,
                ),
            old(self)@.len() + slice@.len() <= old(self).spec_held() ==> {
                &&& res is Ok
                &&& final(limiter).spec_current_usage() == old(limiter).spec_current_usage()
            },
    {
        let told = capacity_of;
        let capacity: usize = told(&self.data);
        assert(self.may_have(capacity as nat));
        self.compact();
        self.append_within(limiter, slice, capacity)
    }

    /// Puts bytes in the place of those that are there. The memory of those is used again.
    pub fn init_with(&mut self, limiter: &mut SharedMemoryLimiter, slice: &[u8]) -> (res: Result<
        (),
        MemoryLimitExceededError,
    >)
        ensures
            final(self)@ == (if res is Ok {
                slice@
            } else {
                Seq::empty()
            }),
            final(self).spec_held() == final(self)@.len(),
            exists|capacity: nat|
                old(self).may_have(capacity) && old(self).spec_held() <= capacity
                    && #[trigger] is_charged(
                    capacity,
                    Seq::empty(),
                    slice@.len(),
                    *old(limiter),
                    *final(limiter),
                    res,
                ),
            slice@.len() <= old(self).spec_held() ==> {
                &&& res is Ok
                &&& final(limiter).spec_current_usage() == old(limiter).spec_current_usage()
            },
    {
        let told = capacity_of;
        let capacity: usize = told(&self.data);
        assert(self.may_have(capacity as nat));
        self.start = 0;
        let mut data: Vec<u8> = Vec::new();
        std::mem::swap(&mut data, &mut self.data);
        data.clear();
        self.data = data;
        assert(self@ =~= Seq::<u8>::empty());
        assert(Seq::<u8>::empty() + slice@ =~= slice@);
        self.append_within(limiter, slice, capacity)
    }

    /// Drops bytes from the front.
    pub fn shift(&mut self, byte_count: usize)
        requires
            byte_count <= old(self)@.len(),
        ensures
            final(self)@ == old(self)@.skip(byte_count as int),
            final(self).spec_held() == old(self).spec_held(),
            old(self)@.len() <= old(self).spec_held(),
    {
        proof {
            use_type_invariant(&*self);
        }
        let len: usize = self.data.len();
        assert(self.start + byte_count <= len);
        self.start = self.start + byte_count;
        assert(self@ =~= old(self)@.skip(byte_count as int));
    }

    /// The bytes that are there.
    pub fn bytes(&self) -> (bytes: &[u8])
        ensures
            bytes@ == self@,
            self@.len() <= self.spec_held(),
    {
        proof {
            use_type_invariant(self);
        }
        slice_subrange(self.data.as_slice(), self.start, self.data.len())
    }
}

/// What a capacity lacks is just what it takes: with it the bytes fit, with less they do not, and
/// where they fit nothing is missing.
pub proof fn law_missing_room_is_what_it_takes(capacity: nat, len: nat, more: nat, given: nat)
    ensures
        len + more <= capacity + given <==> given >= missing(capacity, len, more),
        missing(capacity, len, more) == 0 <==> len + more <= capacity,
{
}

/// Room that is there is not entered into the books. Otherwise exactly what is missing is, and memory is
/// to be allocated unless that is over the limit.
pub proof fn law_request_room(
    capacity: usize,
    len: usize,
    more: usize,
    res: Result<bool, MemoryLimitExceededError>,
)
    ensures
        forall|limiter: &mut SharedMemoryLimiter|
            #[trigger] call_ensures(request_room, (limiter, capacity, len, more), res) && len
                <= capacity ==> {
                let before = limiter.spec_current_usage();
                let after = (*final(limiter)).spec_current_usage();
                if len + more <= capacity {
                    after == before && res == Ok::<bool, MemoryLimitExceededError>(false)
                } else {
                    &&& before + (len + more - capacity) <= usize::MAX ==> after == before + (len
                        + more - capacity)
                    &&& before + (len + more - capacity) <= limiter.spec_max() <==> res == Ok::<
                        bool,
                        MemoryLimitExceededError,
                    >(true)
                    &&& res is Ok || before + (len + more - capacity) > limiter.spec_max()
                }
            },
{
}

/// Where bytes are put behind others in a vector of some capacity, just what does not fit is entered
/// into the books, and if that is over the limit they are refused.
pub proof fn law_charge_is_what_does_not_fit(
    capacity: nat,
    held: Seq<u8>,
    more: nat,
    before: SharedMemoryLimiter,
    after: SharedMemoryLimiter,
    res: Result<(), MemoryLimitExceededError>,
)
    requires
        is_charged(capacity, held, more, before, after, res),
    ensures
        held.len() + more <= capacity ==> res is Ok && after.spec_current_usage()
            == before.spec_current_usage(),
        held.len() + more > capacity ==> {
            let charge = held.len() + more - capacity;
            &&& before.spec_current_usage() + charge <= usize::MAX ==> after.spec_current_usage()
                == before.spec_current_usage() + charge
            &&& before.spec_current_usage() + charge > before.spec_max() ==> res is Err
        },
        after.spec_max() == before.spec_max(),
{
}

/// Bytes that are taken are behind those that were there, and bytes that are refused change nothing.
/// Bytes that take the place of others are there alone. What is dropped is dropped from the front.
pub proof fn law_arena_holds_what_it_took(slice: &[u8], res: Result<(), MemoryLimitExceededError>)
    ensures
        forall|arena: &mut Arena, limiter: &mut SharedMemoryLimiter|
            #[trigger] call_ensures(Arena::append, (arena, limiter, slice), res) ==> {
                let before = arena@;
                let after = (*final(arena))@;
                &&& res is Ok ==> after.len() == before.len() + slice@.len() && before
                    == after.take(before.len() as int) && slice@ == after.skip(before.len() as int)
                &&& res is Err ==> after == before
            },
        forall|arena: &mut Arena, limiter: &mut SharedMemoryLimiter|
            #[trigger] call_ensures(Arena::init_with, (arena, limiter, slice), res) ==> {
                let after = (*final(arena))@;
                &&& res is Ok ==> after == slice@
                &&& res is Err ==> after.len() == 0
            },
        forall|arena: &mut Arena, byte_count: usize|
            #[trigger] call_ensures(Arena::shift, (arena, byte_count), ()) && byte_count
                <= arena@.len() ==> {
                let before = arena@;
                let after = (*final(arena))@;
                &&& after.len() == before.len() - byte_count
                &&& forall|i: int| 0 <= i < after.len() ==> #[trigger] after[i] == before[byte_count + i]
            },
{
    assert forall|arena: &mut Arena, limiter: &mut SharedMemoryLimiter|
        #[trigger] call_ensures(Arena::append, (arena, limiter, slice), res) && res is Ok implies ({
        let before = arena@;
        let after = (*final(arena))@;
        &&& after.len() == before.len() + slice@.len()
        &&& before == after.take(before.len() as int)
        &&& slice@ == after.skip(before.len() as int)
    }) by {
        let before = arena@;
        let after = (*final(arena))@;
        assert(after == before + slice@);
        assert(before =~= after.take(before.len() as int));
        assert(slice@ =~= after.skip(before.len() as int));
    }
}

} // verus!
