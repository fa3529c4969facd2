use vstd::prelude::*;

verus! {

/// The `an+b` argument of `:nth-child()` and `:nth-of-type()`: `step` is `a`, `offset` is `b`.
#[derive(PartialEq, Eq, Debug, Copy, Clone, Structural)]
pub struct NthChild {
    step: i32,
    offset: i32,
}

/// How far `count` steps of size `step` reach.
pub open spec fn reach(step: int, count: nat) -> int {
    step * count
}

/// Whether some number of steps of size `step` (possibly none) reaches `distance`.
spec fn is_some_steps(step: int, distance: int) -> bool {
    exists|n: nat| reach(step, n) == distance
}

/// Whether `index` is `step * n + offset` for some `n`.
pub open spec fn is_an_plus_b(step: int, offset: int, index: int) -> bool {
    exists|n: nat| #[trigger] reach(step, n) + offset == index
}

/// An index is selected exactly if some number of steps reaches it from the offset.
proof fn lemma_steps_from_offset(step: int, offset: int, index: int)
    ensures
        is_an_plus_b(step, offset, index) == is_some_steps(step, index - offset),
{
    if is_some_steps(step, index - offset) {
        let n: nat = choose|n: nat| reach(step, n) == index - offset;
        assert(reach(step, n) + offset == index);
    }
    if is_an_plus_b(step, offset, index) {
        let n: nat = choose|n: nat| #[trigger] reach(step, n) + offset == index;
        assert(reach(step, n) == index - offset);
    }
}

/// A nonzero step divides a distance in its own direction exactly when the remainder of the
/// magnitudes is zero.
proof fn lemma_steps_by_remainder(step: int, distance: int)
    requires
        step != 0,
        (distance >= 0 && step > 0) || (distance <= 0 && step < 0),
    ensures
        step > 0 ==> (is_some_steps(step, distance) <==> distance % step == 0),
        step < 0 ==> (is_some_steps(step, distance) <==> (-distance) % (-step) == 0),
{
    let s: int = if step > 0 {
        step
    } else {
        -step
    };
    let d: int = if step > 0 {
        distance
    } else {
        -distance
    };
    vstd::arithmetic::div_mod::lemma_fundamental_div_mod(d, s);
    assert(d / s >= 0) by {
        vstd::arithmetic::div_mod::lemma_div_pos_is_pos(d, s);
    }
    let q: nat = (d / s) as nat;
    if d % s == 0 {
        assert(step * q == distance) by (nonlinear_arith)
            requires
                d == s * q,
                (step == s && distance == d) || (step == -s && distance == -d),
        ;
        assert(reach(step, q) == distance);
    }
    if is_some_steps(step, distance) {
        let n: nat = choose|n: nat| reach(step, n) == distance;
        assert(d == n * s) by (nonlinear_arith)
            requires
                step * n == distance,
                (step == s && distance == d) || (step == -s && distance == -d),
        ;
        vstd::arithmetic::div_mod::lemma_mod_multiples_basic(n as int, s);
    }
}

impl NthChild {
    /// The size of a step, `a` in `an+b`.
    pub closed spec fn spec_step(self) -> i32 {
        self.step
    }

    /// Where the steps start, `b` in `an+b`.
    pub closed spec fn spec_offset(self) -> i32 {
        self.offset
    }

    /// The argument with the given step and offset.
    pub closed spec fn spec_new(step: i32, offset: i32) -> Self {
        NthChild { step, offset }
    }

    /// The argument is made of the step and the offset that it is given.
    pub proof fn law_parts_of_a_new_one(step: i32, offset: i32)
        ensures
            Self::spec_new(step, offset).spec_step() == step,
            Self::spec_new(step, offset).spec_offset() == offset,
    {
    }

    #[must_use]
    pub fn new(step: i32, offset: i32) -> (nth: Self)
        ensures
            nth == Self::spec_new(step, offset),
            nth.spec_step() == step,
            nth.spec_offset() == offset,
    {
        Self { step, offset }
    }

    /// Whether the 1-based `index` is one of `offset`, `offset + step`, `offset + 2 * step`, and
    /// so on.
    #[must_use]
    pub fn has_index(self, index: i32) -> (found: bool)
        ensures
            found == is_an_plus_b(
                self.spec_step() as int,
                self.spec_offset() as int,
                index as int,
            ),
    {
        // Neither the distance nor its negative wraps around in 64 bits.
        let distance: i64 = index as i64 - self.offset as i64;
        let step: i64 = self.step as i64;
        proof {
            lemma_steps_from_offset(
                self.spec_step() as int,
                self.spec_offset() as int,
                index as int,
            );
        }
        if step == 0 {
            proof {
                assert(forall|n: nat| reach(0, n) == 0);
                assert(reach(0, 0) == 0);
            }
            distance == 0
        } else if (distance < 0 && step > 0) || (distance > 0 && step < 0) {
            proof {
                assert forall|n: nat| reach(step as int, n) != distance by {
                    assert(step > 0 ==> step * n >= 0) by (nonlinear_arith);
                    assert(step < 0 ==> step * n <= 0) by (nonlinear_arith);
                }
            }
            false
        } else {
            proof {
                lemma_steps_by_remainder(step as int, distance as int);
            }
            if step > 0 {
                distance as u64 % step as u64 == 0
            } else {
                (-distance) as u64 % (-step) as u64 == 0
            }
        }
    }
}

/// The offset is selected, and with every index the one that is a step further.
pub proof fn law_selected_indexes_go_on(step: int, offset: int, index: int)
    ensures
        is_an_plus_b(step, offset, offset),
        is_an_plus_b(step, offset, index) ==> is_an_plus_b(step, offset, index + step),
{
    assert(reach(step, 0) + offset == offset);
    if is_an_plus_b(step, offset, index) {
        let n: nat = choose|n: nat| #[trigger] reach(step, n) + offset == index;
        assert(step * (n + 1) == step * n + step) by (nonlinear_arith);
        assert(reach(step, n + 1) + offset == index + step);
    }
}

/// Which indexes are selected: without a step the offset alone, and with one the indexes on its side
/// of the offset, at a distance that it divides.
pub proof fn law_selected_indexes_are_steps_apart(step: int, offset: int, index: int)
    ensures
        step == 0 ==> (is_an_plus_b(step, offset, index) <==> index == offset),
        step > 0 ==> (is_an_plus_b(step, offset, index) <==> index >= offset && (index - offset)
            % step == 0),
        step < 0 ==> (is_an_plus_b(step, offset, index) <==> index <= offset && (offset - index) % (
        -step) == 0),
{
    let distance = index - offset;
    lemma_steps_from_offset(step, offset, index);
    if step == 0 {
        assert(forall|n: nat| reach(0, n) == 0);
        assert(reach(0, 0) == 0);
    } else if (distance >= 0 && step > 0) || (distance <= 0 && step < 0) {
        lemma_steps_by_remainder(step, distance);
    } else {
        assert forall|n: nat| reach(step, n) != distance by {
            assert(step > 0 ==> step * n >= 0) by (nonlinear_arith);
            assert(step < 0 ==> step * n <= 0) by (nonlinear_arith);
        }
    }
}

/// An index is found exactly if it is on the side of the offset that the steps lead to, at a distance
/// that they reach.
pub proof fn law_has_index(nth: NthChild, index: i32, found: bool)
    requires
        call_ensures(NthChild::has_index, (nth, index), found),
    ensures
        ({
            let step = nth.spec_step() as int;
            let offset = nth.spec_offset() as int;
            found <==> if step == 0 {
                index == offset
            } else if step > 0 {
                index >= offset && (index - offset) % step == 0
            } else {
                index <= offset && (offset - index) % (-step) == 0
            }
        }),
{
    law_selected_indexes_are_steps_apart(
        nth.spec_step() as int,
        nth.spec_offset() as int,
        index as int,
    );
}

} // verus!
