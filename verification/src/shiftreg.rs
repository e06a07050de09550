//! The shift register: an ordered ledger of optional workpiece records
//! ("details"), one slot per transport-segment position, plus one extra
//! absorbing slot at the end of the line. At most one detail ever occupies a
//! slot; the only legal mutation is moving a detail into an empty adjacent
//! slot, and a move into an occupied slot is surfaced as a distinct error,
//! never performed.

use vstd::prelude::*;

use crate::bits::{bank_bits, bits_get, bits_repeat, bits_set, BitBank};

verus! {

/// The number of process steps a detail records outcomes for.
pub const DETAIL_STEPS: usize = 32;

/// Index type for positions in the shift register.
pub type RegisterIndex = u16;

/// A transport segment's slot in the shift register.
#[derive(Clone, Copy, Debug, PartialEq, Eq, Structural)]
pub struct RegisterPosition(pub RegisterIndex);

impl RegisterPosition {
    /// The position as a plain index into the register's slot vector.
    pub fn as_usize(&self) -> (r: usize)
        ensures
            r == self.0 as usize,
    {
        self.0 as usize
    }
}

/// A workpiece record: per process step, a pass/fail outcome bit and a
/// parallel "step was executed" bit, so "not yet processed" stays
/// distinguishable from "processed and failed".
pub struct DetailState {
    state_bits: BitBank,
    bits_set: BitBank,
}

impl DetailState {
    /// The "step executed" bits.
    pub closed spec fn done_bits(&self) -> Seq<bool> {
        bank_bits(self.bits_set)
    }

    /// The pass/fail bits.
    pub closed spec fn outcome_bits(&self) -> Seq<bool> {
        bank_bits(self.state_bits)
    }

    /// Both bit words hold exactly one bit per process step.
    pub open spec fn wf(&self) -> bool {
        &&& self.done_bits().len() == DETAIL_STEPS
        &&& self.outcome_bits().len() == DETAIL_STEPS
    }

    /// The three-valued outcome per step: `None` when the step was never
    /// executed, `Some(pass)` otherwise.
    pub open spec fn view(&self) -> Seq<Option<bool>> {
        Seq::new(
            self.done_bits().len(),
            |i: int|
                if self.done_bits()[i] {
                    Some(self.outcome_bits()[i])
                } else {
                    None
                },
        )
    }

    /// A fresh detail with no step executed yet.
    pub fn new() -> (r: Self)
        ensures
            r.wf(),
            r@ == Seq::new(DETAIL_STEPS as nat, |i: int| None::<bool>),
    {
        let r = DetailState {
            state_bits: bits_repeat(false, DETAIL_STEPS),
            bits_set: bits_repeat(false, DETAIL_STEPS),
        };
        proof {
            assert(r@ =~= Seq::new(DETAIL_STEPS as nat, |i: int| None::<bool>));
        }
        r
    }

    /// The outcome of process step `idx`: `None` when that step was never
    /// executed, `Some(pass)` otherwise.
    pub fn get_bit(&self, idx: usize) -> (r: Option<bool>)
        requires
            self.wf(),
            idx < DETAIL_STEPS,
        ensures
            r == self@[idx as int],
    {
        let done = match bits_get(&self.bits_set, idx) {
            Some(b) => b,
            None => false,
        };
        if !done {
            return None;
        }
        match bits_get(&self.state_bits, idx) {
            Some(b) => Some(b),
            None => None,
        }
    }

    /// Records the outcome of process step `idx`, marking the step executed.
    pub fn set_bit(&mut self, idx: usize, outcome: bool)
        requires
            old(self).wf(),
            idx < DETAIL_STEPS,
        ensures
            final(self).wf(),
            final(self)@ == old(self)@.update(idx as int, Some(outcome)),
    {
        bits_set(&mut self.bits_set, idx, true);
        bits_set(&mut self.state_bits, idx, outcome);
        proof {
            assert(self@ =~= old(self)@.update(idx as int, Some(outcome)));
        }
    }
}

impl Default for DetailState {
    /// Same as [`DetailState::new`]: no step executed yet.
    fn default() -> (r: Self)
        ensures
            r.wf(),
            r@ == Seq::new(DETAIL_STEPS as nat, |i: int| None::<bool>),
    {
        DetailState::new()
    }
}

/// Ledger violations. Occupancy conflicts are logic bugs in the state-machine
/// wiring and are surfaced loudly rather than coerced.
#[derive(Clone, Copy, Debug, PartialEq, Eq, Structural)]
pub enum RegisterError {
    /// The named slot lies beyond the register.
    IndexOutOfRange,
    /// The slot a detail was to move into already holds one.
    TargetOccupied,
    /// The requested move was not between adjacent slots.
    NotAdjacent,
}

/// How many slots of `s` hold a detail.
pub open spec fn count_occupied(s: Seq<Option<DetailState>>) -> nat
    decreases s.len(),
{
    if s.len() == 0 {
        0
    } else {
        count_occupied(s.drop_last()) + (if s.last() is Some {
            1nat
        } else {
            0nat
        })
    }
}

/// Overwriting one slot changes the occupancy count by exactly the
/// difference between the new and the old content.
pub proof fn lemma_count_occupied_update(s: Seq<Option<DetailState>>, i: int, v: Option<
    DetailState,
>)
    requires
        0 <= i < s.len(),
    ensures
        count_occupied(s.update(i, v)) == count_occupied(s) - (if s[i] is Some {
            1int
        } else {
            0int
        }) + (if v is Some {
            1int
        } else {
            0int
        }),
    decreases s.len(),
{
    if i == s.len() - 1 {
        assert(s.update(i, v).drop_last() =~= s.drop_last());
    } else {
        assert(s.update(i, v).drop_last() =~= s.drop_last().update(i, v));
        lemma_count_occupied_update(s.drop_last(), i, v);
    }
}

/// Moving a detail from an occupied slot to an empty one keeps the number of
/// details unchanged: none is lost, none is duplicated.
pub proof fn lemma_count_occupied_move(s: Seq<Option<DetailState>>, from: int, to: int)
    requires
        0 <= from < s.len(),
        0 <= to < s.len(),
        from != to,
        s[from] is Some,
        s[to] is None,
    ensures
        count_occupied(s.update(from, None).update(to, s[from])) == count_occupied(s),
{
    lemma_count_occupied_update(s, from, None);
    lemma_count_occupied_update(s.update(from, None), to, s[from]);
}

/// The shift register itself: the single source of truth for where every
/// detail currently is.
pub struct Register {
    /// One slot per register position.
    pub details: Vec<Option<DetailState>>,
}

impl Register {
    /// Every held detail well-formed.
    pub open spec fn wf(&self) -> bool {
        forall|i: int|
            0 <= i < self.details@.len() ==> (#[trigger] self.details@[i] matches Some(d)
                ==> d.wf())
    }

    /// Whether slot `i` holds a detail.
    pub open spec fn occupied(&self, i: int) -> bool {
        self.details@[i] is Some
    }

    /// A register of `n_details` slots, slot 0 seeded with a fresh detail
    /// (the line's entry) and every other slot empty.
    pub fn new(n_details: usize) -> (r: Self)
        ensures
            r.wf(),
            r.details@.len() == n_details,
            forall|i: int| 1 <= i < n_details ==> r.details@[i] is None,
            n_details > 0 ==> (r.details@[0] matches Some(d) && d@ == Seq::new(
                DETAIL_STEPS as nat,
                |i: int| None::<bool>,
            )),
    {
        let mut r = Self::new_empty(n_details);
        if n_details > 0 {
            r.details.set(0, Some(DetailState::new()));
        }
        r
    }

    /// A register of `n_details` slots, all empty.
    pub fn new_empty(n_details: usize) -> (r: Self)
        ensures
            r.wf(),
            r.details@.len() == n_details,
            forall|i: int| 0 <= i < n_details ==> r.details@[i] is None,
    {
        let mut details: Vec<Option<DetailState>> = Vec::new();
        let mut i: usize = 0;
        while i < n_details
            invariant
                i <= n_details,
                details@.len() == i,
                forall|j: int| 0 <= j < i ==> details@[j] is None,
            decreases n_details - i,
        {
            details.push(None);
            i = i + 1;
        }
        Register { details }
    }

    /// The number of slots.
    pub fn len(&self) -> (r: usize)
        ensures
            r == self.details@.len(),
    {
        self.details.len()
    }

    /// A read-only view of slot `idx`.
    pub fn get(&self, idx: usize) -> (r: &Option<DetailState>)
        requires
            idx < self.details@.len(),
        ensures
            *r == self.details@[idx as int],
    {
        &self.details[idx]
    }

    /// Seeds slot `idx` with a detail. Rejected when the slot is occupied:
    /// two details can never share a position.
    pub fn put_detail(&mut self, idx: usize, detail: DetailState) -> (r: Result<
        (),
        RegisterError,
    >)
        requires
            old(self).wf(),
            detail.wf(),
        ensures
            final(self).wf(),
            match r {
                Ok(()) => {
                    &&& idx < old(self).details@.len()
                    &&& old(self).details@[idx as int] is None
                    &&& final(self).details@ == old(self).details@.update(
                        idx as int,
                        Some(detail),
                    )
                },
                Err(RegisterError::IndexOutOfRange) => {
                    &&& idx >= old(self).details@.len()
                    &&& final(self).details@ == old(self).details@
                },
                Err(RegisterError::TargetOccupied) => {
                    &&& idx < old(self).details@.len()
                    &&& old(self).details@[idx as int] is Some
                    &&& final(self).details@ == old(self).details@
                },
                Err(RegisterError::NotAdjacent) => false,
            },
    {
        if idx >= self.details.len() {
            return Err(RegisterError::IndexOutOfRange);
        }
        if self.details[idx].is_some() {
            return Err(RegisterError::TargetOccupied);
        }
        self.details.set(idx, Some(detail));
        Ok(())
    }

    /// Removes and returns the content of the last slot (the exit of the
    /// line), or `None` when the register has no slots.
    pub fn pop_detail(&mut self) -> (r: Option<DetailState>)
        requires
            old(self).wf(),
        ensures
            final(self).wf(),
            old(self).details@.len() == 0 ==> r is None && final(self).details@ == old(self).details@,
            old(self).details@.len() > 0 ==> r == old(self).details@.last() && final(self).details@ == old(self).details@.update(old(self).details@.len() - 1, None),
    {
        let n = self.details.len();
        if n == 0 {
            return None;
        }
        let mut taken: Option<DetailState> = None;
        self.details.set_and_swap(n - 1, &mut taken);
        taken
    }

    /// Moves the detail in slot `idx` one slot forward. At the last slot the
    /// register grows by one absorbing slot and the detail moves into it. A
    /// move onto an occupied slot is a logic-integrity violation and is
    /// rejected unperformed; an empty source slot makes the call a no-op.
    pub fn shift_detail_forward(&mut self, idx: usize) -> (r: Result<(), RegisterError>)
        requires
            old(self).wf(),
        ensures
            final(self).wf(),
            match r {
                Ok(()) => {
                    &&& idx < old(self).details@.len()
                    &&& (old(self).details@[idx as int] is None ==> final(self).details@ == old(self).details@)
                    &&& (old(self).details@[idx as int] is Some ==> {
                        if idx + 1 == old(self).details@.len() {
                            final(self).details@ == old(self).details@.update(
                                idx as int,
                                None,
                            ).push(old(self).details@[idx as int])
                        } else {
                            &&& old(self).details@[idx as int + 1] is None
                            &&& final(self).details@ == old(self).details@.update(
                                idx as int,
                                None,
                            ).update(idx as int + 1, old(self).details@[idx as int])
                        }
                    })
                },
                Err(RegisterError::IndexOutOfRange) => {
                    &&& idx >= old(self).details@.len()
                    &&& final(self).details@ == old(self).details@
                },
                Err(RegisterError::TargetOccupied) => {
                    &&& idx + 1 < old(self).details@.len()
                    &&& old(self).details@[idx as int] is Some
                    &&& old(self).details@[idx as int + 1] is Some
                    &&& final(self).details@ == old(self).details@
                },
                Err(RegisterError::NotAdjacent) => false,
            },
    {
        let n = self.details.len();
        if idx >= n {
            return Err(RegisterError::IndexOutOfRange);
        }
        if self.details[idx].is_none() {
            return Ok(());
        }
        if idx + 1 == n {
            let mut taken: Option<DetailState> = None;
            self.details.set_and_swap(idx, &mut taken);
            self.details.push(taken);
            return Ok(());
        }
        if self.details[idx + 1].is_some() {
            return Err(RegisterError::TargetOccupied);
        }
        let mut taken: Option<DetailState> = None;
        self.details.set_and_swap(idx, &mut taken);
        self.details.set(idx + 1, taken);
        Ok(())
    }

    /// Moves the detail in slot `from` to the adjacent slot `to`. The move is
    /// rejected whole — never half-performed — when a slot is out of range,
    /// the slots are not adjacent, or `to` is occupied; an empty `from` makes
    /// the call a no-op.
    pub fn shift_over(&mut self, from: usize, to: usize) -> (r: Result<(), RegisterError>)
        requires
            old(self).wf(),
        ensures
            final(self).wf(),
            match r {
                Ok(()) => {
                    &&& from < old(self).details@.len()
                    &&& to < old(self).details@.len()
                    &&& (to == from + 1 || from == to + 1)
                    &&& (old(self).details@[from as int] is None ==> final(self).details@ == old(self).details@)
                    &&& (old(self).details@[from as int] is Some ==> {
                        &&& old(self).details@[to as int] is None
                        &&& final(self).details@ == old(self).details@.update(
                            from as int,
                            None,
                        ).update(to as int, old(self).details@[from as int])
                    })
                },
                Err(RegisterError::IndexOutOfRange) => {
                    &&& (from >= old(self).details@.len() || to >= old(self).details@.len())
                    &&& final(self).details@ == old(self).details@
                },
                Err(RegisterError::NotAdjacent) => {
                    &&& from < old(self).details@.len()
                    &&& to < old(self).details@.len()
                    &&& to != from + 1 && from != to + 1
                    &&& final(self).details@ == old(self).details@
                },
                Err(RegisterError::TargetOccupied) => {
                    &&& from < old(self).details@.len()
                    &&& to < old(self).details@.len()
                    &&& (to == from + 1 || from == to + 1)
                    &&& old(self).details@[from as int] is Some
                    &&& old(self).details@[to as int] is Some
                    &&& final(self).details@ == old(self).details@
                },
            },
    {
        let n = self.details.len();
        if from >= n || to >= n {
            return Err(RegisterError::IndexOutOfRange);
        }
        let adjacent = (to >= 1 && from == to - 1) || (from >= 1 && to == from - 1);
        if !adjacent {
            return Err(RegisterError::NotAdjacent);
        }
        if self.details[from].is_none() {
            return Ok(());
        }
        if self.details[to].is_some() {
            return Err(RegisterError::TargetOccupied);
        }
        let mut taken: Option<DetailState> = None;
        self.details.set_and_swap(from, &mut taken);
        self.details.set(to, taken);
        Ok(())
    }
}

} // verus!
