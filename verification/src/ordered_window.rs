//! The window of speculative work: candidates are worked on ahead of time within a bounded
//! window, results are taken strictly in order, and a retired generation leaves no trace.

use vstd::prelude::*;

verus! {

/// Failures of ordered execution as a whole.
#[derive(Clone, Copy, Debug, PartialEq, Eq, Structural)]
pub enum OrderedError {
    Cancelled,
    GenerationOverflow,
}

/// One slot of the window.
#[derive(Debug)]
pub enum SpecSlot<R> {
    /// Someone works on the candidate.
    Running { index: usize, generation: u64, runner_id: u64 },
    /// The result is there.
    Ready { index: usize, generation: u64, value: R },
}

/// What is known of a candidate in the window.
pub enum SlotSpec<R> {
    Running { generation: u64, runner_id: u64 },
    Ready { generation: u64, value: R },
}

/// The right to publish the result of one candidate.
#[derive(Clone, Copy, Debug, PartialEq, Eq, Structural)]
pub struct RunningLease {
    pub index: usize,
    pub generation: u64,
    pub runner_id: u64,
}

/// What the coordinator does about the next candidate.
#[derive(Debug)]
pub enum Frontier<R> {
    /// Its result is there.
    Ready(R),
    /// Someone works on it: wait.
    Wait,
    /// Nobody works on it: do it now.
    Inline,
}

/// The window of speculative work.
pub struct SpecWindow<R> {
    width: usize,
    candidate_count: usize,
    generation: u64,
    next_runner_id: u64,
    next_reduce: usize,
    accepting: bool,
    slots: Vec<Option<SpecSlot<R>>>,
    peak: usize,
}

impl<R> SpecSlot<R> {
    spec fn at(&self) -> usize {
        match self {
            SpecSlot::Running { index, .. } => *index,
            SpecSlot::Ready { index, .. } => *index,
        }
    }

    spec fn age(&self) -> u64 {
        match self {
            SpecSlot::Running { generation, .. } => *generation,
            SpecSlot::Ready { generation, .. } => *generation,
        }
    }

    spec fn shown(&self) -> SlotSpec<R> {
        match self {
            SpecSlot::Running { generation, runner_id, .. } => SlotSpec::Running {
                generation: *generation,
                runner_id: *runner_id,
            },
            SpecSlot::Ready { generation, value, .. } => SlotSpec::Ready {
                generation: *generation,
                value: *value,
            },
        }
    }
}

proof fn same_residue(left: int, right: int, width: int)
    requires
        width > 0,
        left % width == right % width,
        -width < left - right < width,
    ensures
        left == right,
{
    let a = left / width;
    let b = right / width;
    vstd::arithmetic::div_mod::lemma_fundamental_div_mod(left, width);
    vstd::arithmetic::div_mod::lemma_fundamental_div_mod(right, width);
    assert(left - right == width * (a - b)) by (nonlinear_arith)
        requires
            left == width * a + left % width,
            right == width * b + right % width,
            left % width == right % width,
    ;
    if a != b {
        assert(width * (a - b) >= width || width * (a - b) <= -width) by (nonlinear_arith)
            requires
                width > 0,
                a != b,
        ;
    }
}

impl<R> SpecWindow<R> {
    /// How many candidates are in the window at once.
    pub closed spec fn width(&self) -> int {
        self.width as int
    }

    /// The number of candidates.
    pub closed spec fn candidates(&self) -> int {
        self.candidate_count as int
    }

    /// The generation whose results count.
    pub closed spec fn generation(&self) -> u64 {
        self.generation
    }

    /// The candidate whose result is taken next.
    pub closed spec fn next(&self) -> int {
        self.next_reduce as int
    }

    /// Whether work may be claimed.
    pub closed spec fn accepting(&self) -> bool {
        self.accepting
    }

    /// How many leases were asked for.
    pub closed spec fn runners(&self) -> u64 {
        self.next_runner_id
    }

    /// What is known of a candidate.
    pub closed spec fn slot_at(&self, index: int) -> Option<SlotSpec<R>> {
        if index < 0 {
            None
        } else {
            match self.slots@[index % self.width as int] {
                Some(slot) => if slot.at() == index {
                    Some(slot.shown())
                } else {
                    None
                },
                None => None,
            }
        }
    }

    /// Where work may be claimed up to.
    pub open spec fn end(&self) -> int {
        let wide = if self.next() + self.width() > usize::MAX {
            usize::MAX as int
        } else {
            self.next() + self.width()
        };
        if wide < self.candidates() {
            wide
        } else {
            self.candidates()
        }
    }

    /// How many candidates from one to before another hold a slot.
    pub open spec fn held(&self, from: int, to: int) -> nat
        decreases to - from,
    {
        if from >= to {
            0
        } else {
            self.held(from, to - 1) + if self.slot_at(to - 1) is Some {
                1nat
            } else {
                0nat
            }
        }
    }

    /// The number of candidates that hold a slot.
    pub open spec fn live(&self) -> nat {
        self.held(self.next(), self.end())
    }

    /// The greatest number of candidates that ever held a slot at once.
    pub closed spec fn peak(&self) -> nat {
        self.peak as nat
    }

    /// Every slot is of the current generation and within the window, at its own place.
    pub closed spec fn wf(&self) -> bool {
        &&& self.width >= 1
        &&& self.slots@.len() == self.width
        &&& self.next_reduce <= self.candidate_count
        &&& forall|p: int|
            #![trigger self.slots@[p]]
            0 <= p < self.slots@.len() && self.slots@[p] is Some ==> {
                let slot = self.slots@[p]->Some_0;
                &&& slot.at() % self.width == p
                &&& self.next_reduce <= slot.at() < self.next_reduce + self.width
                &&& slot.at() < self.candidate_count
                &&& slot.age() == self.generation
            }
    }

    /// The same window, apart from the slots.
    pub open spec fn same_frame(&self, other: &SpecWindow<R>) -> bool {
        &&& self.width() == other.width()
        &&& self.candidates() == other.candidates()
        &&& self.generation() == other.generation()
        &&& self.next() == other.next()
        &&& self.accepting() == other.accepting()
    }

    /// An empty window; a width of zero counts as one.
    pub fn new(width: usize, candidate_count: usize) -> (window: Self)
        ensures
            window.wf(),
            window.width() == if width == 0 {
                1
            } else {
                width as int
            },
            window.candidates() == candidate_count,
            window.generation() == 0,
            window.runners() == 0,
            window.next() == 0,
            window.accepting(),
            window.peak() == 0,
            forall|i: int| (#[trigger] window.slot_at(i)) is None,
    {
        let width: usize = if width == 0 {
            1
        } else {
            width
        };
        let mut slots: Vec<Option<SpecSlot<R>>> = Vec::new();
        let mut filled: usize = 0;
        while filled < width
            invariant
                filled <= width,
                slots@.len() == filled,
                forall|p: int| 0 <= p < filled ==> (#[trigger] slots@[p]) is None,
            decreases width - filled,
        {
            slots.push(None);
            filled += 1;
        }
        let window = SpecWindow {
            width,
            candidate_count,
            generation: 0,
            next_runner_id: 0,
            next_reduce: 0,
            accepting: true,
            slots,
            peak: 0,
        };
        proof {
            assert forall|i: int| (#[trigger] window.slot_at(i)) is None by {
                if i >= 0 {
                    window.place_of(i);
                }
            }
        }
        window
    }

    /// The candidate whose result is taken next.
    pub fn next_reduce(&self) -> (index: usize)
        ensures
            index == self.next(),
    {
        self.next_reduce
    }

    /// The number of candidates.
    pub fn candidate_count(&self) -> (count: usize)
        ensures
            count == self.candidates(),
    {
        self.candidate_count
    }

    /// The current generation.
    pub fn current_generation(&self) -> (generation: u64)
        ensures
            generation == self.generation(),
    {
        self.generation
    }

    /// The number of occupied slots, at most the width of the window.
    pub fn live_slots(&self) -> (count: usize)
        requires
            self.wf(),
        ensures
            count == self.live(),
            count <= self.width(),
    {
        let end = self.window_end();
        let mut count: usize = 0;
        let mut index: usize = self.next_reduce;
        while index < end
            invariant
                self.wf(),
                self.next_reduce <= index <= end,
                end == self.end(),
                count <= index - self.next_reduce,
                count == self.held(self.next(), index as int),
            decreases end - index,
        {
            if !self.is_vacant(index) {
                count += 1;
            }
            index += 1;
        }
        count
    }

    /// The greatest number of slots that were ever occupied at once.
    pub fn peak_slots(&self) -> (count: usize)
        ensures
            count == self.peak(),
    {
        self.peak
    }

    fn window_end(&self) -> (end: usize)
        ensures
            end == self.end(),
    {
        let wide = match self.next_reduce.checked_add(self.width) {
            Some(wide) => wide,
            None => usize::MAX,
        };
        if wide < self.candidate_count {
            wide
        } else {
            self.candidate_count
        }
    }

    proof fn place_of(&self, index: int)
        requires
            self.width >= 1,
            index >= 0,
        ensures
            0 <= index % self.width as int,
            (index % self.width as int) < self.width,
    {
        let width = self.width as int;
        assert(0 <= index % width && index % width < width) by (nonlinear_arith)
            requires
                width > 0,
        ;
    }

    /// Within the window, a place that holds another candidate is no place of this one.
    proof fn own_place(&self, index: int)
        requires
            self.wf(),
            self.next_reduce <= index < self.next_reduce + self.width,
        ensures
            self.slots@[index % self.width as int] is Some ==> self.slots@[index
                % self.width as int]->Some_0.at() == index,
    {
        self.place_of(index);
        let place = index % self.width as int;
        if self.slots@[place] is Some {
            same_residue(self.slots@[place]->Some_0.at() as int, index, self.width as int);
        }
    }

    fn is_vacant(&self, index: usize) -> (vacant: bool)
        requires
            self.wf(),
        ensures
            vacant == (self.slot_at(index as int) is None),
    {
        proof {
            self.place_of(index as int);
        }
        match &self.slots[index % self.width] {
            Some(SpecSlot::Running { index: at, .. }) => *at != index,
            Some(SpecSlot::Ready { index: at, .. }) => *at != index,
            None => true,
        }
    }

    /// How many candidates ahead of the next one nobody holds a slot for.
    pub open spec fn vacancies(&self, from: int, to: int) -> nat
        decreases to - from,
    {
        if from >= to {
            0
        } else {
            self.vacancies(from, to - 1) + if self.slot_at(to - 1) is None {
                1nat
            } else {
                0nat
            }
        }
    }

    /// The generation and the number of candidates that could be claimed, if there are any.
    pub fn fill_snapshot(&self) -> (snapshot: Option<(u64, usize)>)
        requires
            self.wf(),
        ensures
            match snapshot {
                Some((generation, vacancies)) => {
                    &&& self.accepting()
                    &&& generation == self.generation()
                    &&& vacancies == self.vacancies(self.next() + 1, self.end())
                    &&& vacancies > 0
                },
                None => !self.accepting() || self.vacancies(self.next() + 1, self.end()) == 0,
            },
    {
        if !self.accepting || self.next_reduce >= self.candidate_count {
            return None;
        }
        let end = self.window_end();
        let mut count: usize = 0;
        let mut index: usize = self.next_reduce + 1;
        while index < end
            invariant
                self.wf(),
                self.next_reduce < index,
                index <= end || index == self.next_reduce + 1,
                end == self.end(),
                count <= index - self.next_reduce - 1,
                count == self.vacancies(self.next() + 1, index as int),
            decreases end - index,
        {
            if self.is_vacant(index) {
                count += 1;
            }
            index += 1;
        }
        if count > 0 {
            Some((self.generation, count))
        } else {
            None
        }
    }

    /// Whether this is the first candidate ahead of the next one that nobody holds a slot for.
    pub open spec fn first_vacant(&self, index: int) -> bool {
        &&& self.next() < index < self.end()
        &&& self.slot_at(index) is None
        &&& forall|i: int| self.next() < i < index ==> (#[trigger] self.slot_at(i)) is Some
    }

    /// Claims the first free candidate of the window, in the current generation only. The claim
    /// touches no other candidate.
    pub fn try_claim(&mut self, generation: u64) -> (lease: Option<RunningLease>)
        requires
            old(self).wf(),
        ensures
            final(self).wf(),
            final(self).same_frame(old(self)),
            final(self).runners() == if old(self).runners() < u64::MAX {
                (old(self).runners() + 1) as u64
            } else {
                u64::MAX
            },
            match lease {
                Some(lease) => {
                    &&& old(self).accepting()
                    &&& generation == old(self).generation()
                    &&& old(self).first_vacant(lease.index as int)
                    &&& lease.generation == generation
                    &&& lease.runner_id == final(self).runners()
                    &&& old(self).runners() < u64::MAX
                    &&& final(self).live() == old(self).live() + 1
                    &&& final(self).peak() == if final(self).live() > old(self).peak() {
                        final(self).live()
                    } else {
                        old(self).peak()
                    }
                    &&& final(self).slot_at(lease.index as int) == Some(
                        SlotSpec::Running::<R> { generation, runner_id: lease.runner_id },
                    )
                    &&& forall|i: int|
                        i != lease.index ==> #[trigger] final(self).slot_at(i) == old(
                            self,
                        ).slot_at(i)
                },
                None => {
                    &&& final(self).peak() == old(self).peak()
                    &&& forall|i: int| #[trigger] final(self).slot_at(i) == old(self).slot_at(i)
                    &&& old(self).runners() == u64::MAX || !old(self).accepting() || generation
                        != old(self).generation() || forall|i: int|
                        old(self).next() < i < old(self).end() ==> (#[trigger] old(self).slot_at(i))
                            is Some
                },
            },
    {
        if self.next_runner_id == u64::MAX {
            return None;
        }
        let ghost before = *self;
        self.next_runner_id = self.next_runner_id + 1;
        let runner_id = self.next_runner_id;
        proof {
            assert forall|i: int| #[trigger] self.slot_at(i) == before.slot_at(i) by {}
        }
        if !self.accepting || self.generation != generation || self.next_reduce
            >= self.candidate_count {
            return None;
        }
        let end = self.window_end();
        let mut index: usize = self.next_reduce + 1;
        let ghost unclaimed = *self;
        while index < end && !self.is_vacant(index)
            invariant
                self.wf(),
                *self == unclaimed,
                self.next_reduce < index,
                end == self.end(),
                forall|i: int|
                    self.next_reduce < i < index ==> (#[trigger] self.slot_at(i)) is Some,
            decreases end - index,
        {
            index += 1;
        }
        proof {
            assert forall|i: int| self.next() < i < index implies (#[trigger] before.slot_at(i))
                is Some by {
                assert(unclaimed.slot_at(i) == before.slot_at(i));
            }
        }
        if index >= end {
            return None;
        }
        assert(unclaimed.slot_at(index as int) == before.slot_at(index as int));
        let place: usize = index % self.width;
        proof {
            self.place_of(index as int);
            self.own_place(index as int);
        }
        self.slots.set(place, Some(SpecSlot::Running { index, generation, runner_id }));
        proof {
            self.slots_changed(&unclaimed, index as int);
            assert forall|i: int| i != index implies #[trigger] self.slot_at(i) == before.slot_at(
                i,
            ) by {
                assert(unclaimed.slot_at(i) == before.slot_at(i));
            }
        }
        let ghost claimed = *self;
        let live = self.live_slots();
        if live > self.peak {
            self.peak = live;
        }
        proof {
            assert forall|i: int| #[trigger] self.slot_at(i) == claimed.slot_at(i) by {}
            self.same_held(&claimed, self.next(), self.end());
            self.one_more_held(&before, index as int, self.next(), self.end());
        }
        Some(RunningLease { index, generation, runner_id })
    }

    proof fn same_held(&self, other: &SpecWindow<R>, from: int, to: int)
        requires
            forall|i: int| #[trigger] self.slot_at(i) == other.slot_at(i),
        ensures
            self.held(from, to) == other.held(from, to),
        decreases to - from,
    {
        if from < to {
            self.same_held(other, from, to - 1);
        }
    }

    proof fn one_more_held(&self, before: &SpecWindow<R>, index: int, from: int, to: int)
        requires
            self.slot_at(index) is Some,
            before.slot_at(index) is None,
            forall|i: int| i != index ==> #[trigger] self.slot_at(i) == before.slot_at(i),
        ensures
            self.held(from, to) == before.held(from, to) + if from <= index < to {
                1nat
            } else {
                0nat
            },
        decreases to - from,
    {
        if from < to {
            self.one_more_held(before, index, from, to - 1);
        }
    }

    proof fn slots_changed(&self, before: &SpecWindow<R>, index: int)
        requires
            before.wf(),
            self.width == before.width,
            self.next_reduce == before.next_reduce,
            self.candidate_count == before.candidate_count,
            before.next_reduce <= index < before.next_reduce + before.width,
            self.slots@ == before.slots@.update(
                index % self.width as int,
                self.slots@[index % self.width as int],
            ),
            self.slots@[index % self.width as int] matches Some(slot) ==> slot.at() == index,
        ensures
            forall|i: int| i != index ==> #[trigger] self.slot_at(i) == before.slot_at(i),
    {
        let place = index % self.width as int;
        before.place_of(index);
        before.own_place(index);
        assert forall|i: int| i != index implies #[trigger] self.slot_at(i) == before.slot_at(i) by {
            if i >= 0 {
                before.place_of(i);
            }
        }
    }

    /// Takes the result of the next candidate, if it is there. Only a result of the current
    /// generation is ever there.
    pub fn take_frontier(&mut self) -> (frontier: Frontier<R>)
        requires
            old(self).wf(),
        ensures
            final(self).wf(),
            final(self).same_frame(old(self)),
            final(self).runners() == old(self).runners(),
            final(self).peak() == old(self).peak(),
            match old(self).slot_at(old(self).next()) {
                Some(SlotSpec::Ready { generation, value }) => {
                    &&& frontier == Frontier::Ready(value)
                    &&& generation == old(self).generation()
                    &&& final(self).slot_at(old(self).next()) is None
                    &&& forall|i: int|
                        i != old(self).next() ==> #[trigger] final(self).slot_at(i) == old(
                            self,
                        ).slot_at(i)
                },
                Some(SlotSpec::Running { .. }) => frontier == Frontier::<R>::Wait && *final(self)
                    == *old(self),
                None => frontier == Frontier::<R>::Inline && *final(self) == *old(self),
            },
    {
        let index = self.next_reduce;
        proof {
            self.place_of(index as int);
            self.own_place(index as int);
        }
        let place: usize = index % self.width;
        let ready = match &self.slots[place] {
            Some(SpecSlot::Ready { index: at, generation, .. }) => {
                if *at != index || *generation != self.generation {
                    return Frontier::Inline;
                }
                true
            },
            Some(SpecSlot::Running { index: at, generation, .. }) => {
                if *at != index || *generation != self.generation {
                    return Frontier::Inline;
                }
                false
            },
            None => {
                return Frontier::Inline;
            },
        };
        if !ready {
            return Frontier::Wait;
        }
        let ghost before = *self;
        let mut taken: Option<SpecSlot<R>> = None;
        core::mem::swap(&mut taken, &mut self.slots[place]);
        proof {
            self.slots_changed(&before, index as int);
        }
        match taken {
            Some(SpecSlot::Ready { value, .. }) => Frontier::Ready(value),
            _ => Frontier::Inline,
        }
    }

    /// Goes on to the next candidate, whose predecessor has been dealt with.
    pub fn advance(&mut self)
        requires
            old(self).wf(),
            old(self).next() < old(self).candidates(),
            old(self).slot_at(old(self).next()) is None,
        ensures
            final(self).wf(),
            final(self).next() == old(self).next() + 1,
            final(self).width() == old(self).width(),
            final(self).candidates() == old(self).candidates(),
            final(self).generation() == old(self).generation(),
            final(self).accepting() == old(self).accepting(),
            final(self).runners() == old(self).runners(),
            final(self).peak() == old(self).peak(),
            forall|i: int| #[trigger] final(self).slot_at(i) == old(self).slot_at(i),
    {
        let ghost before = *self;
        proof {
            self.place_of(self.next_reduce as int);
            self.own_place(self.next_reduce as int);
        }
        self.next_reduce = self.next_reduce + 1;
        proof {
            assert forall|p: int|
                #![trigger self.slots@[p]]
                0 <= p < self.slots@.len() && self.slots@[p] is Some implies {
                let slot = self.slots@[p]->Some_0;
                &&& slot.at() % self.width == p
                &&& self.next_reduce <= slot.at() < self.next_reduce + self.width
                &&& slot.at() < self.candidate_count
                &&& slot.age() == self.generation
            } by {
                assert(before.slots@[p] is Some);
            }
        }
    }

    /// Retires the current generation: every slot is emptied at once, and nothing that was
    /// claimed before can be published any more.
    pub fn retire_generation(&mut self, reactivate: bool) -> (result: Result<(), OrderedError>)
        requires
            old(self).wf(),
        ensures
            final(self).wf(),
            final(self).width() == old(self).width(),
            final(self).candidates() == old(self).candidates(),
            final(self).next() == old(self).next(),
            final(self).runners() == old(self).runners(),
            final(self).peak() == old(self).peak(),
            forall|i: int| (#[trigger] final(self).slot_at(i)) is None,
            match result {
                Ok(()) => {
                    &&& old(self).generation() < u64::MAX
                    &&& final(self).generation() == old(self).generation() + 1
                    &&& final(self).accepting() == reactivate
                },
                Err(error) => {
                    &&& error == OrderedError::GenerationOverflow
                    &&& old(self).generation() == u64::MAX
                    &&& final(self).generation() == u64::MAX
                    &&& !final(self).accepting()
                },
            },
    {
        self.accepting = false;
        let mut place: usize = 0;
        while place < self.slots.len()
            invariant
                place <= self.slots.len(),
                self.slots@.len() == old(self).slots@.len(),
                self.width == old(self).width,
                self.candidate_count == old(self).candidate_count,
                self.generation == old(self).generation,
                self.next_runner_id == old(self).next_runner_id,
                self.peak == old(self).peak,
                self.next_reduce == old(self).next_reduce,
                !self.accepting,
                forall|p: int| 0 <= p < place ==> (#[trigger] self.slots@[p]) is None,
            decreases self.slots.len() - place,
        {
            self.slots.set(place, None);
            place += 1;
        }
        proof {
            assert forall|i: int| (#[trigger] self.slot_at(i)) is None by {
                if i >= 0 {
                    self.place_of(i);
                }
            }
        }
        if self.generation == u64::MAX {
            return Err(OrderedError::GenerationOverflow);
        }
        let ghost emptied = *self;
        self.generation = self.generation + 1;
        self.accepting = reactivate;
        proof {
            assert forall|i: int| (#[trigger] self.slot_at(i)) is None by {
                assert(emptied.slot_at(i) is None);
            }
        }
        Ok(())
    }

    /// Whether a lease still holds its slot.
    pub open spec fn holds(&self, lease: RunningLease) -> bool {
        self.slot_at(lease.index as int) == Some(
            SlotSpec::Running::<R> { generation: lease.generation, runner_id: lease.runner_id },
        )
    }

    fn is_held(&self, lease: &RunningLease) -> (held: bool)
        requires
            self.wf(),
        ensures
            held == self.holds(*lease),
    {
        proof {
            self.place_of(lease.index as int);
        }
        match &self.slots[lease.index % self.width] {
            Some(SpecSlot::Running { index, generation, runner_id }) => *index == lease.index
                && *generation == lease.generation && *runner_id == lease.runner_id,
            _ => false,
        }
    }

    /// Publishes a result. That succeeds only while the window accepts work and the lease holds
    /// its slot; otherwise the result is dropped and nothing changes.
    pub fn publish(&mut self, lease: RunningLease, value: R) -> (published: bool)
        requires
            old(self).wf(),
        ensures
            final(self).wf(),
            final(self).same_frame(old(self)),
            final(self).runners() == old(self).runners(),
            final(self).peak() == old(self).peak(),
            published == (old(self).accepting() && old(self).holds(lease)),
            published ==> {
                &&& lease.generation == old(self).generation()
                &&& final(self).slot_at(lease.index as int) == Some(
                    SlotSpec::Ready { generation: lease.generation, value },
                )
                &&& forall|i: int|
                    i != lease.index ==> #[trigger] final(self).slot_at(i) == old(self).slot_at(i)
            },
            !published ==> *final(self) == *old(self),
    {
        if !self.accepting || self.generation != lease.generation || !self.is_held(&lease) {
            proof {
                if self.holds(lease) {
                    self.place_of(lease.index as int);
                    assert(self.slots@[lease.index as int % self.width as int] is Some);
                }
            }
            return false;
        }
        let ghost before = *self;
        let index = lease.index;
        proof {
            self.place_of(index as int);
            assert(self.slots@[index as int % self.width as int] is Some);
        }
        let place: usize = index % self.width;
        self.slots.set(
            place,
            Some(SpecSlot::Ready { index, generation: lease.generation, value }),
        );
        proof {
            self.slots_changed(&before, index as int);
        }
        true
    }

    /// Gives a lease up. Only the very slot that it holds is emptied.
    pub fn abandon(&mut self, lease: RunningLease) -> (cleared: bool)
        requires
            old(self).wf(),
        ensures
            final(self).wf(),
            final(self).same_frame(old(self)),
            final(self).runners() == old(self).runners(),
            final(self).peak() == old(self).peak(),
            cleared == old(self).holds(lease),
            cleared ==> {
                &&& final(self).slot_at(lease.index as int) is None
                &&& forall|i: int|
                    i != lease.index ==> #[trigger] final(self).slot_at(i) == old(self).slot_at(i)
            },
            !cleared ==> *final(self) == *old(self),
    {
        if !self.is_held(&lease) {
            return false;
        }
        let ghost before = *self;
        let index = lease.index;
        proof {
            self.place_of(index as int);
            assert(self.slots@[index as int % self.width as int] is Some);
        }
        let place: usize = index % self.width;
        self.slots.set(place, None);
        proof {
            self.slots_changed(&before, index as int);
        }
        true
    }
}

/// A lease of a generation that was retired can never be published: the slots only hold the
/// current generation.
pub proof fn retired_lease_is_void<R>(window: SpecWindow<R>, lease: RunningLease)
    requires
        window.wf(),
        lease.generation != window.generation(),
    ensures
        !window.holds(lease),
{
    if window.holds(lease) {
        window.place_of(lease.index as int);
        assert(window.slots@[lease.index as int % window.width as int] is Some);
    }
}

/// A candidate before the next one, or past the window, holds no slot.
pub proof fn slots_stay_in_the_window<R>(window: SpecWindow<R>, index: int)
    requires
        window.wf(),
        index < window.next() || index >= window.next() + window.width(),
    ensures
        window.slot_at(index) is None,
{
    if index >= 0 {
        window.place_of(index);
        if window.slot_at(index) is Some {
            assert(window.slots@[index % window.width as int] is Some);
        }
    }
}

} // verus!
