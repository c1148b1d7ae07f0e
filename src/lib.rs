//! An ordered multi-stage processing engine.
//!
//! A [`Pipe`] holds an ordered list of stages and, for every entity that it
//! currently tracks, a cursor: the index of the stage that the entity has
//! reached. Each call of [`Pipe::push_user`] runs the entity's current stage
//! (admission, then processing) and advances, cascades or halts according to
//! the signals that the stage's hooks return.
use vstd::prelude::*;
use vstd::std_specs::cmp::PartialEqSpec;

pub mod laws;
pub mod model;
pub mod standard;

verus! {

/// The control vocabulary that every hook answers with.
#[derive(Clone, Copy, PartialEq, Eq, Structural, Debug)]
pub enum PipeState {
    NextState,
    RestartState,
    WaitState,
    ConsumeState,
}

/// The equality of an entity type is a deterministic equivalence relation,
/// so that it can serve as the registry's key.
pub open spec fn identity_is_equivalence<T: PartialEq>() -> bool {
    &&& T::obeys_eq_spec()
    &&& forall|a: T| #[trigger] a.eq_spec(&a)
    &&& forall|a: T, b: T| #[trigger] a.eq_spec(&b) ==> b.eq_spec(&a)
    &&& forall|a: T, b: T, c: T| #[trigger] a.eq_spec(&b) && #[trigger] b.eq_spec(&c) ==> a.eq_spec(&c)
}

/// An entity that can be driven through a pipe: it has an identity (its
/// equality) and a payload that hooks may read.
pub trait PipeU: Eq {
    type Item;

    spec fn item(&self) -> Self::Item;

    fn get_item(&self) -> (r: &Self::Item)
        ensures
            *r == self.item(),
    ;
}

/// One stage of a pipe: an admission hook, a processing hook and a fixed
/// disposition that says whether progress into the stage cascades.
pub trait PipeB<T: PipeU> {
    /// The disposition fixed when the stage was built.
    spec fn disposition(&self) -> PipeState;

    /// `r` is an answer that the admission hook may give for `u`.
    spec fn control_post(&self, u: &T, r: PipeState) -> bool;

    /// `r` is an answer that the processing hook may give for `u`.
    spec fn consume_post(&self, u: &T, r: PipeState) -> bool;

    fn internal_state(&self) -> (r: PipeState)
        ensures
            r == self.disposition(),
    ;

    fn control(&self, pipe_u: &T) -> (r: PipeState)
        ensures
            self.control_post(pipe_u, r),
    ;

    fn consume(&self, pipe_u: &T) -> (r: PipeState)
        ensures
            self.consume_post(pipe_u, r),
    ;
}

/// An outcome of one call for `u` standing at stage `c`, given the answers
/// its hooks may give: `Some(k)` when `u` is left parked at stage `k`, `None`
/// when it has completed the pipe. The admission hook refuses `u` (any answer
/// but `ConsumeState`) and `u` stays at `c`; or it lets `u` in and the
/// processing answer decides, as `processing_outcome` says.
pub open spec fn reachable<T: PipeU, U: PipeB<T>>(
    stages: Seq<U>,
    u: &T,
    c: nat,
    out: Option<nat>,
) -> bool
    decreases stages.len() - c, 1nat,
{
    if c >= stages.len() {
        false
    } else {
        let stage = stages[c as int];
        ||| out == Some(c) && exists|a: PipeState|
            a != PipeState::ConsumeState && #[trigger] stage.control_post(u, a)
        ||| stage.control_post(u, PipeState::ConsumeState) && processing_outcome(stages, u, c, out)
    }
}

/// An outcome of one call for `u` once the admission hook of stage `c` has
/// let it in: any processing answer but `NextState` leaves `u` at `c`;
/// `NextState` moves it on, and it completes past the last stage, halts at
/// a next stage that does not cascade, or goes on there within the same call.
pub open spec fn processing_outcome<T: PipeU, U: PipeB<T>>(
    stages: Seq<U>,
    u: &T,
    c: nat,
    out: Option<nat>,
) -> bool
    decreases stages.len() - c, 0nat,
{
    if c >= stages.len() {
        false
    } else {
        let stage = stages[c as int];
        ||| out == Some(c) && exists|p: PipeState|
            p != PipeState::NextState && #[trigger] stage.consume_post(u, p)
        ||| stage.consume_post(u, PipeState::NextState) && if c + 1 >= stages.len() {
            out is None
        } else if stages[c + 1int].disposition() != PipeState::ConsumeState {
            out == Some((c + 1) as nat)
        } else {
            reachable(stages, u, (c + 1) as nat, out)
        }
    }
}

/// The outcome that `after` records for the entry in slot `i` of `before`.
pub open spec fn outcome_of<'r, T>(
    before: Seq<(&'r T, usize)>,
    i: int,
    after: Seq<(&'r T, usize)>,
) -> Option<nat> {
    if after.len() < before.len() {
        None
    } else {
        Some(after[i].1 as nat)
    }
}

/// What one call for `u`, tracked in slot `i` of `before`, leaves behind:
/// the entry is removed or its cursor is set to a stage no earlier than
/// before, nothing else changes, and the result is an outcome that the
/// hooks' answers lead to.
pub open spec fn call_effect<'r, T: PipeU, U: PipeB<T>>(
    stages: Seq<U>,
    u: &T,
    before: Seq<(&'r T, usize)>,
    i: int,
    after: Seq<(&'r T, usize)>,
) -> bool {
    &&& after == before.remove(i) || {
        &&& after.len() == before.len()
        &&& before[i].1 <= after[i].1 < stages.len()
        &&& after == before.update(i, (before[i].0, after[i].1))
    }
    &&& reachable(stages, u, before[i].1 as nat, outcome_of(before, i, after))
}

/// What `Pipe::push_user(u)` leaves in `after` when called on `before`.
pub open spec fn admitted<'r, T: PipeU, U: PipeB<T>>(
    before: Pipe<'r, T, U>,
    after: Pipe<'r, T, U>,
    u: &'r T,
) -> bool {
    &&& after.wf()
    &&& after.stages() == before.stages()
    &&& after.label() == before.label()
    &&& call_effect(before.stages(), u, before.registered(u), before.registered_at(u), after.entries())
    &&& after.entries() == before.registered(u).remove(before.registered_at(u)) <==> !after.has(u)
}

/// The pipe: an ordered list of stages and the cursor registry.
pub struct Pipe<'r, T: PipeU, U: PipeB<T>> {
    pipe_array_box: Vec<U>,
    pipe_array_usr: Vec<(&'r T, usize)>,
    name: String,
}

impl<'r, T: PipeU, U: PipeB<T>> Pipe<'r, T, U> {
    /// The stages, in order.
    pub closed spec fn stages(&self) -> Seq<U> {
        self.pipe_array_box@
    }

    /// The registry: each tracked entity with its cursor.
    pub closed spec fn entries(&self) -> Seq<(&'r T, usize)> {
        self.pipe_array_usr@
    }

    /// The name given at construction.
    pub closed spec fn label(&self) -> Seq<char> {
        self.name@
    }

    pub open spec fn matches_at(&self, i: int, u: &T) -> bool {
        0 <= i < self.entries().len() && self.entries()[i].0.eq_spec(u)
    }

    /// Whether `u` is tracked.
    pub open spec fn has(&self, u: &T) -> bool {
        exists|i: int| self.matches_at(i, u)
    }

    /// The slot of the registry that tracks `u`.
    pub open spec fn at(&self, u: &T) -> int {
        choose|i: int| self.matches_at(i, u)
    }

    /// The cursor of a tracked entity.
    pub open spec fn cursor(&self, u: &T) -> nat {
        self.entries()[self.at(u)].1 as nat
    }

    /// Equality on entities is an equivalence, and no two entries of the
    /// registry are equal.
    pub open spec fn wf(&self) -> bool {
        &&& identity_is_equivalence::<T>()
        &&& forall|i: int, j: int|
            0 <= i < self.entries().len() && 0 <= j < self.entries().len() && i != j
                ==> !(#[trigger] self.entries()[i].0.eq_spec(#[trigger] self.entries()[j].0))
    }

    /// Every cursor names a stage.
    pub open spec fn cursors_in_range(&self) -> bool {
        forall|i: int|
            0 <= i < self.entries().len() ==> #[trigger] self.entries()[i].1 < self.stages().len()
    }

    /// The slot that tracks `u` is the only one that does.
    pub proof fn lemma_slot_unique(&self, i: int, u: &T)
        requires
            self.wf(),
            self.matches_at(i, u),
        ensures
            self.has(u),
            self.at(u) == i,
    {
        let j = self.at(u);
        assert(self.matches_at(j, u));
        if i != j {
            assert(u.eq_spec(self.entries()[j].0));
            assert(self.entries()[i].0.eq_spec(self.entries()[j].0));
        }
    }

    /// Once the slot tracking `u` is gone, nothing tracks `u`.
    pub proof fn lemma_removed_untracked(&self, u: &T)
        requires
            self.wf(),
            self.has(u),
        ensures
            forall|k: int|
                0 <= k < self.entries().len() - 1 ==> !(#[trigger] self.entries().remove(
                    self.at(u),
                )[k].0.eq_spec(u)),
    {
        let i = self.at(u);
        assert forall|k: int| 0 <= k < self.entries().len() - 1 implies !(#[trigger] self.entries().remove(i)[k].0.eq_spec(u)) by {
            let j = if k < i { k } else { k + 1 };
            if self.entries()[j].0.eq_spec(u) {
                self.lemma_slot_unique(j, u);
            }
        }
    }

    pub fn new(name: &str) -> (r: Self)
        requires
            identity_is_equivalence::<T>(),
        ensures
            r.wf(),
            r.stages() == Seq::<U>::empty(),
            r.entries() == Seq::<(&'r T, usize)>::empty(),
            r.label() == name@,
    {
        Pipe { pipe_array_box: Vec::new(), pipe_array_usr: Vec::new(), name: name.to_owned() }
    }

    /// Appends a stage at the end of the list.
    pub fn push_box(self, pipe_box: U) -> (r: Self)
        requires
            self.wf(),
        ensures
            r.wf(),
            r.stages() == self.stages().push(pipe_box),
            r.entries() == self.entries(),
            r.label() == self.label(),
            self.cursors_in_range() ==> r.cursors_in_range(),
    {
        let mut pipe = self;
        pipe.pipe_array_box.push(pipe_box);
        assert(pipe.entries() == self.entries());
        pipe
    }

    /// The slot that tracks `pipe_u`, if any.
    fn find(&self, pipe_u: &T) -> (r: Option<usize>)
        requires
            self.wf(),
        ensures
            r.is_some() == self.has(pipe_u),
            r matches Some(i) ==> i == self.at(pipe_u),
    {
        let mut i: usize = 0;
        while i < self.pipe_array_usr.len()
            invariant
                i <= self.entries().len(),
                self.wf(),
                forall|k: int| 0 <= k < i ==> !self.matches_at(k, pipe_u),
            decreases self.entries().len() - i,
        {
            if self.pipe_array_usr[i].0 == pipe_u {
                proof {
                    self.lemma_slot_unique(i as int, pipe_u);
                }
                return Some(i);
            }
            i += 1;
        }
        None
    }

    /// Whether `pipe_u` is tracked.
    pub fn has_user(&self, pipe_u: &T) -> (r: bool)
        requires
            self.wf(),
        ensures
            r == self.has(pipe_u),
    {
        self.find(pipe_u).is_some()
    }

    /// Stops tracking `pipe_u`; nothing happens when it is not tracked.
    pub fn remove_user(&mut self, pipe_u: &'r T)
        requires
            old(self).wf(),
        ensures
            final(self).wf(),
            final(self).stages() == old(self).stages(),
            final(self).label() == old(self).label(),
            !final(self).has(pipe_u),
            old(self).has(pipe_u) ==> final(self).entries() == old(self).entries().remove(
                old(self).at(pipe_u),
            ),
            !old(self).has(pipe_u) ==> final(self).entries() == old(self).entries(),
            old(self).cursors_in_range() ==> final(self).cursors_in_range(),
    {
        match self.find(pipe_u) {
            Some(i) => {
                proof {
                    self.lemma_removed_untracked(pipe_u);
                }
                self.pipe_array_usr.remove(i);
            },
            None => {},
        }
    }

    /// The stage that `pipe_u` stands at.
    pub fn get_box(&self, pipe_u: &T) -> (r: &U)
        requires
            self.wf(),
            self.has(pipe_u),
            self.cursor(pipe_u) < self.stages().len(),
        ensures
            *r == self.stages()[self.cursor(pipe_u) as int],
    {
        let c = match self.find(pipe_u) {
            Some(i) => self.pipe_array_usr[i].1,
            None => self.pipe_array_box.len(),
        };
        &self.pipe_array_box[c]
    }

    /// Sets the cursor of a tracked entity.
    pub fn set_user(&mut self, pipe_u: &T, index_box: usize)
        requires
            old(self).wf(),
            old(self).has(pipe_u),
        ensures
            final(self).wf(),
            final(self).stages() == old(self).stages(),
            final(self).label() == old(self).label(),
            final(self).entries() == old(self).entries().update(
                old(self).at(pipe_u),
                (old(self).entries()[old(self).at(pipe_u)].0, index_box),
            ),
    {
        let i = match self.find(pipe_u) {
            Some(i) => i,
            None => self.pipe_array_usr.len(),
        };
        self.set_slot(i, index_box);
    }

    fn set_slot(&mut self, i: usize, index_box: usize)
        requires
            old(self).wf(),
            i < old(self).entries().len(),
        ensures
            final(self).wf(),
            final(self).stages() == old(self).stages(),
            final(self).label() == old(self).label(),
            final(self).entries() == old(self).entries().update(
                i as int,
                (old(self).entries()[i as int].0, index_box),
            ),
    {
        let e = self.pipe_array_usr[i].0;
        self.pipe_array_usr.set(i, (e, index_box));
        proof {
            assert forall|a: int, b: int|
                0 <= a < self.entries().len() && 0 <= b < self.entries().len() && a != b
                implies !(#[trigger] self.entries()[a].0.eq_spec(#[trigger] self.entries()[b].0)) by {
                assert(old(self).entries()[a].0 == self.entries()[a].0);
                assert(old(self).entries()[b].0 == self.entries()[b].0);
            }
        }
    }

    /// The registry as it stands once `u` has been registered: unchanged
    /// when `u` is tracked, else with `u` appended at the first stage.
    pub open spec fn registered(&self, u: &'r T) -> Seq<(&'r T, usize)> {
        if self.has(u) {
            self.entries()
        } else {
            self.entries().push((u, 0usize))
        }
    }

    /// The slot of `registered(u)` that tracks `u`.
    pub open spec fn registered_at(&self, u: &'r T) -> int {
        if self.has(u) {
            self.at(u)
        } else {
            self.entries().len() as int
        }
    }

    /// Applies to the entity in slot `i` what the processing hook of its
    /// current stage answered. Returns whether the entity cascades into its
    /// new stage within the same call.
    fn advance_at(&mut self, i: usize, outcome: PipeState) -> (cascade: bool)
        requires
            old(self).wf(),
            i < old(self).entries().len(),
            old(self).entries()[i as int].1 < old(self).stages().len(),
        ensures
            final(self).wf(),
            final(self).stages() == old(self).stages(),
            final(self).label() == old(self).label(),
            old(self).cursors_in_range() ==> final(self).cursors_in_range(),
            outcome != PipeState::NextState ==> final(self).entries() == old(self).entries()
                && !cascade,
            outcome == PipeState::NextState && old(self).entries()[i as int].1 + 1
                >= old(self).stages().len() ==> final(self).entries() == old(self).entries().remove(
                i as int,
            ) && !cascade,
            outcome == PipeState::NextState && old(self).entries()[i as int].1 + 1
                < old(self).stages().len() ==> {
                &&& final(self).entries()[i as int].1 == old(self).entries()[i as int].1 + 1
                &&& final(self).entries() == old(self).entries().update(
                    i as int,
                    (old(self).entries()[i as int].0, final(self).entries()[i as int].1),
                )
                &&& cascade == (old(self).stages()[old(self).entries()[i as int].1 + 1].disposition()
                    == PipeState::ConsumeState)
            },
    {
        let c = self.pipe_array_usr[i].1;
        match outcome {
            PipeState::NextState => {
                let n = self.pipe_array_box.len();
                assert(c < n);
                let next = c + 1;
                if next >= n {
                    let ghost e = self.entries();
                    self.pipe_array_usr.remove(i);
                    proof {
                        assert forall|a: int, b: int|
                            0 <= a < self.entries().len() && 0 <= b < self.entries().len() && a
                                != b implies !(#[trigger] self.entries()[a].0.eq_spec(
                            #[trigger] self.entries()[b].0,
                        )) by {
                            let a0 = if a < i { a } else { a + 1 };
                            let b0 = if b < i { b } else { b + 1 };
                            assert(self.entries()[a] == e[a0]);
                            assert(self.entries()[b] == e[b0]);
                        }
                    }
                    false
                } else {
                    self.set_slot(i, next);
                    let d = self.pipe_array_box[next].internal_state();
                    d == PipeState::ConsumeState
                }
            },
            _ => false,
        }
    }

    /// Applies to a tracked entity what the processing hook of its current
    /// stage answered, once its admission hook let it in. Returns whether
    /// the entity cascades into its new stage within the same call.
    pub fn advance(&mut self, pipe_u: &'r T, outcome: PipeState) -> (cascade: bool)
        requires
            old(self).wf(),
            old(self).has(pipe_u),
            old(self).cursor(pipe_u) < old(self).stages().len(),
        ensures
            final(self).wf(),
            final(self).stages() == old(self).stages(),
            final(self).label() == old(self).label(),
            old(self).cursors_in_range() ==> final(self).cursors_in_range(),
            outcome != PipeState::NextState ==> final(self).entries() == old(self).entries()
                && !cascade,
            outcome == PipeState::NextState && old(self).cursor(pipe_u) + 1 >= old(self).stages().len()
                ==> {
                &&& final(self).entries() == old(self).entries().remove(old(self).at(pipe_u))
                &&& !final(self).has(pipe_u)
                &&& !cascade
            },
            outcome == PipeState::NextState && old(self).cursor(pipe_u) + 1 < old(self).stages().len()
                ==> {
                &&& final(self).entries() == old(self).entries().update(
                    old(self).at(pipe_u),
                    (
                        old(self).entries()[old(self).at(pipe_u)].0,
                        final(self).entries()[old(self).at(pipe_u)].1,
                    ),
                )
                &&& final(self).cursor(pipe_u) == old(self).cursor(pipe_u) + 1
                &&& cascade == (old(self).stages()[old(self).cursor(pipe_u) + 1int].disposition()
                    == PipeState::ConsumeState)
            },
    {
        proof {
            let i = self.at(pipe_u);
            assert(self.matches_at(i, pipe_u));
            if outcome == PipeState::NextState && self.cursor(pipe_u) + 1 >= self.stages().len() {
                self.lemma_removed_untracked(pipe_u);
            }
        }
        let ghost before = *self;
        let i = match self.find(pipe_u) {
            Some(i) => i,
            None => self.pipe_array_usr.len(),
        };
        let cascade = self.advance_at(i, outcome);
        proof {
            if self.entries().len() == before.entries().len() {
                assert(self.entries()[i as int].0 == before.entries()[i as int].0);
                assert(self.matches_at(i as int, pipe_u));
                self.lemma_slot_unique(i as int, pipe_u);
            }
        }
        cascade
    }

    /// Runs the current stage of a tracked entity: admission, then
    /// processing, then advance, cascade or halt, as long as the stages it
    /// reaches cascade.
    pub fn consume(&mut self, pipe_u: &'r T)
        requires
            old(self).wf(),
            old(self).has(pipe_u),
            old(self).cursor(pipe_u) < old(self).stages().len(),
        ensures
            final(self).wf(),
            final(self).stages() == old(self).stages(),
            final(self).label() == old(self).label(),
            old(self).cursors_in_range() ==> final(self).cursors_in_range(),
            call_effect(
                old(self).stages(),
                pipe_u,
                old(self).entries(),
                old(self).at(pipe_u),
                final(self).entries(),
            ),
            final(self).entries() == old(self).entries().remove(old(self).at(pipe_u)) <==> !final(self).has(pipe_u),
    {
        let i = match self.find(pipe_u) {
            Some(i) => i,
            None => self.pipe_array_usr.len(),
        };
        let ghost start = self.entries();
        let ghost stages = self.stages();
        let ghost c0 = start[i as int].1 as nat;
        proof {
            self.lemma_removed_untracked(pipe_u);
            assert(self.entries() == start.update(i as int, (start[i as int].0, self.entries()[i as int].1)));
        }
        loop
            invariant
                self.wf(),
                self.stages() == stages,
                stages == old(self).stages(),
                self.label() == old(self).label(),
                start == old(self).entries(),
                c0 == start[i as int].1,
                i == old(self).at(pipe_u),
                old(self).matches_at(i as int, pipe_u),
                forall|k: int| 0 <= k < start.len() - 1 ==> !(#[trigger] start.remove(i as int)[k].0.eq_spec(pipe_u)),
                i < self.entries().len(),
                self.entries() == start.update(i as int, (start[i as int].0, self.entries()[i as int].1)),
                c0 <= self.entries()[i as int].1 < stages.len(),
                forall|out: Option<nat>|
                    #[trigger] reachable(stages, pipe_u, self.entries()[i as int].1 as nat, out)
                        ==> reachable(stages, pipe_u, c0, out),
                old(self).cursors_in_range() ==> self.cursors_in_range(),
            decreases stages.len() - self.entries()[i as int].1,
        {
            let c = self.pipe_array_usr[i].1;
            let admission = self.pipe_array_box[c].control(pipe_u);
            if admission != PipeState::ConsumeState {
                proof {
                    self.lemma_parked(start, i as int, pipe_u);
                    let cur = self.entries()[i as int].1;
                    assert(stages[cur as int].control_post(pipe_u, admission));
                    assert(reachable(stages, pipe_u, cur as nat, Some(cur as nat)));
                    assert(outcome_of(start, i as int, self.entries()) == Some(cur as nat));
                }
                return;
            }
            let outcome = self.pipe_array_box[c].consume(pipe_u);
            let ghost mid = self.entries();
            let cascade = self.advance_at(i, outcome);
            if !cascade {
                proof {
                    let st = stages[c as int];
                    assert(st.control_post(pipe_u, PipeState::ConsumeState));
                    assert(st.consume_post(pipe_u, outcome));
                    if self.entries().len() == mid.len() {
                        assert(self.entries() =~= start.update(i as int, (start[i as int].0, self.entries()[i as int].1)));
                        self.lemma_parked(start, i as int, pipe_u);
                        let cur = self.entries()[i as int].1;
                        assert(outcome_of(start, i as int, self.entries()) == Some(cur as nat));
                        assert(processing_outcome(stages, pipe_u, c as nat, Some(cur as nat)));
                        assert(reachable(stages, pipe_u, c as nat, Some(cur as nat)));
                    } else {
                        assert(self.entries() =~= start.remove(i as int));
                        assert(outcome_of(start, i as int, self.entries()) == None::<nat>);
                        assert(processing_outcome(stages, pipe_u, c as nat, None));
                        assert(reachable(stages, pipe_u, c as nat, None));
                    }
                }
                return;
            }
            assert(self.entries() =~= start.update(i as int, (start[i as int].0, self.entries()[i as int].1)));
            proof {
                let st = stages[c as int];
                assert(st.control_post(pipe_u, PipeState::ConsumeState));
                assert(st.consume_post(pipe_u, PipeState::NextState));
                let next = self.entries()[i as int].1 as nat;
                assert forall|out: Option<nat>|
                    #[trigger] reachable(stages, pipe_u, next, out) implies reachable(stages, pipe_u, c0, out) by {
                    assert(processing_outcome(stages, pipe_u, c as nat, out));
                    assert(reachable(stages, pipe_u, c as nat, out));
                }
            }
        }
    }

    /// The entity in slot `i` is still tracked there.
    proof fn lemma_parked(&self, start: Seq<(&'r T, usize)>, i: int, u: &T)
        requires
            self.wf(),
            0 <= i < start.len(),
            start[i].0.eq_spec(u),
            self.entries() == start.update(i, (start[i].0, self.entries()[i].1)),
        ensures
            self.has(u),
            self.entries() != start.remove(i),
    {
        assert(self.matches_at(i, u));
        assert(self.entries().len() != start.remove(i).len());
    }

    /// Admits or resumes `pipe_t`: registers it at the first stage when it is
    /// not tracked, then runs its current stage as `consume` does.
    pub fn push_user(&mut self, pipe_t: &'r T)
        requires
            old(self).wf(),
            old(self).stages().len() > 0,
            old(self).has(pipe_t) ==> old(self).cursor(pipe_t) < old(self).stages().len(),
        ensures
            final(self).wf(),
            final(self).stages() == old(self).stages(),
            final(self).label() == old(self).label(),
            old(self).cursors_in_range() ==> final(self).cursors_in_range(),
            call_effect(
                old(self).stages(),
                pipe_t,
                old(self).registered(pipe_t),
                old(self).registered_at(pipe_t),
                final(self).entries(),
            ),
            final(self).entries() == old(self).registered(pipe_t).remove(old(self).registered_at(pipe_t))
                <==> !final(self).has(pipe_t),
            admitted(*old(self), *final(self), pipe_t),
    {
        if self.find(pipe_t).is_none() {
            let ghost before = self.entries();
            self.pipe_array_usr.push((pipe_t, 0));
            proof {
                let n = before.len() as int;
                assert(self.matches_at(n, pipe_t));
                assert forall|a: int, b: int|
                    0 <= a < self.entries().len() && 0 <= b < self.entries().len() && a != b
                    implies !(#[trigger] self.entries()[a].0.eq_spec(#[trigger] self.entries()[b].0)) by {
                    if a == n {
                        if self.entries()[a].0.eq_spec(self.entries()[b].0) {
                            assert(self.entries()[b].0.eq_spec(pipe_t));
                            assert(self.entries()[b] == before[b]);
                            assert(!old(self).matches_at(b, pipe_t));
                        }
                    } else if b == n {
                        if self.entries()[a].0.eq_spec(self.entries()[b].0) {
                            assert(self.entries()[a] == before[a]);
                            assert(!old(self).matches_at(a, pipe_t));
                        }
                    } else {
                        assert(self.entries()[a] == before[a]);
                        assert(self.entries()[b] == before[b]);
                    }
                }
                self.lemma_slot_unique(n, pipe_t);
            }
        }
        self.consume(pipe_t);
    }
}

} // verus!
