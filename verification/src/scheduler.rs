use vstd::prelude::*;
use crate::world::{Component, World};

verus! {

/// A step of the game loop that reads and changes the world.
pub trait System<T: Component> {
    /// What one run of this system, in its present state, does to the world:
    /// whether it may turn `before` into `after`. A system that says nothing
    /// more allows any change.
    closed spec fn step(&self, before: World<T>, after: World<T>) -> bool {
        true
    }

    /// Whether this system, in its present state, may be in the state `after`
    /// once it has run. A system that says nothing more allows any state.
    closed spec fn runs_to(&self, after: &Self) -> bool {
        true
    }

    /// Runs the step once on `world`; a world that was consistent stays so.
    fn run(&mut self, world: &mut World<T>)
        requires
            old(world).wf(),
        ensures
            final(world).wf(),
            old(self).step(*old(world), *final(world)),
            old(self).runs_to(&*final(self)),
    ;
}

/// The systems of the game loop, run in the order they were added.
///
/// A scheduler holds systems of one type `S`; a game with several kinds of
/// systems gives them one enum that implements [`System`] by matching.
#[verifier::reject_recursive_types(T)]
pub struct Scheduler<T: Component, S: System<T>> {
    systems: Vec<S>,
    marker: core::marker::PhantomData<T>,
}

impl<T: Component, S: System<T>> Scheduler<T, S> {
    /// The systems added so far, in the order they run.
    pub closed spec fn systems(&self) -> Seq<S> {
        self.systems@
    }

    /// The number of systems added so far.
    pub open spec fn len(&self) -> nat {
        self.systems().len()
    }

    /// Whether system `i`, in its present state, may turn `before` into `after`.
    pub open spec fn step_of(&self, i: int, before: World<T>, after: World<T>) -> bool {
        self.systems()[i].step(before, after)
    }

    /// A scheduler without systems.
    pub fn new() -> (s: Self)
        ensures
            s.systems() == Seq::<S>::empty(),
    {
        Self { systems: Vec::new(), marker: core::marker::PhantomData }
    }

    /// Appends a system, to run after those added before it; returns the
    /// scheduler itself, so that calls chain.
    pub fn add_system(&mut self, system: S) -> (r: &mut Self)
        ensures
            r.systems() == old(self).systems().push(system),
            *final(self) == *final(r),
    {
        self.systems.push(system);
        self
    }

    /// Runs every system once, in order, on `world`.
    pub fn run(&mut self, world: &mut World<T>)
        requires
            old(world).wf(),
        ensures
            final(world).wf(),
            final(self).len() == old(self).len(),
            forall|i: int| 0 <= i < old(self).len() ==> #[trigger] old(self).systems()[i].runs_to(&final(self).systems()[i]),
            exists|trace: Seq<World<T>>|
                {
                    &&& trace.len() == old(self).len() + 1
                    &&& trace[0] == *old(world)
                    &&& trace.last() == *final(world)
                    &&& forall|i: int|
                        0 <= i < old(self).len() ==> #[trigger] old(self).step_of(i, trace[i], trace[i + 1])
                },
    {
        let ghost mut trace: Seq<World<T>> = seq![*world];
        let mut i: usize = 0;
        while i < self.systems.len()
            invariant
                world.wf(),
                i <= self.systems@.len(),
                self.systems@.len() == old(self).systems@.len(),
                forall|j: int| i <= j < self.systems@.len() ==> #[trigger] self.systems@[j] == old(self).systems@[j],
                trace.len() == i + 1,
                trace[0] == *old(world),
                trace.last() == *world,
                forall|j: int| 0 <= j < i ==> #[trigger] old(self).step_of(j, trace[j], trace[j + 1]),
                forall|j: int| 0 <= j < i ==> #[trigger] old(self).systems@[j].runs_to(&self.systems@[j]),
            decreases self.systems@.len() - i,
        {
            let ghost before = *world;
            let ghost ran = self.systems@;
            self.systems[i].run(world);
            proof {
                assert(old(self).step_of(i as int, before, *world));
                assert(ran[i as int].runs_to(&self.systems@[i as int]));
                assert forall|j: int| 0 <= j < i + 1 implies #[trigger] old(self).systems@[j].runs_to(&self.systems@[j]) by {
                    if j < i {
                        assert(self.systems@[j] == ran[j]);
                    }
                }
                trace = trace.push(*world);
            }
            i = i + 1;
        }
        assert(trace.len() == old(self).len() + 1);
    }
}

/// Running keeps the order of registration: after `add_system(a)` and a
/// run, every system stands where it was registered, `a` last, each in the
/// state its own run left it in; so each later run again steps system `i`
/// before system `i + 1`, with `a` after all that came before it.
pub proof fn law_run_keeps_registration_order<T: Component, S: System<T>>(
    s0: Scheduler<T, S>,
    s1: Scheduler<T, S>,
    s2: Scheduler<T, S>,
    a: S,
)
    requires
        s1.systems() == s0.systems().push(a),
        s2.len() == s1.len(),
        forall|i: int| 0 <= i < s1.len() ==> #[trigger] s1.systems()[i].runs_to(&s2.systems()[i]),
    ensures
        s2.len() == s0.len() + 1,
        a.runs_to(&s2.systems()[s0.len() as int]),
        forall|i: int| 0 <= i < s0.len() ==> #[trigger] s0.systems()[i].runs_to(&s2.systems()[i]),
{
    assert(s1.systems()[s0.len() as int] == a);
    assert forall|i: int| 0 <= i < s0.len() implies #[trigger] s0.systems()[i].runs_to(&s2.systems()[i]) by {
        assert(s1.systems()[i] == s0.systems()[i]);
    }
}

impl<T: Component, S: System<T>> Default for Scheduler<T, S> {
    /// A scheduler without systems.
    fn default() -> (s: Self)
        ensures
            s.systems() == Seq::<S>::empty(),
    {
        Self::new()
    }
}

} // verus!
