//! Behaviour units that work on the storage.

use vstd::prelude::*;
use crate::ecs::ECSStorage;

verus! {

/// The phases of the driver loop. Each phase has one hook.
#[derive(Clone, Copy, PartialEq, Eq, Structural, Debug)]
pub enum Phase {
    Start,
    Update,
    FixedUpdate,
    Render,
}

/// A unit of behaviour. The driver calls each hook once per phase, handing it
/// the storage; a hook may change the storage in any way that keeps it valid.
/// For each hook the system says what the hook makes of the storage.
pub trait System<C> {
    /// What `start` makes of the storage. A system that does not say leaves
    /// it open.
    open spec fn start_effect(&self, before: ECSStorage<C>, after: ECSStorage<C>) -> bool {
        true
    }

    /// What `update` makes of the storage. A system that does not say leaves
    /// it open.
    open spec fn update_effect(&self, before: ECSStorage<C>, after: ECSStorage<C>) -> bool {
        true
    }

    /// What `fixed_update` makes of the storage. A system that does not say
    /// leaves it open.
    open spec fn fixed_update_effect(&self, before: ECSStorage<C>, after: ECSStorage<C>) -> bool {
        true
    }

    /// What `render` makes of the storage. A system that does not say leaves
    /// it open.
    open spec fn render_effect(&self, before: ECSStorage<C>, after: ECSStorage<C>) -> bool {
        true
    }

    /// A system in its first state.
    fn new() -> Self where Self: Sized;

    /// Called once, before the first update.
    fn start(&self, ecs: &mut ECSStorage<C>)
        requires
            old(ecs).wf(),
        ensures
            final(ecs).wf(),
            self.start_effect(*old(ecs), *final(ecs)),
    ;

    /// Called once per frame.
    fn update(&self, ecs: &mut ECSStorage<C>)
        requires
            old(ecs).wf(),
        ensures
            final(ecs).wf(),
            self.update_effect(*old(ecs), *final(ecs)),
    ;

    /// Called once per fixed time step.
    fn fixed_update(&self, ecs: &mut ECSStorage<C>)
        requires
            old(ecs).wf(),
        ensures
            final(ecs).wf(),
            self.fixed_update_effect(*old(ecs), *final(ecs)),
    ;

    /// Called once per frame, after the updates.
    fn render(&self, ecs: &mut ECSStorage<C>)
        requires
            old(ecs).wf(),
        ensures
            final(ecs).wf(),
            self.render_effect(*old(ecs), *final(ecs)),
    ;
}

/// What the hook of a phase makes of the storage, for system `k` of a list.
pub open spec fn hook_effect<C>(
    systems: Vec<Box<dyn System<C>>>,
    k: int,
    phase: Phase,
    before: ECSStorage<C>,
    after: ECSStorage<C>,
) -> bool {
    match phase {
        Phase::Start => systems@[k].start_effect(before, after),
        Phase::Update => systems@[k].update_effect(before, after),
        Phase::FixedUpdate => systems@[k].fixed_update_effect(before, after),
        Phase::Render => systems@[k].render_effect(before, after),
    }
}

/// What a phase makes of the storage when the first `n` systems of a list
/// have had their turn: the hook of each of them ran once, in the order of
/// the list, each on the valid storage that the one before it left.
pub open spec fn phase_ran<C>(
    systems: Vec<Box<dyn System<C>>>,
    phase: Phase,
    n: int,
    before: ECSStorage<C>,
    after: ECSStorage<C>,
) -> bool
    decreases n,
{
    if n <= 0 {
        after == before
    } else {
        exists|mid: ECSStorage<C>|
            phase_ran(systems, phase, n - 1, before, mid) && mid.wf() && #[trigger] hook_effect(
                systems,
                n - 1,
                phase,
                mid,
                after,
            )
    }
}

} // verus!
