use vstd::prelude::*;
use legion::Entity;
use crate::commands::{apply_all, lemma_apply_concat, CommandView, Kind, State};
use crate::world::Parts;
use crate::interface::FragmentView;

pub mod displacement;
pub mod grab;
pub mod spawn;
pub mod throw;
pub mod velocity;

verus! {

/// A state of the world that a system cannot work on. A pass that meets one stops, and
/// nothing that it wrote down is carried out.
#[derive(Debug, Copy, Clone, PartialEq, Eq, Structural)]
pub enum Fault {
    /// A component names an entity that is not in the world.
    MissingEntity,
    /// An entity lacks a component that it cannot be without.
    MissingComponent,
    /// An entity does not stand where its `Position` says.
    NotOnMap,
    /// A `Position` is no cell of the map.
    OutOfBounds,
    /// Something that is held has a `Position` as if it stood on the map.
    Misplaced,
    /// Something is to be made after a kind that the catalogue does not have.
    UnknownAsset,
}

/// What a system makes of one entity, or of a whole pass: the commands to carry out, and
/// the lines for the log.
pub struct Outcome {
    pub commands: Seq<CommandView>,
    pub entries: Seq<Seq<FragmentView>>,
}

impl Outcome {
    /// Nothing to do and nothing to say.
    pub open spec fn nothing() -> Outcome {
        Outcome { commands: Seq::empty(), entries: Seq::empty() }
    }

    /// This outcome and then `next`.
    pub open spec fn followed_by(self, next: Outcome) -> Outcome {
        Outcome { commands: self.commands + next.commands, entries: self.entries + next.entries }
    }
}

/// What a pass over `order` comes to, where `resolve` says what is made of each entity: the
/// outcomes one after the other, or the first fault.
pub open spec fn pass_outcome(
    resolve: spec_fn(Entity) -> Result<Outcome, Fault>,
    order: Seq<Entity>,
) -> Result<Outcome, Fault>
    decreases order.len(),
{
    if order.len() == 0 {
        Ok(Outcome::nothing())
    } else {
        match pass_outcome(resolve, order.drop_last()) {
            Err(fault) => Err(fault),
            Ok(before) => match resolve(order.last()) {
                Err(fault) => Err(fault),
                Ok(outcome) => Ok(before.followed_by(outcome)),
            },
        }
    }
}

/// The lines that a pass over `order` writes to the log: those of every entity before the
/// first fault.
pub open spec fn pass_entries(
    resolve: spec_fn(Entity) -> Result<Outcome, Fault>,
    order: Seq<Entity>,
) -> Seq<Seq<FragmentView>>
    decreases order.len(),
{
    if order.len() == 0 {
        Seq::empty()
    } else {
        let before = pass_entries(resolve, order.drop_last());
        if pass_outcome(resolve, order.drop_last()) is Err {
            before
        } else {
            match resolve(order.last()) {
                Err(_) => before,
                Ok(outcome) => before + outcome.entries,
            }
        }
    }
}

/// Where a pass ends well, the log has the lines of its outcome.
pub proof fn lemma_pass_entries(resolve: spec_fn(Entity) -> Result<Outcome, Fault>, order: Seq<Entity>)
    ensures
        pass_outcome(resolve, order) matches Ok(outcome) ==> pass_entries(resolve, order)
            == outcome.entries,
    decreases order.len(),
{
    if order.len() > 0 {
        lemma_pass_entries(resolve, order.drop_last());
    }
}

/// The pass over the first `count + 1` of `order` is the pass over the first `count`, and
/// then the entity at `count`.
pub proof fn lemma_pass_step(
    resolve: spec_fn(Entity) -> Result<Outcome, Fault>,
    order: Seq<Entity>,
    count: int,
)
    requires
        0 <= count < order.len(),
    ensures
        pass_outcome(resolve, order.take(count + 1)) == (match pass_outcome(
            resolve,
            order.take(count),
        ) {
            Err(fault) => Err(fault),
            Ok(before) => match resolve(order[count]) {
                Err(fault) => Err(fault),
                Ok(outcome) => Ok(before.followed_by(outcome)),
            },
        }),
        pass_entries(resolve, order.take(count + 1)) == (if pass_outcome(
            resolve,
            order.take(count),
        ) is Err {
            pass_entries(resolve, order.take(count))
        } else {
            match resolve(order[count]) {
                Err(_) => pass_entries(resolve, order.take(count)),
                Ok(outcome) => pass_entries(resolve, order.take(count)) + outcome.entries,
            }
        }),
{
    assert(order.take(count + 1).drop_last() =~= order.take(count));
    assert(order.take(count + 1).last() == order[count]);
}

/// A fault among the first `count` of `order` is the fault of the whole pass, and nothing is
/// written to the log after it.
pub proof fn lemma_fault_stops_pass(
    resolve: spec_fn(Entity) -> Result<Outcome, Fault>,
    order: Seq<Entity>,
    count: int,
)
    requires
        0 <= count <= order.len(),
        pass_outcome(resolve, order.take(count)) is Err,
    ensures
        pass_outcome(resolve, order) == pass_outcome(resolve, order.take(count)),
        pass_entries(resolve, order) == pass_entries(resolve, order.take(count)),
    decreases order.len() - count,
{
    if count == order.len() {
        assert(order.take(count) =~= order);
    } else {
        lemma_pass_step(resolve, order, count);
        lemma_fault_stops_pass(resolve, order, count + 1);
    }
}

/// Whether a command takes no entity out of the world and leaves every `Memory` alone.
pub open spec fn gentle(command: CommandView) -> bool {
    match command {
        CommandView::Attach(_, component) => component.kind() != Kind::Memory,
        CommandView::Detach(_, kind) => kind != Kind::Memory,
        CommandView::Destroy(_) => false,
        CommandView::Lift(_) => false,
        _ => true,
    }
}

/// Whether all of `commands` are gentle.
pub open spec fn all_gentle(commands: Seq<CommandView>) -> bool {
    forall|i: int| 0 <= i < commands.len() ==> gentle(#[trigger] commands[i])
}

/// Whether every entity of `before` is among `after` with the `Memory` that it had.
pub open spec fn same_memories(before: Map<Entity, Parts>, after: Map<Entity, Parts>) -> bool {
    forall|entity: Entity|
        #[trigger] before.dom().contains(entity) ==> after.dom().contains(entity) && after[entity].memory
            == before[entity].memory
}

/// Gentle commands take no entity out of the world and change no `Memory`.
pub proof fn lemma_gentle_commands(state: State, commands: Seq<CommandView>)
    requires
        all_gentle(commands),
    ensures
        same_memories(state.entities, apply_all(state, commands).entities),
    decreases commands.len(),
{
    if commands.len() > 0 {
        let shorter = commands.drop_last();
        assert forall|i: int| 0 <= i < shorter.len() implies gentle(#[trigger] shorter[i]) by {
            assert(shorter[i] == commands[i]);
        }
        lemma_gentle_commands(state, shorter);
        let before = apply_all(state, shorter);
        let after = commands.last().apply(before);
        assert(gentle(commands[commands.len() - 1]));
        assert forall|entity: Entity| #[trigger] state.entities.dom().contains(entity) implies after.entities.dom().contains(
            entity,
        ) && after.entities[entity].memory == state.entities[entity].memory by {
            assert(before.entities.dom().contains(entity));
        }
    }
}

/// Two runs of gentle commands are one run of gentle commands.
pub proof fn lemma_gentle_concat(first: Seq<CommandView>, second: Seq<CommandView>)
    requires
        all_gentle(first),
        all_gentle(second),
    ensures
        all_gentle(first + second),
{
    assert forall|i: int| 0 <= i < (first + second).len() implies gentle(#[trigger] (first + second)[i]) by {
        if i < first.len() {
            assert((first + second)[i] == first[i]);
        } else {
            assert((first + second)[i] == second[i - first.len()]);
        }
    }
}

/// Where every entity is resolved gently, the pass is gentle.
pub proof fn lemma_gentle_pass(resolve: spec_fn(Entity) -> Result<Outcome, Fault>, order: Seq<Entity>)
    requires
        forall|entity: Entity| (#[trigger] resolve(entity)) matches Ok(outcome) ==> all_gentle(outcome.commands),
    ensures
        pass_outcome(resolve, order) matches Ok(outcome) ==> all_gentle(outcome.commands),
    decreases order.len(),
{
    if order.len() > 0 {
        lemma_gentle_pass(resolve, order.drop_last());
        if let Ok(before) = pass_outcome(resolve, order.drop_last()) {
            if let Ok(outcome) = resolve(order.last()) {
                lemma_gentle_concat(before.commands, outcome.commands);
            }
        }
    }
}

} // verus!
