//! Commands recorded while the entities are borrowed, and applied to them later.
use vstd::prelude::*;
use crate::entities::archetype_storage::distinct_keys;
use crate::entities::component::ComponentInfo;
use crate::entities::entities::{Entities, component_map, info_pairs, registrable};
use crate::entities::entity_id::EntityId;
use crate::uuid::Uuid;

verus! {

/// A command to be executed on the entities of an application once exclusive access to them is
/// available.
pub enum Command<V> {
    /// Inserts components into an entity, overwriting those that it already has.
    Insert(EntityId, Vec<(ComponentInfo, V)>),
    /// Despawns an entity.
    Despawn(EntityId),
}

/// The entity that a command targets.
pub open spec fn command_target<V>(command: Command<V>) -> EntityId {
    match command {
        Command::Insert(target, _) => target,
        Command::Despawn(target) => target,
    }
}

/// Whether a command is well-formed: the components that it inserts have distinct identifiers
/// and can be registered.
pub open spec fn command_wf<V>(command: Command<V>) -> bool {
    match command {
        Command::Insert(_, components) => {
            &&& distinct_keys(info_pairs(components@))
            &&& forall|t: int| 0 <= t < components@.len() ==> registrable(#[trigger] components@[t].0)
        },
        Command::Despawn(_) => true,
    }
}

/// Whether a command despawns an entity whose generation is exhausted, which the allocator of
/// identifiers cannot do.
pub open spec fn exhausts<V>(command: Command<V>) -> bool {
    command matches Command::Despawn(target) && target.spec_generation() == u32::MAX
}

/// The entities after a command, from the entities before it.
pub open spec fn command_step<V>(view: Map<EntityId, Map<Uuid, V>>, command: Command<V>) -> Map<EntityId, Map<Uuid, V>> {
    match command {
        Command::Insert(target, components) => if view.contains_key(target) {
            view.insert(target, view[target].union_prefer_right(component_map(components@)))
        } else {
            view
        },
        Command::Despawn(target) => view.remove(target),
    }
}

/// The entities after a list of commands, applied in order.
pub open spec fn commands_result<V>(view: Map<EntityId, Map<Uuid, V>>, commands: Seq<Command<V>>) -> Map<EntityId, Map<Uuid, V>>
    decreases commands.len(),
{
    if commands.len() == 0 {
        view
    } else {
        command_step(commands_result(view, commands.drop_last()), commands.last())
    }
}

/// Whether each command of a list, applied in order, targets a live entity.
pub open spec fn commands_valid<V>(view: Map<EntityId, Map<Uuid, V>>, commands: Seq<Command<V>>) -> bool {
    forall|k: int|
        0 <= k < commands.len() ==> commands_result(view, commands.take(k)).contains_key(
            command_target(#[trigger] commands[k]),
        )
}

/// Spawning through commands has the effect of a direct spawn: applying the insertion that
/// [`Commands::spawn`] records, once its reserved identifier `id` has been added to the
/// entities `before` with no components, gives the entities of `before` with one more, which
/// has the inserted components.
pub proof fn lemma_spawn_by_commands<V>(
    before: Map<EntityId, Map<Uuid, V>>,
    id: EntityId,
    components: Vec<(ComponentInfo, V)>,
)
    requires
        !before.contains_key(id),
    ensures
        commands_valid(before.insert(id, Map::empty()), seq![Command::Insert(id, components)]),
        commands_result(before.insert(id, Map::empty()), seq![Command::Insert(id, components)])
            == before.insert(id, component_map(components@)),
{
    let view = before.insert(id, Map::empty());
    let cmds = seq![Command::Insert(id, components)];
    assert(cmds.drop_last() =~= Seq::<Command<V>>::empty());
    assert(cmds.take(0) =~= Seq::<Command<V>>::empty());
    assert(Map::<Uuid, V>::empty().union_prefer_right(component_map(components@)) =~= component_map(components@));
    assert(commands_result(view, cmds.drop_last()) == view);
    assert(cmds.last() == Command::Insert(id, components));
    assert(commands_result(view, cmds) == command_step(view, Command::Insert(id, components)));
    assert(view[id] == Map::<Uuid, V>::empty());
    assert(command_step(view, Command::Insert(id, components)) =~= before.insert(id, component_map(components@)));
}

/// The reasons why applying commands stops.
pub enum CommandError {
    /// A command targets an entity that is not live.
    InvalidEntity(EntityId),
    /// The machine limits leave no room for the command.
    TooManyEntities,
}

/// A list of [`Command`]s.
pub struct CommandList<V> {
    /// The commands, in the order in which they were pushed.
    commands: Vec<Command<V>>,
}

impl<V> View for CommandList<V> {
    type V = Seq<Command<V>>;

    closed spec fn view(&self) -> Seq<Command<V>> {
        self.commands@
    }
}

impl<V> CommandList<V> {
    /// Whether each command of the list is well-formed.
    pub open spec fn wf(&self) -> bool {
        forall|k: int| 0 <= k < self@.len() ==> command_wf(#[trigger] self@[k])
    }

    /// Creates an empty list.
    pub fn new() -> (r: Self)
        ensures
            r@ == Seq::<Command<V>>::empty(),
    {
        CommandList { commands: Vec::new() }
    }

    /// Pushes a command into the list.
    pub fn push(&mut self, command: Command<V>)
        ensures
            final(self)@ == old(self)@.push(command),
    {
        self.commands.push(command);
    }

    /// Returns the number of commands in the list.
    pub fn len(&self) -> (r: usize)
        ensures
            r == self@.len(),
    {
        self.commands.len()
    }

    /// Drains the list, returning the commands that were pushed into it, in order.
    pub fn drain(&mut self) -> (r: DrainCommandList<V>)
        ensures
            final(self)@ == Seq::<Command<V>>::empty(),
            r@ == old(self)@,
    {
        let mut commands: Vec<Command<V>> = Vec::new();
        std::mem::swap(&mut commands, &mut self.commands);
        let ghost all = commands@;
        let mut rev: Vec<Command<V>> = Vec::new();
        proof {
            assert(all.subrange(0, all.len() as int) =~= all);
        }
        while commands.len() > 0
            invariant
                commands@.len() <= all.len(),
                commands@ == all.subrange(0, commands@.len() as int),
                rev@.len() + commands@.len() == all.len(),
                forall|t: int| 0 <= t < rev@.len() ==> #[trigger] rev@[t] == all[all.len() - 1 - t],
            decreases commands@.len(),
        {
            let ghost before = commands@;
            match commands.pop() {
                Some(c) => {
                    proof {
                        assert(before[before.len() - 1] == all[before.len() - 1]);
                        assert(commands@ =~= all.subrange(0, commands@.len() as int));
                    }
                    rev.push(c);
                },
                None => {},
            }
        }
        let r = DrainCommandList { rev };
        proof {
            assert(r@ =~= all);
        }
        r
    }

    /// Applies the commands of the list to the provided entities, in order, after flushing the
    /// reserved identifiers; the list is left empty.
    ///
    /// Applying stops at the first command that targets an entity that is not live, or for which
    /// the machine limits leave no room.
    #[verifier::spinoff_prover]
    pub fn apply(&mut self, entities: &mut Entities<V>) -> (r: Result<(), CommandError>)
        requires
            old(self).wf(),
            old(entities).wf(),
        ensures
            final(self)@ == Seq::<Command<V>>::empty(),
            final(entities).wf(),
            r is Ok ==> final(entities).view() == commands_result(old(entities).flushed_view(), old(self)@)
                && commands_valid(old(entities).flushed_view(), old(self)@),
            r matches Err(CommandError::InvalidEntity(target)) ==> exists|k: int|
                0 <= k < old(self)@.len() && final(entities).view() == commands_result(
                    old(entities).flushed_view(),
                    #[trigger] old(self)@.take(k),
                ) && target == command_target(old(self)@[k]) && !final(entities).view().contains_key(
                    target,
                ),
            r matches Err(CommandError::TooManyEntities) ==> (!old(entities).within_limits()
                && *final(entities) == *old(entities)) || exists|k: int|
                0 <= k < old(self)@.len() && final(entities).view() == commands_result(
                    old(entities).flushed_view(),
                    #[trigger] old(self)@.take(k),
                ) && (!final(entities).within_limits() || exhausts(old(self)@[k])),
            commands_valid(old(entities).flushed_view(), old(self)@) ==> !(r matches Err(
                CommandError::InvalidEntity(_),
            )),
    {
        let ghost cmds = self@;
        let ghost start = entities.flushed_view();
        let mut drain = self.drain();
        if !entities.check_limits() {
            return Err(CommandError::TooManyEntities);
        }
        entities.flush();
        let n = drain.len();
        let mut k: usize = 0;
        proof {
            assert(cmds.take(0) =~= Seq::<Command<V>>::empty());
            assert(cmds.skip(0) =~= cmds);
        }
        while k < n
            invariant
                n == cmds.len(),
                k <= n,
                self@ == Seq::<Command<V>>::empty(),
                cmds == old(self)@,
                start == old(entities).flushed_view(),
                forall|j: int| 0 <= j < cmds.len() ==> command_wf(#[trigger] cmds[j]),
                drain@ == cmds.skip(k as int),
                entities.wf(),
                entities.pending().len() == 0,
                entities.view() == commands_result(start, cmds.take(k as int)),
                forall|j: int| 0 <= j < k ==> commands_result(start, cmds.take(j)).contains_key(
                    command_target(#[trigger] cmds[j]),
                ),
            decreases n - k,
        {
            let ghost before = entities.view();
            proof {
                assert(cmds.take(k + 1).drop_last() =~= cmds.take(k as int));
                assert(cmds.take(k + 1).last() == cmds[k as int]);
                assert(drain@[0] == cmds[k as int]);
            }
            let command = match drain.next() {
                Some(c) => c,
                None => vstd::pervasive::unreached(),
            };
            proof {
                assert(drain@ =~= cmds.skip(k + 1));
            }
            match apply_one(entities, command) {
                Ok(()) => {
                    proof {
                        let t = cmds.take(k + 1);
                        assert(commands_result(start, t) == command_step(
                            commands_result(start, t.drop_last()),
                            t.last(),
                        ));
                        assert(entities.view() == commands_result(start, cmds.take(k + 1)));
                        assert forall|j: int| 0 <= j < k + 1 implies commands_result(start, cmds.take(j)).contains_key(
                            command_target(#[trigger] cmds[j]),
                        ) by {
                            if j == k {
                                assert(before == commands_result(start, cmds.take(j)));
                            }
                        }
                    }
                },
                Err(e) => {
                    proof {
                        assert(entities.view() == commands_result(start, cmds.take(k as int)));
                    }
                    return Err(e);
                },
            }
            k = k + 1;
        }
        proof {
            assert(cmds.take(n as int) =~= cmds);
        }
        Ok(())
    }
}

/// Commands recorded for the entities of an application, to be applied later.
pub struct Commands<V> {
    /// The commands that have been recorded.
    list: CommandList<V>,
}

impl<V> View for Commands<V> {
    type V = Seq<Command<V>>;

    closed spec fn view(&self) -> Seq<Command<V>> {
        self.list@
    }
}

impl<V> Commands<V> {
    /// Whether each recorded command is well-formed.
    pub open spec fn wf(&self) -> bool {
        forall|k: int| 0 <= k < self@.len() ==> command_wf(#[trigger] self@[k])
    }

    /// Creates an empty recording.
    pub fn new() -> (r: Self)
        ensures
            r@ == Seq::<Command<V>>::empty(),
    {
        Commands { list: CommandList::new() }
    }

    /// Records the provided command.
    pub fn append(&mut self, command: Command<V>)
        ensures
            final(self)@ == old(self)@.push(command),
    {
        self.list.push(command);
    }

    /// Reserves an identifier in `entities` for an entity with no components, and returns a
    /// handle to record commands for it.
    pub fn spawn_empty(&mut self, entities: &mut Entities<V>) -> (r: EntityCommands)
        requires
            old(entities).wf(),
            old(entities).allocator().can_reserve(),
        ensures
            final(self)@ == old(self)@,
            final(entities).wf(),
            final(entities).view() == old(entities).view(),
            !old(entities).flushed_view().contains_key(r.spec_id()),
            final(entities).flushed_view() == old(entities).flushed_view().insert(r.spec_id(), Map::empty()),
    {
        let target = entities.reserve_one();
        EntityCommands { target }
    }

    /// Reserves an identifier in `entities` for an entity, records the insertion of the
    /// provided components into it, and returns a handle to record more commands for it.
    pub fn spawn(&mut self, entities: &mut Entities<V>, components: Vec<(ComponentInfo, V)>) -> (r: EntityCommands)
        requires
            old(entities).wf(),
            old(entities).allocator().can_reserve(),
        ensures
            final(self)@ == old(self)@.push(Command::Insert(r.spec_id(), components)),
            final(entities).wf(),
            final(entities).view() == old(entities).view(),
            !old(entities).flushed_view().contains_key(r.spec_id()),
            final(entities).flushed_view() == old(entities).flushed_view().insert(r.spec_id(), Map::empty()),
    {
        let entity = self.spawn_empty(entities);
        entity.insert(self, components);
        entity
    }

    /// Records the despawning of the provided entity.
    pub fn despawn(&mut self, entity: EntityId)
        ensures
            final(self)@ == old(self)@.push(Command::Despawn(entity)),
    {
        self.list.push(Command::Despawn(entity));
    }

    /// Returns the list of the recorded commands.
    pub fn into_list(self) -> (r: CommandList<V>)
        ensures
            r@ == self@,
    {
        self.list
    }
}

/// A handle to record commands for one entity.
pub struct EntityCommands {
    /// The entity that the commands target.
    target: EntityId,
}

impl EntityCommands {
    /// The entity that the commands target.
    pub closed spec fn spec_id(&self) -> EntityId {
        self.target
    }

    /// Returns the identifier of the entity.
    pub fn id(&self) -> (r: EntityId)
        ensures
            r == self.spec_id(),
    {
        self.target
    }

    /// Records the insertion of the provided components into the entity.
    pub fn insert<V>(&self, commands: &mut Commands<V>, components: Vec<(ComponentInfo, V)>)
        ensures
            final(commands)@ == old(commands)@.push(Command::Insert(self.spec_id(), components)),
    {
        commands.append(Command::Insert(self.target, components));
    }
}

/// Applies one command to entities that have no reserved identifier left.
///
/// On success, the entities are the ones after the command; on failure, they are unchanged.
fn apply_one<V>(entities: &mut Entities<V>, command: Command<V>) -> (r: Result<(), CommandError>)
    requires
        old(entities).wf(),
        old(entities).pending().len() == 0,
        command_wf(command),
    ensures
        final(entities).wf(),
        final(entities).pending().len() == 0,
        r is Ok ==> old(entities).view().contains_key(command_target(command))
            && final(entities).view() == command_step(old(entities).view(), command),
        r is Err ==> final(entities).view() == old(entities).view(),
        r matches Err(CommandError::InvalidEntity(target)) ==> target == command_target(command)
            && !old(entities).view().contains_key(target),
        old(entities).view().contains_key(command_target(command)) ==> !(r matches Err(
            CommandError::InvalidEntity(_),
        )),
        r matches Err(CommandError::TooManyEntities) ==> (!old(entities).within_limits() && *final(entities)
            == *old(entities)) || (exhausts(command) && old(entities).view().contains_key(command_target(command))),
{
    proof {
        assert(entities.flushed_view() =~= entities.view());
    }
    if !entities.check_limits() {
        return Err(CommandError::TooManyEntities);
    }
    match command {
        Command::Insert(target, components) => {
            if entities.insert(target, components) {
                Ok(())
            } else {
                Err(CommandError::InvalidEntity(target))
            }
        },
        Command::Despawn(target) => {
            let live = entities.get_entity(target).is_some();
            if !live {
                return Err(CommandError::InvalidEntity(target));
            }
            if target.to_bits() >= 0xFFFF_FFFF_0000_0000u64 {
                proof {
                    assert(target.spec_generation() == u32::MAX);
                }
                return Err(CommandError::TooManyEntities);
            }
            entities.despawn(target);
            Ok(())
        },
    }
}

/// The commands drained from a [`CommandList`], handed out in order.
pub struct DrainCommandList<V> {
    /// The remaining commands, in reverse order.
    rev: Vec<Command<V>>,
}

impl<V> View for DrainCommandList<V> {
    type V = Seq<Command<V>>;

    closed spec fn view(&self) -> Seq<Command<V>> {
        self.rev@.reverse()
    }
}

impl<V> DrainCommandList<V> {
    /// Returns the number of remaining commands.
    pub fn len(&self) -> (r: usize)
        ensures
            r == self@.len(),
    {
        self.rev.len()
    }

    /// Returns the next command, or `None` when none is left.
    pub fn next(&mut self) -> (r: Option<Command<V>>)
        ensures
            old(self)@.len() == 0 ==> r is None && final(self)@ == old(self)@,
            old(self)@.len() > 0 ==> r == Some(old(self)@[0]) && final(self)@ == old(self)@.drop_first(),
    {
        let ghost o = self.rev@;
        let r = self.rev.pop();
        proof {
            if o.len() > 0 {
                assert(self.rev@.reverse() =~= o.reverse().drop_first());
            }
        }
        r
    }
}

} // verus!
