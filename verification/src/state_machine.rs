//! The replicated state and the commands that change it.
use crate::error::Error;
use crate::kv_map::copy_pairs;
use crate::kv_map::key_position;
use crate::kv_map::lemma_finite_map_has_pairs;
use crate::kv_map::lemma_position_unique;
use crate::kv_map::ordered;
use crate::kv_map::pairs_map;
use crate::kv_map::sorted_pairs;
use crate::kv_map::KeyValueMap;
use crate::types::keys_are_ordered;
use crate::types::Command;
use crate::types::CommandView;
use crate::types::LogIndex;
use crate::types::StateSnapshot;
use crate::types::StateSnapshotView;
use crate::types::SNAPSHOT_FORMAT_VERSION;
use vstd::prelude::*;

verus! {

/// A value looked up in a state machine, as mathematical values.
pub type Lookup = Result<Option<Seq<char>>, Error>;

/// The lookup's result as mathematical values.
pub open spec fn lookup_view(result: Result<Option<String>, Error>) -> Lookup {
    match result {
        Ok(value) => Ok(value.deep_view()),
        Err(error) => Err(error),
    }
}

/// The snapshot inside as mathematical values.
pub open spec fn state_snapshot_view(result: Result<StateSnapshot, Error>) -> Result<
    StateSnapshotView,
    Error,
> {
    match result {
        Ok(snapshot) => Ok(snapshot@),
        Err(error) => Err(error),
    }
}

/// A deterministic state machine: replicas that apply the same commands hold the
/// same state, so every outcome is a function of the state and the arguments.
/// Each implementation says which function by its spec functions.
pub trait StateMachine: std::fmt::Debug + View {
    /// The state and the outcome after applying `command` at `index`.
    spec fn applied(state: Self::V, index: LogIndex, command: CommandView) -> (
        Self::V,
        Result<(), Error>,
    );

    /// What a lookup of `key` gives.
    spec fn lookup(state: Self::V, key: Seq<char>) -> Lookup;

    /// The index of the last command that was applied.
    spec fn applied_index(state: Self::V) -> LogIndex;

    /// The state as a snapshot.
    spec fn captured(state: Self::V) -> Result<StateSnapshotView, Error>;

    /// The state and the outcome after taking over `snapshot`.
    spec fn restored(state: Self::V, snapshot: StateSnapshotView) -> (Self::V, Result<(), Error>);

    fn apply(&mut self, index: LogIndex, command: &Command) -> (result: Result<(), Error>)
        ensures
            (final(self)@, result) == Self::applied(old(self)@, index, command@),
    ;

    fn get(&self, key: &str) -> (result: Result<Option<String>, Error>)
        ensures
            lookup_view(result) == Self::lookup(self@, key@),
    ;

    fn last_applied(&self) -> (index: LogIndex)
        ensures
            index == Self::applied_index(self@),
    ;

    /// Returns a deterministic, self-contained copy of the applied state. An
    /// implementation that cannot provide one returns
    /// [`Error::SnapshotsUnsupported`].
    fn snapshot(&self) -> (result: Result<StateSnapshot, Error>)
        ensures
            state_snapshot_view(result) == Self::captured(self@),
    ;

    /// Replaces the applied state with a snapshot. An implementation validates
    /// before it changes anything, so that a rejected snapshot cannot roll back
    /// an already applied state; one without support returns
    /// [`Error::SnapshotsUnsupported`].
    fn restore_snapshot(&mut self, snapshot: &StateSnapshot) -> (result: Result<(), Error>)
        ensures
            (final(self)@, result) == Self::restored(old(self)@, snapshot@),
    ;
}

/// The contents after a command.
pub open spec fn after_command(
    data: Map<Seq<char>, Seq<char>>,
    command: CommandView,
) -> Map<Seq<char>, Seq<char>> {
    match command {
        CommandView::Noop => data,
        CommandView::Put { key, value } => data.insert(key, value),
        CommandView::Delete { key } => data.remove(key),
    }
}

/// A state machine that keeps its pairs in memory.
#[derive(Debug)]
pub struct MemoryStateMachine {
    data: KeyValueMap,
    last_applied: LogIndex,
}

#[verifier::ext_equal]
pub struct MemoryState {
    pub data: Map<Seq<char>, Seq<char>>,
    pub last_applied: LogIndex,
}

impl View for MemoryStateMachine {
    type V = MemoryState;

    closed spec fn view(&self) -> MemoryState {
        MemoryState { data: self.data@, last_applied: self.last_applied }
    }
}

impl Clone for MemoryStateMachine {
    fn clone(&self) -> (copy: Self)
        ensures
            copy@ == self@,
    {
        MemoryStateMachine { data: self.data.clone(), last_applied: self.last_applied }
    }
}

impl MemoryStateMachine {
    /// The state before any command.
    pub open spec fn initial() -> MemoryState {
        MemoryState { data: Map::empty(), last_applied: 0 }
    }

    pub fn new() -> (machine: Self)
        ensures
            machine@ == Self::initial(),
    {
        MemoryStateMachine { data: KeyValueMap::new(), last_applied: 0 }
    }
}

impl Default for MemoryStateMachine {
    fn default() -> (machine: Self)
        ensures
            machine@ == MemoryStateMachine::initial(),
    {
        MemoryStateMachine::new()
    }
}

impl StateMachine for MemoryStateMachine {
    open spec fn applied(state: MemoryState, index: LogIndex, command: CommandView) -> (
        MemoryState,
        Result<(), Error>,
    ) {
        if index <= state.last_applied {
            (state, Ok(()))
        } else if index != state.last_applied + 1 {
            (state, Err(Error::ApplyIndexGap))
        } else {
            (
                MemoryState { data: after_command(state.data, command), last_applied: index },
                Ok(()),
            )
        }
    }

    open spec fn lookup(state: MemoryState, key: Seq<char>) -> Lookup {
        Ok(
            if state.data.contains_key(key) {
                Some(state.data[key])
            } else {
                None
            },
        )
    }

    open spec fn applied_index(state: MemoryState) -> LogIndex {
        state.last_applied
    }

    open spec fn captured(state: MemoryState) -> Result<StateSnapshotView, Error> {
        Ok(
            StateSnapshotView {
                version: SNAPSHOT_FORMAT_VERSION,
                last_applied: state.last_applied,
                data: sorted_pairs(state.data),
            },
        )
    }

    open spec fn restored(state: MemoryState, snapshot: StateSnapshotView) -> (
        MemoryState,
        Result<(), Error>,
    ) {
        if snapshot.version != SNAPSHOT_FORMAT_VERSION || !ordered(snapshot.data) {
            (state, Err(Error::InvalidStateSnapshot))
        } else {
            (
                MemoryState {
                    data: pairs_map(snapshot.data),
                    last_applied: snapshot.last_applied,
                },
                Ok(()),
            )
        }
    }

    fn apply(&mut self, index: LogIndex, command: &Command) -> (result: Result<(), Error>) {
        if index <= self.last_applied {
            return Ok(());
        }
        if index != self.last_applied + 1 {
            return Err(Error::ApplyIndexGap);
        }
        match command {
            Command::Noop => {},
            Command::Put { key, value } => {
                self.data.insert(key.clone(), value.clone());
            },
            Command::Delete { key } => {
                self.data.remove(key.as_str());
            },
        }
        self.last_applied = index;
        Ok(())
    }

    fn get(&self, key: &str) -> (result: Result<Option<String>, Error>) {
        match self.data.get(key) {
            Some(value) => Ok(Some(value.clone())),
            None => Ok(None),
        }
    }

    fn last_applied(&self) -> (index: LogIndex) {
        self.last_applied
    }

    fn snapshot(&self) -> (result: Result<StateSnapshot, Error>) {
        Ok(
            StateSnapshot {
                version: SNAPSHOT_FORMAT_VERSION,
                last_applied: self.last_applied,
                data: copy_pairs(self.data.pairs()),
            },
        )
    }

    fn restore_snapshot(&mut self, snapshot: &StateSnapshot) -> (result: Result<(), Error>) {
        if snapshot.version != SNAPSHOT_FORMAT_VERSION || !keys_are_ordered(&snapshot.data) {
            return Err(Error::InvalidStateSnapshot);
        }
        self.data = KeyValueMap::from_ordered(copy_pairs(&snapshot.data));
        self.last_applied = snapshot.last_applied;
        Ok(())
    }
}

/// A snapshot that a memory state machine takes of itself restores exactly its
/// state in any other, whatever that one held before.
pub proof fn law_snapshot_restores_state(source: MemoryState, target: MemoryState)
    requires
        source.data.dom().finite(),
    ensures
        MemoryStateMachine::captured(source) matches Ok(snapshot)
            && MemoryStateMachine::restored(target, snapshot) == (source, Ok::<(), Error>(())),
{
    lemma_finite_map_has_pairs(source.data);
}

/// A snapshot that a memory state machine rejects leaves it as it was.
pub proof fn law_rejected_snapshot_changes_nothing(
    state: MemoryState,
    snapshot: StateSnapshotView,
)
    ensures
        MemoryStateMachine::restored(state, snapshot).1 is Err ==> MemoryStateMachine::restored(
            state,
            snapshot,
        ).0 == state,
{
}

/// Applying a command a second time at the same index changes nothing more.
pub proof fn law_apply_is_idempotent(state: MemoryState, index: LogIndex, command: CommandView)
    ensures
        ({
            let once = MemoryStateMachine::applied(state, index, command);
            once.1 is Ok ==> MemoryStateMachine::applied(once.0, index, command) == once
        }),
{
}

/// Commands are applied in turn: the next one changes the state, one that was applied
/// before changes nothing more, and one that comes too early is refused.
pub proof fn law_commands_are_applied_in_turn(
    state: MemoryState,
    index: LogIndex,
    command: CommandView,
)
    requires
        state.last_applied < usize::MAX,
    ensures
        ({
            let (after, result) = MemoryStateMachine::applied(state, index, command);
            &&& index <= state.last_applied ==> after == state && result is Ok
            &&& index == state.last_applied + 1 ==> after.last_applied == index && result is Ok
            &&& index > state.last_applied + 1 ==> after == state && result == Err::<(), Error>(
                Error::ApplyIndexGap,
            )
            &&& MemoryStateMachine::applied_index(after) == after.last_applied
        }),
{
}

/// What a lookup finds after the next command: the value that was put, nothing where the
/// key was deleted, and at every other key what it found before.
pub proof fn law_lookup_finds_the_last_command(
    state: MemoryState,
    command: CommandView,
    key: Seq<char>,
)
    requires
        state.last_applied < usize::MAX,
    ensures
        ({
            let next = (state.last_applied + 1) as LogIndex;
            let (after, _) = MemoryStateMachine::applied(state, next, command);
            let found = MemoryStateMachine::lookup(after, key);
            let before = MemoryStateMachine::lookup(state, key);
            match command {
                CommandView::Put { key: written, value } => if written == key {
                    found == Ok::<_, Error>(Some(value))
                } else {
                    found == before
                },
                CommandView::Delete { key: deleted } => if deleted == key {
                    found == Ok::<_, Error>(None::<Seq<char>>)
                } else {
                    found == before
                },
                CommandView::Noop => found == before,
            }
        }),
{
}

/// A new state machine has applied nothing and finds nothing.
pub proof fn law_new_state_is_empty(key: Seq<char>)
    ensures
        MemoryStateMachine::lookup(MemoryStateMachine::initial(), key) == Ok::<_, Error>(
            None::<Seq<char>>,
        ),
        MemoryStateMachine::applied_index(MemoryStateMachine::initial()) == 0,
{
}

/// A snapshot of the state holds, of the format of today, the index that was applied last
/// and every pair, in strictly rising order of keys and nothing besides.
pub proof fn law_captured_state_is_complete(state: MemoryState, key: Seq<char>, value: Seq<char>)
    requires
        state.data.dom().finite(),
    ensures
        MemoryStateMachine::captured(state) matches Ok(snapshot) && {
            &&& snapshot.version == 1
            &&& snapshot.last_applied == state.last_applied
            &&& ordered(snapshot.data)
            &&& snapshot.data.contains((key, value)) <==> MemoryStateMachine::lookup(state, key)
                == Ok::<_, Error>(Some(value))
        },
{
    lemma_finite_map_has_pairs(state.data);
    let pairs = sorted_pairs(state.data);
    if pairs.contains((key, value)) {
        let i = choose|i: int| 0 <= i < pairs.len() && pairs[i] == (key, value);
        lemma_position_unique(pairs, i);
    }
    if state.data.contains_key(key) && state.data[key] == value {
        assert(pairs_map(pairs).contains_key(key));
        let at = key_position(pairs, key);
        assert(pairs[at] == (key, value));
    }
}

/// A snapshot is taken over exactly if it is of the format of today and its keys are in
/// strictly rising order. The state is then of its index and holds its pairs, and nothing
/// that it held before.
pub proof fn law_restored_state_is_the_snapshot(
    state: MemoryState,
    snapshot: StateSnapshotView,
    key: Seq<char>,
    value: Seq<char>,
)
    ensures
        ({
            let (after, result) = MemoryStateMachine::restored(state, snapshot);
            let taken = snapshot.version == 1 && ordered(snapshot.data);
            &&& result is Ok <==> taken
            &&& !taken ==> after == state && result == Err::<(), Error>(
                Error::InvalidStateSnapshot,
            )
            &&& taken ==> after.last_applied == snapshot.last_applied
            &&& taken ==> (MemoryStateMachine::lookup(after, key) == Ok::<_, Error>(Some(value))
                <==> snapshot.data.contains((key, value)))
        }),
{
    let pairs = snapshot.data;
    if snapshot.version == 1 && ordered(pairs) {
        if pairs.contains((key, value)) {
            let i = choose|i: int| 0 <= i < pairs.len() && pairs[i] == (key, value);
            lemma_position_unique(pairs, i);
        }
        if pairs_map(pairs).contains_key(key) && pairs_map(pairs)[key] == value {
            let at = key_position(pairs, key);
            assert(pairs[at] == (key, value));
        }
    }
}

} // verus!
