//! What is kept of a node between runs, and the bytes it is kept in.
use crate::codec::decode_snapshot;
use crate::codec::encode_snapshot;
use crate::codec::optional_bytes;
use crate::codec::parsed_snapshot;
use crate::codec::snapshot_bytes;
use crate::error::Error;
use crate::node::laws::shipping::is_in_order;
use crate::node::laws::shipping::law_valid_snapshot_is_in_order;
use crate::node::model::NodeModel;
use crate::node::restore::fits_machine;
use crate::node::restore::node_result;
use crate::node::snapshots::snapshot_result;
use crate::node::Node;
use crate::state_machine::StateMachine;
use crate::types::copy_bytes;
use crate::types::copy_entries;
use crate::types::entries_view;
use crate::types::LogEntry;
use crate::types::LogEntryView;
use crate::types::LogIndex;
use crate::types::NodeId;
use crate::types::Snapshot;
use crate::types::SnapshotView;
use crate::types::Term;
use vstd::prelude::*;
use vstd::string::StringExecFns;

verus! {

/// The format version of [`PersistedState`].
pub const PERSISTENCE_FORMAT_VERSION: u32 = 2;

/// What a node must not forget: its term, its vote, its log and how much of the
/// log is committed.
#[derive(Debug, PartialEq, Eq)]
pub struct DurableState {
    pub current_term: Term,
    pub voted_for: Option<NodeId>,
    pub log: Vec<LogEntry>,
    pub commit_index: LogIndex,
}

#[verifier::ext_equal]
pub struct DurableStateView {
    pub current_term: Term,
    pub voted_for: Option<NodeId>,
    pub log: Seq<LogEntryView>,
    pub commit_index: LogIndex,
}

impl View for DurableState {
    type V = DurableStateView;

    open spec fn view(&self) -> DurableStateView {
        DurableStateView {
            current_term: self.current_term,
            voted_for: self.voted_for,
            log: self.log.deep_view(),
            commit_index: self.commit_index,
        }
    }
}

/// The durable state together with the snapshot that its log starts at.
#[derive(Debug, PartialEq, Eq)]
pub struct PersistedState {
    pub version: u32,
    pub durable: DurableState,
    pub snapshot: Option<Snapshot>,
}

#[verifier::ext_equal]
pub struct PersistedStateView {
    pub version: u32,
    pub durable: DurableStateView,
    pub snapshot: Option<SnapshotView>,
}

impl View for PersistedState {
    type V = PersistedStateView;

    open spec fn view(&self) -> PersistedStateView {
        PersistedStateView {
            version: self.version,
            durable: self.durable@,
            snapshot: self.snapshot.deep_view(),
        }
    }
}

impl DurableStateView {
    /// What a node must not forget.
    pub open spec fn of_node<S: StateMachine>(node: NodeModel<S>) -> DurableStateView {
        DurableStateView {
            current_term: node.current_term,
            voted_for: node.voted_for,
            log: node.log,
            commit_index: node.commit_index,
        }
    }
}

impl PersistedStateView {
    /// What is kept of a node.
    pub open spec fn of_node<S: StateMachine>(node: NodeModel<S>) -> PersistedStateView {
        PersistedStateView {
            version: PERSISTENCE_FORMAT_VERSION,
            durable: DurableStateView::of_node(node),
            snapshot: node.snapshot,
        }
    }

    /// The node that was kept, or why it cannot be had.
    pub open spec fn restored<S: StateMachine>(
        self,
        id: NodeId,
        peers: Seq<NodeId>,
        state: S::V,
    ) -> Result<NodeModel<S>, Error> {
        if self.version != PERSISTENCE_FORMAT_VERSION {
            Err(Error::UnsupportedPersistedVersion)
        } else {
            NodeModel::<S>::from_persisted_parts(
                id,
                peers,
                self.durable.current_term,
                self.durable.voted_for,
                self.durable.log,
                self.durable.commit_index,
                self.snapshot,
                state,
            )
        }
    }
}

impl Clone for DurableState {
    fn clone(&self) -> (copy: Self)
        ensures
            copy@ == self@,
    {
        let log = copy_entries(self.log.as_slice(), 0, self.log.len());
        assert(entries_view(self.log@) =~= self.log.deep_view());
        assert(log.deep_view() =~= self.log.deep_view());
        DurableState {
            current_term: self.current_term,
            voted_for: self.voted_for,
            log,
            commit_index: self.commit_index,
        }
    }
}

impl Clone for PersistedState {
    fn clone(&self) -> (copy: Self)
        ensures
            copy@ == self@,
    {
        PersistedState {
            version: self.version,
            durable: self.durable.clone(),
            snapshot: match &self.snapshot {
                Some(snapshot) => Some(snapshot.clone()),
                None => None,
            },
        }
    }
}

impl DurableState {
    /// What a node must not forget.
    pub fn from_node<S: StateMachine>(node: &Node<S>) -> (state: Self)
        ensures
            state@ == DurableStateView::of_node(node@),
    {
        let entries = node.log();
        let log = copy_entries(entries, 0, entries.len());
        assert(log.deep_view() =~= node@.log);
        DurableState {
            current_term: node.current_term(),
            voted_for: node.voted_for(),
            log,
            commit_index: node.commit_index(),
        }
    }

    /// The node of which no more than this was kept.
    pub fn restore<S: StateMachine>(self, id: NodeId, peers: Vec<NodeId>, state_machine: S) -> (node:
        Node<S>)
        requires
            id < u64::MAX,
            peers.len() < usize::MAX,
            self.log.len() < usize::MAX,
        ensures
            node@ == NodeModel::<S>::from_parts(
                id,
                peers@,
                self.current_term,
                self.voted_for,
                self@.log,
                self.commit_index,
                state_machine@,
            ),
            node@.well_formed(),
    {
        Node::from_parts_with_state_machine(
            id,
            peers,
            self.current_term,
            self.voted_for,
            self.log,
            self.commit_index,
            state_machine,
        )
    }
}

impl PersistedState {
    /// What is kept of a node.
    pub fn from_node<S: StateMachine>(node: &Node<S>) -> (state: Self)
        ensures
            state@ == PersistedStateView::of_node(node@),
    {
        PersistedState {
            version: PERSISTENCE_FORMAT_VERSION,
            durable: DurableState::from_node(node),
            snapshot: match node.snapshot() {
                Some(snapshot) => Some(snapshot.clone()),
                None => None,
            },
        }
    }

    /// The node that was kept, with its committed entries applied.
    pub fn restore<S: StateMachine>(self, id: NodeId, peers: Vec<NodeId>, state_machine: S) -> (result:
        Result<Node<S>, Error>)
        requires
            id < u64::MAX,
            peers.len() < usize::MAX,
            self.durable.log.len() < usize::MAX,
            fits_machine(self@.durable.log, self@.snapshot),
        ensures
            node_result(result) == self@.restored::<S>(id, peers@, state_machine@),
            result matches Ok(node) ==> node@.well_formed(),
    {
        if self.version != PERSISTENCE_FORMAT_VERSION {
            return Err(Error::UnsupportedPersistedVersion);
        }
        Node::from_persisted_parts(
            id,
            peers,
            self.durable.current_term,
            self.durable.voted_for,
            self.durable.log,
            self.durable.commit_index,
            self.snapshot,
            state_machine,
        )
    }
}

/// What is found of a node: nothing, what is kept of it today, or its durable state
/// alone, as it was kept before there were snapshots.
#[derive(Debug, PartialEq, Eq)]
pub enum StoredState {
    Missing,
    Current(PersistedState),
    Legacy(DurableState),
}

pub enum StoredStateView {
    Missing,
    Current(PersistedStateView),
    Legacy(DurableStateView),
}

impl View for StoredState {
    type V = StoredStateView;

    open spec fn view(&self) -> StoredStateView {
        match *self {
            StoredState::Missing => StoredStateView::Missing,
            StoredState::Current(state) => StoredStateView::Current(state@),
            StoredState::Legacy(state) => StoredStateView::Legacy(state@),
        }
    }
}

impl StoredStateView {
    /// The node that was found, or a new one if there was none, or why it cannot be
    /// had.
    pub open spec fn restored<S: StateMachine>(
        self,
        id: NodeId,
        peers: Seq<NodeId>,
        state: S::V,
    ) -> Result<NodeModel<S>, Error> {
        match self {
            StoredStateView::Missing => Ok(NodeModel::<S>::initial(id, peers, state)),
            StoredStateView::Current(kept) => kept.restored::<S>(id, peers, state),
            StoredStateView::Legacy(durable) => Ok(
                NodeModel::<S>::from_parts(
                    id,
                    peers,
                    durable.current_term,
                    durable.voted_for,
                    durable.log,
                    durable.commit_index,
                    state,
                ),
            ),
        }
    }

    /// The log ends within what the machine can count.
    pub open spec fn fits_machine(self) -> bool {
        match self {
            StoredStateView::Missing => true,
            StoredStateView::Current(kept) => kept.durable.log.len() < usize::MAX && fits_machine(
                kept.durable.log,
                kept.snapshot,
            ),
            StoredStateView::Legacy(durable) => durable.log.len() < usize::MAX,
        }
    }
}

impl StoredState {
    /// Whether the log ends within what the machine can count.
    pub fn fits_machine(&self) -> (fits: bool)
        ensures
            fits == self@.fits_machine(),
    {
        match self {
            StoredState::Missing => true,
            StoredState::Current(state) => {
                let length: usize = state.durable.log.len();
                length < usize::MAX && match &state.snapshot {
                    None => true,
                    Some(boundary) => {
                        if length == 0 {
                            return true;
                        }
                        assert(state.durable.log.deep_view()[0] == state.durable.log[0]@);
                        boundary.last_included_index <= usize::MAX - length
                            || state.durable.log[0].term != boundary.last_included_term
                            || match boundary.validate() {
                            Ok(()) => false,
                            Err(_) => true,
                        }
                    },
                }
            },
            StoredState::Legacy(state) => state.log.len() < usize::MAX,
        }
    }

    /// The node that was found, or a new one if there was none.
    pub fn restore<S: StateMachine>(self, id: NodeId, peers: Vec<NodeId>, state_machine: S) -> (result:
        Result<Node<S>, Error>)
        requires
            id < u64::MAX,
            peers.len() < usize::MAX,
            self@.fits_machine(),
        ensures
            node_result(result) == self@.restored::<S>(id, peers@, state_machine@),
            result matches Ok(node) ==> node@.well_formed(),
    {
        match self {
            StoredState::Missing => Ok(Node::new_with_state_machine(id, peers, state_machine)),
            StoredState::Current(state) => state.restore(id, peers, state_machine),
            StoredState::Legacy(state) => Ok(state.restore(id, peers, state_machine)),
        }
    }
}

// ---- files ----

/// The name of the file that is written before it takes the place of another.
pub open spec fn temporary_name_of(name: Option<Seq<char>>) -> Seq<char> {
    "."@ + (match name {
        Some(given) => given,
        None => "state.bin"@,
    }) + ".tmp"@
}

/// The name of the file that is written before it takes the place of the one with
/// the given name, or of one without a name.
pub fn temporary_name(name: Option<&str>) -> (temporary: String)
    ensures
        temporary@ == temporary_name_of(
            match name {
                Some(given) => Some(given@),
                None => None,
            },
        ),
{
    let mut temporary = String::from_str(".");
    match name {
        Some(given) => {
            temporary.append(given);
        },
        None => {
            temporary.append("state.bin");
        },
    }
    temporary.append(".tmp");
    temporary
}

/// What the file of a persisted state starts with: `RKVPST02`.
pub open spec fn persistence_magic() -> Seq<u8> {
    seq![82u8, 75u8, 86u8, 80u8, 83u8, 84u8, 48u8, 50u8]
}

/// What the file of a snapshot starts with: `RKVSNP01`.
pub open spec fn snapshot_magic() -> Seq<u8> {
    seq![82u8, 75u8, 86u8, 83u8, 78u8, 80u8, 48u8, 49u8]
}

fn persistence_magic_bytes() -> (magic: Vec<u8>)
    ensures
        magic@ == persistence_magic(),
{
    let magic: Vec<u8> = vec![82, 75, 86, 80, 83, 84, 48, 50];
    assert(magic@ =~= persistence_magic());
    magic
}

fn snapshot_magic_bytes() -> (magic: Vec<u8>)
    ensures
        magic@ == snapshot_magic(),
{
    let magic: Vec<u8> = vec![82, 75, 86, 83, 78, 80, 48, 49];
    assert(magic@ =~= snapshot_magic());
    magic
}

/// What follows `magic`, if the bytes start with it.
pub open spec fn payload_after(magic: Seq<u8>, bytes: Seq<u8>) -> Option<Seq<u8>> {
    if magic.is_prefix_of(bytes) {
        Some(bytes.skip(magic.len() as int))
    } else {
        None
    }
}

/// What follows `magic`, if the bytes start with it.
fn strip_magic(magic: &Vec<u8>, bytes: &[u8]) -> (payload: Option<Vec<u8>>)
    ensures
        optional_bytes(payload) == payload_after(magic@, bytes@),
{
    if bytes.len() < magic.len() {
        return None;
    }
    let mut i: usize = 0;
    while i < magic.len()
        invariant
            i <= magic.len() <= bytes@.len(),
            forall|j: int| 0 <= j < i ==> magic@[j] == bytes@[j],
        decreases magic.len() - i,
    {
        if magic[i] != bytes[i] {
            return None;
        }
        i += 1;
    }
    assert(magic@ =~= bytes@.take(magic@.len() as int));
    let payload = copy_bytes(bytes, magic.len(), bytes.len());
    assert(payload@ =~= bytes@.skip(magic@.len() as int));
    Some(payload)
}

/// The file of a persisted state, given its encoding.
pub fn persisted_file(payload: Vec<u8>) -> (bytes: Vec<u8>)
    ensures
        bytes@ == persistence_magic() + payload@,
{
    let mut payload = payload;
    let mut bytes = persistence_magic_bytes();
    bytes.append(&mut payload);
    bytes
}

/// The encoding of a persisted state in a file. A file without the magic holds no
/// more than the encoding of a durable state.
pub fn persisted_payload(bytes: &[u8]) -> (payload: Option<Vec<u8>>)
    ensures
        optional_bytes(payload) == payload_after(persistence_magic(), bytes@),
{
    strip_magic(&persistence_magic_bytes(), bytes)
}

/// The file of a snapshot, or why it has none.
pub open spec fn snapshot_file(snapshot: SnapshotView) -> Result<Seq<u8>, Error> {
    match snapshot.validity() {
        Err(error) => Err(error),
        Ok(()) => match snapshot_bytes(snapshot) {
            None => Err(Error::Unencodable),
            Some(bytes) => Ok(snapshot_magic() + bytes),
        },
    }
}

/// The snapshot that a file holds, or why it holds none.
pub open spec fn snapshot_in_file(bytes: Seq<u8>) -> Result<SnapshotView, Error> {
    match payload_after(snapshot_magic(), bytes) {
        None => Err(Error::InvalidSnapshotMagic),
        Some(payload) => match parsed_snapshot(payload) {
            None => Err(Error::Undecodable),
            Some(snapshot) => match snapshot.validity() {
                Err(error) => Err(error),
                Ok(()) => Ok(snapshot),
            },
        },
    }
}

/// The bytes inside.
pub open spec fn bytes_result(result: Result<Vec<u8>, Error>) -> Result<Seq<u8>, Error> {
    match result {
        Ok(bytes) => Ok(bytes@),
        Err(error) => Err(error),
    }
}

/// The file of a snapshot. A malformed snapshot has none, every other has one; what a
/// file holds can be read back.
pub fn encode_snapshot_file(snapshot: &Snapshot) -> (result: Result<Vec<u8>, Error>)
    ensures
        bytes_result(result) == snapshot_file(snapshot@),
        result is Ok <==> snapshot@.valid(),
        result matches Ok(bytes) ==> snapshot_in_file(bytes@) == Ok::<_, Error>(snapshot@),
{
    match snapshot.validate() {
        Ok(()) => {},
        Err(error) => {
            return Err(error);
        },
    }
    match encode_snapshot(snapshot) {
        None => Err(Error::Unencodable),
        Some(payload) => {
            let mut payload = payload;
            let ghost encoding = payload@;
            let mut bytes = snapshot_magic_bytes();
            bytes.append(&mut payload);
            proof {
                law_payload_is_kept(snapshot_magic(), encoding);
            }
            Ok(bytes)
        },
    }
}

/// The snapshot that a file holds.
pub fn decode_snapshot_file(bytes: &[u8]) -> (result: Result<Snapshot, Error>)
    ensures
        snapshot_result(result) == snapshot_in_file(bytes@),
{
    match strip_magic(&snapshot_magic_bytes(), bytes) {
        None => Err(Error::InvalidSnapshotMagic),
        Some(payload) => match decode_snapshot(payload.as_slice()) {
            None => Err(Error::Undecodable),
            Some(snapshot) => match snapshot.validate() {
                Ok(()) => Ok(snapshot),
                Err(error) => Err(error),
            },
        },
    }
}

/// What is put behind a magic is found there again.
pub proof fn law_payload_is_kept(magic: Seq<u8>, payload: Seq<u8>)
    ensures
        payload_after(magic, magic + payload) == Some(payload),
{
    assert((magic + payload).take(magic.len() as int) =~= magic);
    assert((magic + payload).skip(magic.len() as int) =~= payload);
}

/// A snapshot file is not taken for a persisted state, nor the other way round.
pub proof fn law_files_are_told_apart(payload: Seq<u8>)
    ensures
        payload_after(persistence_magic(), snapshot_magic() + payload) is None,
        payload_after(snapshot_magic(), persistence_magic() + payload) is None,
{
    let snapshot = snapshot_magic() + payload;
    let persisted = persistence_magic() + payload;
    assert(snapshot[3] == 83 && persistence_magic()[3] == 80);
    assert(persisted[3] == 80 && snapshot_magic()[3] == 83);
    if persistence_magic().is_prefix_of(snapshot) {
        assert(snapshot.take(8)[3] == snapshot[3]);
    }
    if snapshot_magic().is_prefix_of(persisted) {
        assert(persisted.take(8)[3] == persisted[3]);
    }
}

/// The files of persisted states and of snapshots start with names of their own.
pub proof fn law_files_start_with_their_names()
    ensures
        persistence_magic().len() == 8,
        forall|i: int| 0 <= i < 8 ==> #[trigger] persistence_magic()[i] == "RKVPST02"@[i] as u8,
        snapshot_magic().len() == 8,
        forall|i: int| 0 <= i < 8 ==> #[trigger] snapshot_magic()[i] == "RKVSNP01"@[i] as u8,
{
    reveal_strlit("RKVPST02");
    reveal_strlit("RKVSNP01");
    assert('R' as u8 == 82 && 'K' as u8 == 75 && 'V' as u8 == 86 && 'P' as u8 == 80 && 'S' as u8
        == 83 && 'T' as u8 == 84 && 'N' as u8 == 78 && '0' as u8 == 48 && '1' as u8 == 49
        && '2' as u8 == 50);
}

/// A file that does not start with the name holds nothing behind it, and one that does
/// holds all that follows.
pub proof fn law_payload_needs_the_name(magic: Seq<u8>, bytes: Seq<u8>)
    ensures
        payload_after(magic, bytes) is Some <==> bytes.len() >= magic.len() && forall|i: int|
            0 <= i < magic.len() ==> #[trigger] bytes[i] == magic[i],
        payload_after(magic, bytes) matches Some(payload) ==> bytes == magic + payload,
{
    if bytes.len() >= magic.len() && forall|i: int|
        0 <= i < magic.len() ==> #[trigger] bytes[i] == magic[i] {
        assert(bytes.take(magic.len() as int) =~= magic);
    }
    if magic.is_prefix_of(bytes) {
        assert forall|i: int| 0 <= i < magic.len() implies #[trigger] bytes[i] == magic[i] by {
            assert(bytes.take(magic.len() as int)[i] == bytes[i]);
        }
        assert(bytes =~= magic + bytes.skip(magic.len() as int));
    }
}

/// The file that is written first has the name of the other between a dot and `.tmp`, so
/// that it is never taken for it.
pub proof fn law_temporary_name_is_another(name: Seq<char>)
    ensures
        ({
            let temporary = temporary_name_of(Some(name));
            &&& temporary == seq!['.'] + name + seq!['.', 't', 'm', 'p']
            &&& temporary != name
            &&& temporary_name_of(None) == temporary_name_of(Some("state.bin"@))
        }),
{
    reveal_strlit(".");
    reveal_strlit(".tmp");
    let temporary = temporary_name_of(Some(name));
    assert("."@ =~= seq!['.']);
    assert(".tmp"@ =~= seq!['.', 't', 'm', 'p']);
    assert(temporary.len() == name.len() + 5);
}

/// What is kept of a node is its term, its vote, its log, what it has committed and its
/// snapshot, in the format of today.
pub proof fn law_node_is_kept_whole<S: StateMachine>(node: NodeModel<S>)
    ensures
        ({
            let kept = PersistedStateView::of_node(node);
            &&& kept.version == 2
            &&& kept.durable.current_term == node.current_term
            &&& kept.durable.voted_for == node.voted_for
            &&& kept.durable.log == node.log
            &&& kept.durable.commit_index == node.commit_index
            &&& kept.snapshot == node.snapshot
            &&& DurableStateView::of_node(node) == kept.durable
        }),
{
}

/// What was found on disk becomes a node: nothing becomes a new node, a durable state
/// alone the node of its parts, and a whole state, if it is of the format of today, the
/// node of its parts and its snapshot; one of another format is refused.
pub proof fn law_found_state_becomes_a_node<S: StateMachine>(
    id: NodeId,
    peers: Seq<NodeId>,
    state: S::V,
    kept: PersistedStateView,
)
    ensures
        StoredStateView::Missing.restored::<S>(id, peers, state) == Ok::<NodeModel<S>, Error>(
            NodeModel::<S>::initial(id, peers, state),
        ),
        StoredStateView::Legacy(kept.durable).restored::<S>(id, peers, state) == Ok::<
            NodeModel<S>,
            Error,
        >(
            NodeModel::<S>::from_parts(
                id,
                peers,
                kept.durable.current_term,
                kept.durable.voted_for,
                kept.durable.log,
                kept.durable.commit_index,
                state,
            ),
        ),
        kept.version == 2 ==> StoredStateView::Current(kept).restored::<S>(id, peers, state)
            == NodeModel::<S>::from_persisted_parts(
            id,
            peers,
            kept.durable.current_term,
            kept.durable.voted_for,
            kept.durable.log,
            kept.durable.commit_index,
            kept.snapshot,
            state,
        ),
        kept.version != 2 ==> StoredStateView::Current(kept).restored::<S>(id, peers, state)
            == Err::<NodeModel<S>, Error>(Error::UnsupportedPersistedVersion),
{
}

/// The file of a snapshot that is in order is its encoding behind the name of such files;
/// one that is not in order has none.
pub proof fn law_snapshot_file_holds_the_encoding(snapshot: SnapshotView)
    ensures
        !is_in_order(snapshot) ==> snapshot_file(snapshot) is Err,
        is_in_order(snapshot) ==> (snapshot_bytes(snapshot) matches Some(bytes)
            ==> snapshot_file(snapshot) == Ok::<Seq<u8>, Error>(snapshot_magic() + bytes)),
{
    law_valid_snapshot_is_in_order(snapshot);
}

/// What a file holds: nothing without the name, nothing if what follows does not decode,
/// and a snapshot only if that is in order.
pub proof fn law_snapshot_file_is_read_with_care(payload: Seq<u8>, bytes: Seq<u8>)
    ensures
        ({
            let file = snapshot_magic() + payload;
            &&& match parsed_snapshot(payload) {
                None => snapshot_in_file(file) == Err::<SnapshotView, Error>(Error::Undecodable),
                Some(snapshot) => {
                    &&& is_in_order(snapshot) ==> snapshot_in_file(file) == Ok::<
                        SnapshotView,
                        Error,
                    >(snapshot)
                    &&& !is_in_order(snapshot) ==> snapshot_in_file(file) is Err
                },
            }
            &&& payload_after(snapshot_magic(), bytes) is None ==> snapshot_in_file(bytes) == Err::<
                SnapshotView,
                Error,
            >(Error::InvalidSnapshotMagic)
        }),
{
    law_payload_is_kept(snapshot_magic(), payload);
    if let Some(snapshot) = parsed_snapshot(payload) {
        law_valid_snapshot_is_in_order(snapshot);
    }
}

} // verus!
