//! Snapshots as bytes.
use crate::kv_map::Pairs;
use crate::types::Snapshot;
use crate::types::SnapshotView;
use crate::types::StateSnapshot;
use crate::types::StateSnapshotView;
use vstd::prelude::*;

verus! {

/// What `bincode::serialize` makes of a snapshot's fields: the format version,
/// the boundary's index and term, then the state's format version, its index
/// and its pairs. `None` stands for an encoding error.
pub uninterp spec fn bincode_bytes(
    version: u32,
    index: u64,
    term: u64,
    state_version: u32,
    state_index: u64,
    pairs: Seq<(Seq<char>, Seq<char>)>,
) -> Option<Seq<u8>>;

/// What `bincode::deserialize` reads as a snapshot's fields at the start of
/// some bytes. `None` stands for a decoding error.
pub uninterp spec fn bincode_fields(bytes: Seq<u8>) -> Option<
    (u32, u64, u64, (u32, u64, Seq<(Seq<char>, Seq<char>)>)),
>;

/// The fields of a snapshot in the order in which they are encoded.
type SnapshotFields = (u32, u64, u64, (u32, u64, Vec<(String, String)>));

/// The bytes inside, if there are any.
pub open spec fn optional_bytes(bytes: Option<Vec<u8>>) -> Option<Seq<u8>> {
    match bytes {
        Some(inner) => Some(inner@),
        None => None,
    }
}

pub open spec fn fields_view(fields: Option<SnapshotFields>) -> Option<
    (u32, u64, u64, (u32, u64, Pairs)),
> {
    match fields {
        Some((version, index, term, (state_version, state_index, pairs))) => Some(
            (version, index, term, (state_version, state_index, pairs.deep_view())),
        ),
        None => None,
    }
}

/// Calls `bincode::serialize` on the fields as nested tuples. Believed of it:
/// without a size limit, on integers, strings and a sequence of known length, it
/// does not fail; the bytes are a function of the fields, and
/// `bincode::deserialize` reads the same fields back from them.
#[verifier::external_body]
fn serialize_fields(
    version: u32,
    index: u64,
    term: u64,
    state_version: u32,
    state_index: u64,
    pairs: &Vec<(String, String)>,
) -> (bytes: Option<Vec<u8>>)
    ensures
        optional_bytes(bytes) == bincode_bytes(
            version,
            index,
            term,
            state_version,
            state_index,
            pairs.deep_view(),
        ),
        bytes is Some,
        bytes matches Some(inner) ==> bincode_fields(inner@) == Some(
            (version, index, term, (state_version, state_index, pairs.deep_view())),
        ),
{
    bincode::serialize(&(version, index, term, (state_version, state_index, pairs))).ok()
}

/// Calls `bincode::deserialize` for the fields as nested tuples. Believed of it:
/// what it reads is a function of the bytes.
#[verifier::external_body]
fn deserialize_fields(bytes: &[u8]) -> (fields: Option<SnapshotFields>)
    ensures
        fields_view(fields) == bincode_fields(bytes@),
{
    bincode::deserialize(bytes).ok()
}

/// A snapshot's encoding, if it has one.
pub open spec fn snapshot_bytes(snapshot: SnapshotView) -> Option<Seq<u8>> {
    bincode_bytes(
        snapshot.version,
        snapshot.last_included_index as u64,
        snapshot.last_included_term,
        snapshot.state.version,
        snapshot.state.last_applied as u64,
        snapshot.state.data,
    )
}

/// The snapshot that some bytes encode, if they encode one whose indexes this
/// machine can hold.
pub open spec fn parsed_snapshot(bytes: Seq<u8>) -> Option<SnapshotView> {
    match bincode_fields(bytes) {
        Some((version, index, term, (state_version, state_index, pairs))) => {
            if index <= usize::MAX && state_index <= usize::MAX {
                Some(
                    SnapshotView {
                        version,
                        last_included_index: index as usize,
                        last_included_term: term,
                        state: StateSnapshotView {
                            version: state_version,
                            last_applied: state_index as usize,
                            data: pairs,
                        },
                    },
                )
            } else {
                None
            }
        },
        None => None,
    }
}

/// Encodes a snapshot. Every snapshot has an encoding, and it decodes to the same
/// snapshot.
pub fn encode_snapshot(snapshot: &Snapshot) -> (bytes: Option<Vec<u8>>)
    ensures
        optional_bytes(bytes) == snapshot_bytes(snapshot@),
        bytes matches Some(inner) && parsed_snapshot(inner@) == Some(snapshot@),
{
    serialize_fields(
        snapshot.version,
        snapshot.last_included_index as u64,
        snapshot.last_included_term,
        snapshot.state.version,
        snapshot.state.last_applied as u64,
        &snapshot.state.data,
    )
}

/// Builds a snapshot from decoded fields, unless an index is too large for this
/// machine.
pub fn snapshot_from_fields(fields: Option<SnapshotFields>) -> (snapshot: Option<Snapshot>)
    ensures
        match fields_view(fields) {
            Some((version, index, term, (state_version, state_index, pairs))) => {
                if index <= usize::MAX && state_index <= usize::MAX {
                    snapshot.deep_view() == Some(
                        SnapshotView {
                            version,
                            last_included_index: index as usize,
                            last_included_term: term,
                            state: StateSnapshotView {
                                version: state_version,
                                last_applied: state_index as usize,
                                data: pairs,
                            },
                        },
                    )
                } else {
                    snapshot is None
                }
            },
            None => snapshot is None,
        },
{
    match fields {
        Some((version, index, term, (state_version, state_index, data))) => {
            if index > usize::MAX as u64 || state_index > usize::MAX as u64 {
                return None;
            }
            Some(
                Snapshot {
                    version,
                    last_included_index: index as usize,
                    last_included_term: term,
                    state: StateSnapshot {
                        version: state_version,
                        last_applied: state_index as usize,
                        data,
                    },
                },
            )
        },
        None => None,
    }
}

/// Decodes the snapshot that the bytes start with.
pub fn decode_snapshot(bytes: &[u8]) -> (snapshot: Option<Snapshot>)
    ensures
        snapshot.deep_view() == parsed_snapshot(bytes@),
{
    snapshot_from_fields(deserialize_fields(bytes))
}

pub const HASH_START: u64 = 0xcbf2_9ce4_8422_2325;

pub const HASH_PRIME: u64 = 0x100_0000_01b3;

/// The 64-bit FNV-1a hash of some bytes.
pub open spec fn fnv1a(bytes: Seq<u8>) -> u64
    decreases bytes.len(),
{
    if bytes.len() == 0 {
        HASH_START
    } else {
        (fnv1a(bytes.drop_last()) ^ (bytes.last() as u64)).wrapping_mul(HASH_PRIME)
    }
}

/// Hashes some bytes.
pub fn hash_bytes(bytes: &[u8]) -> (hash: u64)
    ensures
        hash == fnv1a(bytes@),
{
    let mut hash: u64 = HASH_START;
    let mut i: usize = 0;
    while i < bytes.len()
        invariant
            i <= bytes@.len(),
            hash == fnv1a(bytes@.take(i as int)),
        decreases bytes@.len() - i,
    {
        assert(bytes@.take(i + 1).drop_last() =~= bytes@.take(i as int));
        hash = (hash ^ (bytes[i] as u64)).wrapping_mul(HASH_PRIME);
        i += 1;
    }
    assert(bytes@.take(i as int) =~= bytes@);
    hash
}

/// The id under which a snapshot is transferred: the hash of its encoding.
pub open spec fn transfer_id(snapshot: SnapshotView) -> u64 {
    match snapshot_bytes(snapshot) {
        Some(bytes) => fnv1a(bytes),
        None => HASH_START,
    }
}

/// The id under which a snapshot is transferred.
pub fn snapshot_id(snapshot: &Snapshot) -> (id: u64)
    ensures
        id == transfer_id(snapshot@),
{
    match encode_snapshot(snapshot) {
        Some(bytes) => hash_bytes(bytes.as_slice()),
        None => HASH_START,
    }
}

/// The id of a transfer is the hash of the snapshot's encoding: each byte is mixed into the
/// hash of those before it.
pub proof fn law_hash_mixes_byte_by_byte(snapshot: SnapshotView, bytes: Seq<u8>, byte: u8)
    ensures
        fnv1a(Seq::empty()) == 14695981039346656037,
        fnv1a(bytes.push(byte)) == (fnv1a(bytes) ^ (byte as u64)).wrapping_mul(1099511628211),
        snapshot_bytes(snapshot) matches Some(encoding) ==> transfer_id(snapshot) == fnv1a(
            encoding,
        ),
{
    assert(bytes.push(byte).drop_last() =~= bytes);
}

/// A snapshot is encoded field by field, and read back field by field: what the fields of
/// one encoding hold is what a snapshot of the same fields holds.
pub proof fn law_snapshot_is_read_back_field_by_field(snapshot: SnapshotView, bytes: Seq<u8>)
    ensures
        bincode_fields(bytes) == Some(
            (
                snapshot.version,
                snapshot.last_included_index as u64,
                snapshot.last_included_term,
                (
                    snapshot.state.version,
                    snapshot.state.last_applied as u64,
                    snapshot.state.data,
                ),
            ),
        ) ==> parsed_snapshot(bytes) == Some(snapshot),
        snapshot_bytes(snapshot) == bincode_bytes(
            snapshot.version,
            snapshot.last_included_index as u64,
            snapshot.last_included_term,
            snapshot.state.version,
            snapshot.state.last_applied as u64,
            snapshot.state.data,
        ),
{
}

} // verus!
