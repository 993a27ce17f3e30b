//! Recorded operations and whether they could have happened one at a time.
use crate::types::ClientReply;
use crate::types::ClientReplyView;
use crate::types::ClientRequest;
use crate::types::ClientRequestView;
use vstd::prelude::*;

pub mod check;
pub mod laws;
pub mod model;
pub mod orders;
pub mod search;

verus! {

/// The most operations that the checker looks at.
pub const MAX_CHECKED_OPERATIONS: usize = 64;

/// The most states that one search explores.
pub const MAX_SEARCH_STATES: usize = 100000;

/// A request of a client and the reply to it, with the times of both.
#[derive(Debug, PartialEq, Eq)]
pub struct HistoryOperation {
    pub id: u64,
    pub client_id: u64,
    pub invoked_at: u64,
    pub completed_at: u64,
    pub request: ClientRequest,
    pub response: ClientReply,
}

pub struct HistoryOperationView {
    pub id: u64,
    pub client_id: u64,
    pub invoked_at: u64,
    pub completed_at: u64,
    pub request: ClientRequestView,
    pub response: ClientReplyView,
}

impl View for HistoryOperation {
    type V = HistoryOperationView;

    open spec fn view(&self) -> HistoryOperationView {
        HistoryOperationView {
            id: self.id,
            client_id: self.client_id,
            invoked_at: self.invoked_at,
            completed_at: self.completed_at,
            request: self.request@,
            response: self.response@,
        }
    }
}

impl DeepView for HistoryOperation {
    type V = HistoryOperationView;

    open spec fn deep_view(&self) -> HistoryOperationView {
        self@
    }
}

impl Clone for HistoryOperation {
    fn clone(&self) -> (copy: Self)
        ensures
            copy@ == self@,
    {
        HistoryOperation {
            id: self.id,
            client_id: self.client_id,
            invoked_at: self.invoked_at,
            completed_at: self.completed_at,
            request: self.request.clone(),
            response: self.response.clone(),
        }
    }
}

/// A copy of some operations.
pub fn copy_operations(operations: &Vec<HistoryOperation>) -> (copy: Vec<HistoryOperation>)
    ensures
        copy.deep_view() == operations.deep_view(),
{
    let mut copy: Vec<HistoryOperation> = Vec::new();
    let mut i: usize = 0;
    while i < operations.len()
        invariant
            i <= operations.len(),
            copy.len() == i,
            forall|j: int| 0 <= j < i ==> (#[trigger] copy[j])@ == operations[j]@,
        decreases operations.len() - i,
    {
        copy.push(operations[i].clone());
        i += 1;
    }
    assert(copy.deep_view() =~= operations.deep_view());
    copy
}

/// Operations in the order of recording.
#[derive(Debug, PartialEq, Eq)]
pub struct OperationHistory {
    operations: Vec<HistoryOperation>,
}

impl View for OperationHistory {
    type V = Seq<HistoryOperationView>;

    closed spec fn view(&self) -> Seq<HistoryOperationView> {
        self.operations.deep_view()
    }
}

impl Clone for OperationHistory {
    fn clone(&self) -> (copy: Self)
        ensures
            copy@ == self@,
    {
        OperationHistory { operations: copy_operations(&self.operations) }
    }
}

impl Default for OperationHistory {
    fn default() -> (history: Self)
        ensures
            history@ == Seq::<HistoryOperationView>::empty(),
    {
        OperationHistory::new()
    }
}

impl OperationHistory {
    pub fn new() -> (history: Self)
        ensures
            history@ == Seq::<HistoryOperationView>::empty(),
    {
        let history = OperationHistory { operations: Vec::new() };
        assert(history@ =~= Seq::<HistoryOperationView>::empty());
        history
    }

    /// Records an operation, given by its parts.
    pub fn record(
        &mut self,
        id: u64,
        client_id: u64,
        invoked_at: u64,
        completed_at: u64,
        request: ClientRequest,
        response: ClientReply,
    )
        ensures
            final(self)@ == old(self)@.push(
                HistoryOperationView {
                    id,
                    client_id,
                    invoked_at,
                    completed_at,
                    request: request@,
                    response: response@,
                },
            ),
    {
        self.push(
            HistoryOperation { id, client_id, invoked_at, completed_at, request, response },
        );
    }

    /// Records an operation.
    pub fn push(&mut self, operation: HistoryOperation)
        ensures
            final(self)@ == old(self)@.push(operation@),
    {
        let ghost before = self@;
        self.operations.push(operation);
        assert(self@ =~= before.push(operation@));
    }

    pub fn operations(&self) -> (operations: &[HistoryOperation])
        ensures
            Seq::new(operations@.len(), |i: int| operations@[i]@) == self@,
    {
        let operations = self.operations.as_slice();
        assert(Seq::new(operations@.len(), |i: int| operations@[i]@) =~= self@);
        operations
    }

    pub fn is_empty(&self) -> (empty: bool)
        ensures
            empty == (self@.len() == 0),
    {
        self.operations.len() == 0
    }

    pub fn len(&self) -> (length: usize)
        ensures
            length == self@.len(),
    {
        self.operations.len()
    }

    pub fn clear(&mut self)
        ensures
            final(self)@ == Seq::<HistoryOperationView>::empty(),
    {
        self.operations.clear();
        assert(self@ =~= Seq::<HistoryOperationView>::empty());
    }
}

} // verus!
