use vstd::prelude::*;
use crate::object::{Object, ObjectId};

verus! {

/// What a client asks for: a base object and one traversal mode.
#[derive(Clone, Copy, Debug)]
pub enum WantQuery {
    /// The base commit and its ancestors up to the given number of generations.
    CommitAncestry(ObjectId, usize),
    /// The base tree and everything it references, recursively.
    PeelTree(ObjectId),
    /// The base blob alone.
    PeelBlob(ObjectId),
}

impl WantQuery {
    pub open spec fn spec_base(&self) -> ObjectId {
        match *self {
            WantQuery::CommitAncestry(base, _) => base,
            WantQuery::PeelTree(base) => base,
            WantQuery::PeelBlob(base) => base,
        }
    }

    /// A request for the object alone: ancestry of depth zero.
    pub fn object(oid: ObjectId) -> (r: WantQuery)
        ensures
            r == WantQuery::CommitAncestry(oid, 0),
    {
        WantQuery::CommitAncestry(oid, 0)
    }

    /// The object the query starts from.
    #[verifier::when_used_as_spec(spec_base)]
    pub fn base(&self) -> (r: ObjectId)
        ensures
            r == self.spec_base(),
    {
        match *self {
            WantQuery::CommitAncestry(base, _) => base,
            WantQuery::PeelTree(base) => base,
            WantQuery::PeelBlob(base) => base,
        }
    }

    /// The same base, asking for `depth` generations of commit ancestry.
    pub fn with_ancestry(self, depth: usize) -> (r: WantQuery)
        ensures
            r == WantQuery::CommitAncestry(self.spec_base(), depth),
    {
        WantQuery::CommitAncestry(self.base(), depth)
    }

    /// The same base, asking for the full expansion of a tree.
    pub fn as_tree_peel(self) -> (r: WantQuery)
        ensures
            r == WantQuery::PeelTree(self.spec_base()),
    {
        WantQuery::PeelTree(self.base())
    }

    /// The same base, asking for a single blob.
    pub fn as_blob_peel(self) -> (r: WantQuery)
        ensures
            r == WantQuery::PeelBlob(self.spec_base()),
    {
        WantQuery::PeelBlob(self.base())
    }
}

/// A message from the client.
#[derive(Clone, Copy, Debug)]
pub enum ClientCommand {
    Want(WantQuery),
}

/// A message to the client: one resolved object.
#[derive(Clone, Debug)]
pub enum ServerCommand {
    Push(Object),
}

} // verus!
