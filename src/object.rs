use vstd::prelude::*;

verus! {

/// Content hash that identifies an object in the store.
#[derive(Clone, Copy, Debug, Eq, Hash)]
pub struct ObjectId {
    pub bytes: [u8; 20],
}

impl PartialEq for ObjectId {
    fn eq(&self, o: &ObjectId) -> (r: bool) {
        let mut i: usize = 0;
        while i < 20
            invariant
                0 <= i <= 20,
                forall|j: int| 0 <= j < i ==> self.bytes[j] == o.bytes[j],
            decreases 20 - i,
        {
            if self.bytes[i] != o.bytes[i] {
                return false;
            }
            i += 1;
        }
        assert(self.bytes =~= o.bytes);
        true
    }
}

impl vstd::std_specs::cmp::PartialEqSpecImpl for ObjectId {
    open spec fn obeys_eq_spec() -> bool {
        true
    }

    open spec fn eq_spec(&self, o: &ObjectId) -> bool {
        self.bytes == o.bytes
    }
}

/// The structural kind of a stored object.
#[derive(Clone, Copy, Debug, PartialEq, Eq, Structural)]
pub enum ObjectKind {
    Commit,
    Tree,
    Blob,
}

/// What a tree entry points at: a subtree or a blob.
#[derive(Clone, Copy, Debug, PartialEq, Eq, Structural)]
pub enum EntryKind {
    Tree,
    Blob,
}

impl EntryKind {
    pub open spec fn spec_object_kind(self) -> ObjectKind {
        match self {
            EntryKind::Tree => ObjectKind::Tree,
            EntryKind::Blob => ObjectKind::Blob,
        }
    }

    /// The kind of object that an entry of this kind must resolve to.
    #[verifier::when_used_as_spec(spec_object_kind)]
    pub fn object_kind(self) -> (r: ObjectKind)
        ensures
            r == self.spec_object_kind(),
    {
        match self {
            EntryKind::Tree => ObjectKind::Tree,
            EntryKind::Blob => ObjectKind::Blob,
        }
    }
}

/// One named entry of a tree.
#[derive(Clone, Debug)]
pub struct TreeEntry {
    pub name: String,
    pub id: ObjectId,
    pub kind: EntryKind,
}

/// A stored object. Parent order and entry order are significant.
#[derive(Clone, Debug)]
pub enum Object {
    Commit { summary: String, parents: Vec<ObjectId> },
    Tree { entries: Vec<TreeEntry> },
    Blob { payload: Vec<u8> },
}

impl Object {
    pub open spec fn spec_kind(&self) -> ObjectKind {
        match self {
            Object::Commit { .. } => ObjectKind::Commit,
            Object::Tree { .. } => ObjectKind::Tree,
            Object::Blob { .. } => ObjectKind::Blob,
        }
    }

    /// The variant of this object.
    #[verifier::when_used_as_spec(spec_kind)]
    pub fn kind(&self) -> (r: ObjectKind)
        ensures
            r == self.spec_kind(),
    {
        match self {
            Object::Commit { .. } => ObjectKind::Commit,
            Object::Tree { .. } => ObjectKind::Tree,
            Object::Blob { .. } => ObjectKind::Blob,
        }
    }
}

} // verus!
