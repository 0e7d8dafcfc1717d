use vstd::prelude::*;
use vstd::set_lib::lemma_len_subset;
use std::collections::VecDeque;
use crate::object::{Object, ObjectId, ObjectKind, TreeEntry};
use crate::protocol::{ClientCommand, WantQuery};
use crate::reach::{
    ancestors, entry_ids, lemma_peeled_grows, lemma_within_deeper, lemma_within_grows, parent_ids, peeled_from,
    tree_reach, within,
};

verus! {

/// One pending unit of work: an id to look up, the kind it must have, and
/// how many more generations of ancestry may follow it.
#[derive(Clone, Copy, Debug)]
pub struct WorkItem {
    pub id: ObjectId,
    pub kind: ObjectKind,
    pub depth: usize,
}

/// Why a resolution stopped.
#[derive(Clone, Copy, Debug, PartialEq, Eq)]
pub enum ResolveError {
    /// The store holds no object with this id.
    NotFound(ObjectId),
    /// The object exists but has the wrong kind: id, expected kind, actual kind.
    TypeMismatch(ObjectId, ObjectKind, ObjectKind),
}

/// The work a query starts with.
pub open spec fn root_item(q: WantQuery) -> WorkItem {
    match q {
        WantQuery::CommitAncestry(base, depth) => WorkItem { id: base, kind: ObjectKind::Commit, depth },
        WantQuery::PeelTree(base) => WorkItem { id: base, kind: ObjectKind::Tree, depth: 0 },
        WantQuery::PeelBlob(base) => WorkItem { id: base, kind: ObjectKind::Blob, depth: 0 },
    }
}

/// The work a parent contributes, with the depth left below it.
pub open spec fn parent_item(p: ObjectId, depth: usize) -> WorkItem {
    WorkItem { id: p, kind: ObjectKind::Commit, depth }
}

/// The work a tree entry contributes: an object of the entry's kind.
pub open spec fn entry_item(e: TreeEntry) -> WorkItem {
    WorkItem { id: e.id, kind: e.kind.spec_object_kind(), depth: 0 }
}

/// The frontier after `o` was emitted for `item`, `rest` being the items
/// behind it: a commit's parents join the back (breadth first, only while
/// depth remains), a tree's entries go to the front in declared order
/// (depth first), a blob adds nothing.
pub open spec fn expand(rest: Seq<WorkItem>, item: WorkItem, o: Object) -> Seq<WorkItem> {
    match o {
        Object::Commit { parents, .. } => if item.depth > 0 {
            rest + parents@.map_values(|p: ObjectId| parent_item(p, (item.depth - 1) as usize))
        } else {
            rest
        },
        Object::Tree { entries } => entries@.map_values(|e: TreeEntry| entry_item(e)) + rest,
        Object::Blob { .. } => rest,
    }
}

/// The frontier with its leading already-visited items dropped.
pub open spec fn skip_visited(frontier: Seq<WorkItem>, visited: Seq<ObjectId>) -> Seq<WorkItem>
    decreases frontier.len(),
{
    if frontier.len() == 0 {
        frontier
    } else if visited.contains(frontier[0].id) {
        skip_visited(frontier.drop_first(), visited)
    } else {
        frontier
    }
}

/// What looking up `item` yields, given what the store returned for its id.
pub open spec fn lookup_outcome(item: WorkItem, found: Option<Object>) -> Result<Object, ResolveError> {
    match found {
        None => Err(ResolveError::NotFound(item.id)),
        Some(o) => if o.spec_kind() == item.kind {
            Ok(o)
        } else {
            Err(ResolveError::TypeMismatch(item.id, item.kind, o.spec_kind()))
        },
    }
}

/// The tree peel's invariant: pending items are trees or blobs, and
/// everything pending or emitted lies beneath the base.
spec fn peel_holds(known: Map<ObjectId, Object>, base: ObjectId, frontier: Seq<WorkItem>, visited: Seq<ObjectId>) -> bool {
    &&& forall|i: int| 0 <= i < frontier.len() ==> (#[trigger] frontier[i]).kind != ObjectKind::Commit
    &&& forall|i: int| 0 <= i < frontier.len() ==> peeled_from(known, base, #[trigger] frontier[i].id)
    &&& forall|i: int| 0 <= i < visited.len() ==> peeled_from(known, base, #[trigger] visited[i])
}

/// Emitting a tree or a blob keeps the tree peel's invariant.
proof fn lemma_peel_step(
    known: Map<ObjectId, Object>,
    base: ObjectId,
    frontier: Seq<WorkItem>,
    visited: Seq<ObjectId>,
    o: Object,
)
    requires
        peel_holds(known, base, frontier, visited),
        frontier.len() > 0,
        !known.contains_key(frontier[0].id),
        o.spec_kind() == frontier[0].kind,
    ensures
        peel_holds(
            known.insert(frontier[0].id, o),
            base,
            expand(frontier.drop_first(), frontier[0], o),
            visited.push(frontier[0].id),
        ),
{
    let item = frontier[0];
    let k1 = known.insert(item.id, o);
    let rest = frontier.drop_first();
    let next = expand(rest, item, o);
    assert(known.submap_of(k1));
    assert(peeled_from(known, base, frontier[0].id));
    lemma_peeled_grows(known, k1, base, item.id);
    let n0 = choose|n: nat| tree_reach(k1, base, item.id, n);
    assert(frontier[0].kind != ObjectKind::Commit);
    assert forall|i: int| 0 <= i < next.len() implies (#[trigger] next[i]).kind != ObjectKind::Commit by {
        if let Object::Tree { entries } = o {
            if i >= entries@.len() {
                assert(next[i] == frontier[i - entries@.len() + 1]);
            }
        } else {
            assert(next[i] == frontier[i + 1]);
        }
    }
    assert forall|i: int| 0 <= i < next.len() implies peeled_from(k1, base, #[trigger] next[i].id) by {
        if let Object::Tree { entries } = o {
            let m = entries@.len();
            if i < m {
                assert(next[i] == entry_item(entries@[i]));
                assert(entry_ids(k1[item.id])[i] == next[i].id);
                assert(k1.contains_key(item.id) && entry_ids(k1[item.id]).contains(next[i].id) && tree_reach(k1, base, item.id, n0));
                assert(tree_reach(k1, base, next[i].id, n0 + 1));
            } else {
                assert(next[i] == frontier[i - m + 1]);
                lemma_peeled_grows(known, k1, base, next[i].id);
            }
        } else {
            assert(next[i] == frontier[i + 1]);
            lemma_peeled_grows(known, k1, base, next[i].id);
        }
    }
    let v1 = visited.push(item.id);
    assert forall|i: int| 0 <= i < v1.len() implies peeled_from(k1, base, #[trigger] v1[i]) by {
        if i < visited.len() {
            assert(v1[i] == visited[i]);
            lemma_peeled_grows(known, k1, base, visited[i]);
        }
    }
}

/// The ancestry traversal's invariant: pending items are commits within
/// their share of the depth, and every emitted id is within `depth`.
spec fn ancestry_holds(
    known: Map<ObjectId, Object>,
    base: ObjectId,
    depth: usize,
    frontier: Seq<WorkItem>,
    visited: Seq<ObjectId>,
) -> bool {
    &&& forall|i: int| 0 <= i < frontier.len() ==> {
        &&& (#[trigger] frontier[i]).kind == ObjectKind::Commit
        &&& frontier[i].depth <= depth
        &&& within(known, base, frontier[i].id, (depth - frontier[i].depth) as nat)
    }
    &&& forall|i: int| 0 <= i < visited.len() ==> within(known, base, #[trigger] visited[i], depth as nat)
}

/// Emitting a commit keeps the ancestry invariant.
proof fn lemma_ancestry_step(
    known: Map<ObjectId, Object>,
    base: ObjectId,
    depth: usize,
    frontier: Seq<WorkItem>,
    visited: Seq<ObjectId>,
    o: Object,
)
    requires
        ancestry_holds(known, base, depth, frontier, visited),
        frontier.len() > 0,
        !known.contains_key(frontier[0].id),
        o.spec_kind() == frontier[0].kind,
    ensures
        ancestry_holds(
            known.insert(frontier[0].id, o),
            base,
            depth,
            expand(frontier.drop_first(), frontier[0], o),
            visited.push(frontier[0].id),
        ),
{
    let item = frontier[0];
    let k1 = known.insert(item.id, o);
    let rest = frontier.drop_first();
    let next = expand(rest, item, o);
    let n0 = (depth - item.depth) as nat;
    assert(known.submap_of(k1));
    assert(frontier[0].kind == ObjectKind::Commit);
    lemma_within_grows(known, k1, base, item.id, n0);
    assert forall|i: int| 0 <= i < next.len() implies {
        &&& (#[trigger] next[i]).kind == ObjectKind::Commit
        &&& next[i].depth <= depth
        &&& within(k1, base, next[i].id, (depth - next[i].depth) as nat)
    } by {
        if i < rest.len() {
            assert(rest[i] == frontier[i + 1]);
            lemma_within_grows(known, k1, base, rest[i].id, (depth - rest[i].depth) as nat);
        } else {
            let p = parent_ids(o)[i - rest.len()];
            assert(next[i] == parent_item(p, (item.depth - 1) as usize));
            assert(k1.contains_key(item.id) && parent_ids(k1[item.id]).contains(p) && within(k1, base, item.id, n0));
            assert((depth - next[i].depth) as nat - 1 == n0);
        }
    }
    let v1 = visited.push(item.id);
    assert forall|i: int| 0 <= i < v1.len() implies within(k1, base, #[trigger] v1[i], depth as nat) by {
        if i < visited.len() {
            assert(v1[i] == visited[i]);
            lemma_within_grows(known, k1, base, visited[i], depth as nat);
        } else {
            lemma_within_deeper(k1, base, item.id, n0, depth as nat);
        }
    }
}

/// A frontier whose ids were all emitted has nothing left to look up.
proof fn lemma_skip_all_visited(frontier: Seq<WorkItem>, visited: Seq<ObjectId>)
    requires
        forall|i: int| 0 <= i < frontier.len() ==> visited.contains(#[trigger] frontier[i].id),
    ensures
        skip_visited(frontier, visited).len() == 0,
    decreases frontier.len(),
{
    if frontier.len() > 0 {
        let tail = frontier.drop_first();
        assert forall|i: int| 0 <= i < tail.len() implies visited.contains(#[trigger] tail[i].id) by {
            assert(tail[i] == frontier[i + 1]);
        }
        assert(visited.contains(frontier[0].id));
        lemma_skip_all_visited(tail, visited);
    }
}

/// Resolution of one query as a pull-driven state machine: the caller asks
/// which id is wanted next, looks it up in its store, and hands the result
/// back; each accepted object is to be pushed to the client.
pub struct Resolver {
    query: WantQuery,
    frontier: VecDeque<WorkItem>,
    visited: Vec<ObjectId>,
    failed: bool,
    known: Ghost<Map<ObjectId, Object>>,
}

impl Resolver {
    pub closed spec fn query(&self) -> WantQuery {
        self.query
    }

    /// Pending work, next item first.
    pub closed spec fn frontier(&self) -> Seq<WorkItem> {
        self.frontier@
    }

    /// Ids emitted so far, in emission order.
    pub closed spec fn emitted(&self) -> Seq<ObjectId> {
        self.visited@
    }

    /// Whether the resolution stopped on an error.
    pub closed spec fn failed(&self) -> bool {
        self.failed
    }

    /// The objects accepted so far, by id.
    pub closed spec fn known(&self) -> Map<ObjectId, Object> {
        self.known@
    }

    /// A lookup result is awaited for the head of the frontier.
    pub open spec fn waiting(&self) -> bool {
        &&& !self.failed()
        &&& self.frontier().len() > 0
        &&& !self.emitted().contains(self.frontier()[0].id)
    }

    pub closed spec fn wf(&self) -> bool {
        &&& self.visited@.no_duplicates()
        &&& self.known@.dom().finite()
        &&& forall|id: ObjectId| self.known@.contains_key(id) <==> self.visited@.contains(id)
        &&& (self.visited@.len() == 0 && !self.failed) ==> self.frontier@ == seq![root_item(self.query)]
        &&& self.visited@.len() > 0 ==> self.visited@[0] == self.query.spec_base()
        &&& match self.query {
            WantQuery::CommitAncestry(base, depth) => ancestry_holds(self.known@, base, depth, self.frontier@, self.visited@),
            WantQuery::PeelTree(base) => peel_holds(self.known@, base, self.frontier@, self.visited@),
            WantQuery::PeelBlob(base) => {
                &&& forall|i: int| 0 <= i < self.frontier@.len() ==> #[trigger] self.frontier@[i] == root_item(self.query)
                &&& forall|i: int| 0 <= i < self.visited@.len() ==> #[trigger] self.visited@[i] == base
            },
        }
    }

    /// A resolver for `query` that has done no work yet.
    pub fn new(query: WantQuery) -> (r: Resolver)
        ensures
            r.wf(),
            r.query() == query,
            r.frontier() == seq![root_item(query)],
            r.emitted() == Seq::<ObjectId>::empty(),
            !r.failed(),
            r.known() == Map::<ObjectId, Object>::empty(),
    {
        let item = match query {
            WantQuery::CommitAncestry(base, depth) => WorkItem { id: base, kind: ObjectKind::Commit, depth },
            WantQuery::PeelTree(base) => WorkItem { id: base, kind: ObjectKind::Tree, depth: 0 },
            WantQuery::PeelBlob(base) => WorkItem { id: base, kind: ObjectKind::Blob, depth: 0 },
        };
        let mut frontier = VecDeque::new();
        frontier.push_back(item);
        assert(frontier@ =~= seq![root_item(query)]);
        assert(tree_reach(Map::empty(), query.spec_base(), query.spec_base(), 0));
        Resolver { query, frontier, visited: Vec::new(), failed: false, known: Ghost(Map::empty()) }
    }

    /// A resolver for the query that a client command asks for.
    pub fn for_command(command: ClientCommand) -> (r: Resolver)
        ensures
            r.wf(),
            r.query() == command->Want_0,
            r.frontier() == seq![root_item(command->Want_0)],
            r.emitted() == Seq::<ObjectId>::empty(),
            !r.failed(),
            r.known() == Map::<ObjectId, Object>::empty(),
    {
        let ClientCommand::Want(query) = command;
        Resolver::new(query)
    }

    fn was_visited(&self, id: ObjectId) -> (r: bool)
        ensures
            r == self.visited@.contains(id),
    {
        let mut i: usize = 0;
        while i < self.visited.len()
            invariant
                0 <= i <= self.visited@.len(),
                forall|j: int| 0 <= j < i ==> self.visited@[j] != id,
            decreases self.visited@.len() - i,
        {
            if self.visited[i] == id {
                return true;
            }
            i += 1;
        }
        false
    }

    /// The id to look up next, dropping pending items that were already
    /// emitted; `None` once the resolution is complete or has failed.
    pub fn next_wanted(&mut self) -> (r: Option<ObjectId>)
        requires
            old(self).wf(),
        ensures
            final(self).wf(),
            final(self).query() == old(self).query(),
            final(self).emitted() == old(self).emitted(),
            final(self).known() == old(self).known(),
            final(self).failed() == old(self).failed(),
            final(self).frontier() == if old(self).failed() {
                old(self).frontier()
            } else {
                skip_visited(old(self).frontier(), old(self).emitted())
            },
            r == if final(self).failed() || final(self).frontier().len() == 0 {
                None::<ObjectId>
            } else {
                Some(final(self).frontier()[0].id)
            },
            r is Some ==> final(self).waiting(),
    {
        if self.failed {
            return None;
        }
        while self.frontier.len() > 0
            invariant
                self.wf(),
                !self.failed,
                !old(self).failed,
                self.query == old(self).query,
                self.visited == old(self).visited,
                self.known == old(self).known,
                skip_visited(self.frontier@, self.visited@) == skip_visited(old(self).frontier@, old(self).visited@),
            decreases self.frontier@.len(),
        {
            let head = self.frontier[0];
            if self.was_visited(head.id) {
                let _ = self.frontier.pop_front();
            } else {
                assert(skip_visited(self.frontier@, self.visited@) == self.frontier@);
                return Some(head.id);
            }
        }
        None
    }

    /// Hands in what the store returned for the wanted id (`None`: absent).
    /// On success the object is emitted and returned, to be pushed to the
    /// client; on an error the resolution stops and emits nothing more.
    pub fn deliver(&mut self, found: Option<Object>) -> (r: Result<Object, ResolveError>)
        requires
            old(self).wf(),
            old(self).waiting(),
        ensures
            final(self).wf(),
            final(self).query() == old(self).query(),
            r == lookup_outcome(old(self).frontier()[0], found),
            r is Ok ==> {
                &&& final(self).emitted() == old(self).emitted().push(old(self).frontier()[0].id)
                &&& final(self).known() == old(self).known().insert(old(self).frontier()[0].id, r->Ok_0)
                &&& final(self).frontier() == expand(old(self).frontier().drop_first(), old(self).frontier()[0], r->Ok_0)
                &&& !final(self).failed()
            },
            r is Err ==> {
                &&& final(self).emitted() == old(self).emitted()
                &&& final(self).known() == old(self).known()
                &&& final(self).frontier() == old(self).frontier()
                &&& final(self).failed()
            },
    {
        let item = self.frontier[0];
        let o = match found {
            None => {
                self.failed = true;
                return Err(ResolveError::NotFound(item.id));
            },
            Some(o) => o,
        };
        let kind = o.kind();
        if kind != item.kind {
            self.failed = true;
            return Err(ResolveError::TypeMismatch(item.id, item.kind, kind));
        }
        let _ = self.frontier.pop_front();
        let ghost rest = self.frontier@;
        self.visited.push(item.id);
        proof {
            let v = self.visited@;
            assert forall|a: int, b: int| 0 <= a < v.len() && 0 <= b < v.len() && a != b implies v[a] != v[b] by {
                if b == v.len() - 1 {
                    assert(old(self).visited@.contains(v[a]));
                } else if a == v.len() - 1 {
                    assert(old(self).visited@.contains(v[b]));
                }
            }
        }
        let ghost pre = *self;
        match &o {
            Object::Commit { parents, .. } => {
                if item.depth > 0 {
                    let depth = item.depth - 1;
                    let mut i: usize = 0;
                    while i < parents.len()
                        invariant
                            0 <= i <= parents@.len(),
                            self.visited == pre.visited,
                            self.known == pre.known,
                            self.query == pre.query,
                            self.failed == pre.failed,
                            self.frontier@ == rest + parents@.subrange(0, i as int).map_values(
                                |p: ObjectId| parent_item(p, depth),
                            ),
                        decreases parents@.len() - i,
                    {
                        self.frontier.push_back(WorkItem { id: parents[i], kind: ObjectKind::Commit, depth });
                        proof {
                            assert(parents@.subrange(0, i + 1) =~= parents@.subrange(0, i as int).push(parents@[i as int]));
                        }
                        i += 1;
                    }
                    assert(parents@.subrange(0, i as int) =~= parents@);
                }
            },
            Object::Tree { entries } => {
                let mut i: usize = entries.len();
                while i > 0
                    invariant
                        0 <= i <= entries@.len(),
                        self.visited == pre.visited,
                        self.known == pre.known,
                        self.query == pre.query,
                        self.failed == pre.failed,
                        self.frontier@ == entries@.subrange(i as int, entries@.len() as int).map_values(
                            |e: TreeEntry| entry_item(e),
                        ) + rest,
                    decreases i,
                {
                    i -= 1;
                    let e = &entries[i];
                    self.frontier.push_front(WorkItem { id: e.id, kind: e.kind.object_kind(), depth: 0 });
                    proof {
                        let f = |e: TreeEntry| entry_item(e);
                        assert(entries@.subrange(i as int, entries@.len() as int).map_values(f)
                            =~= seq![entry_item(entries@[i as int])] + entries@.subrange(i + 1, entries@.len() as int).map_values(f));
                    }
                }
                assert(entries@.subrange(0, entries@.len() as int) =~= entries@);
            },
            Object::Blob { .. } => {},
        }
        proof {
            assert(self.frontier@ == expand(rest, item, o));
            if let WantQuery::CommitAncestry(base, depth) = self.query {
                lemma_ancestry_step(old(self).known@, base, depth, old(self).frontier@, old(self).visited@, o);
            }
            if let WantQuery::PeelTree(base) = self.query {
                lemma_peel_step(old(self).known@, base, old(self).frontier@, old(self).visited@, o);
            }
            self.known@ = self.known@.insert(item.id, o);
            assert forall|id: ObjectId| self.known@.contains_key(id) <==> self.visited@.contains(id) by {
                if id != item.id {
                    assert(self.visited@.contains(id) ==> old(self).visited@.contains(id));
                    assert(old(self).visited@.contains(id) ==> self.visited@[old(self).visited@.index_of(id)] == id);
                } else {
                    assert(self.visited@[self.visited@.len() - 1] == id);
                }
            }
        }
        Ok(o)
    }
}

/// Every resolution emits its base first, and no id twice.
pub proof fn lemma_base_first_and_distinct(r: &Resolver)
    requires
        r.wf(),
    ensures
        r.emitted().len() > 0 ==> r.emitted()[0] == r.query().spec_base(),
        r.emitted().no_duplicates(),
{
}

/// An ancestry resolution of `depth` generations, fed from a finite `store`,
/// emits the base first and then only distinct ancestors of the base within
/// `depth` generations, so it never emits more commits than there are such
/// ancestors, merge fan-out notwithstanding.
pub proof fn lemma_ancestry_bounded(r: &Resolver, store: Map<ObjectId, Object>)
    requires
        r.wf(),
        r.query() is CommitAncestry,
        r.known().submap_of(store),
        store.dom().finite(),
    ensures
        r.emitted().len() > 0 ==> r.emitted()[0] == r.query()->CommitAncestry_0,
        r.emitted().no_duplicates(),
        forall|i: int|
            0 <= i < r.emitted().len() ==> ancestors(
                store,
                r.query()->CommitAncestry_0,
                r.query()->CommitAncestry_1 as nat,
            ).contains(#[trigger] r.emitted()[i]),
        r.emitted().len() <= ancestors(store, r.query()->CommitAncestry_0, r.query()->CommitAncestry_1 as nat).len(),
{
    let base = r.query()->CommitAncestry_0;
    let depth = r.query()->CommitAncestry_1 as nat;
    let e = r.emitted();
    let a = ancestors(store, base, depth);
    assert forall|i: int| 0 <= i < e.len() implies a.contains(#[trigger] e[i]) by {
        assert(r.known().contains_key(e[i]));
        lemma_within_grows(r.known(), store, base, e[i], depth);
    }
    assert forall|x: ObjectId| e.to_set().contains(x) implies a.contains(x) by {
        assert(a.contains(e[e.index_of(x)]));
    }
    store.dom().lemma_len_filter(|x: ObjectId| within(store, base, x, depth));
    lemma_len_subset(e.to_set(), a);
    e.unique_seq_to_set();
}

/// A tree peel fed from `store` emits only the base tree and objects beneath
/// it in the trees of `store`.
pub proof fn lemma_peel_stays_beneath_base(r: &Resolver, store: Map<ObjectId, Object>)
    requires
        r.wf(),
        r.query() is PeelTree,
        r.known().submap_of(store),
    ensures
        forall|i: int|
            0 <= i < r.emitted().len() ==> peeled_from(store, r.query()->PeelTree_0, #[trigger] r.emitted()[i]),
{
    assert forall|i: int| 0 <= i < r.emitted().len() implies peeled_from(store, r.query()->PeelTree_0, #[trigger] r.emitted()[i]) by {
        lemma_peeled_grows(r.known(), store, r.query()->PeelTree_0, r.emitted()[i]);
    }
}

/// A blob query emits at most one object, its base.
pub proof fn lemma_blob_peel_single(r: &Resolver)
    requires
        r.wf(),
        r.query() is PeelBlob,
    ensures
        r.emitted().len() <= 1,
        r.emitted().len() == 1 ==> r.emitted()[0] == r.query()->PeelBlob_0,
{
    if r.emitted().len() > 1 {
        assert(r.emitted()[0] == r.emitted()[1]);
    }
}

/// An ancestry query of depth zero emits at most the base, and once the base
/// is emitted nothing more is wanted.
pub proof fn lemma_depth_zero(r: &Resolver)
    requires
        r.wf(),
        r.query() is CommitAncestry,
        r.query()->CommitAncestry_1 == 0,
    ensures
        r.emitted().len() <= 1,
        r.emitted().len() == 1 ==> {
            &&& r.emitted()[0] == r.query()->CommitAncestry_0
            &&& skip_visited(r.frontier(), r.emitted()).len() == 0
        },
{
    let e = r.emitted();
    if e.len() > 1 {
        assert(within(r.known(), r.query()->CommitAncestry_0, e[1], 0));
    }
    if e.len() == 1 {
        let f = r.frontier();
        assert forall|i: int| 0 <= i < f.len() implies e.contains(#[trigger] f[i].id) by {
            assert(within(r.known(), r.query()->CommitAncestry_0, f[i].id, 0));
            assert(e[0] == f[i].id);
        }
        lemma_skip_all_visited(f, e);
    }
}

/// A commit with no parents is accepted for a commit item and adds no work,
/// whatever depth remains.
pub proof fn lemma_root_commit_ends_branch(rest: Seq<WorkItem>, item: WorkItem, o: Object)
    requires
        item.kind == ObjectKind::Commit,
        o is Commit,
        o->Commit_parents@.len() == 0,
    ensures
        lookup_outcome(item, Some(o)) == Ok::<Object, ResolveError>(o),
        expand(rest, item, o) == rest,
{
    assert(rest + o->Commit_parents@.map_values(|p: ObjectId| parent_item(p, (item.depth - 1) as usize)) =~= rest);
}

/// Before anything is emitted the base is wanted; if the store lacks it the
/// resolution fails with `NotFound` of the base.
pub proof fn lemma_missing_base(r: &Resolver)
    requires
        r.wf(),
        !r.failed(),
        r.emitted().len() == 0,
    ensures
        r.waiting(),
        r.frontier()[0] == root_item(r.query()),
        lookup_outcome(r.frontier()[0], None) == Err::<Object, ResolveError>(ResolveError::NotFound(r.query().spec_base())),
{
}

/// A blob query whose base turns out to be a commit fails with
/// `TypeMismatch` (expected blob, found commit), not with `NotFound`.
pub proof fn lemma_blob_peel_of_commit(r: &Resolver, o: Object)
    requires
        r.wf(),
        !r.failed(),
        r.emitted().len() == 0,
        r.query() is PeelBlob,
        o is Commit,
    ensures
        r.waiting(),
        lookup_outcome(r.frontier()[0], Some(o)) == Err::<Object, ResolveError>(
            ResolveError::TypeMismatch(r.query()->PeelBlob_0, ObjectKind::Blob, ObjectKind::Commit),
        ),
{
}


} // verus!
