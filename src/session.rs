//! The serve session: owner of the instance tree, its change log and the
//! session's identity.

use vstd::prelude::*;

use crate::feed::feed;
use crate::tree::{
    descends, live, node, tree_wf, EntryKind, Instance, InstanceTree, ROOT_ID,
};

verus! {

/// No two live siblings share a name.
pub open spec fn names_unique(s: Seq<Option<Instance>>) -> bool {
    forall|a: int, b: int|
        #![trigger node(s, a).parent, node(s, b).parent]
        live(s, a) && live(s, b) && a != b && node(s, a).parent == node(s, b).parent
            ==> node(s, a).name@ != node(s, b).name@
}

/// Whether `c` is a live child of `p` called `name`.
pub open spec fn is_child_named(s: Seq<Option<Instance>>, p: int, name: Seq<char>, c: int) -> bool {
    &&& live(s, c)
    &&& node(s, c).parent == Some(p as usize)
    &&& node(s, c).name@ == name
}

/// The child of `p` called `name`, if there is one.
pub open spec fn child_named(s: Seq<Option<Instance>>, p: int, name: Seq<char>) -> Option<int> {
    if exists|c: int| is_child_named(s, p, name, c) {
        Some(choose|c: int| is_child_named(s, p, name, c))
    } else {
        None
    }
}

/// The instance reached from `cur` by following the names `path[k..]`.
pub open spec fn resolve_from(s: Seq<Option<Instance>>, cur: int, path: Seq<String>, k: int) -> Option<
    int,
>
    decreases path.len() - k,
{
    if k >= path.len() || k < 0 {
        Some(cur)
    } else {
        match child_named(s, cur, path[k]@) {
            Some(c) => resolve_from(s, c, path, k + 1),
            None => None,
        }
    }
}

/// The instance that mirrors the entry at `path`, relative to the root.
pub open spec fn resolve(s: Seq<Option<Instance>>, path: Seq<String>) -> Option<int> {
    resolve_from(s, ROOT_ID as int, path, 0)
}

/// Finds the child of `parent` called `name`, as `child_named` describes it.
fn lookup_child(tree: &InstanceTree, parent: usize, name: &String) -> (r: Option<usize>)
    requires
        tree.wf(),
        names_unique(tree@),
        live(tree@, parent as int),
    ensures
        r matches Some(c) ==> child_named(tree@, parent as int, name@) == Some(c as int),
        r is None ==> child_named(tree@, parent as int, name@) is None,
{
    let s = Ghost(tree@);
    let r = tree.find_child(parent, name);
    proof {
        match r {
            Some(c) => {
                assert(is_child_named(s@, parent as int, name@, c as int));
                let d = choose|d: int| is_child_named(s@, parent as int, name@, d);
                assert(d == c);
            },
            None => {
                if exists|c: int| is_child_named(s@, parent as int, name@, c) {
                    let c = choose|c: int| is_child_named(s@, parent as int, name@, c);
                    assert(crate::tree::node_ok(s@, c));
                    let ch = node(s@, parent as int).children@;
                    assert(ch.contains(c as usize));
                    let k = choose|k: int| 0 <= k < ch.len() && ch[k] == c as usize;
                    assert(node(s@, ch[k] as int).name@ != name@);
                }
            },
        }
    }
    r
}

/// Finds the instance at the first `n` names of `path`, as `resolve`
/// describes it.
pub fn resolve_path(tree: &InstanceTree, path: &Vec<String>, n: usize) -> (r: Option<usize>)
    requires
        tree.wf(),
        names_unique(tree@),
        n <= path@.len(),
    ensures
        r matches Some(c) ==> resolve(tree@, path@.subrange(0, n as int)) == Some(c as int) && live(
            tree@,
            c as int,
        ),
        r is None ==> resolve(tree@, path@.subrange(0, n as int)) is None,
{
    let ghost sub = path@.subrange(0, n as int);
    let mut cur: usize = ROOT_ID;
    let mut k: usize = 0;
    while k < n
        invariant
            tree.wf(),
            names_unique(tree@),
            live(tree@, cur as int),
            k <= n <= path@.len(),
            sub == path@.subrange(0, n as int),
            resolve(tree@, sub) == resolve_from(tree@, cur as int, sub, k as int),
        decreases n - k,
    {
        assert(sub[k as int] == path@[k as int]);
        match lookup_child(tree, cur, &path[k]) {
            Some(c) => {
                cur = c;
            },
            None => {
                return None;
            },
        }
        k = k + 1;
    }
    Some(cur)
}

/// Between `s` and `t`, which instances exist and their names and parents
/// are the same; only what they hold may differ.
pub open spec fn same_shape(s: Seq<Option<Instance>>, t: Seq<Option<Instance>>) -> bool {
    &&& s.len() == t.len()
    &&& forall|i: int|
        0 <= i < s.len() ==> (#[trigger] live(t, i) == live(s, i) && (live(s, i) ==> {
            &&& node(t, i).name == node(s, i).name
            &&& node(t, i).parent == node(s, i).parent
        }))
}

/// Changing what instances hold, without adding, removing, renaming or
/// moving any, leaves every path bound to the same instance id.
pub proof fn lemma_identity_stable(s: Seq<Option<Instance>>, t: Seq<Option<Instance>>, path: Seq<String>)
    requires
        tree_wf(s),
        names_unique(s),
        names_unique(t),
        same_shape(s, t),
    ensures
        resolve(t, path) == resolve(s, path),
{
    lemma_resolve_same_shape(s, t, ROOT_ID as int, path, 0);
}

proof fn lemma_resolve_same_shape(
    s: Seq<Option<Instance>>,
    t: Seq<Option<Instance>>,
    cur: int,
    path: Seq<String>,
    k: int,
)
    requires
        names_unique(s),
        names_unique(t),
        same_shape(s, t),
    ensures
        resolve_from(t, cur, path, k) == resolve_from(s, cur, path, k),
    decreases path.len() - k,
{
    if 0 <= k < path.len() {
        let name = path[k]@;
        assert forall|c: int| is_child_named(s, cur, name, c) == is_child_named(t, cur, name, c) by {
            if 0 <= c < s.len() {
                assert(live(t, c) == live(s, c));
            }
        }
        if exists|c: int| is_child_named(s, cur, name, c) {
            let cs = choose|c: int| is_child_named(s, cur, name, c);
            let ct = choose|c: int| is_child_named(t, cur, name, c);
            assert(is_child_named(t, cur, name, cs));
            assert(cs == ct);
        }
        match child_named(s, cur, name) {
            Some(c) => lemma_resolve_same_shape(s, t, c, path, k + 1),
            None => {},
        }
    }
}

/// Every read sees a consistent tree: each non-root instance's parent
/// exists and lists it, and each listed child exists and names that parent.
pub proof fn lemma_tree_consistent(session: &ServeSession)
    requires
        session.wf(),
    ensures
        ({
            let s = session.tree@;
            &&& live(s, ROOT_ID as int)
            &&& forall|i: int|
                #![trigger live(s, i)]
                live(s, i) && i != ROOT_ID ==> {
                    &&& node(s, i).parent is Some
                    &&& live(s, node(s, i).parent->Some_0 as int)
                    &&& node(s, node(s, i).parent->Some_0 as int).children@.contains(i as usize)
                }
            &&& forall|p: int, k: int|
                #![trigger node(session.tree@, p).children@[k]]
                live(s, p) && 0 <= k < node(s, p).children@.len() ==> {
                    &&& live(s, node(s, p).children@[k] as int)
                    &&& node(s, node(s, p).children@[k] as int).parent == Some(p as usize)
                }
        }),
{
    let s = session.tree@;
    assert forall|i: int| #![trigger live(s, i)] live(s, i) && i != ROOT_ID implies {
        &&& node(s, i).parent is Some
        &&& live(s, node(s, i).parent->Some_0 as int)
        &&& node(s, node(s, i).parent->Some_0 as int).children@.contains(i as usize)
    } by {
        assert(crate::tree::node_ok(s, i));
    }
    assert forall|p: int, k: int|
        #![trigger node(session.tree@, p).children@[k]]
        live(s, p) && 0 <= k < node(s, p).children@.len() implies {
        &&& live(s, node(s, p).children@[k] as int)
        &&& node(s, node(s, p).children@[k] as int).parent == Some(p as usize)
    } by {
        assert(crate::tree::node_ok(s, p));
    }
}

/// What a change record says happened to an instance.
#[derive(Clone, Copy, Debug, PartialEq, Eq, Structural)]
pub enum ChangeKind {
    Added,
    Updated,
    Removed,
}

/// One entry of the change log. The record at log position `j` has cursor
/// `j + 1`.
#[derive(Clone, Copy, Debug, PartialEq, Eq, Structural)]
pub struct ChangeRecord {
    pub kind: ChangeKind,
    pub id: usize,
}

/// What a direct check of a path found on disk.
#[derive(Debug)]
pub enum FsState {
    Absent,
    File(Vec<u8>),
    Directory,
}

/// Why a filesystem change could not be applied.
#[derive(Clone, Copy, Debug, PartialEq, Eq, Structural)]
pub enum ApplyError {
    /// The entry's parent directory is not in the tree.
    MissingParent,
}

/// The answer to a subscription: the records after the given cursor and the
/// cursor to pass next time.
pub struct Changes {
    pub messages: Vec<ChangeRecord>,
    pub cursor: usize,
}

/// Why a subscription was refused.
#[derive(Clone, Copy, Debug, PartialEq, Eq, Structural)]
pub enum SubscribeError {
    /// The cursor was never issued by this session: the client must refetch
    /// the whole tree.
    StaleSession,
}

/// Why a read was refused.
#[derive(Clone, Copy, Debug, PartialEq, Eq, Structural)]
pub enum ReadError {
    /// No instance has this id, or it has been removed.
    NotFound,
}

/// What the long-poll loop should do next with a pending subscription.
pub enum PollAction {
    /// Answer the client now.
    Respond(Changes),
    /// Hold the request until the log grows or the wait runs out.
    Wait,
}

/// The version of the protocol this server speaks.
pub const SERVER_VERSION: &'static str = "0.1.0";

/// The facts that identify a session to its clients.
pub struct RootInfo {
    pub session_id: u64,
    pub server_version: String,
    pub root_instance_id: usize,
    pub project_name: Option<String>,
}

/// The coordinator of one run: identity, tree and change log.
pub struct ServeSession {
    pub session_id: u64,
    pub project_name: Option<String>,
    pub tree: InstanceTree,
    pub log: Vec<ChangeRecord>,
}

/// The directory instance that should hold the entry at `path`.
pub open spec fn parent_dir(s: Seq<Option<Instance>>, path: Seq<String>) -> Option<int> {
    if path.len() == 0 {
        None
    } else {
        match resolve(s, path.drop_last()) {
            Some(p) => if node(s, p).kind == EntryKind::Directory {
                Some(p)
            } else {
                None
            },
            None => None,
        }
    }
}

/// The kind and contents an instance takes from a present entry.
pub open spec fn state_kind(state: FsState) -> EntryKind {
    match state {
        FsState::Directory => EntryKind::Directory,
        _ => EntryKind::File,
    }
}

pub open spec fn state_contents(state: FsState) -> Seq<u8> {
    match state {
        FsState::File(b) => b@,
        _ => Seq::empty(),
    }
}

/// `t` is `s` with instance `e` and everything below it gone; the survivors
/// keep name, kind, contents and parent.
pub open spec fn subtree_gone(s: Seq<Option<Instance>>, t: Seq<Option<Instance>>, e: int) -> bool {
    &&& forall|i: int|
        0 <= i < s.len() ==> (#[trigger] live(t, i) <==> (live(s, i) && !descends(s, e, i)))
    &&& forall|i: int|
        #![trigger live(t, i)]
        0 <= i < s.len() && live(t, i) ==> {
            &&& node(t, i).name == node(s, i).name
            &&& node(t, i).kind == node(s, i).kind
            &&& node(t, i).contents == node(s, i).contents
            &&& node(t, i).parent == node(s, i).parent
        }
}

/// `added` is exactly the removal records for the instances of `s` at or
/// below `e`, each listed once and after everything below it.
pub open spec fn removal_records(s: Seq<Option<Instance>>, e: int, added: Seq<ChangeRecord>) -> bool {
    &&& forall|j: int|
        0 <= j < added.len() ==> (#[trigger] added[j]).kind == ChangeKind::Removed && live(
            s,
            added[j].id as int,
        ) && descends(s, e, added[j].id as int)
    &&& forall|a: int, b: int|
        0 <= a < added.len() && 0 <= b < added.len() && a != b ==> (#[trigger] added[a]).id
            != (#[trigger] added[b]).id
    &&& forall|i: int|
        live(s, i) && descends(s, e, i) ==> exists|j: int|
            0 <= j < added.len() && (#[trigger] added[j]).id == i as usize
    &&& forall|a: int, b: int|
        0 <= a < b < added.len() ==> !descends(
            s,
            (#[trigger] added[a]).id as int,
            (#[trigger] added[b]).id as int,
        )
}

/// Instance `n` is new in `t`: a child of `p` called `name`, mirroring
/// `state`.
pub open spec fn added_as(
    t: Seq<Option<Instance>>,
    n: int,
    p: int,
    name: Seq<char>,
    state: FsState,
) -> bool {
    &&& live(t, n)
    &&& node(t, n).parent == Some(p as usize)
    &&& node(t, n).name@ == name
    &&& node(t, n).kind == state_kind(state)
    &&& node(t, n).contents@ == state_contents(state)
}

/// Whether two byte strings are equal.
fn bytes_equal(a: &Vec<u8>, b: &Vec<u8>) -> (r: bool)
    ensures
        r == (a@ == b@),
{
    if a.len() != b.len() {
        return false;
    }
    let mut k: usize = 0;
    while k < a.len()
        invariant
            a@.len() == b@.len(),
            k <= a@.len(),
            forall|j: int| 0 <= j < k ==> a@[j] == b@[j],
        decreases a@.len() - k,
    {
        if a[k] != b[k] {
            return false;
        }
        k = k + 1;
    }
    assert(a@ =~= b@);
    true
}

impl ServeSession {
    /// Adds a child of `parent` and logs it.
    fn add_logged(&mut self, parent: usize, name: String, kind: EntryKind, contents: Vec<u8>) -> (r:
        usize)
        requires
            old(self).wf(),
            live(old(self).tree@, parent as int),
            child_named(old(self).tree@, parent as int, name@) is None,
            old(self).tree@.len() < usize::MAX,
        ensures
            final(self).wf(),
            final(self).session_id == old(self).session_id,
            final(self).project_name == old(self).project_name,
            r == old(self).tree@.len(),
            final(self).tree@.len() == old(self).tree@.len() + 1,
            live(final(self).tree@, r as int),
            node(final(self).tree@, r as int).parent == Some(parent),
            node(final(self).tree@, r as int).name == name,
            node(final(self).tree@, r as int).kind == kind,
            node(final(self).tree@, r as int).contents == contents,
            forall|j: int|
                0 <= j < old(self).tree@.len() ==> (#[trigger] live(final(self).tree@, j) == live(
                    old(self).tree@,
                    j,
                )),
            forall|j: int|
                #![trigger live(final(self).tree@, j)]
                0 <= j < old(self).tree@.len() && live(final(self).tree@, j) ==> {
                    &&& node(final(self).tree@, j).name == node(old(self).tree@, j).name
                    &&& node(final(self).tree@, j).kind == node(old(self).tree@, j).kind
                    &&& node(final(self).tree@, j).contents == node(old(self).tree@, j).contents
                    &&& node(final(self).tree@, j).parent == node(old(self).tree@, j).parent
                },
            final(self).log@ == old(self).log@.push(ChangeRecord { kind: ChangeKind::Added, id: r }),
            added_under(old(self).tree@, final(self).tree@, parent as int),
    {
        let ghost s = self.tree@;
        let ghost nm = name@;
        let r = self.tree.add_child(parent, name, kind, contents);
        self.log.push(ChangeRecord { kind: ChangeKind::Added, id: r });
        proof {
            let t = self.tree@;
            assert forall|j: int|
                #![trigger live(t, j)]
                0 <= j < s.len() implies live(t, j) == live(s, j) && (live(t, j) ==> {
                    &&& node(t, j).name == node(s, j).name
                    &&& node(t, j).kind == node(s, j).kind
                    &&& node(t, j).contents == node(s, j).contents
                    &&& node(t, j).parent == node(s, j).parent
                }) by {
                if j != parent {
                    assert(t[j] == s[j]);
                }
            }
            assert forall|a: int, b: int|
                #![trigger node(t, a).parent, node(t, b).parent]
                live(t, a) && live(t, b) && a != b && node(t, a).parent == node(t, b).parent
                    implies node(t, a).name@ != node(t, b).name@ by {
                if a == r {
                    assert(live(t, b));
                    assert(!is_child_named(s, parent as int, nm, b));
                } else if b == r {
                    assert(live(t, a));
                    assert(!is_child_named(s, parent as int, nm, a));
                } else {
                    assert(live(t, a) && live(t, b));
                }
            }
            assert forall|j: int| 0 <= j < self.log@.len() implies (#[trigger] self.log@[j]).id
                < t.len() by {
                if j < old(self).log@.len() {
                    assert(self.log@[j] == old(self).log@[j]);
                }
            }
            assert forall|i: int| #![trigger live(t, i)] live(t, i) && i != ROOT_ID implies exists|j: int|
                0 <= j < self.log@.len() && #[trigger] self.log@[j] == (ChangeRecord {
                    kind: ChangeKind::Added,
                    id: i as usize,
                }) by {
                if i == r {
                    assert(self.log@[old(self).log@.len() as int] == ChangeRecord {
                        kind: ChangeKind::Added,
                        id: r,
                    });
                } else {
                    assert(live(s, i));
                    let j = choose|j: int|
                        0 <= j < old(self).log@.len() && #[trigger] old(self).log@[j] == (
                        ChangeRecord { kind: ChangeKind::Added, id: i as usize });
                    assert(self.log@[j] == old(self).log@[j]);
                }
            }
        }
        r
    }

    /// Removes instance `e` with everything below it, logging one removal
    /// record per instance.
    fn remove_logged(&mut self, e: usize)
        requires
            old(self).wf(),
            live(old(self).tree@, e as int),
            e != ROOT_ID,
        ensures
            final(self).wf(),
            final(self).session_id == old(self).session_id,
            final(self).project_name == old(self).project_name,
            final(self).tree@.len() == old(self).tree@.len(),
            subtree_gone(old(self).tree@, final(self).tree@, e as int),
            final(self).log@.len() >= old(self).log@.len(),
            final(self).log@.subrange(0, old(self).log@.len() as int) == old(self).log@,
            removal_records(
                old(self).tree@,
                e as int,
                final(self).log@.subrange(old(self).log@.len() as int, final(self).log@.len() as int),
            ),
    {
        let ghost s = self.tree@;
        let ghost log0 = self.log@;
        let removed = self.tree.remove_subtree(e);
        let ghost t1 = self.tree@;
        let mut k: usize = 0;
        while k < removed.len()
            invariant
                self.tree@ == t1,
                self.session_id == old(self).session_id,
                self.project_name == old(self).project_name,
                self.log@.len() == log0.len() + k,
                self.log@.subrange(0, log0.len() as int) == log0,
                k <= removed@.len(),
                forall|j: int|
                    0 <= j < k ==> #[trigger] self.log@[log0.len() + j] == (ChangeRecord {
                        kind: ChangeKind::Removed,
                        id: removed@[j],
                    }),
            decreases removed@.len() - k,
        {
            self.log.push(ChangeRecord { kind: ChangeKind::Removed, id: removed[k] });
            proof {
                assert(self.log@.subrange(0, log0.len() as int) =~= log0);
            }
            k = k + 1;
        }
        proof {
            let t = self.tree@;
            let added = self.log@.subrange(log0.len() as int, self.log@.len() as int);
            assert forall|j: int| 0 <= j < added.len() implies #[trigger] added[j] == (ChangeRecord {
                kind: ChangeKind::Removed,
                id: removed@[j],
            }) by {
                assert(added[j] == self.log@[log0.len() + j]);
            }
            assert forall|i: int| live(s, i) && descends(s, e as int, i) implies exists|j: int|
                0 <= j < added.len() && (#[trigger] added[j]).id == i as usize by {
                let j = choose|j: int| 0 <= j < removed@.len() && removed@[j] == i as usize;
                assert(added[j].id == i as usize);
            }
            assert forall|a: int, b: int|
                #![trigger node(t, a).parent, node(t, b).parent]
                live(t, a) && live(t, b) && a != b && node(t, a).parent == node(t, b).parent
                    implies node(t, a).name@ != node(t, b).name@ by {
                assert(live(t, a) && live(t, b));
                assert(node(s, a).parent == node(s, b).parent);
            }
            assert forall|j: int| 0 <= j < self.log@.len() implies (#[trigger] self.log@[j]).id
                < t.len() by {
                if j < log0.len() {
                    assert(self.log@[j] == self.log@.subrange(0, log0.len() as int)[j]);
                } else {
                    assert(added[j - log0.len()] == self.log@[j]);
                }
            }
            assert forall|i: int| #![trigger live(t, i)] live(t, i) && i != ROOT_ID implies exists|j: int|
                0 <= j < self.log@.len() && #[trigger] self.log@[j] == (ChangeRecord {
                    kind: ChangeKind::Added,
                    id: i as usize,
                }) by {
                assert(live(s, i));
                let j = choose|j: int|
                    0 <= j < log0.len() && #[trigger] log0[j] == (ChangeRecord {
                        kind: ChangeKind::Added,
                        id: i as usize,
                    });
                assert(self.log@[j] == self.log@.subrange(0, log0.len() as int)[j]);
            }
        }
    }
}

/// Every live instance but the root was announced by an addition record.
pub open spec fn announced(s: Seq<Option<Instance>>, log: Seq<ChangeRecord>) -> bool {
    forall|i: int|
        #![trigger live(s, i)]
        live(s, i) && i != ROOT_ID ==> exists|j: int|
            0 <= j < log.len() && #[trigger] log[j] == (ChangeRecord {
                kind: ChangeKind::Added,
                id: i as usize,
            })
}

/// A removal batch names only instances that an earlier record of the log
/// announced.
pub proof fn lemma_removals_announced(before: &ServeSession, e: int, batch: Seq<ChangeRecord>)
    requires
        before.wf(),
        e != ROOT_ID,
        removal_records(before.tree@, e, batch),
    ensures
        forall|k: int|
            0 <= k < batch.len() ==> exists|j: int|
                0 <= j < before.log@.len() && #[trigger] before.log@[j] == (ChangeRecord {
                    kind: ChangeKind::Added,
                    id: (#[trigger] batch[k]).id,
                }),
{
    let s = before.tree@;
    assert forall|k: int| 0 <= k < batch.len() implies exists|j: int|
        0 <= j < before.log@.len() && #[trigger] before.log@[j] == (ChangeRecord {
            kind: ChangeKind::Added,
            id: (#[trigger] batch[k]).id,
        }) by {
        let i = batch[k].id as int;
        assert(live(s, i));
        if i == ROOT_ID {
            crate::tree::lemma_descends_order(s, e, i);
        }
    }
}

/// The parent `p` gained the new last instance of `t` at the end of its
/// children; no other instance of `s` changed.
pub open spec fn added_under(s: Seq<Option<Instance>>, t: Seq<Option<Instance>>, p: int) -> bool {
    &&& forall|j: int| 0 <= j < s.len() && j != p ==> #[trigger] t[j] == s[j]
    &&& live(t, p)
    &&& node(t, p).children@ == node(s, p).children@.push(s.len() as usize)
    &&& node(t, p).name == node(s, p).name
    &&& node(t, p).kind == node(s, p).kind
    &&& node(t, p).contents == node(s, p).contents
    &&& node(t, p).parent == node(s, p).parent
}

/// `after` is `before` once the check of `path` found `state`, and `r` is
/// what the call returned.
pub open spec fn change_applied(
    before: ServeSession,
    after: ServeSession,
    path: Seq<String>,
    state: FsState,
    r: Result<(), ApplyError>,
) -> bool {
    &&& after.session_id == before.session_id
    &&& after.project_name == before.project_name
    &&& after.log@.len() >= before.log@.len()
    &&& after.log@.subrange(0, before.log@.len() as int) == before.log@
    &&& {
            let s = before.tree@;
            let t = after.tree@;
            let log0 = before.log@;
            let added = after.log@.subrange(
                before.log@.len() as int,
                after.log@.len() as int,
            );
            if path.len() == 0 {
                r is Ok && t == s && added.len() == 0
            } else {
                let name = path.last()@;
                match parent_dir(s, path) {
                    None => {
                        &&& r is Err <==> !(state is Absent)
                        &&& t == s && added.len() == 0
                    },
                    Some(p) => {
                        &&& r is Ok
                        &&& match child_named(s, p, name) {
                            None => if state is Absent {
                                t == s && added.len() == 0
                            } else {
                                &&& t.len() == s.len() + 1
                                &&& added_as(t, s.len() as int, p, name, state)
                                &&& added_under(s, t, p)
                                &&& added == seq![
                                    ChangeRecord { kind: ChangeKind::Added, id: s.len() as usize },
                                ]
                            },
                            Some(e) => if !(state is Absent) && state_kind(state) == node(
                                s,
                                e,
                            ).kind {
                                if state_kind(state) == EntryKind::Directory || state_contents(state) == node(
                                    s,
                                    e,
                                ).contents@ {
                                    t == s && added.len() == 0
                                } else {
                                    &&& t.len() == s.len()
                                    &&& live(t, e)
                                    &&& node(t, e).contents@ == state_contents(state)
                                    &&& node(t, e).name == node(s, e).name
                                    &&& node(t, e).parent == node(s, e).parent
                                    &&& node(t, e).kind == node(s, e).kind
                                    &&& forall|j: int|
                                        0 <= j < s.len() && j != e ==> #[trigger] t[j] == s[j]
                                    &&& added == seq![
                                        ChangeRecord { kind: ChangeKind::Updated, id: e as usize },
                                    ]
                                }
                            } else if state is Absent {
                                &&& t.len() == s.len()
                                &&& subtree_gone(s, t, e)
                                &&& removal_records(s, e, added)
                            } else {
                                &&& t.len() == s.len() + 1
                                &&& subtree_gone(s, t, e)
                                &&& added_as(t, s.len() as int, p, name, state)
                                &&& node(t, p).children@.last() == s.len() as usize
                                &&& added.len() >= 1
                                &&& removal_records(s, e, added.drop_last())
                                &&& added.last() == (ChangeRecord {
                                    kind: ChangeKind::Added,
                                    id: s.len() as usize,
                                })
                            },
                        }
                    },
                }
            }
    }
}

impl ServeSession {
    pub open spec fn wf(&self) -> bool {
        &&& self.tree.wf()
        &&& names_unique(self.tree@)
        &&& forall|j: int|
            0 <= j < self.log@.len() ==> (#[trigger] self.log@[j]).id < self.tree@.len()
        &&& announced(self.tree@, self.log@)
    }

    /// A session whose tree holds only its root directory.
    pub fn new(session_id: u64, root_name: String, project_name: Option<String>) -> (r:
        ServeSession)
        ensures
            r.wf(),
            r.session_id == session_id,
            r.project_name == project_name,
            r.tree@.len() == 1,
            live(r.tree@, ROOT_ID as int),
            node(r.tree@, ROOT_ID as int).name == root_name,
            node(r.tree@, ROOT_ID as int).kind == EntryKind::Directory,
            node(r.tree@, ROOT_ID as int).children@.len() == 0,
            r.log@.len() == 0,
    {
        let tree = InstanceTree::new(root_name);
        let r = ServeSession { session_id, project_name, tree, log: Vec::new() };
        assert forall|a: int, b: int|
            #![trigger node(r.tree@, a).parent, node(r.tree@, b).parent]
            live(r.tree@, a) && live(r.tree@, b) && a != b && node(r.tree@, a).parent == node(
                r.tree@,
                b,
            ).parent implies node(r.tree@, a).name@ != node(r.tree@, b).name@ by {}
        r
    }

    /// Brings the tree in line with what a direct check found at `path`
    /// (relative to the root), logging one record per instance change.
    #[verifier::rlimit(100)]
    pub fn apply_change(&mut self, path: &Vec<String>, state: FsState) -> (r: Result<(), ApplyError>)
        requires
            old(self).wf(),
            old(self).tree@.len() < usize::MAX,
        ensures
            final(self).wf(),
            final(self).session_id == old(self).session_id,
            final(self).project_name == old(self).project_name,
            final(self).log@.len() >= old(self).log@.len(),
            final(self).log@.subrange(0, old(self).log@.len() as int) == old(self).log@,
            change_applied(*old(self), *final(self), path@, state, r),
    {
        if path.len() == 0 {
            proof {
                assert(self.log@.subrange(0, self.log@.len() as int) =~= self.log@);
            }
            return Ok(());
        }
        let last = path.len() - 1;
        proof {
            assert(path@.drop_last() =~= path@.subrange(0, last as int));
            assert(self.log@.subrange(0, self.log@.len() as int) =~= self.log@);
            assert(self.log@.subrange(self.log@.len() as int, self.log@.len() as int) =~= seq![]);
        }
        let parent = match resolve_path(&self.tree, path, last) {
            Some(p) => p,
            None => {
                return match state {
                    FsState::Absent => Ok(()),
                    _ => Err(ApplyError::MissingParent),
                };
            },
        };
        let parent_kind = self.tree.get(parent).unwrap().kind;
        if parent_kind != EntryKind::Directory {
            return match state {
                FsState::Absent => Ok(()),
                _ => Err(ApplyError::MissingParent),
            };
        }
        let ghost s = self.tree@;
        let ghost log0 = self.log@;
        assert(path@.last() == path@[last as int]);
        match lookup_child(&self.tree, parent, &path[last]) {
            None => {
                match state {
                    FsState::Absent => {},
                    FsState::File(bytes) => {
                        let n = self.add_logged(parent, path[last].clone(), EntryKind::File, bytes);
                        proof {
                            assert(self.log@.subrange(log0.len() as int, self.log@.len() as int)
                                =~= seq![ChangeRecord { kind: ChangeKind::Added, id: n }]);
                            assert(self.log@.subrange(0, log0.len() as int) =~= log0);
                        }
                    },
                    FsState::Directory => {
                        let n = self.add_logged(
                            parent,
                            path[last].clone(),
                            EntryKind::Directory,
                            Vec::new(),
                        );
                        proof {
                            assert(self.log@.subrange(log0.len() as int, self.log@.len() as int)
                                =~= seq![ChangeRecord { kind: ChangeKind::Added, id: n }]);
                            assert(self.log@.subrange(0, log0.len() as int) =~= log0);
                        }
                    },
                }
                Ok(())
            },
            Some(e) => {
                let ghost ee = e as int;
                assert(crate::tree::node_ok(s, ee));
                let kind = self.tree.get(e).unwrap().kind;
                let same_kind = match state {
                    FsState::Absent => false,
                    FsState::File(_) => kind == EntryKind::File,
                    FsState::Directory => kind == EntryKind::Directory,
                };
                if same_kind {
                    match state {
                        FsState::File(bytes) => {
                            let unchanged = bytes_equal(&bytes, &self.tree.get(e).unwrap().contents);
                            if !unchanged {
                                self.tree.set_contents(e, bytes);
                                self.log.push(ChangeRecord { kind: ChangeKind::Updated, id: e });
                                proof {
                                    let t = self.tree@;
                                    assert(self.log@.subrange(log0.len() as int, self.log@.len() as int)
                                        =~= seq![ChangeRecord { kind: ChangeKind::Updated, id: e }]);
                                    assert(self.log@.subrange(0, log0.len() as int) =~= log0);
                                    assert forall|a: int, b: int|
                                        #![trigger node(t, a).parent, node(t, b).parent]
                                        live(t, a) && live(t, b) && a != b && node(t, a).parent
                                            == node(t, b).parent implies node(t, a).name@ != node(
                                            t,
                                            b,
                                        ).name@ by {
                                        assert(live(s, a) && live(s, b));
                                        assert(node(t, ee).name == node(s, ee).name);
                                        assert(node(t, ee).parent == node(s, ee).parent);
                                        if a != e {
                                            assert(t[a] == s[a]);
                                        }
                                        if b != e {
                                            assert(t[b] == s[b]);
                                        }
                                        assert(node(s, a).parent == node(s, b).parent);
                                    }
                                    assert forall|j: int| 0 <= j < self.log@.len() implies (
                                    #[trigger] self.log@[j]).id < t.len() by {
                                        if j < log0.len() {
                                            assert(self.log@[j] == log0[j]);
                                        }
                                    }
                                    assert forall|i: int| #![trigger live(t, i)]
                                        live(t, i) && i != ROOT_ID implies exists|j: int|
                                        0 <= j < self.log@.len() && #[trigger] self.log@[j] == (
                                        ChangeRecord { kind: ChangeKind::Added, id: i as usize }) by {
                                        assert(live(s, i));
                                        let j = choose|j: int|
                                            0 <= j < log0.len() && #[trigger] log0[j] == (
                                            ChangeRecord { kind: ChangeKind::Added, id: i as usize });
                                        assert(self.log@[j] == log0[j]);
                                    }
                                }
                            }
                        },
                        _ => {},
                    }
                    Ok(())
                } else {
                    let ghost st = state;
                    self.remove_logged(e);
                    proof {
                        if descends(s, ee, parent as int) {
                            crate::tree::lemma_descends_order(s, ee, parent as int);
                        }
                        assert(live(self.tree@, parent as int));
                    }
                    let ghost log1 = self.log@;
                    match state {
                        FsState::Absent => {},
                        FsState::File(bytes) => {
                            proof { self.lemma_name_free(s, parent as int, ee, path@[last as int]@); }
                            self.add_logged(parent, path[last].clone(), EntryKind::File, bytes);
                        },
                        FsState::Directory => {
                            proof { self.lemma_name_free(s, parent as int, ee, path@[last as int]@); }
                            self.add_logged(
                                parent,
                                path[last].clone(),
                                EntryKind::Directory,
                                Vec::new(),
                            );
                        },
                    }
                    proof {
                        let added = self.log@.subrange(log0.len() as int, self.log@.len() as int);
                        assert(self.log@.subrange(0, log0.len() as int) =~= log0) by {
                            assert(log1.subrange(0, log0.len() as int) == log0);
                        }
                        if !(st is Absent) {
                            assert(added.drop_last() =~= log1.subrange(
                                log0.len() as int,
                                log1.len() as int,
                            ));
                        }
                    }
                    Ok(())
                }
            },
        }
    }
    /// The records with cursor above `cursor`, in order, and the newest
    /// cursor; a cursor this session never issued is stale.
    pub fn changes_since(&self, cursor: usize) -> (r: Result<Changes, SubscribeError>)
        ensures
            r is Err <==> cursor > self.log@.len(),
            r matches Ok(c) ==> (c.messages@, c.cursor as int) == feed(self.log@, cursor as int),
    {
        let n = self.log.len();
        if cursor > n {
            return Err(SubscribeError::StaleSession);
        }
        let mut messages: Vec<ChangeRecord> = Vec::new();
        let mut k: usize = cursor;
        while k < n
            invariant
                n == self.log@.len(),
                cursor <= k <= n,
                messages@ == self.log@.subrange(cursor as int, k as int),
            decreases n - k,
        {
            messages.push(self.log[k]);
            assert(messages@ =~= self.log@.subrange(cursor as int, k + 1));
            k = k + 1;
        }
        Ok(Changes { messages, cursor: n })
    }

    /// Decides a pending subscription: answer at once when records are
    /// waiting or the bounded wait has run out, else keep waiting.
    pub fn poll_subscription(&self, cursor: usize, timed_out: bool) -> (r: Result<
        PollAction,
        SubscribeError,
    >)
        ensures
            r is Err <==> cursor > self.log@.len(),
            r matches Ok(PollAction::Wait) ==> cursor == self.log@.len() && !timed_out,
            r matches Ok(PollAction::Respond(c)) ==> (c.messages@, c.cursor as int) == feed(
                self.log@,
                cursor as int,
            ),
            r is Ok && (cursor < self.log@.len() || timed_out) ==> r matches Ok(
                PollAction::Respond(_),
            ),
            cursor == self.log@.len() && !timed_out ==> r matches Ok(PollAction::Wait),
    {
        if cursor == self.log.len() && !timed_out {
            return Ok(PollAction::Wait);
        }
        match self.changes_since(cursor) {
            Ok(c) => Ok(PollAction::Respond(c)),
            Err(e) => Err(e),
        }
    }

    /// The instance with id `id`.
    pub fn get_instance(&self, id: usize) -> (r: Result<&Instance, ReadError>)
        ensures
            r is Err <==> !live(self.tree@, id as int),
            r matches Ok(n) ==> *n == node(self.tree@, id as int),
    {
        match self.tree.get(id) {
            Some(n) => Ok(n),
            None => Err(ReadError::NotFound),
        }
    }

    /// The ids of instance `id` and of everything below it, in increasing
    /// order (so `id` first): enough for a client to rebuild that subtree.
    pub fn read_subtree(&self, id: usize) -> (r: Result<Vec<usize>, ReadError>)
        requires
            self.wf(),
        ensures
            r is Err <==> !live(self.tree@, id as int),
            r matches Ok(ids) ==> {
                &&& forall|i: int|
                    #![trigger ids@.contains(i as usize)]
                    #![trigger descends(self.tree@, id as int, i)]
                    0 <= i < self.tree@.len() ==> (ids@.contains(i as usize) <==> live(
                        self.tree@,
                        i,
                    ) && descends(self.tree@, id as int, i))
                &&& forall|j: int|
                    0 <= j < ids@.len() ==> (#[trigger] ids@[j] as int) < self.tree@.len()
                &&& forall|a: int, b: int| 0 <= a < b < ids@.len() ==> ids@[a] < ids@[b]
                &&& ids@.len() > 0 && ids@[0] == id
            },
    {
        if !self.tree.contains(id) {
            return Err(ReadError::NotFound);
        }
        let ids = self.tree.subtree_ids(id);
        proof {
            assert(ids@.contains(id));
            let w = choose|w: int| 0 <= w < ids@.len() && ids@[w] == id;
            if w > 0 {
                let z = ids@[0] as int;
                assert(z < self.tree@.len());
                assert(ids@[0] == z as usize);
                assert(ids@.contains(z as usize));
                assert(descends(self.tree@, id as int, z));
                crate::tree::lemma_descends_order(self.tree@, id as int, z);
            }
        }
        Ok(ids)
    }

    /// The session's identity and name.
    pub fn root_info(&self) -> (r: RootInfo)
        ensures
            r.session_id == self.session_id,
            r.root_instance_id == ROOT_ID,
            r.project_name == self.project_name,
            r.server_version@ == SERVER_VERSION@,
    {
        let project_name = match &self.project_name {
            Some(name) => Some(name.clone()),
            None => None,
        };
        RootInfo {
            session_id: self.session_id,
            server_version: SERVER_VERSION.to_owned(),
            root_instance_id: ROOT_ID,
            project_name,
        }
    }

    /// Once `e` and its subtree are gone, no child of `p` is called as `e`
    /// was.
    proof fn lemma_name_free(&self, s: Seq<Option<Instance>>, p: int, e: int, name: Seq<char>)
        requires
            self.wf(),
            tree_wf(s),
            names_unique(s),
            s.len() == self.tree@.len(),
            subtree_gone(s, self.tree@, e),
            child_named(s, p, name) == Some(e),
        ensures
            child_named(self.tree@, p, name) is None,
    {
        let t = self.tree@;
        assert(is_child_named(s, p, name, e));
        if exists|c: int| is_child_named(t, p, name, c) {
            let c = choose|c: int| is_child_named(t, p, name, c);
            assert(live(t, c));
            assert(live(s, c));
            if c == e {
                assert(descends(s, e, c));
            }
        }
    }

}

} // verus!
