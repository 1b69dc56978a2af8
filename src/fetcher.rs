//! An in-memory filesystem driven by injected changes, and the step of the
//! watcher pipeline that feeds its changes into a session.

use vstd::prelude::*;

use crate::tree::{live, node};
use crate::session::{
    resolve, resolve_path, change_applied, state_contents, state_kind, ApplyError, FsState, ServeSession,
};

verus! {

/// The names of a path, as text.
pub open spec fn path_view(p: Seq<String>) -> Seq<Seq<char>> {
    p.map_values(|s: String| s@)
}

/// Two checks of a path found the same thing.
pub open spec fn same_state(a: FsState, b: FsState) -> bool {
    &&& (a is Absent) == (b is Absent)
    &&& state_kind(a) == state_kind(b)
    &&& state_contents(a) == state_contents(b)
}

/// One write made to the in-memory filesystem.
pub struct VirtualWrite {
    pub path: Vec<String>,
    pub state: FsState,
}

/// `a` names a proper ancestor of `b`.
pub open spec fn is_ancestor(a: Seq<Seq<char>>, b: Seq<Seq<char>>) -> bool {
    a.len() < b.len() && b.subrange(0, a.len() as int) == a
}

/// What the first `n` writes leave at `path`: the last write to the path
/// itself, unless a later write made an ancestor absent or a file; absent if
/// no write touched it.
pub open spec fn state_at(writes: Seq<VirtualWrite>, path: Seq<Seq<char>>, n: int) -> FsState
    decreases n,
{
    if n <= 0 || n > writes.len() {
        FsState::Absent
    } else if path_view(writes[n - 1].path@) == path {
        writes[n - 1].state
    } else if is_ancestor(path_view(writes[n - 1].path@), path) && !(
    writes[n - 1].state is Directory) {
        FsState::Absent
    } else {
        state_at(writes, path, n - 1)
    }
}

/// An in-memory filesystem: the writes made to it, and the paths changed
/// since the watcher last looked.
pub struct VirtualFs {
    pub writes: Vec<VirtualWrite>,
    pub pending: Vec<Vec<String>>,
}

fn copy_bytes(b: &Vec<u8>) -> (r: Vec<u8>)
    ensures
        r@ == b@,
{
    let mut r: Vec<u8> = Vec::new();
    let mut k: usize = 0;
    while k < b.len()
        invariant
            k <= b@.len(),
            r@ == b@.subrange(0, k as int),
        decreases b@.len() - k,
    {
        r.push(b[k]);
        assert(r@ =~= b@.subrange(0, k + 1));
        k = k + 1;
    }
    assert(r@ =~= b@);
    r
}

fn copy_state(s: &FsState) -> (r: FsState)
    ensures
        same_state(r, *s),
{
    match s {
        FsState::Absent => FsState::Absent,
        FsState::File(b) => FsState::File(copy_bytes(b)),
        FsState::Directory => FsState::Directory,
    }
}

fn same_path(a: &Vec<String>, b: &Vec<String>) -> (r: bool)
    ensures
        r == (path_view(a@) == path_view(b@)),
{
    if a.len() != b.len() {
        assert(path_view(a@).len() != path_view(b@).len());
        return false;
    }
    let mut k: usize = 0;
    while k < a.len()
        invariant
            a@.len() == b@.len(),
            k <= a@.len(),
            forall|j: int| 0 <= j < k ==> a@[j]@ == b@[j]@,
        decreases a@.len() - k,
    {
        if a[k] != b[k] {
            assert(path_view(a@)[k as int] != path_view(b@)[k as int]);
            return false;
        }
        k = k + 1;
    }
    assert(path_view(a@) =~= path_view(b@));
    true
}

fn is_ancestor_path(a: &Vec<String>, b: &Vec<String>) -> (r: bool)
    ensures
        r == is_ancestor(path_view(a@), path_view(b@)),
{
    if a.len() >= b.len() {
        return false;
    }
    let mut k: usize = 0;
    while k < a.len()
        invariant
            a@.len() < b@.len(),
            k <= a@.len(),
            forall|j: int| 0 <= j < k ==> a@[j]@ == b@[j]@,
        decreases a@.len() - k,
    {
        if a[k] != b[k] {
            assert(path_view(b@).subrange(0, a@.len() as int)[k as int] != path_view(a@)[k as int]);
            return false;
        }
        k = k + 1;
    }
    assert(path_view(b@).subrange(0, a@.len() as int) =~= path_view(a@));
    true
}

/// A path that reads present was written itself.
proof fn lemma_written(writes: Seq<VirtualWrite>, path: Seq<Seq<char>>, n: int) -> (q: int)
    requires
        0 <= n <= writes.len(),
        !(state_at(writes, path, n) is Absent),
    ensures
        0 <= q < n,
        path_view(writes[q].path@) == path,
        state_at(writes, path, n) == writes[q].state,
    decreases n,
{
    if path_view(writes[n - 1].path@) == path {
        n - 1
    } else {
        lemma_written(writes, path, n - 1)
    }
}

impl VirtualFs {
    /// An empty filesystem with nothing pending.
    pub fn new() -> (r: VirtualFs)
        ensures
            r.writes@.len() == 0,
            r.pending@.len() == 0,
    {
        VirtualFs { writes: Vec::new(), pending: Vec::new() }
    }

    /// Leaves `state` at `path` and marks the path as changed.
    pub fn write(&mut self, path: Vec<String>, state: FsState)
        ensures
            final(self).writes@ == old(self).writes@.push(VirtualWrite { path, state }),
            final(self).pending@.len() == old(self).pending@.len() + 1,
            final(self).pending@.drop_last() == old(self).pending@,
            path_view(final(self).pending@.last()@) == path_view(path@),
    {
        let event = copy_path(&path);
        self.writes.push(VirtualWrite { path, state });
        self.pending.push(event);
        assert(self.pending@.drop_last() =~= old(self).pending@);
    }

    /// What a direct check of `path` finds now.
    pub fn stat(&self, path: &Vec<String>) -> (r: FsState)
        ensures
            same_state(r, state_at(self.writes@, path_view(path@), self.writes@.len() as int)),
    {
        let mut k: usize = self.writes.len();
        while k > 0
            invariant
                k <= self.writes@.len(),
                state_at(self.writes@, path_view(path@), self.writes@.len() as int) == state_at(
                    self.writes@,
                    path_view(path@),
                    k as int,
                ),
            decreases k,
        {
            let w = &self.writes[k - 1];
            if same_path(&w.path, path) {
                return copy_state(&w.state);
            }
            let hides = match w.state {
                FsState::Directory => false,
                _ => true,
            };
            if hides && is_ancestor_path(&w.path, path) {
                return FsState::Absent;
            }
            k = k - 1;
        }
        FsState::Absent
    }

    /// The names of the entries directly inside `dir` that a check finds
    /// present, each once.
    pub fn list(&self, dir: &Vec<String>) -> (r: Vec<String>)
        ensures
            r@.len() <= self.writes@.len(),
            forall|j: int|
                0 <= j < r@.len() ==> !(state_at(
                    self.writes@,
                    path_view(dir@).push(#[trigger] r@[j]@),
                    self.writes@.len() as int,
                ) is Absent),
            forall|a: int, b: int| 0 <= a < b < r@.len() ==> r@[a]@ != r@[b]@,
            forall|name: Seq<char>|
                !(#[trigger] state_at(
                    self.writes@,
                    path_view(dir@).push(name),
                    self.writes@.len() as int,
                ) is Absent) ==> exists|j: int| 0 <= j < r@.len() && r@[j]@ == name,
    {
        let ghost ws = self.writes@;
        let ghost n = ws.len() as int;
        let mut r: Vec<String> = Vec::new();
        let mut k: usize = 0;
        while k < self.writes.len()
            invariant
                ws == self.writes@,
                n == ws.len(),
                k <= n,
                r@.len() <= k,
                forall|j: int|
                    0 <= j < r@.len() ==> !(state_at(
                        ws,
                        path_view(dir@).push(#[trigger] r@[j]@),
                        n,
                    ) is Absent),
                forall|a: int, b: int| 0 <= a < b < r@.len() ==> r@[a]@ != r@[b]@,
                forall|q: int|
                    #![trigger ws[q]]
                    0 <= q < k && path_view(ws[q].path@).len() == path_view(dir@).len() + 1
                        && path_view(ws[q].path@).drop_last() == path_view(dir@) && !(state_at(
                        ws,
                        path_view(ws[q].path@),
                        n,
                    ) is Absent) ==> exists|j: int|
                        0 <= j < r@.len() && r@[j]@ == path_view(ws[q].path@).last(),
            decreases n - k,
        {
            let p = &self.writes[k].path;
            if p.len() > 0 && p.len() - 1 == dir.len() && is_ancestor_path(dir, p) {
                let name = &p[p.len() - 1];
                proof {
                    let pv = path_view(p@);
                    assert(pv.last() == name@);
                    assert(pv.drop_last() =~= path_view(dir@));
                    assert(path_view(dir@).push(name@) =~= pv);
                }
                let present = match self.stat(p) {
                    FsState::Absent => false,
                    _ => true,
                };
                let mut seen = false;
                let mut m: usize = 0;
                while m < r.len()
                    invariant
                        m <= r@.len(),
                        seen ==> exists|j: int| 0 <= j < r@.len() && r@[j]@ == name@,
                        !seen ==> forall|j: int| 0 <= j < m ==> r@[j]@ != name@,
                    decreases r@.len() - m,
                {
                    if r[m] == *name {
                        seen = true;
                    }
                    m = m + 1;
                }
                if present && !seen {
                    let ghost r0 = r@;
                    r.push(name.clone());
                    proof {
                        assert forall|j: int| 0 <= j < r@.len() implies !(state_at(
                            ws,
                            path_view(dir@).push(#[trigger] r@[j]@),
                            n,
                        ) is Absent) by {
                            if j < r0.len() {
                                assert(r@[j] == r0[j]);
                            }
                        }
                        assert forall|a: int, b: int| 0 <= a < b < r@.len() implies r@[a]@
                            != r@[b]@ by {
                            if b < r0.len() {
                                assert(r@[a] == r0[a] && r@[b] == r0[b]);
                            } else {
                                assert(r@[a] == r0[a]);
                            }
                        }
                        assert forall|q: int|
                            #![trigger ws[q]]
                            0 <= q < k + 1 && path_view(ws[q].path@).len() == path_view(dir@).len()
                                + 1 && path_view(ws[q].path@).drop_last() == path_view(dir@)
                                && !(state_at(ws, path_view(ws[q].path@), n) is Absent) implies exists|
                            j: int,
                        | 0 <= j < r@.len() && r@[j]@ == path_view(ws[q].path@).last() by {
                            if q < k {
                                let j = choose|j: int|
                                    0 <= j < r0.len() && r0[j]@ == path_view(ws[q].path@).last();
                                assert(r@[j] == r0[j]);
                            } else {
                                assert(r@[r0.len() as int]@ == name@);
                            }
                        }
                    }
                }
            }
            k = k + 1;
        }
        proof {
            assert forall|name: Seq<char>|
                !(#[trigger] state_at(ws, path_view(dir@).push(name), n) is Absent) implies exists|
                j: int,
            | 0 <= j < r@.len() && r@[j]@ == name by {
                let q = lemma_written(ws, path_view(dir@).push(name), n);
                assert(path_view(ws[q].path@).drop_last() =~= path_view(dir@));
            }
        }
        r
    }

    /// Hands out the paths changed since the last call, oldest first.
    pub fn take_pending(&mut self) -> (r: Vec<Vec<String>>)
        ensures
            r@ == old(self).pending@,
            final(self).pending@.len() == 0,
            final(self).writes@ == old(self).writes@,
    {
        let mut r: Vec<Vec<String>> = Vec::new();
        std::mem::swap(&mut r, &mut self.pending);
        r
    }
}

fn copy_path(p: &Vec<String>) -> (r: Vec<String>)
    ensures
        path_view(r@) == path_view(p@),
{
    let mut r: Vec<String> = Vec::new();
    let mut k: usize = 0;
    while k < p.len()
        invariant
            k <= p@.len(),
            r@.len() == k,
            forall|j: int| 0 <= j < k ==> #[trigger] r@[j]@ == p@[j]@,
        decreases p@.len() - k,
    {
        r.push(p[k].clone());
        k = k + 1;
    }
    assert(path_view(r@) =~= path_view(p@));
    r
}

/// How many of the results are errors.
pub open spec fn count_refused(results: Seq<Result<(), ApplyError>>) -> nat
    decreases results.len(),
{
    if results.len() == 0 {
        0
    } else {
        count_refused(results.drop_last()) + if results.last() is Err {
            1nat
        } else {
            0nat
        }
    }
}

/// `states` runs from one session to the next by applying, for each event
/// path in turn, what `writes` leave at it; `results` are the step results.
pub open spec fn sync_steps(
    states: Seq<ServeSession>,
    results: Seq<Result<(), ApplyError>>,
    events: Seq<Vec<String>>,
    writes: Seq<VirtualWrite>,
) -> bool {
    &&& states.len() == events.len() + 1
    &&& results.len() == events.len()
    &&& forall|k: int|
        0 <= k < events.len() ==> change_applied(
            #[trigger] states[k],
            states[k + 1],
            events[k]@,
            state_at(writes, path_view(events[k]@), writes.len() as int),
            results[k],
        )
}

proof fn lemma_applied_same_state(
    before: ServeSession,
    after: ServeSession,
    path: Seq<String>,
    a: FsState,
    b: FsState,
    r: Result<(), ApplyError>,
)
    requires
        same_state(a, b),
        change_applied(before, after, path, a, r),
    ensures
        change_applied(before, after, path, b, r),
{
}

/// Applies, for each path of `paths` in turn, what a check of it in `fs`
/// finds. A change that cannot be applied is counted and skipped.
fn apply_paths(session: &mut ServeSession, fs: &VirtualFs, paths: &Vec<Vec<String>>) -> (refused: usize)
    requires
        old(session).wf(),
        old(session).tree@.len() + paths@.len() < usize::MAX,
    ensures
        final(session).wf(),
        exists|states: Seq<ServeSession>, results: Seq<Result<(), ApplyError>>|
            {
                &&& sync_steps(states, results, paths@, fs.writes@)
                &&& states[0] == *old(session)
                &&& states.last() == *final(session)
                &&& refused == count_refused(results)
            },
{
    let ghost writes = fs.writes@;
    let ghost mut states: Seq<ServeSession> = seq![*session];
    let ghost mut results: Seq<Result<(), ApplyError>> = Seq::empty();
    let mut refused: usize = 0;
    let mut k: usize = 0;
    while k < paths.len()
        invariant
            session.wf(),
            session.tree@.len() <= old(session).tree@.len() + k,
            old(session).tree@.len() + paths@.len() < usize::MAX,
            writes == fs.writes@,
            k <= paths@.len(),
            refused <= k,
            sync_steps(states, results, paths@.subrange(0, k as int), writes),
            states[0] == *old(session),
            states.last() == *session,
            refused == count_refused(results),
        decreases paths@.len() - k,
    {
        let state = fs.stat(&paths[k]);
        let ghost before = *session;
        let ghost spec_state = state_at(writes, path_view(paths@[k as int]@), writes.len() as int);
        let r = session.apply_change(&paths[k], state);
        proof {
            lemma_applied_same_state(before, *session, paths@[k as int]@, state, spec_state, r);
            let states0 = states;
            let results0 = results;
            states = states.push(*session);
            results = results.push(r);
            assert(results.drop_last() == results0);
            let ev = paths@.subrange(0, k + 1);
            assert forall|j: int| 0 <= j < ev.len() implies change_applied(
                #[trigger] states[j],
                states[j + 1],
                ev[j]@,
                state_at(writes, path_view(ev[j]@), writes.len() as int),
                results[j],
            ) by {
                if j < k {
                    assert(states[j] == states0[j]);
                    assert(states[j + 1] == states0[j + 1]);
                    assert(ev[j] == paths@.subrange(0, k as int)[j]);
                    assert(results[j] == results0[j]);
                }
            }
        }
        if r.is_err() {
            refused = refused + 1;
        }
        k = k + 1;
    }
    proof {
        assert(paths@.subrange(0, paths@.len() as int) =~= paths@);
    }
    refused
}

/// Feeds every path changed in `fs` into `session`, oldest first, each with
/// what a direct check of the path finds now. A change that cannot be
/// applied is counted and skipped; the rest still go through.
pub fn sync_pending(session: &mut ServeSession, fs: &mut VirtualFs) -> (refused: usize)
    requires
        old(session).wf(),
        old(session).tree@.len() + old(fs).pending@.len() < usize::MAX,
    ensures
        final(session).wf(),
        exists|states: Seq<ServeSession>, results: Seq<Result<(), ApplyError>>|
            {
                &&& sync_steps(states, results, old(fs).pending@, old(fs).writes@)
                &&& states[0] == *old(session)
                &&& states.last() == *final(session)
                &&& refused == count_refused(results)
            },
        final(fs).pending@.len() == 0,
        final(fs).writes@ == old(fs).writes@,
{
    let events = fs.take_pending();
    apply_paths(session, fs, &events)
}


/// Brings the children of directory `dir` in line with the filesystem:
/// checks and applies every name `fs` lists in it, then every child the
/// tree holds there. Returns the paths applied, in order, and how many were
/// refused.
pub fn reconcile_dir(session: &mut ServeSession, fs: &VirtualFs, dir: &Vec<String>) -> (r: (
    Vec<Vec<String>>,
    usize,
))
    requires
        old(session).wf(),
        2 * old(session).tree@.len() + fs.writes@.len() < usize::MAX,
    ensures
        final(session).wf(),
        exists|states: Seq<ServeSession>, results: Seq<Result<(), ApplyError>>|
            {
                &&& sync_steps(states, results, r.0@, fs.writes@)
                &&& states[0] == *old(session)
                &&& states.last() == *final(session)
                &&& r.1 == count_refused(results)
            },
        forall|j: int|
            0 <= j < r.0@.len() ==> path_view((#[trigger] r.0@[j])@).drop_last() == path_view(
                dir@,
            ) && path_view(r.0@[j]@).len() == dir@.len() + 1,
        forall|name: Seq<char>|
            !(#[trigger] state_at(fs.writes@, path_view(dir@).push(name), fs.writes@.len() as int)
                is Absent) ==> exists|j: int|
                0 <= j < r.0@.len() && path_view(r.0@[j]@) == path_view(dir@).push(name),
        forall|c: int|
            resolve(old(session).tree@, dir@) matches Some(d) && live(old(session).tree@, c)
                && #[trigger] node(old(session).tree@, c).parent == Some(d as usize) ==> exists|
                j: int,
            | 0 <= j < r.0@.len() && path_view(r.0@[j]@) == path_view(dir@).push(
                node(old(session).tree@, c).name@,
            ),
{
    let ghost s0 = session.tree@;
    let ghost dv = path_view(dir@);
    let listed = fs.list(dir);
    let mut paths: Vec<Vec<String>> = Vec::new();
    let mut k: usize = 0;
    while k < listed.len()
        invariant
            *session == *old(session),
            paths@.len() == k,
            k <= listed@.len(),
            listed@.len() <= fs.writes@.len(),
            dv == path_view(dir@),
            forall|j: int|
                0 <= j < paths@.len() ==> path_view((#[trigger] paths@[j])@) == dv.push(
                    listed@[j]@,
                ),
        decreases listed@.len() - k,
    {
        let mut p = copy_path(dir);
        let ghost pv0 = p@;
        p.push(listed[k].clone());
        assert(path_view(p@) =~= dv.push(listed@[k as int]@)) by {
            assert(p@ == pv0.push(listed@[k as int]));
        }
        paths.push(p);
        k = k + 1;
    }
    let ghost first = paths@;
    proof {
        assert(paths@.subrange(0, first.len() as int) =~= first);
        assert(dir@.subrange(0, dir@.len() as int) =~= dir@);
        assert forall|j: int| 0 <= j < paths@.len() implies path_view((#[trigger] paths@[j])@).drop_last()
            == dv && path_view(paths@[j]@).len() == dv.len() + 1 by {
            assert(path_view(paths@[j]@) == dv.push(listed@[j]@));
            assert(dv.push(listed@[j]@).drop_last() =~= dv);
        }
    }
    match resolve_path(&session.tree, dir, dir.len()) {
        Some(d) => {
            let mut i: usize = 0;
            while i < session.tree.slots.len()
                invariant
                    *session == *old(session),
                    session.tree@ == s0,
                    first.len() <= paths@.len(),
                    s0.len() <= usize::MAX,
                    i <= s0.len(),
                    dv == path_view(dir@),
                    paths@.len() <= first.len() + i,
                    first.len() <= fs.writes@.len(),
                    paths@.subrange(0, first.len() as int) == first,
                    forall|j: int|
                        0 <= j < paths@.len() ==> path_view((#[trigger] paths@[j])@).drop_last()
                            == dv && path_view(paths@[j]@).len() == dv.len() + 1,
                    forall|c: int|
                        0 <= c < i && live(s0, c) && #[trigger] node(s0, c).parent == Some(d)
                            ==> exists|j: int|
                            0 <= j < paths@.len() && path_view(paths@[j]@) == dv.push(
                                node(s0, c).name@,
                            ),
                decreases s0.len() - i,
            {
                let ghost p0 = paths@;
                match &session.tree.slots[i] {
                    Some(inst) => {
                        if inst.parent == Some(d) {
                            let mut p = copy_path(dir);
                            let ghost pv0 = p@;
                            p.push(inst.name.clone());
                            assert(path_view(p@) =~= dv.push(inst.name@)) by {
                                assert(p@ == pv0.push(inst.name));
                            }
                            assert(dv.push(inst.name@).drop_last() =~= dv);
                            paths.push(p);
                            proof {
                                assert(paths@.subrange(0, first.len() as int) =~= p0.subrange(
                                    0,
                                    first.len() as int,
                                ));
                                assert forall|c: int|
                                    0 <= c < i + 1 && live(s0, c) && #[trigger] node(s0, c).parent
                                        == Some(d) implies exists|j: int|
                                    0 <= j < paths@.len() && path_view(paths@[j]@) == dv.push(
                                        node(s0, c).name@,
                                    ) by {
                                    if c < i {
                                        let j = choose|j: int|
                                            0 <= j < p0.len() && path_view(p0[j]@) == dv.push(
                                                node(s0, c).name@,
                                            );
                                        assert(paths@[j] == p0[j]);
                                    } else {
                                        assert(paths@[p0.len() as int] == p);
                                    }
                                }
                                assert forall|j: int| 0 <= j < paths@.len() implies path_view(
                                    (#[trigger] paths@[j])@,
                                ).drop_last() == dv && path_view(paths@[j]@).len() == dv.len()
                                    + 1 by {
                                    if j < p0.len() {
                                        assert(paths@[j] == p0[j]);
                                    }
                                }
                            }
                        }
                    },
                    None => {},
                }
                i = i + 1;
            }
        },
        None => {},
    }
    proof {
        assert forall|name: Seq<char>|
            !(#[trigger] state_at(fs.writes@, dv.push(name), fs.writes@.len() as int)
                is Absent) implies exists|j: int|
                0 <= j < paths@.len() && path_view(paths@[j]@) == dv.push(name) by {
            let j = choose|j: int| 0 <= j < listed@.len() && listed@[j]@ == name;
            assert(first.len() == listed@.len());
            assert(paths@[j] == paths@.subrange(0, first.len() as int)[j]);
            assert(path_view(first[j]@) == dv.push(listed@[j]@));
        }
    }
    let refused = apply_paths(session, fs, &paths);
    let ghost pv = paths@;
    let out = (paths, refused);
    assert(out.0@ == pv);
    out
}

} // verus!
