//! The instance tree: a flat arena of instances keyed by id, with parent and
//! children links expressed as ids into the arena.

use vstd::prelude::*;

verus! {

/// The id of the root instance of every tree.
pub const ROOT_ID: usize = 0;

/// What kind of filesystem entry an instance mirrors.
#[derive(Clone, Copy, Debug, PartialEq, Eq, Structural)]
pub enum EntryKind {
    File,
    Directory,
}

/// One node of the tree.
pub struct Instance {
    pub name: String,
    pub kind: EntryKind,
    pub contents: Vec<u8>,
    pub parent: Option<usize>,
    pub children: Vec<usize>,
}

/// The arena: slot `i` holds the instance with id `i`, or nothing once that
/// instance has been removed. Ids are never reused.
pub struct InstanceTree {
    pub slots: Vec<Option<Instance>>,
}

pub open spec fn live(s: Seq<Option<Instance>>, i: int) -> bool {
    0 <= i < s.len() && s[i] is Some
}

pub open spec fn node(s: Seq<Option<Instance>>, i: int) -> Instance {
    s[i]->Some_0
}

/// Links of instance `i` agree with the rest of the arena: its parent exists,
/// has a smaller id and lists it; each child exists, names it as parent and
/// is listed once.
pub open spec fn node_ok(s: Seq<Option<Instance>>, i: int) -> bool {
    live(s, i) ==> {
        let n = node(s, i);
        &&& (i == ROOT_ID) == (n.parent is None)
        &&& n.parent matches Some(p) ==> {
            &&& (p as int) < i
            &&& live(s, p as int)
            &&& node(s, p as int).children@.contains(i as usize)
        }
        &&& forall|k: int|
            0 <= k < n.children@.len() ==> {
                &&& live(s, #[trigger] n.children@[k] as int)
                &&& node(s, n.children@[k] as int).parent == Some(i as usize)
            }
        &&& n.children@.no_duplicates()
    }
}

/// Bidirectional consistency of the whole arena, with a live root.
pub open spec fn tree_wf(s: Seq<Option<Instance>>) -> bool {
    &&& s.len() <= usize::MAX
    &&& live(s, ROOT_ID as int)
    &&& forall|i: int| 0 <= i < s.len() ==> #[trigger] node_ok(s, i)
}

/// `i` is `a` or lies below `a`, following parent links upwards.
pub open spec fn descends(s: Seq<Option<Instance>>, a: int, i: int) -> bool
    decreases i,
{
    if i == a {
        true
    } else if live(s, i) && node(s, i).parent is Some && 0 <= node(s, i).parent->Some_0 < i {
        descends(s, a, node(s, i).parent->Some_0 as int)
    } else {
        false
    }
}

/// Only slot `x` lost its instance; every other slot keeps its liveness and
/// its parent.
pub open spec fn same_links_except(
    s: Seq<Option<Instance>>,
    t: Seq<Option<Instance>>,
    x: int,
) -> bool {
    &&& s.len() == t.len()
    &&& !live(t, x)
    &&& forall|j: int|
        0 <= j < s.len() && j != x ==> (#[trigger] live(t, j) == live(s, j) && (live(s, j)
            ==> node(t, j).parent == node(s, j).parent))
}

/// Number of live slots among the first `n`.
pub open spec fn count_live(s: Seq<Option<Instance>>, n: int) -> nat
    decreases n,
{
    if n <= 0 {
        0
    } else {
        count_live(s, n - 1) + if s[n - 1] is Some {
            1nat
        } else {
            0nat
        }
    }
}

proof fn lemma_count_drop(s: Seq<Option<Instance>>, t: Seq<Option<Instance>>, x: int, n: int)
    requires
        same_links_except(s, t, x),
        live(s, x),
        0 <= n <= s.len(),
    ensures
        count_live(t, n) + (if x < n {
            1int
        } else {
            0int
        }) == count_live(s, n),
    decreases n,
{
    if n > 0 {
        lemma_count_drop(s, t, x, n - 1);
        if n - 1 != x {
            assert(live(t, n - 1) == live(s, n - 1));
        }
    }
}

/// The root lies below no other instance.
proof fn lemma_root_below_only_itself(s: Seq<Option<Instance>>, a: int)
    requires
        tree_wf(s),
        a != ROOT_ID,
    ensures
        !descends(s, a, ROOT_ID as int),
{
    assert(node_ok(s, 0));
}

/// Ids only grow going down the tree.
pub proof fn lemma_descends_order(s: Seq<Option<Instance>>, a: int, i: int)
    requires
        descends(s, a, i),
    ensures
        a <= i,
    decreases i,
{
    if i != a {
        lemma_descends_order(s, a, node(s, i).parent->Some_0 as int);
    }
}

/// Nothing live lies strictly below a childless instance.
pub proof fn lemma_leaf_has_no_descendants(s: Seq<Option<Instance>>, x: int, i: int)
    requires
        tree_wf(s),
        live(s, x),
        node(s, x).children@.len() == 0,
        live(s, i),
        i != x,
    ensures
        !descends(s, x, i),
    decreases i,
{
    if descends(s, x, i) {
        assert(node_ok(s, i));
        let p = node(s, i).parent->Some_0 as int;
        if p == x {
            assert(node(s, x).children@.contains(i as usize));
        } else {
            lemma_leaf_has_no_descendants(s, x, p);
        }
    }
}

/// A live instance below `a` in a consistent arena means `a` is live too.
pub proof fn lemma_descends_live(s: Seq<Option<Instance>>, a: int, i: int)
    requires
        tree_wf(s),
        live(s, i),
        descends(s, a, i),
    ensures
        live(s, a),
    decreases i,
{
    if i != a {
        assert(node_ok(s, i));
        let p = node(s, i).parent->Some_0 as int;
        lemma_descends_live(s, a, p);
    }
}

/// Removing a childless instance leaves the ancestry of the others alone.
pub proof fn lemma_descends_frame(
    s: Seq<Option<Instance>>,
    t: Seq<Option<Instance>>,
    x: int,
    a: int,
    i: int,
)
    requires
        tree_wf(s),
        live(s, x),
        node(s, x).children@.len() == 0,
        same_links_except(s, t, x),
        live(t, i),
    ensures
        descends(t, a, i) == descends(s, a, i),
    decreases i,
{
    if i != a {
        assert(node_ok(s, i));
        assert(live(t, i) == live(s, i));
        if let Some(p) = node(s, i).parent {
            if p as int == x {
                assert(node(s, x).children@.contains(i as usize));
            }
            assert(live(t, p as int) == live(s, p as int));
            lemma_descends_frame(s, t, x, a, p as int);
        }
    }
}

impl View for InstanceTree {
    type V = Seq<Option<Instance>>;

    open spec fn view(&self) -> Seq<Option<Instance>> {
        self.slots@
    }
}

impl InstanceTree {
    pub open spec fn wf(&self) -> bool {
        tree_wf(self@)
    }

    /// A tree holding only a root directory named `root_name`.
    pub fn new(root_name: String) -> (r: InstanceTree)
        ensures
            r.wf(),
            r@.len() == 1,
            node(r@, ROOT_ID as int).name == root_name,
            node(r@, ROOT_ID as int).kind == EntryKind::Directory,
            node(r@, ROOT_ID as int).children@.len() == 0,
    {
        let root = Instance {
            name: root_name,
            kind: EntryKind::Directory,
            contents: Vec::new(),
            parent: None,
            children: Vec::new(),
        };
        let mut slots: Vec<Option<Instance>> = Vec::new();
        slots.push(Some(root));
        let r = InstanceTree { slots };
        assert(node_ok(r@, 0));
        r
    }

    /// Whether `id` names an instance of the tree.
    pub fn contains(&self, id: usize) -> (r: bool)
        ensures
            r == live(self@, id as int),
    {
        id < self.slots.len() && self.slots[id].is_some()
    }

    /// The instance with id `id`, if there is one.
    pub fn get(&self, id: usize) -> (r: Option<&Instance>)
        ensures
            r is Some == live(self@, id as int),
            r matches Some(n) ==> *n == node(self@, id as int),
    {
        if id < self.slots.len() {
            self.slots[id].as_ref()
        } else {
            None
        }
    }

    /// The child of `parent` called `name`, if any.
    pub fn find_child(&self, parent: usize, name: &String) -> (r: Option<usize>)
        requires
            self.wf(),
            live(self@, parent as int),
        ensures
            r matches Some(c) ==> {
                &&& node(self@, parent as int).children@.contains(c)
                &&& live(self@, c as int)
                &&& node(self@, c as int).parent == Some(parent)
                &&& node(self@, c as int).name@ == name@
            },
            r is None ==> forall|k: int|
                0 <= k < node(self@, parent as int).children@.len() ==> node(
                    self@,
                    #[trigger] node(self@, parent as int).children@[k] as int,
                ).name@ != name@,
    {
        let p = self.slots[parent].as_ref().unwrap();
        assert(node_ok(self@, parent as int));
        let mut k: usize = 0;
        while k < p.children.len()
            invariant
                *p == node(self@, parent as int),
                node_ok(self@, parent as int),
                live(self@, parent as int),
                k <= p.children@.len(),
                forall|j: int|
                    0 <= j < k ==> node(self@, #[trigger] p.children@[j] as int).name@ != name@,
            decreases p.children.len() - k,
        {
            let c = p.children[k];
            assert(live(self@, p.children@[k as int] as int));
            let n = self.slots[c].as_ref().unwrap();
            if n.name == *name {
                return Some(c);
            }
            k = k + 1;
        }
        None
    }

    /// Adds a new instance under `parent`, with the next unused id.
    pub fn add_child(&mut self, parent: usize, name: String, kind: EntryKind, contents: Vec<u8>) -> (r:
        usize)
        requires
            old(self).wf(),
            live(old(self)@, parent as int),
            old(self)@.len() < usize::MAX,
        ensures
            final(self).wf(),
            r == old(self)@.len(),
            final(self)@.len() == old(self)@.len() + 1,
            live(final(self)@, r as int),
            node(final(self)@, r as int).name == name,
            node(final(self)@, r as int).kind == kind,
            node(final(self)@, r as int).contents == contents,
            node(final(self)@, r as int).parent == Some(parent),
            node(final(self)@, r as int).children@.len() == 0,
            live(final(self)@, parent as int),
            node(final(self)@, parent as int).children@ == node(
                old(self)@,
                parent as int,
            ).children@.push(r),
            node(final(self)@, parent as int).name == node(old(self)@, parent as int).name,
            node(final(self)@, parent as int).kind == node(old(self)@, parent as int).kind,
            node(final(self)@, parent as int).contents == node(old(self)@, parent as int).contents,
            node(final(self)@, parent as int).parent == node(old(self)@, parent as int).parent,
            forall|j: int|
                0 <= j < old(self)@.len() && j != parent ==> #[trigger] final(self)@[j] == old(
                    self,
                )@[j],
    {
        let r = self.slots.len();
        let mut p = self.slots[parent].take().unwrap();
        p.children.push(r);
        self.slots[parent] = Some(p);
        self.slots.push(
            Some(Instance { name, kind, contents, parent: Some(parent), children: Vec::new() }),
        );
        proof {
            let s0 = old(self)@;
            let s1 = self@;
            assert forall|i: int| 0 <= i < s1.len() implies #[trigger] node_ok(s1, i) by {
                if i == r {
                    assert(node(s1, parent as int).children@.last() == r);
                } else {
                    assert(node_ok(s0, i));
                    if live(s1, i) {
                        let n = node(s1, i);
                        if let Some(q) = n.parent {
                            if q == parent {
                                assert(n.children@ == node(s0, i).children@ || i == parent);
                                assert(node(s1, parent as int).children@[node(
                                    s0,
                                    parent as int,
                                ).children@.index_of(i as usize)] == i as usize);
                            }
                        }
                        assert forall|k: int| 0 <= k < n.children@.len() implies {
                            &&& live(s1, #[trigger] n.children@[k] as int)
                            &&& node(s1, n.children@[k] as int).parent == Some(i as usize)
                        } by {
                            if i == parent && k == n.children@.len() - 1 {
                            } else {
                                assert(live(s0, node(s0, i).children@[k] as int));
                            }
                        }
                        if i == parent {
                            assert forall|k: int| 0 <= k < node(s0, i).children@.len() implies
                                #[trigger] node(s0, i).children@[k] != r by {
                                assert(live(s0, node(s0, i).children@[k] as int));
                            }
                            assert(!node(s0, i).children@.contains(r));
                            assert(n.children@.no_duplicates());
                        }
                    }
                }
            }
        }
        r
    }

    /// Replaces the contents of instance `id`, keeping its id and links.
    pub fn set_contents(&mut self, id: usize, contents: Vec<u8>)
        requires
            old(self).wf(),
            live(old(self)@, id as int),
        ensures
            final(self).wf(),
            final(self)@.len() == old(self)@.len(),
            live(final(self)@, id as int),
            node(final(self)@, id as int) == (Instance { contents, ..node(old(self)@, id as int) }),
            forall|j: int|
                0 <= j < old(self)@.len() && j != id ==> #[trigger] final(self)@[j] == old(
                    self,
                )@[j],
    {
        let mut n = self.slots[id].take().unwrap();
        n.contents = contents;
        self.slots[id] = Some(n);
        proof {
            let s0 = old(self)@;
            let s1 = self@;
            assert forall|i: int| 0 <= i < s1.len() implies #[trigger] node_ok(s1, i) by {
                assert(node_ok(s0, i));
                if live(s1, i) {
                    let m = node(s1, i);
                    if let Some(q) = m.parent {
                        assert(live(s1, q as int));
                    }
                    assert forall|k: int| 0 <= k < m.children@.len() implies {
                        &&& live(s1, #[trigger] m.children@[k] as int)
                        &&& node(s1, m.children@[k] as int).parent == Some(i as usize)
                    } by {
                        assert(live(s0, node(s0, i).children@[k] as int));
                    }
                }
            }
        }
    }

    /// Walks down first children from `top` to an instance without children.
    fn leaf_below(&self, top: usize) -> (r: usize)
        requires
            self.wf(),
            live(self@, top as int),
        ensures
            live(self@, r as int),
            descends(self@, top as int, r as int),
            node(self@, r as int).children@.len() == 0,
    {
        let mut cur = top;
        loop
            invariant
                self.wf(),
                live(self@, cur as int),
                descends(self@, top as int, cur as int),
            decreases self@.len() - cur,
        {
            let n = self.slots[cur].as_ref().unwrap();
            if n.children.len() == 0 {
                return cur;
            }
            let c = n.children[0];
            assert(node_ok(self@, cur as int));
            assert(live(self@, n.children@[0] as int));
            assert(node_ok(self@, c as int));
            cur = c;
        }
    }

    /// Removes the childless, non-root instance `x`, unlinking it from its
    /// parent.
    fn remove_leaf(&mut self, x: usize)
        requires
            old(self).wf(),
            live(old(self)@, x as int),
            x != ROOT_ID,
            node(old(self)@, x as int).children@.len() == 0,
        ensures
            final(self).wf(),
            same_links_except(old(self)@, final(self)@, x as int),
            forall|j: int|
                #![trigger live(final(self)@, j)]
                live(final(self)@, j) ==> {
                    &&& node(final(self)@, j).name == node(old(self)@, j).name
                    &&& node(final(self)@, j).kind == node(old(self)@, j).kind
                    &&& node(final(self)@, j).contents == node(old(self)@, j).contents
                },
    {
        let ghost s0 = self@;
        assert(node_ok(s0, x as int));
        let p = self.slots[x].as_ref().unwrap().parent.unwrap();
        assert(node_ok(s0, p as int));
        self.slots[x] = None;
        let mut pn = self.slots[p].take().unwrap();
        let mut k: usize = 0;
        while k < pn.children.len() && pn.children[k] != x
            invariant
                pn == node(s0, p as int),
                k <= pn.children@.len(),
                forall|j: int| 0 <= j < k ==> #[trigger] pn.children@[j] != x,
            decreases pn.children@.len() - k,
        {
            k = k + 1;
        }
        assert(k < pn.children@.len()) by {
            let w = choose|w: int| 0 <= w < pn.children@.len() && pn.children@[w] == x;
            assert(pn.children@[w] == x);
        }
        let ghost c0 = pn.children@;
        assert(c0[k as int] == x);
        pn.children.remove(k);
        self.slots[p] = Some(pn);
        proof {
            let s1 = self@;
            let c1 = node(s1, p as int).children@;
            assert(c1 == c0.remove(k as int));
            assert forall|a: int| 0 <= a < c1.len() implies #[trigger] c1[a] != x && c0.contains(
                c1[a],
            ) by {
                if a < k {
                    assert(c1[a] == c0[a]);
                } else {
                    assert(c1[a] == c0[a + 1]);
                }
                assert(c0.no_duplicates());
            }
            assert(c1.no_duplicates()) by {
                assert forall|a: int, b: int|
                    0 <= a < c1.len() && 0 <= b < c1.len() && a != b implies c1[a] != c1[b] by {
                    let a0 = if a < k {
                        a
                    } else {
                        a + 1
                    };
                    let b0 = if b < k {
                        b
                    } else {
                        b + 1
                    };
                    assert(c1[a] == c0[a0]);
                    assert(c1[b] == c0[b0]);
                }
            }
            assert forall|i: int| 0 <= i < s1.len() implies #[trigger] node_ok(s1, i) by {
                assert(node_ok(s0, i));
                if live(s1, i) {
                    let m = node(s1, i);
                    let m0 = node(s0, i);
                    if let Some(q) = m.parent {
                        assert(q != x) by {
                            assert(node(s0, q as int).children@.contains(i as usize));
                        }
                        assert(live(s1, q as int));
                        if q == p {
                            let w = choose|w: int| 0 <= w < c0.len() && c0[w] == i as usize;
                            assert(w != k);
                            if w < k {
                                assert(c1[w] == i as usize);
                            } else {
                                assert(c1[w - 1] == i as usize);
                            }
                        }
                    }
                    assert forall|j: int| 0 <= j < m.children@.len() implies {
                        &&& live(s1, #[trigger] m.children@[j] as int)
                        &&& node(s1, m.children@[j] as int).parent == Some(i as usize)
                    } by {
                        if i == p {
                            assert(c1[j] != x && c0.contains(c1[j]));
                            let w = choose|w: int| 0 <= w < c0.len() && c0[w] == c1[j];
                            assert(live(s0, c0[w] as int));
                        } else {
                            assert(live(s0, m0.children@[j] as int));
                            assert(node(s0, x as int).parent == Some(p));
                            assert(m0.children@[j] != x);
                        }
                    }
                }
            }
            assert forall|j: int|
                0 <= j < s0.len() && j != x implies (#[trigger] live(s1, j) == live(s0, j) && (
                live(s0, j) ==> node(s1, j).parent == node(s0, j).parent)) by {}
        }
    }

    /// Removes `top` and every instance below it. Returns the removed ids,
    /// each instance before its parent.
    pub fn remove_subtree(&mut self, top: usize) -> (removed: Vec<usize>)
        requires
            old(self).wf(),
            live(old(self)@, top as int),
            top != ROOT_ID,
        ensures
            final(self).wf(),
            final(self)@.len() == old(self)@.len(),
            forall|i: int|
                0 <= i < old(self)@.len() ==> (#[trigger] live(final(self)@, i) <==> (live(
                    old(self)@,
                    i,
                ) && !descends(old(self)@, top as int, i))),
            forall|i: int|
                #![trigger live(final(self)@, i)]
                live(final(self)@, i) ==> {
                    &&& node(final(self)@, i).name == node(old(self)@, i).name
                    &&& node(final(self)@, i).kind == node(old(self)@, i).kind
                    &&& node(final(self)@, i).contents == node(old(self)@, i).contents
                    &&& node(final(self)@, i).parent == node(old(self)@, i).parent
                },
            removed@.no_duplicates(),
            forall|j: int|
                0 <= j < removed@.len() ==> live(old(self)@, #[trigger] removed@[j] as int)
                    && descends(old(self)@, top as int, removed@[j] as int),
            forall|i: int|
                live(old(self)@, i) && descends(old(self)@, top as int, i) ==> removed@.contains(
                    i as usize,
                ),
            forall|a: int, b: int|
                0 <= a < b < removed@.len() ==> !descends(
                    old(self)@,
                    #[trigger] removed@[a] as int,
                    #[trigger] removed@[b] as int,
                ),
    {
        let ghost s0 = self@;
        let n = self.slots.len();
        let mut removed: Vec<usize> = Vec::new();
        while self.contains(top)
            invariant
                self.wf(),
                self@.len() == s0.len(),
                s0.len() == n,
                tree_wf(s0),
                top < n,
                top != ROOT_ID,
                forall|i: int|
                    #![trigger live(self@, i)]
                    live(self@, i) ==> {
                        &&& live(s0, i)
                        &&& node(self@, i).name == node(s0, i).name
                        &&& node(self@, i).kind == node(s0, i).kind
                        &&& node(self@, i).contents == node(s0, i).contents
                        &&& node(self@, i).parent == node(s0, i).parent
                    },
                forall|a: int, i: int|
                    live(self@, i) ==> #[trigger] descends(self@, a, i) == descends(s0, a, i),
                forall|i: int|
                    live(s0, i) ==> (#[trigger] live(self@, i) <==> !removed@.contains(i as usize)),
                removed@.no_duplicates(),
                forall|j: int|
                    0 <= j < removed@.len() ==> live(s0, #[trigger] removed@[j] as int) && descends(
                        s0,
                        top as int,
                        removed@[j] as int,
                    ),
                forall|j: int, i: int|
                    0 <= j < removed@.len() && live(self@, i) ==> !descends(
                        s0,
                        #[trigger] removed@[j] as int,
                        i,
                    ) && #[trigger] live(self@, i),
                forall|a: int, b: int|
                    0 <= a < b < removed@.len() ==> !descends(
                        s0,
                        #[trigger] removed@[a] as int,
                        #[trigger] removed@[b] as int,
                    ),
            decreases count_live(self@, self@.len() as int),
        {
            let leaf = self.leaf_below(top);
            proof {
                if leaf == ROOT_ID {
                    lemma_root_below_only_itself(self@, top as int);
                }
            }
            let ghost s1 = self@;
            self.remove_leaf(leaf);
            proof {
                let s2 = self@;
                lemma_count_drop(s1, s2, leaf as int, s1.len() as int);
                assert forall|a: int, i: int| live(s2, i) implies #[trigger] descends(s2, a, i)
                    == descends(s0, a, i) by {
                    lemma_descends_frame(s1, s2, leaf as int, a, i);
                    assert(live(s1, i));
                    assert(descends(s1, a, i) == descends(s0, a, i));
                }
                assert(!removed@.contains(leaf));
                assert forall|i: int| live(s2, i) implies !descends(s0, leaf as int, i) by {
                    assert(live(s1, i));
                    lemma_leaf_has_no_descendants(s1, leaf as int, i);
                    assert(descends(s1, leaf as int, i) == descends(s0, leaf as int, i));
                }
                assert forall|j: int| 0 <= j < removed@.len() implies !descends(
                    s0,
                    #[trigger] removed@[j] as int,
                    leaf as int,
                ) by {
                    assert(live(s1, leaf as int));
                }
            }
            let ghost r0 = removed@;
            removed.push(leaf);
            proof {
                let s2 = self@;
                assert(removed@ == r0.push(leaf));
                assert forall|i: int| live(s0, i) implies (#[trigger] live(s2, i)
                    <==> !removed@.contains(i as usize)) by {
                    if i != leaf {
                        assert(live(s2, i) == live(s1, i));
                        if r0.contains(i as usize) {
                            let j = choose|j: int| 0 <= j < r0.len() && r0[j] == i as usize;
                            assert(removed@[j] == i as usize);
                        }
                        if removed@.contains(i as usize) {
                            let j = choose|j: int| 0 <= j < removed@.len() && removed@[j] == i as usize;
                            assert(j < r0.len());
                            assert(r0[j] == i as usize);
                        }
                    }
                    assert(removed@.last() == leaf);
                }
            }
        }
        proof {
            let s2 = self@;
            assert forall|i: int| 0 <= i < s0.len() implies (#[trigger] live(s2, i) <==> (live(
                s0,
                i,
            ) && !descends(s0, top as int, i))) by {
                if live(s2, i) && descends(s0, top as int, i) {
                    lemma_descends_live(s2, top as int, i);
                }
                if live(s0, i) && !descends(s0, top as int, i) && !live(s2, i) {
                    let j = choose|j: int| 0 <= j < removed@.len() && removed@[j] == i as usize;
                    assert(descends(s0, top as int, removed@[j] as int));
                }
            }
            assert forall|i: int| live(s0, i) && descends(s0, top as int, i) implies removed@.contains(
                i as usize,
            ) by {
                if live(s2, i) {
                    lemma_descends_live(s2, top as int, i);
                }
            }
        }
        removed
    }

    /// Whether `i` is `a` or lies below it.
    pub fn is_below(&self, a: usize, i: usize) -> (r: bool)
        requires
            self.wf(),
            live(self@, i as int),
        ensures
            r == descends(self@, a as int, i as int),
    {
        let mut cur = i;
        loop
            invariant
                self.wf(),
                live(self@, cur as int),
                descends(self@, a as int, i as int) == descends(self@, a as int, cur as int),
            decreases cur,
        {
            if cur == a {
                return true;
            }
            assert(node_ok(self@, cur as int));
            match self.slots[cur].as_ref().unwrap().parent {
                Some(p) => {
                    cur = p;
                },
                None => {
                    return false;
                },
            }
        }
    }

    /// The ids of `top` and of every instance below it, in increasing order.
    pub fn subtree_ids(&self, top: usize) -> (r: Vec<usize>)
        requires
            self.wf(),
        ensures
            forall|i: int|
                #![trigger r@.contains(i as usize)]
                #![trigger descends(self@, top as int, i)]
                0 <= i < self@.len() ==> (r@.contains(i as usize) <==> live(self@, i) && descends(
                    self@,
                    top as int,
                    i,
                )),
            forall|a: int, b: int| 0 <= a < b < r@.len() ==> r@[a] < r@[b],
            forall|j: int| 0 <= j < r@.len() ==> (#[trigger] r@[j] as int) < self@.len(),
    {
        let mut r: Vec<usize> = Vec::new();
        let mut i: usize = 0;
        while i < self.slots.len()
            invariant
                self.wf(),
                i <= self@.len(),
                forall|j: int|
                    #![trigger r@.contains(j as usize)]
                    #![trigger descends(self@, top as int, j)]
                    0 <= j < i ==> (r@.contains(j as usize) <==> live(self@, j) && descends(
                        self@,
                        top as int,
                        j,
                    )),
                forall|j: int| 0 <= j < r@.len() ==> (#[trigger] r@[j] as int) < i,
                forall|a: int, b: int| 0 <= a < b < r@.len() ==> r@[a] < r@[b],
            decreases self@.len() - i,
        {
            let ghost r0 = r@;
            let present = self.slots[i].is_some();
            if present && self.is_below(top, i) {
                r.push(i);
                proof {
                    assert forall|j: int|
                        #![trigger r@.contains(j as usize)]
                        #![trigger descends(self@, top as int, j)]
                        0 <= j < i + 1 implies (r@.contains(j as usize) <==> live(
                        self@,
                        j,
                    ) && descends(self@, top as int, j)) by {
                        if j < i {
                            if r@.contains(j as usize) {
                                let w = choose|w: int| 0 <= w < r@.len() && r@[w] == j as usize;
                                assert(w < r0.len());
                                assert(r0[w] == j as usize);
                            }
                            if r0.contains(j as usize) {
                                let w = choose|w: int| 0 <= w < r0.len() && r0[w] == j as usize;
                                assert(r@[w] == j as usize);
                            }
                        } else {
                            assert(j == i);
                            assert(r@[r0.len() as int] == i);
                            assert(r@.contains(i));
                            assert(live(self@, i as int));
                            assert(descends(self@, top as int, i as int));
                        }
                    }
                }
            } else {
                proof {
                    if r0.contains(i) {
                        let w = choose|w: int| 0 <= w < r0.len() && r0[w] == i;
                        assert(r0[w] < i);
                    }
                }
            }
            i = i + 1;
        }
        r
    }
}

} // verus!
