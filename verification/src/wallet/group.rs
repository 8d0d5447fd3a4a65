//! The nested group tree, modelled as a flat arena.
//!
//! The whole forest lives in one flat list of [`Group`] nodes addressed by
//! [`GroupId`], where each node stores its `parent` and its `children` as ids
//! rather than owning the child structs. Serialisation needs no recursion, moving
//! a subtree is a re-link of three nodes, and ids stay stable across every
//! reorganisation. The price is that the parent/children links are kept consistent
//! by hand in the mutators; the type's invariant states that consistency, and
//! every mutator is proved to keep it, together with the tree's acyclicity.
use vstd::prelude::*;

use crate::keyed::{
    distinct_keys, has_key, lemma_pairs_map_at, lemma_pairs_map_dom, lemma_pairs_map_push,
    lemma_pairs_map_remove, lemma_pairs_map_update, pairs_map,
};
use crate::keyed::lemma_push_to_set;
use crate::text::{insert_sorted, str_eq, strictly_sorted};
use crate::wallet::error::{Error, Result};
use crate::wallet::id::GroupId;

verus! {

// --- model ----------------------------------------------------------------------

/// What a group node holds, by value.
pub struct GroupModel {
    pub parent: Option<Seq<char>>,
    pub children: Seq<Seq<char>>,
    pub name: Seq<char>,
    pub notes: Seq<char>,
    pub tags: Seq<Seq<char>>,
}

/// The ids of a list of group ids.
pub open spec fn id_seq(s: Seq<GroupId>) -> Seq<Seq<char>> {
    s.map_values(|g: GroupId| g@)
}

/// The characters of a list of strings.
pub open spec fn str_seq(s: Seq<String>) -> Seq<Seq<char>> {
    s.map_values(|t: String| t@)
}

/// The parent of `id` in a node table, when it has one.
pub open spec fn parent_of(nodes: Map<Seq<char>, GroupModel>, id: Seq<char>) -> Option<Seq<char>> {
    if nodes.contains_key(id) {
        nodes[id].parent
    } else {
        None
    }
}

/// The node `k` steps above `n`, following parent links.
pub open spec fn up(nodes: Map<Seq<char>, GroupModel>, n: Seq<char>, k: nat) -> Option<Seq<char>>
    decreases k,
{
    if k == 0 {
        Some(n)
    } else {
        match parent_of(nodes, n) {
            Some(p) => up(nodes, p, (k - 1) as nat),
            None => None,
        }
    }
}

/// `n` is `a` or lies below it: `a` is reached from `n` by following parents.
pub open spec fn in_subtree(nodes: Map<Seq<char>, GroupModel>, n: Seq<char>, a: Seq<char>) -> bool {
    exists|k: nat| up(nodes, n, k) == Some(a)
}

/// The tree's consistency, witnessed by a depth for every node: the root has no
/// parent and depth 0; every other node has a parent in the table that lists it
/// among its children and is one level shallower; every listed child is in the
/// table and names its lister as parent; and no child is listed twice.
pub open spec fn tree_wf(
    root: Seq<char>,
    nodes: Map<Seq<char>, GroupModel>,
    depth: Map<Seq<char>, nat>,
) -> bool {
    &&& nodes.contains_key(root)
    &&& nodes[root].parent is None
    &&& depth.dom() == nodes.dom()
    &&& depth[root] == 0
    &&& forall|n: Seq<char>|
        #![trigger nodes[n]]
        nodes.contains_key(n) && n != root ==> {
            &&& nodes[n].parent matches Some(p)
            &&& nodes.contains_key(p)
            &&& nodes[p].children.contains(n)
            &&& depth[n] == depth[p] + 1
        }
    &&& forall|p: Seq<char>, i: int|
        #![trigger nodes[p].children[i]]
        nodes.contains_key(p) && 0 <= i < nodes[p].children.len() ==> {
            &&& nodes.contains_key(nodes[p].children[i])
            &&& nodes[nodes[p].children[i]].parent == Some(p)
        }
    &&& forall|p: Seq<char>| #[trigger] nodes.contains_key(p) ==> nodes[p].children.no_duplicates()
}

/// `cs` without `c`.
pub open spec fn without(cs: Seq<Seq<char>>, c: Seq<char>) -> Seq<Seq<char>> {
    cs.remove(cs.index_of(c))
}

/// A node with a different parent.
pub open spec fn with_parent(g: GroupModel, p: Option<Seq<char>>) -> GroupModel {
    GroupModel { parent: p, ..g }
}

/// A node with different children.
pub open spec fn with_children(g: GroupModel, cs: Seq<Seq<char>>) -> GroupModel {
    GroupModel { children: cs, ..g }
}

/// A node with a different name.
pub open spec fn with_name(g: GroupModel, name: Seq<char>) -> GroupModel {
    GroupModel { name, ..g }
}

/// The table after adding a new leaf `id` named `name` under `parent`.
pub open spec fn added(
    nodes: Map<Seq<char>, GroupModel>,
    parent: Seq<char>,
    id: Seq<char>,
    name: Seq<char>,
) -> Map<Seq<char>, GroupModel> {
    nodes.insert(parent, with_children(nodes[parent], nodes[parent].children.push(id))).insert(
        id,
        GroupModel {
            parent: Some(parent),
            children: Seq::empty(),
            name,
            notes: Seq::empty(),
            tags: Seq::empty(),
        },
    )
}

/// The table after moving `id` from its parent to the end of `np`'s children.
pub open spec fn moved(
    nodes: Map<Seq<char>, GroupModel>,
    id: Seq<char>,
    np: Seq<char>,
) -> Map<Seq<char>, GroupModel> {
    let op = nodes[id].parent->Some_0;
    let detached = nodes.insert(op, with_children(nodes[op], without(nodes[op].children, id)));
    let attached = detached.insert(np, with_children(detached[np], detached[np].children.push(id)));
    attached.insert(id, with_parent(attached[id], Some(np)))
}

/// The table after removing the leaf `id`.
pub open spec fn removed(nodes: Map<Seq<char>, GroupModel>, id: Seq<char>) -> Map<
    Seq<char>,
    GroupModel,
> {
    let p = nodes[id].parent->Some_0;
    nodes.insert(p, with_children(nodes[p], without(nodes[p].children, id))).remove(id)
}

// --- model lemmas -----------------------------------------------------------------

proof fn lemma_without(cs: Seq<Seq<char>>, c: Seq<char>)
    requires
        cs.no_duplicates(),
        cs.contains(c),
    ensures
        without(cs, c).no_duplicates(),
        !without(cs, c).contains(c),
        forall|x: Seq<char>| x != c ==> (without(cs, c).contains(x) <==> cs.contains(x)),
        without(cs, c).len() == cs.len() - 1,
{
    let i = cs.index_of(c);
    let w = without(cs, c);
    assert(0 <= i < cs.len() && cs[i] == c);
    assert forall|a: int, b: int| 0 <= a < w.len() && 0 <= b < w.len() && a != b implies w[a] != w[b] by {
        let a2 = if a < i { a } else { a + 1 };
        let b2 = if b < i { b } else { b + 1 };
        assert(w[a] == cs[a2]);
        assert(w[b] == cs[b2]);
    }
    assert(!w.contains(c)) by {
        if w.contains(c) {
            let k = choose|k: int| 0 <= k < w.len() && w[k] == c;
            let k2 = if k < i { k } else { k + 1 };
            assert(cs[k2] == c);
        }
    }
    assert forall|x: Seq<char>| x != c implies (w.contains(x) <==> cs.contains(x)) by {
        if w.contains(x) {
            let k = choose|k: int| 0 <= k < w.len() && w[k] == x;
            let k2 = if k < i { k } else { k + 1 };
            assert(cs[k2] == x);
        }
        if cs.contains(x) {
            let k = choose|k: int| 0 <= k < cs.len() && cs[k] == x;
            if k < i {
                assert(w[k] == x);
            } else {
                assert(k != i);
                assert(w[k - 1] == x);
            }
        }
    }
}

proof fn lemma_push_child(cs: Seq<Seq<char>>, c: Seq<char>)
    requires
        cs.no_duplicates(),
        !cs.contains(c),
    ensures
        cs.push(c).no_duplicates(),
        forall|x: Seq<char>| cs.push(c).contains(x) <==> (cs.contains(x) || x == c),
{
    let t = cs.push(c);
    assert forall|a: int, b: int| 0 <= a < t.len() && 0 <= b < t.len() && a != b implies t[a] != t[b] by {
        if a == cs.len() {
            assert(cs.contains(t[b]));
        } else if b == cs.len() {
            assert(cs.contains(t[a]));
        }
    }
    assert forall|x: Seq<char>| t.contains(x) <==> (cs.contains(x) || x == c) by {
        if t.contains(x) {
            let k = choose|k: int| 0 <= k < t.len() && t[k] == x;
            if k < cs.len() {
                assert(cs[k] == x);
            }
        }
        if cs.contains(x) {
            let k = choose|k: int| 0 <= k < cs.len() && cs[k] == x;
            assert(t[k] == x);
        }
        if x == c {
            assert(t[cs.len() as int] == x);
        }
    }
}

/// Following parents from `n` for `k` steps lands `k` levels up.
proof fn lemma_up_depth(
    root: Seq<char>,
    nodes: Map<Seq<char>, GroupModel>,
    depth: Map<Seq<char>, nat>,
    n: Seq<char>,
    k: nat,
)
    requires
        tree_wf(root, nodes, depth),
        nodes.contains_key(n),
    ensures
        up(nodes, n, k) matches Some(a) ==> nodes.contains_key(a) && depth[n] == depth[a] + k,
        k <= depth[n] ==> up(nodes, n, k) is Some,
    decreases k,
{
    if k > 0 {
        if n == root {
            assert(parent_of(nodes, n) is None);
        } else {
            let p = nodes[n].parent->Some_0;
            lemma_up_depth(root, nodes, depth, p, (k - 1) as nat);
        }
    }
}

/// The root is in every node's ancestry, and nothing but the root lies above it.
proof fn lemma_root_subtree(
    root: Seq<char>,
    nodes: Map<Seq<char>, GroupModel>,
    depth: Map<Seq<char>, nat>,
    a: Seq<char>,
)
    requires
        tree_wf(root, nodes, depth),
    ensures
        in_subtree(nodes, root, a) <==> a == root,
{
    if in_subtree(nodes, root, a) {
        let k = choose|k: nat| up(nodes, root, k) == Some(a);
        if k > 0 {
            assert(parent_of(nodes, root) is None);
        }
    }
    if a == root {
        assert(up(nodes, root, 0) == Some(a));
    }
}

/// One step up: `n` lies under `a` exactly when `n` is `a` or its parent lies
/// under `a`.
proof fn lemma_subtree_step(nodes: Map<Seq<char>, GroupModel>, n: Seq<char>, a: Seq<char>)
    requires
        parent_of(nodes, n) is Some,
    ensures
        in_subtree(nodes, n, a) <==> (n == a || in_subtree(nodes, parent_of(nodes, n)->Some_0, a)),
{
    let p = parent_of(nodes, n)->Some_0;
    if in_subtree(nodes, n, a) && n != a {
        let k = choose|k: nat| up(nodes, n, k) == Some(a);
        assert(k > 0);
        assert(up(nodes, p, (k - 1) as nat) == Some(a));
    }
    if in_subtree(nodes, p, a) {
        let k = choose|k: nat| up(nodes, p, k) == Some(a);
        assert(up(nodes, n, k + 1) == Some(a));
    }
    if n == a {
        assert(up(nodes, n, 0) == Some(a));
    }
}

/// Adding a new leaf under an existing node keeps the tree consistent.
proof fn lemma_add_wf(
    root: Seq<char>,
    nodes: Map<Seq<char>, GroupModel>,
    depth: Map<Seq<char>, nat>,
    parent: Seq<char>,
    id: Seq<char>,
    name: Seq<char>,
)
    requires
        tree_wf(root, nodes, depth),
        nodes.contains_key(parent),
        !nodes.contains_key(id),
    ensures
        tree_wf(root, added(nodes, parent, id, name), depth.insert(id, depth[parent] + 1)),
{
    let t = added(nodes, parent, id, name);
    let d = depth.insert(id, depth[parent] + 1);
    assert(!nodes[parent].children.contains(id)) by {
        if nodes[parent].children.contains(id) {
            let i = choose|i: int| 0 <= i < nodes[parent].children.len() && nodes[parent].children[i] == id;
            assert(nodes.contains_key(nodes[parent].children[i]));
        }
    }
    lemma_push_child(nodes[parent].children, id);
    assert(d.dom() =~= t.dom());
    assert forall|n: Seq<char>| #![trigger t[n]] t.contains_key(n) && n != root implies {
        &&& t[n].parent matches Some(p)
        &&& t.contains_key(p)
        &&& t[p].children.contains(n)
        &&& d[n] == d[p] + 1
    } by {
        if n != id {
            let p = nodes[n].parent->Some_0;
            assert(nodes[p].children.contains(n));
        }
    }
    assert forall|p: Seq<char>, i: int|
        #![trigger t[p].children[i]]
        t.contains_key(p) && 0 <= i < t[p].children.len() implies {
            &&& t.contains_key(t[p].children[i])
            &&& t[t[p].children[i]].parent == Some(p)
        } by {
        if p == parent {
            if i < nodes[parent].children.len() {
                assert(t[p].children[i] == nodes[p].children[i]);
                assert(nodes[p].children[i] != id);
            }
        } else if p != id {
            assert(nodes[p].children[i] != id);
        }
    }
}

/// The depths after moving `id` under `np`: the moved subtree shifts by the same
/// amount, everything else stays.
pub open spec fn moved_depth(
    nodes: Map<Seq<char>, GroupModel>,
    depth: Map<Seq<char>, nat>,
    id: Seq<char>,
    np: Seq<char>,
) -> Map<Seq<char>, nat> {
    Map::new(
        |n: Seq<char>| nodes.contains_key(n),
        |n: Seq<char>|
            if in_subtree(nodes, n, id) {
                (depth[n] - depth[id] + depth[np] + 1) as nat
            } else {
                depth[n]
            },
    )
}

/// Facts about the nodes a move touches.
proof fn lemma_move_facts(
    root: Seq<char>,
    nodes: Map<Seq<char>, GroupModel>,
    depth: Map<Seq<char>, nat>,
    id: Seq<char>,
    np: Seq<char>,
)
    requires
        tree_wf(root, nodes, depth),
        nodes.contains_key(id),
        nodes.contains_key(np),
        id != root,
        !in_subtree(nodes, np, id),
    ensures
        ({
            let op = nodes[id].parent->Some_0;
            &&& nodes.contains_key(op)
            &&& nodes[op].children.contains(id)
            &&& np != id
            &&& (!nodes[np].children.contains(id) || np == op)
            &&& !in_subtree(nodes, root, id)
            &&& forall|n: Seq<char>|
                nodes.contains_key(n) && #[trigger] in_subtree(nodes, n, id) ==> depth[n]
                    >= depth[id]
        }),
{
    let op = nodes[id].parent->Some_0;
    assert(nodes[id] == nodes[id]);
    assert(np != id) by {
        assert(up(nodes, np, 0) == Some(np));
    }
    assert(!nodes[np].children.contains(id) || np == op) by {
        if nodes[np].children.contains(id) {
            let i = choose|i: int| 0 <= i < nodes[np].children.len() && nodes[np].children[i] == id;
            assert(nodes[nodes[np].children[i]].parent == Some(np));
        }
    }
    lemma_root_subtree(root, nodes, depth, id);
    assert forall|n: Seq<char>| nodes.contains_key(n) && #[trigger] in_subtree(nodes, n, id) implies depth[n]
        >= depth[id] by {
        let k = choose|k: nat| up(nodes, n, k) == Some(id);
        lemma_up_depth(root, nodes, depth, n, k);
    }
}

/// After a move, every non-root node has a parent that lists it and is one level
/// shallower.
proof fn lemma_move_parents(
    root: Seq<char>,
    nodes: Map<Seq<char>, GroupModel>,
    depth: Map<Seq<char>, nat>,
    id: Seq<char>,
    np: Seq<char>,
)
    requires
        tree_wf(root, nodes, depth),
        nodes.contains_key(id),
        nodes.contains_key(np),
        id != root,
        !in_subtree(nodes, np, id),
    ensures
        ({
            let t = moved(nodes, id, np);
            let nd = moved_depth(nodes, depth, id, np);
            forall|n: Seq<char>|
                #![trigger t[n]]
                t.contains_key(n) && n != root ==> {
                    &&& t[n].parent matches Some(p)
                    &&& t.contains_key(p)
                    &&& t[p].children.contains(n)
                    &&& nd[n] == nd[p] + 1
                }
        }),
{
    let op = nodes[id].parent->Some_0;
    let t = moved(nodes, id, np);
    let nd = moved_depth(nodes, depth, id, np);
    lemma_move_facts(root, nodes, depth, id, np);
    lemma_without(nodes[op].children, id);
    let np_children = if np == op {
        without(nodes[op].children, id)
    } else {
        nodes[np].children
    };
    assert(t[np].children == np_children.push(id));
    lemma_push_child(np_children, id);
    assert forall|n: Seq<char>| #![trigger t[n]] t.contains_key(n) && n != root implies {
        &&& t[n].parent matches Some(p)
        &&& t.contains_key(p)
        &&& t[p].children.contains(n)
        &&& nd[n] == nd[p] + 1
    } by {
        if n == id {
            assert(t[n].parent == Some(np));
            assert(t[np].children.contains(id));
            assert(!in_subtree(nodes, np, id));
            assert(up(nodes, id, 0) == Some(id));
            assert(in_subtree(nodes, id, id));
        } else {
            assert(nodes[n] == nodes[n]);
            let p = nodes[n].parent->Some_0;
            assert(nodes[p].children.contains(n));
            assert(t[n].parent == Some(p));
            if p == op {
                assert(without(nodes[op].children, id).contains(n));
            }
            if p == np {
                assert(np_children.contains(n));
            }
            assert(t[p].children.contains(n));
            lemma_subtree_step(nodes, n, id);
            assert(parent_of(nodes, n) == Some(p));
        }
    }
}

/// After a move, every listed child names its lister as parent, and no list
/// repeats a child.
proof fn lemma_move_children(
    root: Seq<char>,
    nodes: Map<Seq<char>, GroupModel>,
    depth: Map<Seq<char>, nat>,
    id: Seq<char>,
    np: Seq<char>,
)
    requires
        tree_wf(root, nodes, depth),
        nodes.contains_key(id),
        nodes.contains_key(np),
        id != root,
        !in_subtree(nodes, np, id),
    ensures
        ({
            let t = moved(nodes, id, np);
            &&& forall|p: Seq<char>, i: int|
                #![trigger t[p].children[i]]
                t.contains_key(p) && 0 <= i < t[p].children.len() ==> {
                    &&& t.contains_key(t[p].children[i])
                    &&& t[t[p].children[i]].parent == Some(p)
                }
            &&& forall|p: Seq<char>| #[trigger] t.contains_key(p) ==> t[p].children.no_duplicates()
        }),
{
    let op = nodes[id].parent->Some_0;
    let t = moved(nodes, id, np);
    lemma_move_facts(root, nodes, depth, id, np);
    lemma_without(nodes[op].children, id);
    let np_children = if np == op {
        without(nodes[op].children, id)
    } else {
        nodes[np].children
    };
    assert(t[np].children == np_children.push(id));
    lemma_push_child(np_children, id);
    assert forall|p: Seq<char>, i: int|
        #![trigger t[p].children[i]]
        t.contains_key(p) && 0 <= i < t[p].children.len() implies {
            &&& t.contains_key(t[p].children[i])
            &&& t[t[p].children[i]].parent == Some(p)
        } by {
        let c = t[p].children[i];
        if p == np && i == t[p].children.len() - 1 {
            assert(c == id);
        } else {
            let cs = if p == np {
                np_children
            } else if p == op {
                without(nodes[op].children, id)
            } else {
                nodes[p].children
            };
            assert(t[p].children[i] == cs[i]);
            assert(cs.contains(c));
            assert(c != id);
            if p == op || (p == np && np == op) {
                assert(nodes[op].children.contains(c));
                let j = choose|j: int| 0 <= j < nodes[op].children.len() && nodes[op].children[j] == c;
                assert(nodes[nodes[op].children[j]].parent == Some(op));
            } else {
                assert(nodes[nodes[p].children[i]].parent == Some(p));
            }
        }
    }
    assert forall|p: Seq<char>| #[trigger] t.contains_key(p) implies t[p].children.no_duplicates() by {
        if p != op && p != np {
            assert(nodes.contains_key(p));
        }
    }
}

/// Moving a non-root node under a node outside its own subtree keeps the tree
/// consistent; the moved subtree's depths shift by the same amount.
proof fn lemma_move_wf(
    root: Seq<char>,
    nodes: Map<Seq<char>, GroupModel>,
    depth: Map<Seq<char>, nat>,
    id: Seq<char>,
    np: Seq<char>,
)
    requires
        tree_wf(root, nodes, depth),
        nodes.contains_key(id),
        nodes.contains_key(np),
        id != root,
        !in_subtree(nodes, np, id),
    ensures
        tree_wf(root, moved(nodes, id, np), moved_depth(nodes, depth, id, np)),
{
    let t = moved(nodes, id, np);
    let nd = moved_depth(nodes, depth, id, np);
    lemma_move_facts(root, nodes, depth, id, np);
    lemma_move_parents(root, nodes, depth, id, np);
    lemma_move_children(root, nodes, depth, id, np);
    assert(nd.dom() =~= t.dom());
}

/// Removing a childless non-root node keeps the tree consistent.
proof fn lemma_remove_wf(
    root: Seq<char>,
    nodes: Map<Seq<char>, GroupModel>,
    depth: Map<Seq<char>, nat>,
    id: Seq<char>,
)
    requires
        tree_wf(root, nodes, depth),
        nodes.contains_key(id),
        id != root,
        nodes[id].children.len() == 0,
    ensures
        tree_wf(root, removed(nodes, id), depth.remove(id)),
{
    let p0 = nodes[id].parent->Some_0;
    let t = removed(nodes, id);
    let d = depth.remove(id);
    lemma_without(nodes[p0].children, id);
    assert(d.dom() =~= t.dom());
    assert(p0 != id);
    assert forall|n: Seq<char>| #![trigger t[n]] t.contains_key(n) && n != root implies {
        &&& t[n].parent matches Some(p)
        &&& t.contains_key(p)
        &&& t[p].children.contains(n)
        &&& d[n] == d[p] + 1
    } by {
        let p = nodes[n].parent->Some_0;
        assert(nodes[p].children.contains(n));
        assert(p != id) by {
            if p == id {
                let i = choose|i: int| 0 <= i < nodes[id].children.len() && nodes[id].children[i] == n;
            }
        }
        if p == p0 {
            assert(without(nodes[p0].children, id).contains(n));
        }
    }
    assert forall|p: Seq<char>, i: int|
        #![trigger t[p].children[i]]
        t.contains_key(p) && 0 <= i < t[p].children.len() implies {
            &&& t.contains_key(t[p].children[i])
            &&& t[t[p].children[i]].parent == Some(p)
        } by {
        let c = t[p].children[i];
        if p == p0 {
            assert(without(nodes[p0].children, id).contains(c));
            assert(nodes[p0].children.contains(c));
            let j = choose|j: int| 0 <= j < nodes[p0].children.len() && nodes[p0].children[j] == c;
            assert(nodes[nodes[p0].children[j]].parent == Some(p0));
        } else {
            assert(nodes[nodes[p].children[i]].parent == Some(p));
            assert(nodes[p].children[i] != id) by {
                if nodes[p].children[i] == id {
                    assert(nodes[id].parent == Some(p));
                }
            }
        }
    }
    assert forall|p: Seq<char>| #[trigger] t.contains_key(p) implies t[p].children.no_duplicates() by {
    }
}


/// The table after removing `id` together with every node below it.
pub open spec fn pruned(nodes: Map<Seq<char>, GroupModel>, id: Seq<char>) -> Map<
    Seq<char>,
    GroupModel,
> {
    let p = nodes[id].parent->Some_0;
    Map::new(
        |k: Seq<char>| nodes.contains_key(k) && !in_subtree(nodes, k, id),
        |k: Seq<char>|
            if k == p {
                with_children(nodes[p], without(nodes[p].children, id))
            } else {
                nodes[k]
            },
    )
}

/// Removing a non-root node with its whole subtree keeps the tree consistent.
proof fn lemma_prune_wf(
    root: Seq<char>,
    nodes: Map<Seq<char>, GroupModel>,
    depth: Map<Seq<char>, nat>,
    id: Seq<char>,
)
    requires
        tree_wf(root, nodes, depth),
        nodes.contains_key(id),
        id != root,
    ensures
        tree_wf(root, pruned(nodes, id), depth.restrict(pruned(nodes, id).dom())),
        pruned(nodes, id).contains_key(nodes[id].parent->Some_0),
{
    let p0 = nodes[id].parent->Some_0;
    let t = pruned(nodes, id);
    let d = depth.restrict(t.dom());
    lemma_without(nodes[p0].children, id);
    assert(up(nodes, id, 0) == Some(id));
    lemma_root_subtree(root, nodes, depth, id);
    assert(t.contains_key(root));
    assert(d.dom() =~= t.dom());
    assert(p0 != id);
    assert(!in_subtree(nodes, p0, id)) by {
        if in_subtree(nodes, p0, id) {
            let k = choose|k: nat| up(nodes, p0, k) == Some(id);
            lemma_up_depth(root, nodes, depth, p0, k);
        }
    }
    assert forall|n: Seq<char>| #![trigger t[n]] t.contains_key(n) && n != root implies {
        &&& t[n].parent matches Some(p)
        &&& t.contains_key(p)
        &&& t[p].children.contains(n)
        &&& d[n] == d[p] + 1
    } by {
        let p = nodes[n].parent->Some_0;
        assert(nodes[p].children.contains(n));
        lemma_subtree_step(nodes, n, id);
        assert(n != id);
        if p == p0 {
            assert(without(nodes[p0].children, id).contains(n));
        }
    }
    assert forall|p: Seq<char>, i: int|
        #![trigger t[p].children[i]]
        t.contains_key(p) && 0 <= i < t[p].children.len() implies {
            &&& t.contains_key(t[p].children[i])
            &&& t[t[p].children[i]].parent == Some(p)
        } by {
        let c = t[p].children[i];
        if p == p0 {
            assert(without(nodes[p0].children, id).contains(c));
            assert(nodes[p0].children.contains(c));
            let j = choose|j: int| 0 <= j < nodes[p0].children.len() && nodes[p0].children[j] == c;
            assert(nodes[nodes[p0].children[j]].parent == Some(p0));
            assert(c != id);
        } else {
            assert(nodes[nodes[p].children[i]].parent == Some(p));
        }
        assert(nodes.contains_key(c));
        assert(parent_of(nodes, c) == Some(p));
        lemma_subtree_step(nodes, c, id);
        if c == id {
            assert(p == p0);
        }
    }
    assert forall|p: Seq<char>| #[trigger] t.contains_key(p) implies t[p].children.no_duplicates() by {
    }
}

/// The table after removing `id` once its children have been moved, in order, to
/// the end of its parent's child list.
pub open spec fn reparented(nodes: Map<Seq<char>, GroupModel>, id: Seq<char>) -> Map<
    Seq<char>,
    GroupModel,
> {
    let p = nodes[id].parent->Some_0;
    let cs = nodes[id].children;
    Map::new(
        |k: Seq<char>| nodes.contains_key(k) && k != id,
        |k: Seq<char>|
            if k == p {
                with_children(nodes[p], without(nodes[p].children, id) + cs)
            } else if cs.contains(k) {
                with_parent(nodes[k], Some(p))
            } else {
                nodes[k]
            },
    )
}

/// The table once the first `j` children of `id` have been moved under `p`.
pub open spec fn reparenting(
    nodes: Map<Seq<char>, GroupModel>,
    id: Seq<char>,
    p: Seq<char>,
    j: int,
) -> Map<Seq<char>, GroupModel> {
    let cs = nodes[id].children;
    Map::new(
        |k: Seq<char>| nodes.contains_key(k),
        |k: Seq<char>|
            if k == id {
                with_children(nodes[id], cs.subrange(j, cs.len() as int))
            } else if k == p {
                with_children(nodes[p], nodes[p].children + cs.subrange(0, j))
            } else if cs.subrange(0, j).contains(k) {
                with_parent(nodes[k], Some(p))
            } else {
                nodes[k]
            },
    )
}

/// Dropping the first element of a list without repeats.
proof fn lemma_without_first(cs: Seq<Seq<char>>)
    requires
        cs.no_duplicates(),
        cs.len() > 0,
    ensures
        without(cs, cs[0]) == cs.subrange(1, cs.len() as int),
{
    let k = cs.index_of(cs[0]);
    assert(cs.contains(cs[0]));
    assert(0 <= k < cs.len() && cs[k] == cs[0]);
    assert(k == 0);
    assert(without(cs, cs[0]) =~= cs.subrange(1, cs.len() as int));
}

/// Removing an element of the first part of a concatenation without repeats.
proof fn lemma_without_concat(a: Seq<Seq<char>>, b: Seq<Seq<char>>, c: Seq<char>)
    requires
        (a + b).no_duplicates(),
        a.contains(c),
    ensures
        without(a + b, c) == without(a, c) + b,
{
    let i = a.index_of(c);
    assert(0 <= i < a.len() && a[i] == c);
    let k = (a + b).index_of(c);
    assert((a + b).contains(c)) by {
        assert((a + b)[i] == c);
    }
    assert(0 <= k < (a + b).len() && (a + b)[k] == c);
    assert((a + b)[i] == c);
    assert(k == i);
    assert(without(a + b, c) =~= without(a, c) + b);
}

/// One child moved: the table of step `j` with `id`'s `j`-th child moved under `p`
/// is the table of step `j + 1`.
proof fn lemma_reparent_step(
    root: Seq<char>,
    nodes: Map<Seq<char>, GroupModel>,
    depth: Map<Seq<char>, nat>,
    id: Seq<char>,
    j: int,
)
    requires
        tree_wf(root, nodes, depth),
        nodes.contains_key(id),
        id != root,
        0 <= j < nodes[id].children.len(),
    ensures
        moved(
            reparenting(nodes, id, nodes[id].parent->Some_0, j),
            nodes[id].children[j],
            nodes[id].parent->Some_0,
        ) == reparenting(nodes, id, nodes[id].parent->Some_0, j + 1),
{
    let p = nodes[id].parent->Some_0;
    let cs = nodes[id].children;
    let c = cs[j];
    let cur = reparenting(nodes, id, p, j);
    assert(nodes.contains_key(c) && nodes[c].parent == Some(id));
    assert(c != id);
    assert(p != id);
    assert(c != p) by {
        if c == p {
            assert(depth[c] == depth[id] + 1);
            assert(depth[id] == depth[p] + 1);
        }
    }
    assert(!cs.subrange(0, j).contains(c)) by {
        if cs.subrange(0, j).contains(c) {
            let t = choose|t: int| 0 <= t < j && #[trigger] cs.subrange(0, j)[t] == c;
            assert(cs[t] == cs[j]);
        }
    }
    assert(cur[c] == nodes[c]);
    assert(cur[id].children == cs.subrange(j, cs.len() as int));
    assert(cs.subrange(j, cs.len() as int).no_duplicates());
    lemma_without_first(cs.subrange(j, cs.len() as int));
    assert(cs.subrange(j, cs.len() as int).subrange(1, cs.len() - j) =~= cs.subrange(
        j + 1,
        cs.len() as int,
    ));
    assert(nodes[p].children + cs.subrange(0, j + 1) =~= (nodes[p].children + cs.subrange(0, j)).push(c));
    assert forall|k: Seq<char>| cs.subrange(0, j + 1).contains(k) <==> (cs.subrange(0, j).contains(k) || k == c) by {
        if cs.subrange(0, j + 1).contains(k) {
            let t = choose|t: int| 0 <= t < j + 1 && #[trigger] cs.subrange(0, j + 1)[t] == k;
            if t < j {
                assert(cs.subrange(0, j)[t] == k);
            }
        }
        if cs.subrange(0, j).contains(k) {
            let t = choose|t: int| 0 <= t < j && #[trigger] cs.subrange(0, j)[t] == k;
            assert(cs.subrange(0, j + 1)[t] == k);
        }
        if k == c {
            assert(cs.subrange(0, j + 1)[j] == k);
        }
    }
    assert(moved(cur, c, p) =~= reparenting(nodes, id, p, j + 1));
}

/// Once every child is moved, removing `id` gives [`reparented`].
proof fn lemma_reparent_done(
    root: Seq<char>,
    nodes: Map<Seq<char>, GroupModel>,
    depth: Map<Seq<char>, nat>,
    id: Seq<char>,
)
    requires
        tree_wf(root, nodes, depth),
        nodes.contains_key(id),
        id != root,
    ensures
        removed(
            reparenting(nodes, id, nodes[id].parent->Some_0, nodes[id].children.len() as int),
            id,
        ) == reparented(nodes, id),
{
    let p = nodes[id].parent->Some_0;
    let cs = nodes[id].children;
    let cur = reparenting(nodes, id, p, cs.len() as int);
    assert(cs.subrange(0, cs.len() as int) =~= cs);
    assert(p != id);
    assert(nodes[p].children.contains(id));
    assert((nodes[p].children + cs).no_duplicates()) by {
        let t = nodes[p].children + cs;
        assert forall|a: int, b: int| 0 <= a < t.len() && 0 <= b < t.len() && a != b implies t[a] != t[b] by {
            let pl = nodes[p].children.len();
            if a < pl && b >= pl {
                assert(nodes[t[a]].parent == Some(p));
                assert(nodes[cs[b - pl]].parent == Some(id));
            } else if a >= pl && b < pl {
                assert(nodes[t[b]].parent == Some(p));
                assert(nodes[cs[a - pl]].parent == Some(id));
            }
        }
    }
    lemma_without_concat(nodes[p].children, cs, id);
    assert(!cs.contains(p)) by {
        if cs.contains(p) {
            let t = choose|t: int| 0 <= t < cs.len() && #[trigger] cs[t] == p;
            assert(nodes[cs[t]].parent == Some(id));
            assert(depth[p] == depth[id] + 1);
        }
    }
    assert(removed(cur, id) =~= reparented(nodes, id));
}

/// The ids a depth-first pre-order walk from `n` lists when it descends at most
/// `fuel` levels: `n`, then the walk of each child in order.
pub open spec fn walk(nodes: Map<Seq<char>, GroupModel>, n: Seq<char>, fuel: nat) -> Seq<Seq<char>>
    decreases fuel, 0nat,
{
    if fuel == 0 {
        Seq::empty()
    } else {
        seq![n] + walk_list(nodes, nodes[n].children, (fuel - 1) as nat)
    }
}

/// The walks of a list of nodes, one after the other.
pub open spec fn walk_list(nodes: Map<Seq<char>, GroupModel>, cs: Seq<Seq<char>>, fuel: nat) -> Seq<Seq<char>>
    decreases fuel, cs.len(),
{
    if cs.len() == 0 {
        Seq::empty()
    } else {
        walk_list(nodes, cs.drop_last(), fuel) + walk(nodes, cs.last(), fuel)
    }
}

/// Climbing `a` levels and then `c` more is climbing `a + c` levels.
proof fn lemma_up_compose(nodes: Map<Seq<char>, GroupModel>, n: Seq<char>, a: nat, c: nat)
    ensures
        up(nodes, n, a + c) == match up(nodes, n, a) {
            Some(x) => up(nodes, x, c),
            None => None,
        },
    decreases a,
{
    if a > 0 {
        match parent_of(nodes, n) {
            Some(p) => {
                lemma_up_compose(nodes, p, (a - 1) as nat, c);
                assert((a + c - 1) as nat == ((a - 1) as nat + c) as nat);
            },
            None => {},
        }
    }
}

/// A node reaches a parentless root in at most one number of steps.
proof fn lemma_up_unique(nodes: Map<Seq<char>, GroupModel>, root: Seq<char>, n: Seq<char>, a: nat, b: nat)
    requires
        parent_of(nodes, root) is None,
        up(nodes, n, a) == Some(root),
        up(nodes, n, b) == Some(root),
    ensures
        a == b,
{
    if a < b {
        lemma_up_compose(nodes, n, a, (b - a) as nat);
        assert(up(nodes, root, (b - a) as nat) is None);
    } else if b < a {
        lemma_up_compose(nodes, n, b, (a - b) as nat);
        assert(up(nodes, root, (a - b) as nat) is None);
    }
}

/// The nodes met climbing `j` levels from `n`: `j + 1` distinct nodes of the table.
proof fn lemma_chain_set(
    root: Seq<char>,
    nodes: Map<Seq<char>, GroupModel>,
    depth: Map<Seq<char>, nat>,
    n: Seq<char>,
    j: nat,
) -> (s: Set<Seq<char>>)
    requires
        tree_wf(root, nodes, depth),
        nodes.contains_key(n),
        j <= depth[n],
    ensures
        s.finite(),
        s.len() == j + 1,
        s.subset_of(nodes.dom()),
        forall|k: Seq<char>| #[trigger] s.contains(k) ==> depth[k] + j >= depth[n],
    decreases j,
{
    lemma_up_depth(root, nodes, depth, n, j);
    let a = up(nodes, n, j)->Some_0;
    if j == 0 {
        assert(a == n);
        let s = set![n];
        assert(s.len() == 1);
        s
    } else {
        let prev = lemma_chain_set(root, nodes, depth, n, (j - 1) as nat);
        assert(depth[n] == depth[a] + j);
        assert(!prev.contains(a));
        let s = prev.insert(a);
        s
    }
}

/// No node lies as many levels below the root as the table has nodes.
proof fn lemma_depth_bound(
    root: Seq<char>,
    nodes: Map<Seq<char>, GroupModel>,
    depth: Map<Seq<char>, nat>,
    n: Seq<char>,
)
    requires
        tree_wf(root, nodes, depth),
        nodes.contains_key(n),
        nodes.dom().finite(),
    ensures
        depth[n] < nodes.dom().len(),
{
    let s = lemma_chain_set(root, nodes, depth, n, depth[n]);
    vstd::set_lib::lemma_len_subset(s, nodes.dom());
}

/// Climbing from a node for its depth reaches the root.
proof fn lemma_up_to_root(
    root: Seq<char>,
    nodes: Map<Seq<char>, GroupModel>,
    depth: Map<Seq<char>, nat>,
    n: Seq<char>,
)
    requires
        tree_wf(root, nodes, depth),
        nodes.contains_key(n),
    ensures
        up(nodes, n, depth[n]) == Some(root),
{
    lemma_up_depth(root, nodes, depth, n, depth[n]);
    let a = up(nodes, n, depth[n])->Some_0;
    assert(depth[a] == 0);
    if a != root {
        let p = nodes[a].parent->Some_0;
        assert(depth[a] == depth[p] + 1);
    }
}

/// Whether following parents from `n` reaches `root`.
pub open spec fn reaches_root(m: Map<Seq<char>, GroupModel>, n: Seq<char>, root: Seq<char>) -> bool {
    exists|k: nat| #[trigger] up(m, n, k) == Some(root)
}

/// Whether an arena forms a consistent tree rooted at `root`: its ids are distinct
/// and some depth assignment witnesses [`tree_wf`].
pub open spec fn valid_arena(root: Seq<char>, nodes: Seq<Group>) -> bool {
    &&& distinct_keys(node_pairs(nodes))
    &&& exists|d: Map<Seq<char>, nat>| tree_wf(root, pairs_map(node_pairs(nodes)), d)
}

/// The links of node `n` agree: the root has no parent, any other node has a parent
/// in the table that lists it, each listed child is in the table and names `n` as
/// its parent, and no child is listed twice.
pub open spec fn node_links_ok(root: Seq<char>, m: Map<Seq<char>, GroupModel>, n: Seq<char>) -> bool {
    &&& n == root ==> m[n].parent is None
    &&& n != root ==> (m[n].parent matches Some(p) && m.contains_key(p) && m[p].children.contains(n))
    &&& forall|t: int|
        0 <= t < m[n].children.len() ==> m.contains_key(#[trigger] m[n].children[t]) && m[m[n].children[t]].parent
            == Some(n)
    &&& m[n].children.no_duplicates()
}

/// The parent and child links of a table agree everywhere, and the root is in it.
pub open spec fn links_ok(root: Seq<char>, m: Map<Seq<char>, GroupModel>) -> bool {
    &&& m.contains_key(root)
    &&& forall|n: Seq<char>| #[trigger] m.contains_key(n) ==> node_links_ok(root, m, n)
}

/// A consistent tree has consistent links.
proof fn lemma_wf_links(root: Seq<char>, m: Map<Seq<char>, GroupModel>, d: Map<Seq<char>, nat>)
    requires
        tree_wf(root, m, d),
    ensures
        links_ok(root, m),
{
    assert forall|n: Seq<char>| #[trigger] m.contains_key(n) implies node_links_ok(root, m, n) by {
        if n != root {
            assert(m[n].parent is Some);
        }
        assert forall|t: int| 0 <= t < m[n].children.len() implies m.contains_key(#[trigger] m[n].children[t])
            && m[m[n].children[t]].parent == Some(n) by {
            assert(m.contains_key(m[n].children[t]));
        }
    }
}

/// The nodes at or below `n`.
pub open spec fn subtree(nodes: Map<Seq<char>, GroupModel>, n: Seq<char>) -> Set<Seq<char>> {
    Set::new(|x: Seq<char>| nodes.contains_key(x) && in_subtree(nodes, x, n))
}

/// The nodes at or below some node of a list.
pub open spec fn subtrees(nodes: Map<Seq<char>, GroupModel>, cs: Seq<Seq<char>>) -> Set<Seq<char>> {
    Set::new(|x: Seq<char>| exists|i: int| 0 <= i < cs.len() && #[trigger] subtree(nodes, cs[i]).contains(x))
}

/// A node below `n` lies deeper than `n`, by the number of levels it is below.
proof fn lemma_subtree_depth(
    root: Seq<char>,
    nodes: Map<Seq<char>, GroupModel>,
    depth: Map<Seq<char>, nat>,
    n: Seq<char>,
    x: Seq<char>,
)
    requires
        tree_wf(root, nodes, depth),
        nodes.contains_key(x),
        in_subtree(nodes, x, n),
    ensures
        nodes.contains_key(n),
        depth[x] >= depth[n],
        x != n ==> depth[x] > depth[n],
{
    let k = choose|k: nat| up(nodes, x, k) == Some(n);
    lemma_up_depth(root, nodes, depth, x, k);
    if x != n {
        assert(k != 0);
    }
}

/// Below `n` lie `n` itself and the subtrees of its children.
proof fn lemma_subtree_split(
    root: Seq<char>,
    nodes: Map<Seq<char>, GroupModel>,
    depth: Map<Seq<char>, nat>,
    n: Seq<char>,
)
    requires
        tree_wf(root, nodes, depth),
        nodes.contains_key(n),
    ensures
        subtree(nodes, n) == subtrees(nodes, nodes[n].children).insert(n),
{
    let cs = nodes[n].children;
    assert forall|x: Seq<char>| subtree(nodes, n).contains(x) <==> (x == n || subtrees(nodes, cs).contains(x)) by {
        if subtree(nodes, n).contains(x) && x != n {
            let k = choose|k: nat| up(nodes, x, k) == Some(n);
            assert(k != 0);
            lemma_up_depth(root, nodes, depth, x, (k - 1) as nat);
            let y = up(nodes, x, (k - 1) as nat)->Some_0;
            lemma_up_compose(nodes, x, (k - 1) as nat, 1);
            assert(up(nodes, y, 1) == Some(n));
            assert(parent_of(nodes, y) == Some(n)) by {
                reveal_with_fuel(up, 2);
            }
            assert(y != root);
            assert(cs.contains(y));
            let i = choose|i: int| 0 <= i < cs.len() && cs[i] == y;
            assert(up(nodes, x, (k - 1) as nat) == Some(y));
            assert(subtree(nodes, cs[i]).contains(x));
        }
        if subtrees(nodes, cs).contains(x) {
            let i = choose|i: int| 0 <= i < cs.len() && #[trigger] subtree(nodes, cs[i]).contains(x);
            let c = cs[i];
            assert(nodes[c].parent == Some(n));
            let k = choose|k: nat| up(nodes, x, k) == Some(c);
            lemma_up_compose(nodes, x, k, 1);
            assert(up(nodes, c, 0) == Some(c));
            assert(parent_of(nodes, c) == Some(n));
            assert(up(nodes, n, 0) == Some(n));
            assert(up(nodes, c, 1) == Some(n));
            assert(up(nodes, x, k + 1) == Some(n));
        }
        if x == n {
            assert(up(nodes, n, 0) == Some(n));
        }
    }
    assert(subtree(nodes, n) =~= subtrees(nodes, cs).insert(n));
}

/// The subtrees of two different children of one node share no node.
proof fn lemma_sibling_subtrees_disjoint(
    root: Seq<char>,
    nodes: Map<Seq<char>, GroupModel>,
    depth: Map<Seq<char>, nat>,
    a: Seq<char>,
    b: Seq<char>,
    x: Seq<char>,
)
    requires
        tree_wf(root, nodes, depth),
        nodes.contains_key(a),
        nodes.contains_key(b),
        depth[a] == depth[b],
        a != b,
        subtree(nodes, a).contains(x),
    ensures
        !subtree(nodes, b).contains(x),
{
    if subtree(nodes, b).contains(x) {
        let ka = choose|k: nat| up(nodes, x, k) == Some(a);
        let kb = choose|k: nat| up(nodes, x, k) == Some(b);
        lemma_up_depth(root, nodes, depth, x, ka);
        lemma_up_depth(root, nodes, depth, x, kb);
        assert(ka == kb);
    }
}

/// A pre-order walk that may descend far enough lists every node below `n` exactly
/// once, and nothing else.
proof fn lemma_walk_covers(
    root: Seq<char>,
    nodes: Map<Seq<char>, GroupModel>,
    depth: Map<Seq<char>, nat>,
    n: Seq<char>,
    fuel: nat,
)
    requires
        tree_wf(root, nodes, depth),
        nodes.contains_key(n),
        forall|x: Seq<char>| #[trigger] subtree(nodes, n).contains(x) ==> depth[x] < depth[n] + fuel,
    ensures
        walk(nodes, n, fuel).no_duplicates(),
        walk(nodes, n, fuel).to_set() == subtree(nodes, n),
    decreases fuel, 0nat, 0nat,
{
    assert(up(nodes, n, 0) == Some(n));
    assert(subtree(nodes, n).contains(n));
    let cs = nodes[n].children;
    let f1 = (fuel - 1) as nat;
    lemma_subtree_split(root, nodes, depth, n);
    assert forall|i: int| 0 <= i < cs.len() implies nodes.contains_key(#[trigger] cs[i]) && nodes[cs[i]].parent == Some(n) by {
    }
    assert forall|i: int, x: Seq<char>| 0 <= i < cs.len() && #[trigger] subtree(nodes, cs[i]).contains(x) implies depth[x] < depth[cs[i]] + f1 by {
        assert(subtrees(nodes, cs).contains(x));
        assert(subtree(nodes, n).contains(x));
        assert(depth[cs[i]] == depth[n] + 1);
    }
    lemma_walk_list_covers(root, nodes, depth, n, cs, f1);
    let rest = walk_list(nodes, cs, f1);
    assert(walk(nodes, n, fuel) == seq![n] + rest);
    assert(!rest.contains(n)) by {
        if rest.contains(n) {
            assert(rest.to_set().contains(n));
            let i = choose|i: int| 0 <= i < cs.len() && #[trigger] subtree(nodes, cs[i]).contains(n);
            lemma_subtree_depth(root, nodes, depth, cs[i], n);
            assert(depth[cs[i]] == depth[n] + 1);
        }
    }
    let w = seq![n] + rest;
    assert forall|a: int, b: int| 0 <= a < w.len() && 0 <= b < w.len() && a != b implies w[a] != w[b] by {
        if a == 0 {
            assert(rest[b - 1] == w[b]);
        } else if b == 0 {
            assert(rest[a - 1] == w[a]);
        } else {
            assert(rest[a - 1] != rest[b - 1]);
        }
    }
    assert forall|x: Seq<char>| w.to_set().contains(x) <==> subtree(nodes, n).contains(x) by {
        if w.contains(x) {
            let i = choose|i: int| 0 <= i < w.len() && w[i] == x;
            if i > 0 {
                assert(rest[i - 1] == x);
                assert(rest.to_set().contains(x));
            }
        }
        if subtree(nodes, n).contains(x) && x != n {
            assert(rest.to_set().contains(x));
            let i = choose|i: int| 0 <= i < rest.len() && rest[i] == x;
            assert(w[i + 1] == x);
        }
        if x == n {
            assert(w[0] == x);
        }
    }
    assert(w.to_set() =~= subtree(nodes, n));
}

/// The walks of the children in a list of a node's children list each child's
/// subtree exactly once.
proof fn lemma_walk_list_covers(
    root: Seq<char>,
    nodes: Map<Seq<char>, GroupModel>,
    depth: Map<Seq<char>, nat>,
    p: Seq<char>,
    cs: Seq<Seq<char>>,
    fuel: nat,
)
    requires
        tree_wf(root, nodes, depth),
        nodes.contains_key(p),
        cs.no_duplicates(),
        forall|i: int| 0 <= i < cs.len() ==> nodes.contains_key(#[trigger] cs[i]) && nodes[cs[i]].parent == Some(p),
        forall|i: int, x: Seq<char>| 0 <= i < cs.len() && #[trigger] subtree(nodes, cs[i]).contains(x) ==> depth[x] < depth[cs[i]] + fuel,
    ensures
        walk_list(nodes, cs, fuel).no_duplicates(),
        walk_list(nodes, cs, fuel).to_set() == subtrees(nodes, cs),
    decreases fuel, 0nat, cs.len() + 1,
{
    if cs.len() == 0 {
        assert(subtrees(nodes, cs) =~= Set::<Seq<char>>::empty());
        assert(walk_list(nodes, cs, fuel).to_set() =~= Set::<Seq<char>>::empty());
    } else {
        let init = cs.drop_last();
        let c = cs.last();
        assert forall|i: int| 0 <= i < init.len() implies nodes.contains_key(#[trigger] init[i]) && nodes[init[i]].parent == Some(p) by {
            assert(init[i] == cs[i]);
        }
        assert forall|i: int, x: Seq<char>| 0 <= i < init.len() && #[trigger] subtree(nodes, init[i]).contains(x) implies depth[x] < depth[init[i]] + fuel by {
            assert(init[i] == cs[i]);
        }
        assert(init.no_duplicates());
        lemma_walk_list_covers(root, nodes, depth, p, init, fuel);
        assert(nodes.contains_key(c) && nodes[c].parent == Some(p));
        if fuel > 0 {
            assert forall|x: Seq<char>| #[trigger] subtree(nodes, c).contains(x) implies depth[x] < depth[c] + fuel by {
                assert(cs[cs.len() - 1] == c);
            }
            lemma_walk_covers(root, nodes, depth, c, fuel);
        } else {
            assert(walk(nodes, c, fuel) =~= Seq::<Seq<char>>::empty());
            assert(subtree(nodes, c).contains(c)) by {
                assert(up(nodes, c, 0) == Some(c));
            }
            assert(cs[cs.len() - 1] == c);
            assert(false);
        }
        let a = walk_list(nodes, init, fuel);
        let b = walk(nodes, c, fuel);
        assert(walk_list(nodes, cs, fuel) == a + b);
        assert forall|x: Seq<char>| a.contains(x) implies !b.contains(x) by {
            assert(a.to_set().contains(x));
            let i = choose|i: int| 0 <= i < init.len() && #[trigger] subtree(nodes, init[i]).contains(x);
            assert(init[i] != c) by {
                assert(init[i] == cs[i]);
                assert(cs[cs.len() - 1] == c);
            }
            assert(depth[init[i]] == depth[p] + 1);
            assert(depth[c] == depth[p] + 1);
            lemma_sibling_subtrees_disjoint(root, nodes, depth, init[i], c, x);
            if b.contains(x) {
                assert(b.to_set().contains(x));
            }
        }
        let w = a + b;
        assert forall|i: int, j: int| 0 <= i < w.len() && 0 <= j < w.len() && i != j implies w[i] != w[j] by {
            if i < a.len() && j >= a.len() {
                assert(a.contains(w[i]));
                assert(b[j - a.len()] == w[j]);
            } else if j < a.len() && i >= a.len() {
                assert(a.contains(w[j]));
                assert(b[i - a.len()] == w[i]);
            } else if i < a.len() {
            } else {
                assert(b[i - a.len()] != b[j - a.len()]);
            }
        }
        assert forall|x: Seq<char>| w.to_set().contains(x) <==> subtrees(nodes, cs).contains(x) by {
            if w.contains(x) {
                let i = choose|i: int| 0 <= i < w.len() && w[i] == x;
                if i < a.len() {
                    assert(a[i] == x);
                    assert(a.to_set().contains(x));
                    let t = choose|t: int| 0 <= t < init.len() && #[trigger] subtree(nodes, init[t]).contains(x);
                    assert(cs[t] == init[t]);
                    assert(subtree(nodes, cs[t]).contains(x));
                } else {
                    assert(b[i - a.len()] == x);
                    assert(b.to_set().contains(x));
                    assert(subtree(nodes, cs[cs.len() - 1]).contains(x));
                }
            }
            if subtrees(nodes, cs).contains(x) {
                let t = choose|t: int| 0 <= t < cs.len() && #[trigger] subtree(nodes, cs[t]).contains(x);
                if t < cs.len() - 1 {
                    assert(init[t] == cs[t]);
                    assert(subtrees(nodes, init).contains(x));
                    assert(a.to_set().contains(x));
                    let i = choose|i: int| 0 <= i < a.len() && a[i] == x;
                    assert(w[i] == x);
                } else {
                    assert(b.to_set().contains(x));
                    let i = choose|i: int| 0 <= i < b.len() && b[i] == x;
                    assert(w[a.len() + i] == x);
                }
            }
        }
        assert(w.to_set() =~= subtrees(nodes, cs));
    }
}

/// The walk from the root, descending as many levels as the table has nodes,
/// lists every node exactly once.
proof fn lemma_preorder_covers(
    root: Seq<char>,
    nodes: Map<Seq<char>, GroupModel>,
    depth: Map<Seq<char>, nat>,
)
    requires
        tree_wf(root, nodes, depth),
        nodes.dom().finite(),
    ensures
        walk(nodes, root, nodes.dom().len()).no_duplicates(),
        walk(nodes, root, nodes.dom().len()).to_set() == nodes.dom(),
{
    assert forall|x: Seq<char>| #[trigger] subtree(nodes, root).contains(x) implies depth[x] < depth[root] + nodes.dom().len() by {
        lemma_depth_bound(root, nodes, depth, x);
    }
    lemma_walk_covers(root, nodes, depth, root, nodes.dom().len());
    assert forall|x: Seq<char>| #[trigger] nodes.dom().contains(x) implies subtree(nodes, root).contains(x) by {
        lemma_up_to_root(root, nodes, depth, x);
    }
    assert(subtree(nodes, root) =~= nodes.dom());
}

// --- the arena ------------------------------------------------------------------

/// A single node in the [`GroupTree`]: a labelled folder with its structural links
/// stored as ids. Accounts are not stored here; an account names its group.
#[derive(Clone, Debug)]
pub struct Group {
    /// This group's own id.
    pub id: GroupId,
    /// The parent group's id, or `None` for the root.
    pub parent: Option<GroupId>,
    /// Child group ids, in display order.
    pub children: Vec<GroupId>,
    /// Human-facing name.
    pub name: String,
    /// Free-form notes.
    pub notes: String,
    /// Arbitrary user tags.
    pub tags: Vec<String>,
}

/// The view of an optional group id.
pub open spec fn opt_id(o: Option<GroupId>) -> Option<Seq<char>> {
    match o {
        Some(g) => Some(g@),
        None => None,
    }
}

impl View for Group {
    type V = GroupModel;

    open spec fn view(&self) -> GroupModel {
        GroupModel {
            parent: opt_id(self.parent),
            children: id_seq(self.children@),
            name: self.name@,
            notes: self.notes@,
            tags: str_seq(self.tags@),
        }
    }
}

/// The `(id, node)` pairs of an arena.
pub open spec fn node_pairs(s: Seq<Group>) -> Seq<(Seq<char>, GroupModel)> {
    s.map_values(|g: Group| (g.id@, g@))
}

/// What a group tree holds: its root's id and its nodes by id.
pub struct TreeModel {
    pub root: Seq<char>,
    pub nodes: Map<Seq<char>, GroupModel>,
}

/// An arbitrary-depth tree of [`Group`] nodes held in a flat arena.
///
/// The tree is never empty: the root always exists and cannot be removed. Its
/// invariant is that the parent and child links agree and that following parents
/// from any node reaches the root.
pub struct GroupTree {
    root: GroupId,
    nodes: Vec<Group>,
    depth: Ghost<Map<Seq<char>, nat>>,
}

impl View for GroupTree {
    type V = TreeModel;

    closed spec fn view(&self) -> TreeModel {
        TreeModel { root: self.root@, nodes: pairs_map(node_pairs(self.nodes@)) }
    }
}

fn find_node(nodes: &Vec<Group>, id: &GroupId) -> (r: Option<usize>)
    ensures
        match r {
            Some(i) => i < nodes@.len() && nodes@[i as int].id@ == id@,
            None => !has_key(node_pairs(nodes@), id@),
        },
{
    let mut i: usize = 0;
    while i < nodes.len()
        invariant
            i <= nodes@.len(),
            forall|j: int| 0 <= j < i ==> nodes@[j].id@ != id@,
        decreases nodes@.len() - i,
    {
        if str_eq(nodes[i].id.as_str(), id.as_str()) {
            return Some(i);
        }
        i = i + 1;
    }
    proof {
        if has_key(node_pairs(nodes@), id@) {
            let j = choose|j: int|
                0 <= j < node_pairs(nodes@).len() && #[trigger] node_pairs(nodes@)[j].0 == id@;
            assert(nodes@[j].id@ == id@);
        }
    }
    None
}

/// The index of `c` in a list of ids.
fn find_child(cs: &Vec<GroupId>, c: &GroupId) -> (r: Option<usize>)
    ensures
        match r {
            Some(i) => i < cs@.len() && cs@[i as int]@ == c@,
            None => !id_seq(cs@).contains(c@),
        },
{
    let mut i: usize = 0;
    while i < cs.len()
        invariant
            i <= cs@.len(),
            forall|j: int| 0 <= j < i ==> cs@[j]@ != c@,
        decreases cs@.len() - i,
    {
        if str_eq(cs[i].as_str(), c.as_str()) {
            return Some(i);
        }
        i = i + 1;
    }
    proof {
        if id_seq(cs@).contains(c@) {
            let j = choose|j: int| 0 <= j < id_seq(cs@).len() && id_seq(cs@)[j] == c@;
            assert(cs@[j]@ == c@);
        }
    }
    None
}

/// An id no node of `nodes` has: a freshly minted one, or, should the minted one
/// collide, one longer than every existing id.
fn fresh_id(nodes: &Vec<Group>) -> (r: GroupId)
    ensures
        !has_key(node_pairs(nodes@), r@),
{
    let candidate = GroupId::generate();
    if find_node(nodes, &candidate).is_none() {
        return candidate;
    }
    let mut out: Vec<char> = Vec::new();
    let mut i: usize = 0;
    while i < nodes.len()
        invariant
            i <= nodes@.len(),
            forall|j: int| 0 <= j < i ==> nodes@[j].id@.len() <= out@.len(),
        decreases nodes@.len() - i,
    {
        crate::text::push_str_chars(&mut out, nodes[i].id.as_str());
        i = i + 1;
    }
    out.push('x');
    let r = GroupId::from_raw(crate::text::string_from_chars(&out).as_str());
    proof {
        if has_key(node_pairs(nodes@), r@) {
            let j = choose|j: int|
                0 <= j < node_pairs(nodes@).len() && #[trigger] node_pairs(nodes@)[j].0 == r@;
            assert(nodes@[j].id@ == r@);
        }
    }
    r
}

/// Whether the ids of an arena are distinct.
fn arena_ids_distinct(nodes: &Vec<Group>) -> (r: bool)
    ensures
        r == distinct_keys(node_pairs(nodes@)),
{
    let mut i: usize = 0;
    while i < nodes.len()
        invariant
            i <= nodes@.len(),
            forall|a: int, b: int|
                0 <= a < i && 0 <= b < i && a != b ==> #[trigger] node_pairs(nodes@)[a].0 != #[trigger] node_pairs(
                    nodes@,
                )[b].0,
        decreases nodes@.len() - i,
    {
        let mut j: usize = 0;
        while j < i
            invariant
                i < nodes@.len(),
                j <= i,
                forall|b: int| 0 <= b < j ==> nodes@[b].id@ != #[trigger] nodes@[i as int].id@,
            decreases i - j,
        {
            if str_eq(nodes[j].id.as_str(), nodes[i].id.as_str()) {
                assert(node_pairs(nodes@)[j as int].0 == node_pairs(nodes@)[i as int].0);
                return false;
            }
            j = j + 1;
        }
        proof {
            assert forall|a: int, b: int|
                0 <= a < i + 1 && 0 <= b < i + 1 && a != b implies #[trigger] node_pairs(nodes@)[a].0
                != #[trigger] node_pairs(nodes@)[b].0 by {
                if a == i {
                    assert(nodes@[b].id@ != nodes@[i as int].id@);
                } else if b == i {
                    assert(nodes@[a].id@ != nodes@[i as int].id@);
                }
            }
        }
        i = i + 1;
    }
    true
}

/// Whether a list of ids has no repeats.
fn ids_no_duplicates(cs: &Vec<GroupId>) -> (r: bool)
    ensures
        r == id_seq(cs@).no_duplicates(),
{
    let mut i: usize = 0;
    while i < cs.len()
        invariant
            i <= cs@.len(),
            forall|a: int, b: int| 0 <= a < i && 0 <= b < i && a != b ==> id_seq(cs@)[a] != id_seq(cs@)[b],
        decreases cs@.len() - i,
    {
        let mut j: usize = 0;
        while j < i
            invariant
                i < cs@.len(),
                j <= i,
                forall|b: int| 0 <= b < j ==> cs@[b]@ != cs@[i as int]@,
            decreases i - j,
        {
            if str_eq(cs[j].as_str(), cs[i].as_str()) {
                assert(id_seq(cs@)[j as int] == id_seq(cs@)[i as int]);
                return false;
            }
            j = j + 1;
        }
        proof {
            assert forall|a: int, b: int| 0 <= a < i + 1 && 0 <= b < i + 1 && a != b implies id_seq(cs@)[a]
                != id_seq(cs@)[b] by {
                if a == i {
                    assert(cs@[b]@ != cs@[i as int]@);
                } else if b == i {
                    assert(cs@[a]@ != cs@[i as int]@);
                }
            }
        }
        i = i + 1;
    }
    true
}

/// Whether the links of the node at position `i` agree.
fn check_node_links(root: &GroupId, nodes: &Vec<Group>, i: usize) -> (r: bool)
    requires
        distinct_keys(node_pairs(nodes@)),
        i < nodes@.len(),
    ensures
        r == node_links_ok(root@, pairs_map(node_pairs(nodes@)), nodes@[i as int].id@),
{
    let ghost m = pairs_map(node_pairs(nodes@));
    let g = &nodes[i];
    let ghost n = g.id@;
    proof {
        lemma_pairs_map_at(node_pairs(nodes@), i as int);
        assert(m[n] == g@);
    }
    if str_eq(g.id.as_str(), root.as_str()) {
        if g.parent.is_some() {
            return false;
        }
    } else {
        match &g.parent {
            None => return false,
            Some(p) => match find_node(nodes, p) {
                None => {
                    proof {
                        if m.contains_key(p@) {
                            let j = choose|j: int| 0 <= j < node_pairs(nodes@).len() && #[trigger] node_pairs(nodes@)[j].0 == p@;
                            assert(nodes@[j].id@ == p@);
                        }
                    }
                    return false;
                },
                Some(j) => {
                    proof {
                        lemma_pairs_map_at(node_pairs(nodes@), j as int);
                    }
                    match find_child(&nodes[j].children, &g.id) {
                        None => {
                            proof {
                                assert(m[p@] == nodes@[j as int]@);
                                assert(!m[p@].children.contains(n));
                            }
                            return false;
                        },
                        Some(c) => {
                            proof {
                                assert(m[p@] == nodes@[j as int]@);
                                assert(m[p@].children[c as int] == n);
                                assert(m.contains_key(p@));
                                assert(m[p@].children.contains(n));
                            }
                        },
                    }
                },
            },
        }
    }
    if !ids_no_duplicates(&g.children) {
        assert(m[n].children == id_seq(g.children@));
        return false;
    }
    let mut t: usize = 0;
    while t < g.children.len()
        invariant
            t <= g.children@.len(),
            distinct_keys(node_pairs(nodes@)),
            m == pairs_map(node_pairs(nodes@)),
            m.contains_key(n),
            m[n] == g@,
            n == g.id@,
            i < nodes@.len(),
            n == nodes@[i as int].id@,
            n == root@ ==> m[n].parent is None,
            n != root@ ==> (m[n].parent matches Some(p) && m.contains_key(p) && m[p].children.contains(n)),
            m[n].children.no_duplicates(),
            m[n].children == id_seq(g.children@),
            forall|u: int| 0 <= u < t ==> m.contains_key(#[trigger] m[n].children[u]) && m[m[n].children[u]].parent == Some(n),
        decreases g.children@.len() - t,
    {
        let c = &g.children[t];
        proof {
            assert(m[n].children[t as int] == c@);
        }
        match find_node(nodes, c) {
            None => {
                proof {
                    if m.contains_key(c@) {
                        let j = choose|j: int| 0 <= j < node_pairs(nodes@).len() && #[trigger] node_pairs(nodes@)[j].0 == c@;
                        assert(nodes@[j].id@ == c@);
                    }
                    assert(!(m.contains_key(m[n].children[t as int]) && m[m[n].children[t as int]].parent == Some(n)));
                    assert(!node_links_ok(root@, m, n));
                }
                return false;
            },
            Some(j) => {
                proof {
                    lemma_pairs_map_at(node_pairs(nodes@), j as int);
                    assert(m[c@] == nodes@[j as int]@);
                }
                let ok = match &nodes[j].parent {
                    Some(q) => str_eq(q.as_str(), g.id.as_str()),
                    None => false,
                };
                if !ok {
                    proof {
                        assert(m[m[n].children[t as int]].parent != Some(n));
                        assert(!node_links_ok(root@, m, n));
                    }
                    return false;
                }
            },
        }
        t = t + 1;
    }
    true
}

/// The number of levels from the node at position `i` up to the root, when the root
/// is reached in fewer levels than the arena has nodes.
fn climb(root: &GroupId, nodes: &Vec<Group>, i: usize) -> (r: Option<usize>)
    requires
        distinct_keys(node_pairs(nodes@)),
        pairs_map(node_pairs(nodes@)).contains_key(root@),
        i < nodes@.len(),
    ensures
        match r {
            Some(k) => k < nodes@.len() && up(pairs_map(node_pairs(nodes@)), nodes@[i as int].id@, k as nat)
                == Some(root@),
            None => forall|k: nat| k < nodes@.len() ==> #[trigger] up(pairs_map(node_pairs(nodes@)), nodes@[i as int].id@, k)
                != Some(root@),
        },
{
    let ghost m = pairs_map(node_pairs(nodes@));
    let ghost n = nodes@[i as int].id@;
    let mut cur = i;
    let mut s: usize = 0;
    proof {
        lemma_pairs_map_at(node_pairs(nodes@), i as int);
    }
    while s < nodes.len()
        invariant
            s <= nodes@.len(),
            cur < nodes@.len(),
            i < nodes@.len(),
            n == nodes@[i as int].id@,
            distinct_keys(node_pairs(nodes@)),
            m == pairs_map(node_pairs(nodes@)),
            m.contains_key(root@),
            up(m, n, s as nat) == Some(nodes@[cur as int].id@),
            forall|k: nat| k < s ==> #[trigger] up(m, n, k) != Some(root@),
        decreases nodes@.len() - s,
    {
        if str_eq(nodes[cur].id.as_str(), root.as_str()) {
            assert(up(m, n, s as nat) == Some(root@));
            return Some(s);
        }
        proof {
            lemma_pairs_map_at(node_pairs(nodes@), cur as int);
            lemma_up_compose(m, n, s as nat, 1);
        }
        match &nodes[cur].parent {
            None => {
                proof {
                    assert(parent_of(m, nodes@[cur as int].id@) is None);
                    assert forall|k: nat| k < nodes@.len() implies #[trigger] up(m, n, k) != Some(root@) by {
                        if k > s {
                            lemma_up_compose(m, n, s as nat, (k - s) as nat);
                            assert(up(m, nodes@[cur as int].id@, (k - s) as nat) is None);
                        }
                    }
                }
                return None;
            },
            Some(p) => match find_node(nodes, p) {
                None => {
                    proof {
                        assert(parent_of(m, nodes@[cur as int].id@) == Some(p@));
                        assert(up(m, p@, 0) == Some(p@));
                        assert(!m.contains_key(p@)) by {
                            if m.contains_key(p@) {
                                let j = choose|j: int| 0 <= j < node_pairs(nodes@).len() && #[trigger] node_pairs(nodes@)[j].0 == p@;
                                assert(nodes@[j].id@ == p@);
                            }
                        }
                        assert forall|k: nat| k < nodes@.len() implies #[trigger] up(m, n, k) != Some(root@) by {
                            if k > s {
                                lemma_up_compose(m, n, s as nat, (k - s) as nat);
                                if k - s > 1 {
                                    lemma_up_compose(m, nodes@[cur as int].id@, 1, (k - s - 1) as nat);
                                    assert(parent_of(m, p@) is None);
                                    assert(up(m, p@, (k - s - 1) as nat) is None);
                                } else {
                                    assert(p@ != root@);
                                }
                            }
                        }
                    }
                    return None;
                },
                Some(j) => {
                    proof {
                        assert(up(m, nodes@[cur as int].id@, 1) == Some(p@));
                    }
                    cur = j;
                },
            },
        }
        s = s + 1;
    }
    None
}

impl GroupTree {
    #[verifier::type_invariant]
    closed spec fn inv(self) -> bool {
        &&& distinct_keys(node_pairs(self.nodes@))
        &&& tree_wf(self.root@, pairs_map(node_pairs(self.nodes@)), self.depth@)
    }

    /// Create a new tree containing only a root group with the given name.
    pub fn new(root_name: &str) -> (r: Self)
        ensures
            r@.nodes.dom() == set![r@.root],
            r@.nodes[r@.root] == (GroupModel {
                parent: None,
                children: Seq::empty(),
                name: root_name@,
                notes: Seq::empty(),
                tags: Seq::empty(),
            }),
    {
        let root = GroupId::generate();
        let node = Group {
            id: root.duplicate(),
            parent: None,
            children: Vec::new(),
            name: root_name.to_owned(),
            notes: String::new(),
            tags: Vec::new(),
        };
        let ghost rv = root@;
        let mut nodes: Vec<Group> = Vec::new();
        nodes.push(node);
        proof {
            assert(node_pairs(nodes@) =~= seq![(rv, nodes@[0]@)]);
            assert(distinct_keys(node_pairs(nodes@)));
            lemma_pairs_map_at(node_pairs(nodes@), 0);
            assert(pairs_map(node_pairs(nodes@)).dom() =~= set![rv]);
            assert(id_seq(nodes@[0].children@) =~= Seq::<Seq<char>>::empty());
            assert(str_seq(nodes@[0].tags@) =~= Seq::<Seq<char>>::empty());
        }
        let ghost d = map![rv => 0nat];
        let t = GroupTree { root, nodes, depth: Ghost(d) };
        proof {
            let m = pairs_map(node_pairs(t.nodes@));
            assert(t.depth@.dom() =~= m.dom());
        }
        t
    }

    /// The root group's id.
    pub fn root(&self) -> (r: &GroupId)
        ensures
            r@ == self@.root,
    {
        &self.root
    }

    /// Borrow a group by id, or `None` if no such node exists.
    pub fn get(&self, id: &GroupId) -> (r: Option<&Group>)
        ensures
            match r {
                Some(g) => {
                    &&& self@.nodes.contains_key(id@)
                    &&& g@ == self@.nodes[id@]
                    &&& g.id@ == id@
                    &&& (g.parent is None <==> id@ == self@.root)
                },
                None => !self@.nodes.contains_key(id@),
            },
    {
        proof {
            use_type_invariant(self);
        }
        match find_node(&self.nodes, id) {
            Some(i) => {
                proof {
                    lemma_pairs_map_at(node_pairs(self.nodes@), i as int);
                }
                Some(&self.nodes[i])
            },
            None => None,
        }
    }

    /// The direct child ids of a group, in display order, or `None` if the group
    /// is unknown.
    pub fn children(&self, id: &GroupId) -> (r: Option<&[GroupId]>)
        ensures
            match r {
                Some(cs) => self@.nodes.contains_key(id@) && id_seq(cs@) == self@.nodes[id@].children,
                None => !self@.nodes.contains_key(id@),
            },
    {
        match self.get(id) {
            Some(g) => Some(g.children.as_slice()),
            None => None,
        }
    }

    /// Every group, in id (`str`) order.
    pub fn iter(&self) -> (r: Vec<&Group>)
        ensures
            strictly_sorted(r@.map_values(|g: &Group| g.id@)),
            r@.map_values(|g: &Group| g.id@).to_set() == self@.nodes.dom(),
            forall|i: int| 0 <= i < r@.len() ==> #[trigger] r@[i]@ == self@.nodes[r@[i].id@],
    {
        proof {
            use_type_invariant(self);
        }
        let ghost pairs = node_pairs(self.nodes@);
        let mut ids: Vec<String> = Vec::new();
        let mut i: usize = 0;
        assert(str_seq(ids@).to_set() =~= Set::empty());
        while i < self.nodes.len()
            invariant
                i <= self.nodes@.len(),
                pairs == node_pairs(self.nodes@),
                distinct_keys(pairs),
                strictly_sorted(str_seq(ids@)),
                str_seq(ids@).to_set() == pairs.subrange(0, i as int).map_values(
                    |p: (Seq<char>, GroupModel)| p.0,
                ).to_set(),
            decreases self.nodes@.len() - i,
        {
            let id = self.nodes[i].id.as_str().to_owned();
            proof {
                let keys = pairs.subrange(0, i as int).map_values(|p: (Seq<char>, GroupModel)| p.0);
                if keys.contains(id@) {
                    let j = choose|j: int| 0 <= j < keys.len() && keys[j] == id@;
                    assert(pairs[j].0 == pairs[i as int].0);
                }
                assert(!str_seq(ids@).contains(id@)) by {
                    if str_seq(ids@).contains(id@) {
                        assert(str_seq(ids@).to_set().contains(id@));
                    }
                }
            }
            let ghost idv = id@;
            insert_sorted(&mut ids, id);
            i = i + 1;
            proof {
                assert(pairs.subrange(0, i as int).map_values(|p: (Seq<char>, GroupModel)| p.0)
                    =~= pairs.subrange(0, i - 1).map_values(|p: (Seq<char>, GroupModel)| p.0).push(
                    idv,
                ));
                lemma_push_to_set(
                    pairs.subrange(0, i - 1).map_values(|p: (Seq<char>, GroupModel)| p.0),
                    idv,
                );
            }
        }
        proof {
            assert(pairs.subrange(0, i as int) =~= pairs);
            lemma_pairs_map_dom(pairs);
        }
        let mut out: Vec<&Group> = Vec::new();
        let mut k: usize = 0;
        while k < ids.len()
            invariant
                k <= ids@.len(),
                out@.len() == k,
                str_seq(ids@).to_set() == self@.nodes.dom(),
                forall|a: int| 0 <= a < k ==> (#[trigger] out@[a]).id@ == ids@[a]@ && out@[a]@
                    == self@.nodes[ids@[a]@],
            decreases ids@.len() - k,
        {
            let gid = GroupId::from_raw(ids[k].as_str());
            proof {
                assert(str_seq(ids@)[k as int] == ids@[k as int]@);
                assert(self@.nodes.dom().contains(gid@));
            }
            match self.get(&gid) {
                Some(g) => {
                    out.push(g);
                },
                None => {
                    assert(false);
                },
            }
            k = k + 1;
        }
        proof {
            assert(out@.map_values(|g: &Group| g.id@) =~= str_seq(ids@));
        }
        out
    }

    /// A minimal valid tree, used while a mutation rebuilds the real one.
    fn placeholder() -> (r: Self)
        ensures
            r@ == (TreeModel {
                root: Seq::empty(),
                nodes: map![Seq::<char>::empty() => GroupModel {
                    parent: None,
                    children: Seq::empty(),
                    name: Seq::empty(),
                    notes: Seq::empty(),
                    tags: Seq::empty(),
                }],
            }),
    {
        let root = GroupId::from_raw("");
        proof {
            reveal_strlit("");
        }
        let ghost rv = root@;
        let node = Group {
            id: root.duplicate(),
            parent: None,
            children: Vec::new(),
            name: String::new(),
            notes: String::new(),
            tags: Vec::new(),
        };
        let ghost empty_node = GroupModel {
            parent: None,
            children: Seq::empty(),
            name: Seq::empty(),
            notes: Seq::empty(),
            tags: Seq::empty(),
        };
        assert(node@ == empty_node) by {
            assert(id_seq(node.children@) =~= Seq::<Seq<char>>::empty());
            assert(str_seq(node.tags@) =~= Seq::<Seq<char>>::empty());
        }
        let mut nodes: Vec<Group> = Vec::new();
        nodes.push(node);
        proof {
            assert(node_pairs(nodes@) =~= seq![(rv, nodes@[0]@)]);
            lemma_pairs_map_at(node_pairs(nodes@), 0);
            assert(pairs_map(node_pairs(nodes@)).dom() =~= set![rv]);
            assert(id_seq(nodes@[0].children@) =~= Seq::<Seq<char>>::empty());
            assert(rv =~= Seq::<char>::empty());
            assert(pairs_map(node_pairs(nodes@))[rv] == empty_node);
        }
        let ghost d = map![rv => 0nat];
        let t = GroupTree { root, nodes, depth: Ghost(d) };
        proof {
            assert(t.depth@.dom() =~= pairs_map(node_pairs(t.nodes@)).dom());
            assert(pairs_map(node_pairs(t.nodes@)) =~= map![Seq::<char>::empty() => GroupModel {
                parent: None,
                children: Seq::empty(),
                name: Seq::empty(),
                notes: Seq::empty(),
                tags: Seq::empty(),
            }]);
        }
        t
    }

    /// Move the parts out, leaving a placeholder behind.
    fn take_parts(&mut self) -> (r: (GroupId, Vec<Group>, Ghost<Map<Seq<char>, nat>>))
        ensures
            r.0@ == old(self)@.root,
            r.1@ == old(self).nodes@,
            pairs_map(node_pairs(r.1@)) == old(self)@.nodes,
            distinct_keys(node_pairs(r.1@)),
            tree_wf(r.0@, pairs_map(node_pairs(r.1@)), r.2@),
    {
        let mut t = GroupTree::placeholder();
        std::mem::swap(&mut t, self);
        proof {
            use_type_invariant(&t);
        }
        let GroupTree { root, nodes, depth } = t;
        (root, nodes, depth)
    }

    /// The chain of ids from the root down to and including `id`, or `None` if the
    /// id is unknown: it starts at the root, ends at `id`, and each id is the
    /// parent of the next.
    pub fn path_to(&self, id: &GroupId) -> (r: Option<Vec<GroupId>>)
        ensures
            match r {
                Some(p) => {
                    &&& self@.nodes.contains_key(id@)
                    &&& p@.len() > 0
                    &&& p@[0]@ == self@.root
                    &&& p@.last()@ == id@
                    &&& forall|i: int| 0 <= i < p@.len() ==> self@.nodes.contains_key(#[trigger] p@[i]@)
                    &&& forall|i: int|
                        0 <= i < p@.len() - 1 ==> self@.nodes[#[trigger] p@[i + 1]@].parent
                            == Some(p@[i]@)
                    &&& forall|i: int|
                        0 <= i < p@.len() - 1 ==> self@.nodes[p@[i]@].children.contains(#[trigger] p@[i + 1]@)
                    &&& id_seq(p@).no_duplicates()
                },
                None => !self@.nodes.contains_key(id@),
            },
    {
        proof {
            use_type_invariant(self);
        }
        let ghost nodes = self@.nodes;
        let ghost depth = self.depth@;
        let ghost root = self@.root;
        let start = match self.get(id) {
            Some(g) => g,
            None => return None,
        };
        let mut path: Vec<GroupId> = Vec::new();
        path.push(id.duplicate());
        let mut cur: &Group = start;
        while cur.parent.is_some()
            invariant
                tree_wf(root, nodes, depth),
                nodes == self@.nodes,
                root == self@.root,
                nodes.contains_key(cur.id@),
                cur@ == nodes[cur.id@],
                path@.len() > 0,
                path@[0]@ == cur.id@,
                path@.last()@ == id@,
                forall|i: int| 0 <= i < path@.len() ==> nodes.contains_key(#[trigger] path@[i]@),
                forall|i: int|
                    0 <= i < path@.len() - 1 ==> nodes[#[trigger] path@[i + 1]@].parent == Some(
                        path@[i]@,
                    ),
                forall|i: int| 0 <= i < path@.len() ==> depth[#[trigger] path@[i]@] == depth[cur.id@] + i,
            decreases depth[cur.id@],
        {
            let p = match &cur.parent {
                Some(p) => p,
                None => {
                    assert(false);
                    return None;
                },
            };
            proof {
                if cur.id@ == root {
                    assert(nodes[root].parent is None);
                }
            }
            let pg = match self.get(p) {
                Some(g) => g,
                None => {
                    assert(false);
                    return None;
                },
            };
            let ghost before = path@;
            let pd = p.duplicate();
            assert(pd@ == p@);
            path.insert(0, pd);
            assert(path@[0]@ == p@);
            proof {
                assert forall|i: int| 0 <= i < path@.len() - 1 implies nodes[#[trigger] path@[i + 1]@].parent == Some(
                    path@[i]@,
                ) by {
                    if i > 0 {
                        let j = i - 1;
                        assert(path@[i] == before[j] && path@[i + 1] == before[j + 1]);
                        assert(nodes[before[j + 1]@].parent == Some(before[j]@));
                    } else {
                        assert(path@[1] == before[0]);
                        assert(cur@.parent == Some(p@));
                        assert(nodes[before[0]@].parent == Some(p@));
                    }
                }
                assert forall|i: int| 0 <= i < path@.len() implies nodes.contains_key(#[trigger] path@[i]@) by {
                    if i > 0 {
                        assert(path@[i] == before[i - 1]);
                    }
                }
                assert(cur.id@ != root);
                assert(depth[cur.id@] == depth[p@] + 1);
                assert forall|i: int| 0 <= i < path@.len() implies depth[#[trigger] path@[i]@] == depth[p@] + i by {
                    if i > 0 {
                        assert(path@[i] == before[i - 1]);
                    }
                }
            }
            cur = pg;
        }
        proof {
            if cur.id@ != root {
                assert(nodes[cur.id@].parent is Some);
            }
            assert forall|i: int| 0 <= i < path@.len() - 1 implies nodes[path@[i]@].children.contains(
                #[trigger] path@[i + 1]@,
            ) by {
                let n = path@[i + 1]@;
                assert(nodes[n].parent == Some(path@[i]@));
                assert(n != root);
            }
            let ids = id_seq(path@);
            assert forall|a: int, b: int| 0 <= a < ids.len() && 0 <= b < ids.len() && a != b implies ids[a]
                != ids[b] by {
                assert(depth[path@[a]@] == a);
                assert(depth[path@[b]@] == b);
            }
        }
        Some(path)
    }

    /// Add a new, empty child group named `name` under `parent` and return its fresh
    /// id; fails with [`Error::GroupNotFound`] if `parent` does not exist.
    pub fn add(&mut self, parent: &GroupId, name: &str) -> (r: Result<GroupId>)
        ensures
            final(self)@.root == old(self)@.root,
            match r {
                Ok(id) => {
                    &&& old(self)@.nodes.contains_key(parent@)
                    &&& !old(self)@.nodes.contains_key(id@)
                    &&& final(self)@.nodes == added(old(self)@.nodes, parent@, id@, name@)
                },
                Err(e) => {
                    &&& !old(self)@.nodes.contains_key(parent@)
                    &&& e matches Error::GroupNotFound(g) && g@ == parent@
                    &&& final(self)@.nodes == old(self)@.nodes
                },
            },
    {
        proof {
            use_type_invariant(&*self);
        }
        let pi = match find_node(&self.nodes, parent) {
            Some(i) => i,
            None => return Err(Error::GroupNotFound(parent.duplicate())),
        };
        let id = fresh_id(&self.nodes);
        let (root, mut nodes, depth) = self.take_parts();
        let ghost old_pairs = node_pairs(nodes@);
        let ghost old_nodes = pairs_map(old_pairs);
        proof {
            lemma_pairs_map_at(old_pairs, pi as int);
        }
        let mut pg = nodes.remove(pi);
        pg.children.push(id.duplicate());
        let ghost pgv = pg@;
        nodes.insert(pi, pg);
        proof {
            assert(pgv.children =~= old_pairs[pi as int].1.children.push(id@));
            assert(node_pairs(nodes@) =~= old_pairs.update(pi as int, (parent@, pgv)));
            lemma_pairs_map_update(old_pairs, pi as int, pgv);
        }
        let ghost mid_pairs = node_pairs(nodes@);
        let leaf = Group {
            id: id.duplicate(),
            parent: Some(parent.duplicate()),
            children: Vec::new(),
            name: name.to_owned(),
            notes: String::new(),
            tags: Vec::new(),
        };
        let ghost leafv = leaf@;
        nodes.push(leaf);
        proof {
            assert(!has_key(mid_pairs, id@)) by {
                if has_key(mid_pairs, id@) {
                    let j = choose|j: int| 0 <= j < mid_pairs.len() && #[trigger] mid_pairs[j].0 == id@;
                    assert(old_pairs[j].0 == id@);
                }
            }
            assert(node_pairs(nodes@) =~= mid_pairs.push((id@, leafv)));
            lemma_pairs_map_push(mid_pairs, id@, leafv);
            assert(id_seq(Seq::<GroupId>::empty()) =~= Seq::<Seq<char>>::empty());
            assert(str_seq(Seq::<String>::empty()) =~= Seq::<Seq<char>>::empty());
            assert(pairs_map(node_pairs(nodes@)) =~= added(old_nodes, parent@, id@, name@));
            lemma_add_wf(root@, old_nodes, depth@, parent@, id@, name@);
        }
        let ghost nd = depth@.insert(id@, depth@[parent@] + 1);
        *self = GroupTree { root, nodes, depth: Ghost(nd) };
        Ok(id)
    }

    /// Rename a group in place; fails with [`Error::GroupNotFound`] if it does not
    /// exist.
    pub fn rename(&mut self, id: &GroupId, name: &str) -> (r: Result<()>)
        ensures
            final(self)@.root == old(self)@.root,
            match r {
                Ok(()) => {
                    &&& old(self)@.nodes.contains_key(id@)
                    &&& final(self)@.nodes == old(self)@.nodes.insert(
                        id@,
                        with_name(old(self)@.nodes[id@], name@),
                    )
                },
                Err(e) => {
                    &&& !old(self)@.nodes.contains_key(id@)
                    &&& e matches Error::GroupNotFound(g) && g@ == id@
                    &&& final(self)@.nodes == old(self)@.nodes
                },
            },
    {
        proof {
            use_type_invariant(&*self);
        }
        let i = match find_node(&self.nodes, id) {
            Some(i) => i,
            None => return Err(Error::GroupNotFound(id.duplicate())),
        };
        let (root, mut nodes, depth) = self.take_parts();
        let ghost old_pairs = node_pairs(nodes@);
        let ghost old_nodes = pairs_map(old_pairs);
        proof {
            lemma_pairs_map_at(old_pairs, i as int);
        }
        let mut g = nodes.remove(i);
        g.name = name.to_owned();
        let ghost gv = g@;
        nodes.insert(i, g);
        proof {
            assert(node_pairs(nodes@) =~= old_pairs.update(i as int, (id@, gv)));
            lemma_pairs_map_update(old_pairs, i as int, gv);
            assert(gv == with_name(old_nodes[id@], name@));
            let t = pairs_map(node_pairs(nodes@));
            assert(t.dom() =~= old_nodes.dom());
            assert forall|n: Seq<char>| #![trigger t[n]] t.contains_key(n) && n != root@ implies {
                &&& t[n].parent matches Some(p)
                &&& t.contains_key(p)
                &&& t[p].children.contains(n)
                &&& depth@[n] == depth@[p] + 1
            } by {
                assert(old_nodes[n] == old_nodes[n]);
            }
            assert forall|p: Seq<char>, k: int|
                #![trigger t[p].children[k]]
                t.contains_key(p) && 0 <= k < t[p].children.len() implies {
                    &&& t.contains_key(t[p].children[k])
                    &&& t[t[p].children[k]].parent == Some(p)
                } by {
                assert(old_nodes[p].children[k] == t[p].children[k]);
            }
            assert forall|p: Seq<char>| #[trigger] t.contains_key(p) implies t[p].children.no_duplicates() by {
                assert(old_nodes.contains_key(p));
            }
        }
        *self = GroupTree { root, nodes, depth };
        Ok(())
    }

    /// Whether `n` lies in the subtree rooted at `a` (including `a` itself),
    /// found by following parents from `n`.
    fn descends_from(&self, n: &GroupId, a: &GroupId) -> (r: bool)
        requires
            self@.nodes.contains_key(n@),
        ensures
            r == in_subtree(self@.nodes, n@, a@),
    {
        proof {
            use_type_invariant(self);
        }
        let ghost nodes = self@.nodes;
        let ghost depth = self.depth@;
        let ghost root = self@.root;
        let mut cur: &Group = match self.get(n) {
            Some(g) => g,
            None => {
                assert(false);
                return false;
            },
        };
        loop
            invariant
                tree_wf(root, nodes, depth),
                nodes == self@.nodes,
                root == self@.root,
                nodes.contains_key(cur.id@),
                cur@ == nodes[cur.id@],
                in_subtree(nodes, n@, a@) == in_subtree(nodes, cur.id@, a@),
            decreases depth[cur.id@],
        {
            if str_eq(cur.id.as_str(), a.as_str()) {
                assert(up(nodes, cur.id@, 0) == Some(a@));
                return true;
            }
            match &cur.parent {
                None => {
                    proof {
                        if in_subtree(nodes, cur.id@, a@) {
                            let k = choose|k: nat| up(nodes, cur.id@, k) == Some(a@);
                            assert(k > 0);
                            assert(parent_of(nodes, cur.id@) is None);
                        }
                    }
                    return false;
                },
                Some(p) => {
                    proof {
                        lemma_subtree_step(nodes, cur.id@, a@);
                        if cur.id@ == root {
                            assert(nodes[root].parent is None);
                        }
                    }
                    cur = match self.get(p) {
                        Some(g) => g,
                        None => {
                            assert(false);
                            return false;
                        },
                    };
                },
            }
        }
    }

    /// Move `id` (and its whole subtree) under `new_parent`, at the end of its
    /// child list. Fails with [`Error::RootImmutable`] if `id` is the root, with
    /// [`Error::GroupNotFound`] if either node does not exist, and with
    /// [`Error::GroupCycle`] if `new_parent` is `id` itself or lies in `id`'s
    /// subtree.
    pub fn move_node(&mut self, id: &GroupId, new_parent: &GroupId) -> (r: Result<()>)
        ensures
            final(self)@.root == old(self)@.root,
            r is Ok ==> final(self)@.nodes == moved(old(self)@.nodes, id@, new_parent@),
            r is Err ==> final(self)@.nodes == old(self)@.nodes,
            r is Ok <==> {
                &&& id@ != old(self)@.root
                &&& old(self)@.nodes.contains_key(id@)
                &&& old(self)@.nodes.contains_key(new_parent@)
                &&& !in_subtree(old(self)@.nodes, new_parent@, id@)
            },
            r matches Err(e) ==> {
                if id@ == old(self)@.root {
                    e is RootImmutable
                } else if !old(self)@.nodes.contains_key(id@) {
                    e matches Error::GroupNotFound(g) && g@ == id@
                } else if !old(self)@.nodes.contains_key(new_parent@) {
                    e matches Error::GroupNotFound(g) && g@ == new_parent@
                } else {
                    e is GroupCycle
                }
            },
    {
        proof {
            use_type_invariant(&*self);
        }
        if str_eq(id.as_str(), self.root.as_str()) {
            return Err(Error::RootImmutable);
        }
        let ii = match find_node(&self.nodes, id) {
            Some(i) => i,
            None => return Err(Error::GroupNotFound(id.duplicate())),
        };
        proof {
            lemma_pairs_map_at(node_pairs(self.nodes@), ii as int);
        }
        let ni = match find_node(&self.nodes, new_parent) {
            Some(i) => i,
            None => return Err(Error::GroupNotFound(new_parent.duplicate())),
        };
        proof {
            lemma_pairs_map_at(node_pairs(self.nodes@), ii as int);
            lemma_pairs_map_at(node_pairs(self.nodes@), ni as int);
        }
        if self.descends_from(new_parent, id) {
            return Err(Error::GroupCycle);
        }
        let (root, mut nodes, depth) = self.take_parts();
        let ghost n0 = pairs_map(node_pairs(nodes@));
        let ghost r0 = root@;
        let ghost d0 = depth@;
        proof {
            lemma_move_facts(r0, n0, d0, id@, new_parent@);
        }
        let op = match &nodes[ii].parent {
            Some(p) => p.duplicate(),
            None => {
                assert(n0[id@].parent is None);
                return Err(Error::RootImmutable);
            },
        };
        let ghost opv = op@;
        assert(opv == n0[id@].parent->Some_0);
        let oi = match find_node(&nodes, &op) {
            Some(i) => i,
            None => {
                assert(false);
                return Err(Error::GroupNotFound(op));
            },
        };
        // Detach from the old parent.
        let ghost p0 = node_pairs(nodes@);
        proof {
            lemma_pairs_map_at(p0, oi as int);
        }
        let mut og = nodes.remove(oi);
        let ci = match find_child(&og.children, id) {
            Some(c) => c,
            None => {
                assert(false);
                return Err(Error::GroupNotFound(op));
            },
        };
        let ghost before_children = og@.children;
        og.children.remove(ci);
        proof {
            let cs = before_children;
            assert(cs.no_duplicates());
            let k = cs.index_of(id@);
            assert(cs[k] == id@ && cs[ci as int] == id@);
            assert(k == ci);
            assert(og@.children =~= without(cs, id@));
        }
        let ghost ogv = og@;
        nodes.insert(oi, og);
        proof {
            assert(node_pairs(nodes@) =~= p0.update(oi as int, (opv, ogv)));
            lemma_pairs_map_update(p0, oi as int, ogv);
        }
        let ghost n1 = pairs_map(node_pairs(nodes@));
        assert(n1 == n0.insert(opv, with_children(n0[opv], without(n0[opv].children, id@))));
        // Attach to the new parent.
        let ghost p1 = node_pairs(nodes@);
        proof {
            assert(p1[ni as int].0 == new_parent@);
            lemma_pairs_map_at(p1, ni as int);
        }
        let mut ng = nodes.remove(ni);
        let ghost nbefore = ng@;
        ng.children.push(id.duplicate());
        let ghost ngv = ng@;
        assert(ngv.children =~= nbefore.children.push(id@));
        nodes.insert(ni, ng);
        proof {
            assert(node_pairs(nodes@) =~= p1.update(ni as int, (new_parent@, ngv)));
            lemma_pairs_map_update(p1, ni as int, ngv);
        }
        let ghost n2 = pairs_map(node_pairs(nodes@));
        assert(n2 == n1.insert(new_parent@, with_children(n1[new_parent@], n1[new_parent@].children.push(id@))));
        // Re-point the moved node.
        let ghost p2 = node_pairs(nodes@);
        proof {
            assert(p2[ii as int].0 == id@);
            lemma_pairs_map_at(p2, ii as int);
        }
        let mut ig = nodes.remove(ii);
        ig.parent = Some(new_parent.duplicate());
        let ghost igv = ig@;
        nodes.insert(ii, ig);
        proof {
            assert(node_pairs(nodes@) =~= p2.update(ii as int, (id@, igv)));
            lemma_pairs_map_update(p2, ii as int, igv);
            assert(igv == with_parent(n2[id@], Some(new_parent@)));
            assert(pairs_map(node_pairs(nodes@)) == moved(n0, id@, new_parent@));
            lemma_move_wf(r0, n0, d0, id@, new_parent@);
        }
        let ghost nd = moved_depth(n0, d0, id@, new_parent@);
        *self = GroupTree { root, nodes, depth: Ghost(nd) };
        Ok(())
    }

    /// Remove a leaf group, returning it. Fails with [`Error::RootImmutable`] for
    /// the root, [`Error::GroupNotFound`] if it does not exist, and
    /// [`Error::GroupNotEmpty`] if it still has children.
    pub fn remove(&mut self, id: &GroupId) -> (r: Result<Group>)
        ensures
            final(self)@.root == old(self)@.root,
            match r {
                Ok(g) => {
                    &&& id@ != old(self)@.root
                    &&& old(self)@.nodes.contains_key(id@)
                    &&& old(self)@.nodes[id@].children.len() == 0
                    &&& g@ == old(self)@.nodes[id@]
                    &&& g.id@ == id@
                    &&& final(self)@.nodes == removed(old(self)@.nodes, id@)
                },
                Err(e) => {
                    &&& final(self)@.nodes == old(self)@.nodes
                    &&& if id@ == old(self)@.root {
                        e is RootImmutable
                    } else if !old(self)@.nodes.contains_key(id@) {
                        e matches Error::GroupNotFound(g) && g@ == id@
                    } else {
                        &&& old(self)@.nodes[id@].children.len() != 0
                        &&& e is GroupNotEmpty
                    }
                },
            },
    {
        proof {
            use_type_invariant(&*self);
        }
        if str_eq(id.as_str(), self.root.as_str()) {
            return Err(Error::RootImmutable);
        }
        let ii = match find_node(&self.nodes, id) {
            Some(i) => i,
            None => return Err(Error::GroupNotFound(id.duplicate())),
        };
        proof {
            lemma_pairs_map_at(node_pairs(self.nodes@), ii as int);
        }
        if self.nodes[ii].children.len() != 0 {
            return Err(Error::GroupNotEmpty);
        }
        let (root, mut nodes, depth) = self.take_parts();
        let ghost n0 = pairs_map(node_pairs(nodes@));
        let ghost r0 = root@;
        let ghost d0 = depth@;
        assert(n0[id@] == n0[id@]);
        let pid = match &nodes[ii].parent {
            Some(p) => p.duplicate(),
            None => {
                assert(false);
                return Err(Error::RootImmutable);
            },
        };
        let ghost pv = pid@;
        let pi = match find_node(&nodes, &pid) {
            Some(i) => i,
            None => {
                assert(false);
                return Err(Error::GroupNotFound(pid));
            },
        };
        let ghost p0 = node_pairs(nodes@);
        proof {
            lemma_pairs_map_at(p0, pi as int);
        }
        let mut pg = nodes.remove(pi);
        let ci = match find_child(&pg.children, id) {
            Some(c) => c,
            None => {
                assert(false);
                return Err(Error::GroupNotFound(pid));
            },
        };
        let ghost before_children = pg@.children;
        pg.children.remove(ci);
        proof {
            let cs = before_children;
            let k = cs.index_of(id@);
            assert(cs[k] == id@ && cs[ci as int] == id@);
            assert(k == ci);
            assert(pg@.children =~= without(cs, id@));
        }
        let ghost pgv = pg@;
        nodes.insert(pi, pg);
        proof {
            assert(node_pairs(nodes@) =~= p0.update(pi as int, (pv, pgv)));
            lemma_pairs_map_update(p0, pi as int, pgv);
        }
        let ghost p1 = node_pairs(nodes@);
        proof {
            assert(p1[ii as int].0 == id@);
            lemma_pairs_map_at(p1, ii as int);
        }
        let g = nodes.remove(ii);
        proof {
            assert(node_pairs(nodes@) =~= p1.remove(ii as int));
            lemma_pairs_map_remove(p1, ii as int);
            assert(pairs_map(node_pairs(nodes@)) == removed(n0, id@));
            lemma_remove_wf(r0, n0, d0, id@);
        }
        let ghost nd = d0.remove(id@);
        *self = GroupTree { root, nodes, depth: Ghost(nd) };
        Ok(g)
    }

    /// Whether `n` is `a` or lies below it.
    pub fn within(&self, n: &GroupId, a: &GroupId) -> (r: bool)
        requires
            self@.nodes.contains_key(n@),
        ensures
            r == in_subtree(self@.nodes, n@, a@),
    {
        self.descends_from(n, a)
    }

    /// Remove a group together with every group below it. Fails with
    /// [`Error::RootImmutable`] for the root and [`Error::GroupNotFound`] if the
    /// group does not exist.
    pub fn remove_subtree(&mut self, id: &GroupId) -> (r: Result<()>)
        ensures
            final(self)@.root == old(self)@.root,
            match r {
                Ok(()) => {
                    &&& id@ != old(self)@.root
                    &&& old(self)@.nodes.contains_key(id@)
                    &&& final(self)@.nodes == pruned(old(self)@.nodes, id@)
                },
                Err(e) => {
                    &&& final(self)@.nodes == old(self)@.nodes
                    &&& if id@ == old(self)@.root {
                        e is RootImmutable
                    } else {
                        &&& !old(self)@.nodes.contains_key(id@)
                        &&& e matches Error::GroupNotFound(g) && g@ == id@
                    }
                },
            },
    {
        proof {
            use_type_invariant(&*self);
        }
        if str_eq(id.as_str(), self.root.as_str()) {
            return Err(Error::RootImmutable);
        }
        let ii = match find_node(&self.nodes, id) {
            Some(i) => i,
            None => return Err(Error::GroupNotFound(id.duplicate())),
        };
        proof {
            lemma_pairs_map_at(node_pairs(self.nodes@), ii as int);
        }
        let pid = match &self.nodes[ii].parent {
            Some(p) => p.duplicate(),
            None => {
                assert(false);
                return Err(Error::RootImmutable);
            },
        };
        let ghost n0 = self@.nodes;
        let ghost t = pruned(n0, id@);
        let mut keep: Vec<bool> = Vec::new();
        let mut i: usize = 0;
        while i < self.nodes.len()
            invariant
                i <= self.nodes@.len(),
                keep@.len() == i,
                n0 == self@.nodes,
                distinct_keys(node_pairs(self.nodes@)),
                forall|j: int| 0 <= j < i ==> #[trigger] keep@[j] == !in_subtree(n0, self.nodes@[j].id@, id@),
            decreases self.nodes@.len() - i,
        {
            proof {
                lemma_pairs_map_at(node_pairs(self.nodes@), i as int);
            }
            let inside = self.descends_from(&self.nodes[i].id, id);
            keep.push(!inside);
            i = i + 1;
        }
        let (root, mut nodes, depth) = self.take_parts();
        let ghost old_pairs = node_pairs(nodes@);
        let ghost len0 = nodes@.len();
        proof {
            lemma_prune_wf(root@, n0, depth@, id@);
        }
        let mut out: Vec<Group> = Vec::new();
        let mut i: usize = 0;
        while nodes.len() > 0
            invariant
                i + nodes@.len() == len0,
                len0 <= usize::MAX,
                keep@.len() == len0,
                old_pairs.len() == len0,
                distinct_keys(old_pairs),
                pairs_map(old_pairs) == n0,
                n0.contains_key(id@),
                id@ != root@,
                tree_wf(root@, n0, depth@),
                pid@ == n0[id@].parent->Some_0,
                t == pruned(n0, id@),
                forall|j: int| 0 <= j < len0 ==> #[trigger] keep@[j] == !in_subtree(n0, old_pairs[j].0, id@),
                forall|j: int| 0 <= j < nodes@.len() ==> #[trigger] node_pairs(nodes@)[j] == old_pairs[i + j],
                distinct_keys(node_pairs(out@)),
                forall|k: Seq<char>| #[trigger] has_key(node_pairs(out@), k) ==> has_key(old_pairs.subrange(0, i as int), k),
                pairs_map(node_pairs(out@)) == Map::new(
                    |k: Seq<char>| has_key(old_pairs.subrange(0, i as int), k) && !in_subtree(n0, k, id@),
                    |k: Seq<char>| t[k],
                ),
            decreases nodes@.len(),
        {
            let ghost nb = nodes@;
            proof {
                assert(node_pairs(nb)[0] == old_pairs[i + 0]);
            }
            let mut g = nodes.remove(0);
            let ghost key = old_pairs[i as int].0;
            proof {
                assert(g == nb[0]);
                assert(g.id@ == key && g@ == old_pairs[i as int].1);
                lemma_pairs_map_at(old_pairs, i as int);
                assert forall|j: int| 0 <= j < nodes@.len() implies #[trigger] node_pairs(nodes@)[j] == old_pairs[i + 1 + j] by {
                    assert(nodes@[j] == nb[j + 1]);
                    assert(node_pairs(nb)[j + 1] == old_pairs[i + (j + 1)]);
                }
            }
            if keep[i] {
                if str_eq(g.id.as_str(), pid.as_str()) {
                    match find_child(&g.children, id) {
                        Some(c) => {
                            let ghost before = g@.children;
                            proof {
                                assert(g@ == n0[pid@]);
                                assert(n0[id@].parent == Some(pid@));
                                assert(before.contains(id@));
                            }
                            g.children.remove(c);
                            proof {
                                let k = before.index_of(id@);
                                assert(before[k] == id@ && before[c as int] == id@);
                                assert(k == c);
                                assert(g@.children =~= without(before, id@));
                            }
                        },
                        None => {
                            proof {
                                assert(n0[id@].parent == Some(pid@));
                                assert(n0[pid@].children.contains(id@));
                                assert(false);
                            }
                        },
                    }
                }
                let ghost gv = g@;
                let ghost before_out = node_pairs(out@);
                proof {
                    assert(gv == t[key]);
                    assert(!has_key(before_out, key)) by {
                        if has_key(before_out, key) {
                            assert(has_key(old_pairs.subrange(0, i as int), key));
                            let j = choose|j: int| 0 <= j < i && #[trigger] old_pairs.subrange(0, i as int)[j].0 == key;
                            assert(old_pairs[j].0 == old_pairs[i as int].0);
                        }
                    }
                }
                out.push(g);
                proof {
                    assert(node_pairs(out@) =~= before_out.push((key, gv)));
                    lemma_pairs_map_push(before_out, key, gv);
                }
            }
            proof {
                assert forall|k: Seq<char>| has_key(old_pairs.subrange(0, i + 1), k) <==> (has_key(
                    old_pairs.subrange(0, i as int),
                    k,
                ) || k == key) by {
                    if has_key(old_pairs.subrange(0, i + 1), k) {
                        let j = choose|j: int| 0 <= j < i + 1 && #[trigger] old_pairs.subrange(0, i + 1)[j].0 == k;
                        if j < i {
                            assert(old_pairs.subrange(0, i as int)[j].0 == k);
                        }
                    }
                    if has_key(old_pairs.subrange(0, i as int), k) {
                        let j = choose|j: int| 0 <= j < i && #[trigger] old_pairs.subrange(0, i as int)[j].0 == k;
                        assert(old_pairs.subrange(0, i + 1)[j].0 == k);
                    }
                    if k == key {
                        assert(old_pairs.subrange(0, i + 1)[i as int].0 == k);
                    }
                }
                assert forall|k: Seq<char>| #[trigger] has_key(node_pairs(out@), k) implies has_key(
                    old_pairs.subrange(0, i + 1),
                    k,
                ) by {
                    assert(pairs_map(node_pairs(out@)).contains_key(k));
                }
                assert(pairs_map(node_pairs(out@)) =~= Map::new(
                    |k: Seq<char>| has_key(old_pairs.subrange(0, i + 1), k) && !in_subtree(n0, k, id@),
                    |k: Seq<char>| t[k],
                ));
            }
            i = i + 1;
        }
        proof {
            assert(old_pairs.subrange(0, i as int) =~= old_pairs);
            assert(pairs_map(node_pairs(out@)) =~= t);
        }
        let ghost nd = depth@.restrict(t.dom());
        *self = GroupTree { root, nodes: out, depth: Ghost(nd) };
        Ok(())
    }

    /// Remove a non-root group after moving its children, in order, to the end of
    /// its parent's child list; returns the removed group. Fails with
    /// [`Error::RootImmutable`] for the root and [`Error::GroupNotFound`] if the
    /// group does not exist.
    pub fn remove_reparenting(&mut self, id: &GroupId) -> (r: Result<Group>)
        ensures
            final(self)@.root == old(self)@.root,
            match r {
                Ok(g) => {
                    &&& id@ != old(self)@.root
                    &&& old(self)@.nodes.contains_key(id@)
                    &&& g.id@ == id@
                    &&& final(self)@.nodes == reparented(old(self)@.nodes, id@)
                },
                Err(e) => {
                    &&& final(self)@.nodes == old(self)@.nodes
                    &&& if id@ == old(self)@.root {
                        e is RootImmutable
                    } else {
                        &&& !old(self)@.nodes.contains_key(id@)
                        &&& e matches Error::GroupNotFound(g) && g@ == id@
                    }
                },
            },
    {
        proof {
            use_type_invariant(&*self);
        }
        if str_eq(id.as_str(), self.root.as_str()) {
            return Err(Error::RootImmutable);
        }
        let (pid, n) = match self.get(id) {
            Some(g) => match &g.parent {
                Some(p) => (p.duplicate(), g.children.len()),
                None => {
                    assert(false);
                    return Err(Error::RootImmutable);
                },
            },
            None => return Err(Error::GroupNotFound(id.duplicate())),
        };
        let ghost n0 = self@.nodes;
        let ghost r0 = self@.root;
        let ghost d0 = self.depth@;
        let ghost cs = n0[id@].children;
        proof {
            assert(n0[id@].parent == Some(pid@));
            assert(reparenting(n0, id@, pid@, 0) =~= n0) by {
                assert(cs.subrange(0, cs.len() as int) =~= cs);
                assert(n0[pid@].children + cs.subrange(0, 0) =~= n0[pid@].children);
            }
        }
        let mut j: usize = 0;
        while j < n
            invariant
                j <= n,
                n == cs.len(),
                cs == n0[id@].children,
                tree_wf(r0, n0, d0),
                n0.contains_key(id@),
                id@ != r0,
                n0[id@].parent == Some(pid@),
                self@.root == r0,
                self@.nodes == reparenting(n0, id@, pid@, j as int),
            decreases n - j,
        {
            proof {
                use_type_invariant(&*self);
            }
            let c = match self.get(id) {
                Some(g) => {
                    proof {
                        assert(g@.children == cs.subrange(j as int, cs.len() as int));
                        assert(id_seq(g.children@)[0] == g.children@[0]@);
                    }
                    g.children[0].duplicate()
                },
                None => {
                    assert(false);
                    return Err(Error::GroupNotFound(id.duplicate()));
                },
            };
            proof {
                let cur = self@.nodes;
                let d = self.depth@;
                assert(c@ == cs[j as int]);
                assert(cur[c@].parent == Some(id@)) by {
                    assert(cur[id@].children[0] == c@);
                }
                assert(!in_subtree(cur, pid@, c@)) by {
                    if in_subtree(cur, pid@, c@) {
                        let k = choose|k: nat| up(cur, pid@, k) == Some(c@);
                        lemma_up_depth(self@.root, cur, d, pid@, k);
                        assert(d[c@] == d[id@] + 1);
                        assert(d[id@] == d[pid@] + 1);
                    }
                }
                assert(c@ != self@.root) by {
                    assert(cur[self@.root].parent is None);
                }
                lemma_reparent_step(r0, n0, d0, id@, j as int);
            }
            let moved_ok = self.move_node(&c, &pid);
            assert(moved_ok is Ok);
            j = j + 1;
        }
        proof {
            use_type_invariant(&*self);
            assert(self@.nodes[id@].children.len() == 0);
            lemma_reparent_done(r0, n0, d0, id@);
        }
        self.remove(id)
    }

    /// Append the pre-order walk from `g`, descending at most `fuel` levels.
    fn visit<'a>(&'a self, g: &'a Group, fuel: usize, out: &mut Vec<&'a Group>)
        requires
            self@.nodes.contains_key(g.id@),
            g@ == self@.nodes[g.id@],
        ensures
            final(out)@.map_values(|x: &Group| x.id@) == old(out)@.map_values(|x: &Group| x.id@) + walk(
                self@.nodes,
                g.id@,
                fuel as nat,
            ),
            final(out)@.len() >= old(out)@.len(),
            forall|i: int| 0 <= i < old(out)@.len() ==> #[trigger] final(out)@[i] == old(out)@[i],
            forall|i: int|
                old(out)@.len() <= i < final(out)@.len() ==> self@.nodes.contains_key(#[trigger] final(out)@[i].id@)
                    && final(out)@[i]@ == self@.nodes[final(out)@[i].id@],
        decreases fuel,
    {
        if fuel == 0 {
            assert(out@.map_values(|x: &Group| x.id@) =~= out@.map_values(|x: &Group| x.id@) + walk(
                self@.nodes,
                g.id@,
                0,
            ));
            return;
        }
        proof {
            use_type_invariant(self);
        }
        let ghost start = out@;
        let ghost nodes = self@.nodes;
        let ghost cs = nodes[g.id@].children;
        out.push(g);
        let mut i: usize = 0;
        while i < g.children.len()
            invariant
                i <= g.children@.len(),
                cs == id_seq(g.children@),
                nodes == self@.nodes,
                fuel > 0,
                g@ == nodes[g.id@],
                nodes.contains_key(g.id@),
                out@.len() > start.len(),
                forall|j: int| 0 <= j < start.len() ==> #[trigger] out@[j] == start[j],
                forall|j: int|
                    start.len() <= j < out@.len() ==> nodes.contains_key(#[trigger] out@[j].id@)
                        && out@[j]@ == nodes[out@[j].id@],
                out@.map_values(|x: &Group| x.id@) == start.map_values(|x: &Group| x.id@) + seq![g.id@]
                    + walk_list(nodes, cs.subrange(0, i as int), (fuel - 1) as nat),
            decreases g.children@.len() - i,
        {
            proof {
                use_type_invariant(self);
                assert(cs[i as int] == g.children@[i as int]@);
                assert(cs.subrange(0, i + 1).drop_last() =~= cs.subrange(0, i as int));
            }
            let c = match self.get(&g.children[i]) {
                Some(c) => c,
                None => {
                    assert(false);
                    return;
                },
            };
            let ghost before = out@;
            self.visit(c, fuel - 1, out);
            proof {
                assert(out@.map_values(|x: &Group| x.id@) =~= start.map_values(|x: &Group| x.id@) + seq![g.id@]
                    + walk_list(nodes, cs.subrange(0, i + 1), (fuel - 1) as nat));
            }
            i = i + 1;
        }
        proof {
            assert(cs.subrange(0, i as int) =~= cs);
            assert(out@.map_values(|x: &Group| x.id@) =~= start.map_values(|x: &Group| x.id@) + walk(
                nodes,
                g.id@,
                fuel as nat,
            ));
        }
    }

    /// Every group as a depth-first pre-order walk from the root: a group, then the
    /// walk below each of its children in order. The walk descends as many levels
    /// as the tree has groups.
    pub fn preorder(&self) -> (r: Vec<&Group>)
        ensures
            r@.map_values(|x: &Group| x.id@) == walk(self@.nodes, self@.root, self@.nodes.dom().len()),
            r@.map_values(|x: &Group| x.id@).no_duplicates(),
            r@.map_values(|x: &Group| x.id@).to_set() == self@.nodes.dom(),
            forall|i: int| 0 <= i < r@.len() ==> self@.nodes.contains_key(#[trigger] r@[i].id@) && r@[i]@ == self@.nodes[r@[i].id@],
    {
        proof {
            use_type_invariant(self);
            lemma_pairs_map_dom(node_pairs(self.nodes@));
            lemma_preorder_covers(self@.root, self@.nodes, self.depth@);
        }
        let root = match self.get(&self.root) {
            Some(g) => g,
            None => {
                assert(false);
                return Vec::new();
            },
        };
        let mut out: Vec<&Group> = Vec::new();
        self.visit(root, self.nodes.len(), &mut out);
        assert(out@.map_values(|x: &Group| x.id@) =~= walk(self@.nodes, self@.root, self@.nodes.dom().len()));
        out
    }

    /// Rebuild a tree from a stored root id and node arena, checking that it is a
    /// consistent tree: distinct ids, agreeing parent and child links, and every
    /// node reaching the root. Fails with [`Error::ManifestDecode`] otherwise.
    pub fn from_parts(root: GroupId, nodes: Vec<Group>) -> (r: Result<GroupTree>)
        ensures
            match r {
                Ok(t) => valid_arena(root@, nodes@) && t@ == (TreeModel {
                    root: root@,
                    nodes: pairs_map(node_pairs(nodes@)),
                }),
                Err(e) => e is ManifestDecode && !valid_arena(root@, nodes@),
            },
    {
        if !arena_ids_distinct(&nodes) {
            return Err(Error::ManifestDecode);
        }
        let ghost m = pairs_map(node_pairs(nodes@));
        proof {
            lemma_pairs_map_dom(node_pairs(nodes@));
        }
        let found = find_node(&nodes, &root);
        if let Some(ri) = found {
            proof {
                lemma_pairs_map_at(node_pairs(nodes@), ri as int);
            }
        }
        if found.is_none() {
            proof {
                if valid_arena(root@, nodes@) {
                    let d = choose|d: Map<Seq<char>, nat>| tree_wf(root@, m, d);
                    assert(m.contains_key(root@));
                    let j = choose|j: int| 0 <= j < node_pairs(nodes@).len() && #[trigger] node_pairs(nodes@)[j].0 == root@;
                    assert(nodes@[j].id@ == root@);
                }
            }
            return Err(Error::ManifestDecode);
        }
        let mut i: usize = 0;
        while i < nodes.len()
            invariant
                i <= nodes@.len(),
                distinct_keys(node_pairs(nodes@)),
                m == pairs_map(node_pairs(nodes@)),
                m.contains_key(root@),
                m.dom().finite(),
                m.dom().len() == nodes@.len(),
                forall|j: int| 0 <= j < i ==> node_links_ok(root@, m, #[trigger] nodes@[j].id@),
            decreases nodes@.len() - i,
        {
            if !check_node_links(&root, &nodes, i) {
                proof {
                    if valid_arena(root@, nodes@) {
                        let d = choose|d: Map<Seq<char>, nat>| tree_wf(root@, m, d);
                        lemma_wf_links(root@, m, d);
                        lemma_pairs_map_at(node_pairs(nodes@), i as int);
                        assert(m.contains_key(nodes@[i as int].id@));
                    }
                }
                return Err(Error::ManifestDecode);
            }
            i = i + 1;
        }
        proof {
            assert forall|n: Seq<char>| #[trigger] m.contains_key(n) implies node_links_ok(root@, m, n) by {
                let j = choose|j: int| 0 <= j < node_pairs(nodes@).len() && #[trigger] node_pairs(nodes@)[j].0 == n;
                assert(nodes@[j].id@ == n);
            }
        }
        let mut i: usize = 0;
        while i < nodes.len()
            invariant
                i <= nodes@.len(),
                distinct_keys(node_pairs(nodes@)),
                m == pairs_map(node_pairs(nodes@)),
                m.contains_key(root@),
                m.dom().finite(),
                m.dom().len() == nodes@.len(),
                forall|n: Seq<char>| #[trigger] m.contains_key(n) ==> node_links_ok(root@, m, n),
                forall|j: int| 0 <= j < i ==> reaches_root(m, (#[trigger] nodes@[j]).id@, root@),
            decreases nodes@.len() - i,
        {
            match climb(&root, &nodes, i) {
                Some(k) => {
                    assert(up(m, nodes@[i as int].id@, k as nat) == Some(root@));
                },
                None => {
                    proof {
                        if valid_arena(root@, nodes@) {
                            let d = choose|d: Map<Seq<char>, nat>| tree_wf(root@, m, d);
                            lemma_pairs_map_at(node_pairs(nodes@), i as int);
                            lemma_depth_bound(root@, m, d, nodes@[i as int].id@);
                            lemma_up_to_root(root@, m, d, nodes@[i as int].id@);
                        }
                    }
                    return Err(Error::ManifestDecode);
                },
            }
            i = i + 1;
        }
        let ghost d = Map::new(
            |k: Seq<char>| m.contains_key(k),
            |k: Seq<char>| choose|s: nat| up(m, k, s) == Some(root@),
        );
        proof {
            assert forall|n: Seq<char>| #[trigger] m.contains_key(n) implies up(m, n, d[n]) == Some(root@) by {
                let j = choose|j: int| 0 <= j < node_pairs(nodes@).len() && #[trigger] node_pairs(nodes@)[j].0 == n;
                assert(nodes@[j].id@ == n);
                assert(reaches_root(m, nodes@[j].id@, root@));
            }
            assert(node_links_ok(root@, m, root@));
            assert(parent_of(m, root@) is None);
            assert(d[root@] == 0) by {
                assert(up(m, root@, 0) == Some(root@));
                lemma_up_unique(m, root@, root@, 0, d[root@]);
            }
            assert forall|n: Seq<char>|
                #![trigger m[n]]
                m.contains_key(n) && n != root@ implies {
                    &&& m[n].parent matches Some(p)
                    &&& m.contains_key(p)
                    &&& m[p].children.contains(n)
                    &&& d[n] == d[p] + 1
                } by {
                assert(node_links_ok(root@, m, n));
                let p = m[n].parent->Some_0;
                assert(up(m, p, 0) == Some(p));
                assert(up(m, n, 1) == Some(p));
                lemma_up_compose(m, n, 1, d[p]);
                assert(up(m, n, 1 + d[p]) == Some(root@));
                lemma_up_unique(m, root@, n, d[n], 1 + d[p]);
            }
            assert forall|p: Seq<char>, t: int|
                #![trigger m[p].children[t]]
                m.contains_key(p) && 0 <= t < m[p].children.len() implies {
                    &&& m.contains_key(m[p].children[t])
                    &&& m[m[p].children[t]].parent == Some(p)
                } by {
                assert(node_links_ok(root@, m, p));
            }
            assert forall|p: Seq<char>| #[trigger] m.contains_key(p) implies m[p].children.no_duplicates() by {
                assert(node_links_ok(root@, m, p));
            }
            assert(d.dom() =~= m.dom());
            assert(tree_wf(root@, m, d));
        }
        Ok(GroupTree { root, nodes, depth: Ghost(d) })
    }
}

} // verus!
