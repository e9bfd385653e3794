//! The arena that owns every node of the mirrored tree.
//!
//! Children are stored as indices into the arena, so a node's identity is
//! its index: a sync pass that matches an existing child keeps its index
//! and mutates the node in place, and any holder of the index observes the
//! update.

use vstd::prelude::*;

use crate::node::IlNode;
use crate::node::KindV;
use crate::node::NodeV;
use crate::node::node_view;

verus! {

/// All nodes of the mirrored tree; index `0` is the root by convention.
pub struct Tree {
    pub nodes: Vec<IlNode>,
}

/// Mathematical image of the arena.
pub open spec fn tree_view(t: Tree) -> Seq<NodeV> {
    t.nodes@.map_values(|n: IlNode| node_view(n))
}

/// Every child index points into the arena, and only containers (folders and
/// the root) carry a children list.
pub open spec fn wf_at(ns: Seq<NodeV>, i: int) -> bool {
    match ns[i].children {
        Some(cs) => (ns[i].kind is Folder || ns[i].kind is Root) && forall|k: int|
            0 <= k < cs.len() ==> (#[trigger] cs[k]) < ns.len(),
        None => true,
    }
}

pub open spec fn wf(ns: Seq<NodeV>) -> bool {
    forall|i: int| 0 <= i < ns.len() ==> wf_at(ns, i)
}

impl Tree {
    /// A tree holding a single unexpanded root container.
    pub fn with_root(uri: String, title: String) -> (t: Tree)
        ensures
            tree_view(t).len() == 1,
            tree_view(t)[0].uri == uri@,
            tree_view(t)[0].title == title@,
            tree_view(t)[0].kind is Root,
            tree_view(t)[0].children == Some(Seq::<usize>::empty()),
            tree_view(t)[0].visible,
            wf(tree_view(t)),
    {
        let root = IlNode {
            uri,
            title,
            breed: crate::node::IlNodeType::Root,
            visible: true,
            children: Some(Vec::new()),
            id: 0,
            parent: 0,
        };
        let mut nodes: Vec<IlNode> = Vec::new();
        nodes.push(root);
        let t = Tree { nodes };
        proof {
            assert(tree_view(t)[0].children matches Some(cs) && cs =~= Seq::<usize>::empty());
        }
        t
    }

    /// Number of nodes in the arena.
    pub fn len(&self) -> (n: usize)
        ensures
            n == tree_view(*self).len(),
    {
        self.nodes.len()
    }
}

/// Search the arena for the first node carrying identifier `id`.
pub fn get_node(tree: &Tree, id: usize) -> (r: Option<&IlNode>)
    ensures
        match r {
            Some(n) => exists|i: int|
                0 <= i < tree_view(*tree).len() && tree_view(*tree)[i] == node_view(*n)
                    && n.id == id,
            None => forall|i: int|
                0 <= i < tree_view(*tree).len() ==> (#[trigger] tree_view(*tree)[i].id) != id,
        },
{
    let mut i: usize = 0;
    let n = tree.nodes.len();
    while i < n
        invariant
            n == tree.nodes@.len(),
            i <= n,
            forall|k: int| 0 <= k < i ==> (#[trigger] tree_view(*tree)[k].id) != id,
        decreases n - i,
    {
        if tree.nodes[i].id == id {
            proof {
                assert(tree_view(*tree)[i as int] == node_view(tree.nodes@[i as int]));
            }
            return Some(&tree.nodes[i]);
        }
        proof {
            assert(tree_view(*tree)[i as int].id == tree.nodes@[i as int].id);
        }
        i += 1;
    }
    None
}

/// A node has at most one parent among the children lists of the arena.
pub open spec fn unique_parent(ns: Seq<NodeV>, c: usize) -> bool {
    forall|i: int, j: int|
        (0 <= i < ns.len() && 0 <= j < ns.len() && child_of(ns, i, c) && child_of(ns, j, c)) ==> i
            == j
}

pub open spec fn child_of(ns: Seq<NodeV>, i: int, c: usize) -> bool {
    match ns[i].children {
        Some(cs) => cs.contains(c),
        None => false,
    }
}

fn set_parent(nodes: &mut Vec<IlNode>, c: usize, p: usize)
    requires
        c < old(nodes)@.len(),
    ensures
        final (nodes)@.len() == old(nodes)@.len(),
        forall|q: int|
            0 <= q < old(nodes)@.len() && q != c ==> final (nodes)@[q] == old(nodes)@[q],
        node_view(final (nodes)@[c as int]) == (NodeV {
            parent: p,
            ..node_view(old(nodes)@[c as int])
        }),
        final (nodes)@[c as int].id == old(nodes)@[c as int].id,
{
    let node = &mut nodes[c];
    node.parent = p;
}

/// Everything of a node except its numbering.
pub open spec fn same_but_ids(a: NodeV, b: NodeV) -> bool {
    a.uri == b.uri && a.title == b.title && a.kind == b.kind && a.visible == b.visible
        && a.children == b.children
}

/// Number every node with its arena index, and point each child at its
/// parent's new identifier.
pub fn set_ids(tree: &mut Tree)
    requires
        wf(tree_view(*old(tree))),
    ensures
        tree_view(*final (tree)).len() == tree_view(*old(tree)).len(),
        forall|i: int|
            0 <= i < tree_view(*final (tree)).len() ==> same_but_ids(
                #[trigger] tree_view(*final (tree))[i],
                tree_view(*old(tree))[i],
            ) && tree_view(*final (tree))[i].id == i,
        forall|i: int, c: usize|
            #![trigger child_of(tree_view(*old(tree)), i, c)]
            (0 <= i < tree_view(*final (tree)).len() && (c as int) < tree_view(
                *final (tree),
            ).len() && child_of(tree_view(*old(tree)), i, c) && unique_parent(
                tree_view(*old(tree)),
                c,
            )) ==> tree_view(*final (tree))[c as int].parent == i,
{
    let n = tree.nodes.len();
    let ghost ns0 = tree_view(*tree);
    let mut i: usize = 0;
    while i < n
        invariant
            n == tree.nodes@.len(),
            i <= n,
            ns0 == tree_view(*old(tree)),
            ns0.len() == n,
            forall|k: int|
                0 <= k < n ==> same_but_ids(node_view(#[trigger] tree.nodes@[k]), ns0[k]),
            forall|k: int| 0 <= k < i ==> (#[trigger] tree.nodes@[k]).id == k,
        decreases n - i,
    {
        let node = &mut tree.nodes[i];
        node.id = i;
        i += 1;
    }
    let mut p: usize = 0;
    while p < n
        invariant
            n == tree.nodes@.len(),
            p <= n,
            ns0 == tree_view(*old(tree)),
            ns0.len() == n,
            wf(ns0),
            forall|k: int|
                0 <= k < n ==> same_but_ids(node_view(#[trigger] tree.nodes@[k]), ns0[k])
                    && tree.nodes@[k].id == k,
            forall|i0: int, c: usize|
                #![trigger child_of(ns0, i0, c)]
                (0 <= i0 < p && (c as int) < ns0.len() && child_of(ns0, i0, c) && unique_parent(
                    ns0,
                    c,
                )) ==> tree.nodes@[c as int].parent == i0,
        decreases n - p,
    {
        proof {
            assert(wf_at(ns0, p as int));
        }
        let cn = match &tree.nodes[p].children {
            Some(cs) => cs.len(),
            None => 0,
        };
        let mut k: usize = 0;
        while k < cn
            invariant
                n == tree.nodes@.len(),
                p < n,
                ns0 == tree_view(*old(tree)),
                ns0.len() == n,
                wf(ns0),
                k <= cn,
                match ns0[p as int].children {
                    Some(cs) => cn == cs.len() && forall|q: int|
                        0 <= q < cs.len() ==> (#[trigger] cs[q]) < n,
                    None => cn == 0,
                },
                forall|q: int|
                    0 <= q < n ==> same_but_ids(node_view(#[trigger] tree.nodes@[q]), ns0[q])
                        && tree.nodes@[q].id == q,
                forall|i0: int, c: usize|
                    #![trigger child_of(ns0, i0, c)]
                    (0 <= i0 < p && (c as int) < ns0.len() && child_of(ns0, i0, c)
                        && unique_parent(ns0, c)) ==> tree.nodes@[c as int].parent == i0,
                forall|q: int|
                    #![trigger ns0[p as int].children->Some_0[q]]
                    0 <= q < k ==> tree.nodes@[ns0[p as int].children->Some_0[q] as int].parent
                        == p,
            decreases cn - k,
        {
            let ghost cs = ns0[p as int].children->Some_0;
            let c = match &tree.nodes[p].children {
                Some(v) => v[k],
                None => 0,
            };
            proof {
                assert(node_view(tree.nodes@[p as int]).children == ns0[p as int].children);
                assert(cs[k as int] == c);
                assert(cs[k as int] < n);
            }
            set_parent(&mut tree.nodes, c, p);
            proof {
                assert forall|i0: int, c2: usize|
                    #![trigger child_of(ns0, i0, c2)]
                    (0 <= i0 < p && (c2 as int) < ns0.len() && child_of(ns0, i0, c2)
                        && unique_parent(ns0, c2)) implies tree.nodes@[c2 as int].parent == i0 by {
                    if c2 == c {
                        assert(cs[k as int] == c2);
                        assert(cs.contains(c2));
                        assert(ns0[p as int].children is Some);
                        assert(child_of(ns0, p as int, c2));
                        assert(i0 == p as int);
                        assert(false);
                    }
                }
            }
            k += 1;
        }
        p += 1;
        proof {
            assert forall|i0: int, c: usize|
                #![trigger child_of(ns0, i0, c)]
                (0 <= i0 < p && (c as int) < ns0.len() && child_of(ns0, i0, c) && unique_parent(
                    ns0,
                    c,
                )) implies tree.nodes@[c as int].parent == i0 by {
                if i0 == p - 1 {
                    let cs = ns0[i0].children->Some_0;
                    let q = choose|q: int| 0 <= q < cs.len() && cs[q] == c;
                    assert(tree.nodes@[cs[q] as int].parent == p - 1);
                }
            }
        }
    }
}

/// The local directories the tree's folders own, from node `i` on,
/// appended to `acc`.
pub open spec fn folder_paths_from(ns: Seq<NodeV>, i: int, acc: Seq<Seq<char>>) -> Seq<Seq<char>>
    decreases ns.len() - i + 1,
        when 0 <= i
{
    if i >= ns.len() {
        acc
    } else {
        match ns[i].kind {
            KindV::Folder { path, .. } => folder_paths_from(ns, i + 1, acc.push(path)),
            _ => folder_paths_from(ns, i + 1, acc),
        }
    }
}

/// The local directory of every folder node, in arena order: what the host
/// must create on disk before files are materialized.
pub fn folder_paths(tree: &Tree) -> (paths: Vec<String>)
    ensures
        paths@.map_values(|p: String| p@) == folder_paths_from(tree_view(*tree), 0, Seq::empty()),
{
    let ghost ns = tree_view(*tree);
    let mut paths: Vec<String> = Vec::new();
    proof {
        assert(paths@.map_values(|p: String| p@) =~= Seq::<Seq<char>>::empty());
    }
    let n = tree.nodes.len();
    let mut i: usize = 0;
    while i < n
        invariant
            n == tree.nodes@.len(),
            ns == tree_view(*tree),
            i <= n,
            folder_paths_from(ns, 0, Seq::empty()) == folder_paths_from(
                ns,
                i as int,
                paths@.map_values(|p: String| p@),
            ),
        decreases n - i,
    {
        match &tree.nodes[i].breed {
            crate::node::IlNodeType::Folder { path, .. } => {
                let ghost before = paths@.map_values(|p: String| p@);
                let p = path.clone();
                proof {
                    assert(ns[i as int].kind matches KindV::Folder { path: fp, .. } && fp == p@);
                }
                paths.push(p);
                proof {
                    assert(paths@.map_values(|q: String| q@) =~= before.push(p@));
                }
            },
            _ => {},
        }
        i += 1;
    }
    paths
}

} // verus!
