//! The incremental tree synchronization engine.
//!
//! One pass over one container node diffs a freshly fetched listing against
//! the node's previous children, in listing order:
//!
//! * a record whose `uri` matches an old child keeps that child — same arena
//!   index, so references to it stay valid — and, for a file whose remote
//!   version is strictly greater, bumps the stored version and schedules a
//!   download;
//! * a record with no match is classified; classifiable records become new
//!   nodes (new files are scheduled for download at once), unclassifiable
//!   ones are dropped;
//! * old children absent from the listing are discarded.
//!
//! The outcome also reports which of the new children to recurse into
//! (folders) and which to resolve (direct links); the host performs those
//! follow-ups and the downloads.

use vstd::prelude::*;

use crate::node::ItemRecord;
use crate::node::KindV;
use crate::node::NodeV;
use crate::node::RecV;
use crate::node::made_node;
use crate::node::node_view;
use crate::node::rec_view;
use crate::node::recs_view;
use crate::tree::Tree;
use crate::tree::tree_view;
use crate::tree::wf;
use crate::tree::wf_at;

verus! {

/// Position in `rem` (a list of arena indices) of the first node whose `uri`
/// equals `uri`, searching from position `i`.
pub open spec fn find_from_ids(ns: Seq<NodeV>, rem: Seq<usize>, i: int, uri: Seq<char>) -> Option<
    int,
>
    decreases rem.len() - i + 1,
        when 0 <= i
{
    if i >= rem.len() {
        None
    } else if ns[rem[i] as int].uri == uri {
        Some(i)
    } else {
        find_from_ids(ns, rem, i + 1, uri)
    }
}

/// The version a matched node is bumped to: only a file, and only when the
/// record carries a strictly greater version.
pub open spec fn bump_of(n: NodeV, r: RecV) -> Option<u32> {
    match n.kind {
        KindV::File { version, .. } => match r.version {
            Some(v) => if v > version {
                Some(v)
            } else {
                None
            },
            None => None,
        },
        _ => None,
    }
}

/// `n` with its stored file version replaced by `v`.
pub open spec fn with_version(n: NodeV, v: u32) -> NodeV {
    match n.kind {
        KindV::File { path, version, local } => NodeV {
            kind: KindV::File { path, version: v, local },
            ..n
        },
        _ => n,
    }
}

/// Everything one diff produces: the arena afterwards, the new children in
/// listing order, the scheduled downloads, and what is left of the old
/// children (the discarded ones).
#[verifier::ext_equal]
pub ghost struct DiffOut {
    pub nodes: Seq<NodeV>,
    pub kids: Seq<usize>,
    pub dls: Seq<usize>,
    pub rem: Seq<usize>,
}

/// The diff of records `recs[i..]` against the old children `rem`, over
/// arena `ns`, creating new nodes under directory `dir` (folders created
/// here store files when `store` is set).
pub open spec fn diff_from(
    ns: Seq<NodeV>,
    rem: Seq<usize>,
    recs: Seq<RecV>,
    i: int,
    dir: Seq<char>,
    store: bool,
) -> DiffOut
    decreases recs.len() - i + 1,
        when 0 <= i
{
    if i >= recs.len() {
        DiffOut { nodes: ns, kids: Seq::empty(), dls: Seq::empty(), rem }
    } else {
        let r = recs[i];
        match find_from_ids(ns, rem, 0, r.uri) {
            Some(j) => {
                let id = rem[j];
                let rem2 = rem.remove(j);
                match bump_of(ns[id as int], r) {
                    Some(v) => {
                        let ns2 = ns.update(id as int, with_version(ns[id as int], v));
                        let rest = diff_from(ns2, rem2, recs, i + 1, dir, store);
                        DiffOut {
                            nodes: rest.nodes,
                            kids: seq![id] + rest.kids,
                            dls: seq![id] + rest.dls,
                            rem: rest.rem,
                        }
                    },
                    None => {
                        let rest = diff_from(ns, rem2, recs, i + 1, dir, store);
                        DiffOut {
                            nodes: rest.nodes,
                            kids: seq![id] + rest.kids,
                            dls: rest.dls,
                            rem: rest.rem,
                        }
                    },
                }
            },
            None => {
                match made_node(r, dir, store) {
                    Some(nv) => {
                        let id = ns.len() as usize;
                        let ns2 = ns.push(nv);
                        let rest = diff_from(ns2, rem, recs, i + 1, dir, store);
                        DiffOut {
                            nodes: rest.nodes,
                            kids: seq![id] + rest.kids,
                            dls: if nv.kind is File {
                                seq![id] + rest.dls
                            } else {
                                rest.dls
                            },
                            rem: rest.rem,
                        }
                    },
                    None => diff_from(ns, rem, recs, i + 1, dir, store),
                }
            },
        }
    }
}

/// Every index a diff hands out points into the arena it also hands out;
/// the arena only grows, and what is left of the old children was part of
/// them.
pub proof fn lemma_diff_bounds(
    ns: Seq<NodeV>,
    rem: Seq<usize>,
    recs: Seq<RecV>,
    i: int,
    dir: Seq<char>,
    store: bool,
)
    requires
        0 <= i <= recs.len(),
        forall|k: int| 0 <= k < rem.len() ==> (#[trigger] rem[k]) < ns.len(),
        ns.len() + recs.len() - i <= usize::MAX,
    ensures
        ({
            let d = diff_from(ns, rem, recs, i, dir, store);
            d.nodes.len() >= ns.len() && d.nodes.len() <= ns.len() + recs.len() - i && (forall|
                k: int,
            | 0 <= k < d.kids.len() ==> (#[trigger] d.kids[k]) < d.nodes.len()) && (forall|k: int|
                0 <= k < d.dls.len() ==> (#[trigger] d.dls[k]) < d.nodes.len()) && (forall|k: int|
                0 <= k < d.rem.len() ==> rem.contains(#[trigger] d.rem[k]))
        }),
    decreases recs.len() - i,
{
    let d = diff_from(ns, rem, recs, i, dir, store);
    if i >= recs.len() {
        assert(forall|k: int| 0 <= k < d.rem.len() ==> rem.contains(#[trigger] d.rem[k]));
    } else {
        let r = recs[i];
        match find_from_ids(ns, rem, 0, r.uri) {
            Some(j) => {
                lemma_find_ids_found(ns, rem, 0, r.uri, j);
                let id = rem[j];
                let rem2 = rem.remove(j);
                rem.remove_ensures(j);
                assert(forall|k: int| 0 <= k < rem2.len() ==> (#[trigger] rem2[k]) < ns.len());
                match bump_of(ns[id as int], r) {
                    Some(v) => {
                        let ns2 = ns.update(id as int, with_version(ns[id as int], v));
                        lemma_diff_bounds(ns2, rem2, recs, i + 1, dir, store);
                        assert(forall|k: int|
                            0 <= k < rem2.len() ==> rem.contains(#[trigger] rem2[k]));
                    },
                    None => {
                        lemma_diff_bounds(ns, rem2, recs, i + 1, dir, store);
                        assert(forall|k: int|
                            0 <= k < rem2.len() ==> rem.contains(#[trigger] rem2[k]));
                    },
                }
            },
            None => {
                match made_node(r, dir, store) {
                    Some(nv) => {
                        let ns2 = ns.push(nv);
                        assert(forall|k: int|
                            0 <= k < rem.len() ==> (#[trigger] rem[k]) < ns2.len());
                        lemma_diff_bounds(ns2, rem, recs, i + 1, dir, store);
                    },
                    None => {
                        lemma_diff_bounds(ns, rem, recs, i + 1, dir, store);
                    },
                }
            },
        }
    }
}

/// What a successful sibling search means: an in-range position whose node
/// carries the searched uri.
pub proof fn lemma_find_ids_found(
    ns: Seq<NodeV>,
    rem: Seq<usize>,
    i: int,
    uri: Seq<char>,
    j: int,
)
    requires
        0 <= i,
        find_from_ids(ns, rem, i, uri) == Some(j),
    ensures
        i <= j < rem.len(),
        ns[rem[j] as int].uri == uri,
    decreases rem.len() - i + 1,
{
    if i >= rem.len() {
    } else if ns[rem[i] as int].uri == uri {
    } else {
        lemma_find_ids_found(ns, rem, i + 1, uri, j);
    }
}

fn find_match(tree: &Tree, rem: &Vec<usize>, uri: &String) -> (r: Option<usize>)
    requires
        forall|k: int| 0 <= k < rem@.len() ==> (#[trigger] rem@[k]) < tree.nodes@.len(),
    ensures
        match r {
            Some(j) => j < rem@.len() && find_from_ids(tree_view(*tree), rem@, 0, uri@) == Some(
                j as int,
            ),
            None => find_from_ids(tree_view(*tree), rem@, 0, uri@) is None,
        },
{
    let n = rem.len();
    let mut i: usize = 0;
    while i < n
        invariant
            n == rem@.len(),
            i <= n,
            forall|k: int| 0 <= k < n ==> (#[trigger] rem@[k]) < tree.nodes@.len(),
            find_from_ids(tree_view(*tree), rem@, 0, uri@) == find_from_ids(
                tree_view(*tree),
                rem@,
                i as int,
                uri@,
            ),
        decreases n - i,
    {
        let id = rem[i];
        proof {
            assert(tree_view(*tree)[id as int].uri == tree.nodes@[id as int].uri@);
        }
        if tree.nodes[id].uri == *uri {
            return Some(i);
        }
        i += 1;
    }
    None
}

fn bump_version(tree: &mut Tree, id: usize, rec: &ItemRecord) -> (b: bool)
    requires
        id < old(tree).nodes@.len(),
    ensures
        ({
            let ns = tree_view(*old(tree));
            let r = rec_view(*rec);
            b == (bump_of(ns[id as int], r) is Some) && tree_view(*final (tree)) == (match bump_of(
                ns[id as int],
                r,
            ) {
                Some(v) => ns.update(id as int, with_version(ns[id as int], v)),
                None => ns,
            })
        }),
{
    let ghost ns = tree_view(*tree);
    let node = &mut tree.nodes[id];
    let b = match &mut node.breed {
        crate::node::IlNodeType::File { version, .. } => {
            match rec.version {
                Some(v) => {
                    if v > *version {
                        *version = v;
                        true
                    } else {
                        false
                    }
                },
                None => false,
            }
        },
        _ => false,
    };
    proof {
        match bump_of(ns[id as int], rec_view(*rec)) {
            Some(v) => {
                assert(tree_view(*tree) =~= ns.update(id as int, with_version(ns[id as int], v)));
            },
            None => {
                assert(tree_view(*tree) =~= ns);
            },
        }
    }
    b
}

/// Run the diff of `records[i..]` against the old children `rem`, mutating
/// the arena in place and appending the produced children and downloads.
fn apply_from(
    tree: &mut Tree,
    rem: &mut Vec<usize>,
    records: &Vec<ItemRecord>,
    i: usize,
    dir: &str,
    store: bool,
    kids: &mut Vec<usize>,
    dls: &mut Vec<usize>,
)
    requires
        i <= records@.len(),
        forall|k: int|
            0 <= k < old(rem)@.len() ==> (#[trigger] old(rem)@[k]) < old(tree).nodes@.len(),
        old(tree).nodes@.len() + records@.len() - i <= usize::MAX,
    ensures
        ({
            let d = diff_from(
                tree_view(*old(tree)),
                old(rem)@,
                recs_view(records@),
                i as int,
                dir@,
                store,
            );
            tree_view(*final (tree)) == d.nodes && final (kids)@ == old(kids)@ + d.kids && final (
            dls)@ == old(dls)@ + d.dls && final (rem)@ == d.rem
        }),
    decreases records@.len() - i,
{
    let ghost ns = tree_view(*tree);
    let ghost recs = recs_view(records@);
    let ghost d = diff_from(ns, rem@, recs, i as int, dir@, store);
    if i >= records.len() {
        proof {
            assert(final (kids)@ =~= old(kids)@ + d.kids);
            assert(final (dls)@ =~= old(dls)@ + d.dls);
        }
        return ;
    }
    let r = &records[i];
    proof {
        assert(recs[i as int] == rec_view(records@[i as int]));
    }
    match find_match(tree, rem, &r.uri) {
        Some(j) => {
            let id = rem[j];
            let ghost rem0 = rem@;
            rem.remove(j);
            let bumped = bump_version(tree, id, r);
            kids.push(id);
            if bumped {
                dls.push(id);
            }
            proof {
                rem0.remove_ensures(j as int);
                assert(rem@ == rem0.remove(j as int));
                assert(tree_view(*tree).len() == ns.len());
                assert(tree.nodes@.len() == ns.len());
                assert forall|k: int| 0 <= k < rem@.len() implies (#[trigger] rem@[k])
                    < tree.nodes@.len() by {
                    if k < j {
                        assert(rem@[k] == rem0[k]);
                    } else {
                        assert(rem@[k] == rem0[k + 1]);
                    }
                }
            }
            apply_from(tree, rem, records, i + 1, dir, store, kids, dls);
            proof {
                assert(kids@ =~= old(kids)@ + d.kids);
                assert(dls@ =~= old(dls)@ + d.dls);
            }
        },
        None => {
            match crate::node::node_from_record(r, dir, store) {
                Some(n) => {
                    let id = tree.nodes.len();
                    let isf = n.breed.is_file();
                    let ghost nv = node_view(n);
                    tree.nodes.push(n);
                    proof {
                        assert(tree_view(*tree) =~= ns.push(nv));
                        assert(forall|k: int|
                            0 <= k < rem@.len() ==> (#[trigger] rem@[k]) < tree.nodes@.len());
                    }
                    kids.push(id);
                    if isf {
                        dls.push(id);
                    }
                    apply_from(tree, rem, records, i + 1, dir, store, kids, dls);
                    proof {
                        assert(kids@ =~= old(kids)@ + d.kids);
                        assert(dls@ =~= old(dls)@ + d.dls);
                    }
                },
                None => {
                    apply_from(tree, rem, records, i + 1, dir, store, kids, dls);
                },
            }
        },
    }
}

/// `a` is `b` with at most its stored file version raised.
pub open spec fn version_only(a: NodeV, b: NodeV) -> bool {
    a.uri == b.uri && a.title == b.title && a.visible == b.visible && a.children == b.children
        && a.id == b.id && a.parent == b.parent && match (a.kind, b.kind) {
        (
            KindV::File { path: pa, version: va, local: la },
            KindV::File { path: pb, version: vb, local: lb },
        ) => pa == pb && la == lb && va >= vb,
        (ka, kb) => ka == kb,
    }
}

/// What a diff does to the nodes that already existed: a node that was not
/// among the old children is untouched, and an old child changes at most by
/// a raised file version — it is the same node, updated in place.
pub proof fn lemma_diff_frame(
    ns: Seq<NodeV>,
    rem: Seq<usize>,
    recs: Seq<RecV>,
    i: int,
    dir: Seq<char>,
    store: bool,
)
    requires
        0 <= i <= recs.len(),
        forall|k: int| 0 <= k < rem.len() ==> (#[trigger] rem[k]) < ns.len(),
        ns.len() + recs.len() - i <= usize::MAX,
    ensures
        ({
            let d = diff_from(ns, rem, recs, i, dir, store);
            d.nodes.len() >= ns.len() && (forall|id: int|
                0 <= id < ns.len() ==> version_only(#[trigger] d.nodes[id], ns[id])) && (forall|
                id: usize,
            |
                (id as int) < ns.len() && !rem.contains(id) ==> d.nodes[id as int] == ns[id as int])
        }),
    decreases recs.len() - i,
{
    let d = diff_from(ns, rem, recs, i, dir, store);
    if i >= recs.len() {
        assert(forall|id: int| 0 <= id < ns.len() ==> version_only(#[trigger] d.nodes[id], ns[id]));
    } else {
        let r = recs[i];
        match find_from_ids(ns, rem, 0, r.uri) {
            Some(j) => {
                lemma_find_ids_found(ns, rem, 0, r.uri, j);
                let id0 = rem[j];
                let rem2 = rem.remove(j);
                rem.remove_ensures(j);
                assert(forall|k: int| 0 <= k < rem2.len() ==> (#[trigger] rem2[k]) < ns.len());
                assert forall|x: usize| rem2.contains(x) implies rem.contains(x) by {
                    let q = choose|q: int| 0 <= q < rem2.len() && rem2[q] == x;
                    if q < j {
                        assert(rem[q] == x);
                    } else {
                        assert(rem[q + 1] == x);
                    }
                }
                match bump_of(ns[id0 as int], r) {
                    Some(v) => {
                        let ns2 = ns.update(id0 as int, with_version(ns[id0 as int], v));
                        lemma_diff_frame(ns2, rem2, recs, i + 1, dir, store);
                        assert forall|x: int| 0 <= x < ns.len() implies version_only(
                            #[trigger] d.nodes[x],
                            ns[x],
                        ) by {
                            assert(version_only(d.nodes[x], ns2[x]));
                            assert(version_only(ns2[x], ns[x]));
                        }
                        assert forall|x: usize| (x as int) < ns.len() && !rem.contains(x) implies d
                            .nodes[x as int] == ns[x as int] by {
                            assert(rem.contains(id0));
                            assert(x != id0);
                            assert(ns2[x as int] == ns[x as int]);
                        }
                    },
                    None => {
                        lemma_diff_frame(ns, rem2, recs, i + 1, dir, store);
                    },
                }
            },
            None => {
                match made_node(r, dir, store) {
                    Some(nv) => {
                        let ns2 = ns.push(nv);
                        assert(forall|k: int|
                            0 <= k < rem.len() ==> (#[trigger] rem[k]) < ns2.len());
                        lemma_diff_frame(ns2, rem, recs, i + 1, dir, store);
                        assert forall|x: int| 0 <= x < ns.len() implies version_only(
                            #[trigger] d.nodes[x],
                            ns[x],
                        ) by {
                            assert(version_only(d.nodes[x], ns2[x]));
                            assert(ns2[x] == ns[x]);
                        }
                    },
                    None => {
                        lemma_diff_frame(ns, rem, recs, i + 1, dir, store);
                    },
                }
            },
        }
    }
}

/// A diff keeps the arena well formed: bumping a version touches no
/// children, and every created node is either a folder with a fresh empty
/// children list or a leaf without one.
pub proof fn lemma_diff_wf(
    ns: Seq<NodeV>,
    rem: Seq<usize>,
    recs: Seq<RecV>,
    i: int,
    dir: Seq<char>,
    store: bool,
)
    requires
        0 <= i <= recs.len(),
        forall|k: int| 0 <= k < rem.len() ==> (#[trigger] rem[k]) < ns.len(),
        ns.len() + recs.len() - i <= usize::MAX,
        wf(ns),
    ensures
        wf(diff_from(ns, rem, recs, i, dir, store).nodes),
    decreases recs.len() - i,
{
    if i >= recs.len() {
    } else {
        let r = recs[i];
        match find_from_ids(ns, rem, 0, r.uri) {
            Some(j) => {
                lemma_find_ids_found(ns, rem, 0, r.uri, j);
                let id = rem[j];
                let rem2 = rem.remove(j);
                rem.remove_ensures(j);
                match bump_of(ns[id as int], r) {
                    Some(v) => {
                        let ns2 = ns.update(id as int, with_version(ns[id as int], v));
                        assert forall|q: int| 0 <= q < ns2.len() implies wf_at(ns2, q) by {
                            assert(wf_at(ns, q));
                            assert(ns2[q].children == ns[q].children);
                        }
                        lemma_diff_wf(ns2, rem2, recs, i + 1, dir, store);
                    },
                    None => {
                        lemma_diff_wf(ns, rem2, recs, i + 1, dir, store);
                    },
                }
            },
            None => {
                match made_node(r, dir, store) {
                    Some(nv) => {
                        let ns2 = ns.push(nv);
                        assert forall|q: int| 0 <= q < ns2.len() implies wf_at(ns2, q) by {
                            if q < ns.len() {
                                assert(wf_at(ns, q));
                                assert(ns2[q] == ns[q]);
                            } else {
                                assert(ns2[q] == nv);
                            }
                        }
                        assert(forall|k: int|
                            0 <= k < rem.len() ==> (#[trigger] rem[k]) < ns2.len());
                        lemma_diff_wf(ns2, rem, recs, i + 1, dir, store);
                    },
                    None => {
                        lemma_diff_wf(ns, rem, recs, i + 1, dir, store);
                    },
                }
            },
        }
    }
}

proof fn lemma_remove_keeps(s: Seq<usize>, j: int, x: usize)
    requires
        0 <= j < s.len(),
        s.contains(x),
        s[j] != x,
    ensures
        s.remove(j).contains(x),
{
    s.remove_ensures(j);
    let q = choose|q: int| 0 <= q < s.len() && s[q] == x;
    if q < j {
        assert(s.remove(j)[q] == x);
    } else {
        assert(s.remove(j)[q - 1] == x);
    }
}

proof fn lemma_remove_no_dup(s: Seq<usize>, j: int)
    requires
        0 <= j < s.len(),
        s.no_duplicates(),
    ensures
        s.remove(j).no_duplicates(),
        !s.remove(j).contains(s[j]),
{
    s.remove_ensures(j);
    let r = s.remove(j);
    assert forall|a: int, b: int| 0 <= a < r.len() && 0 <= b < r.len() && a != b implies r[a]
        != r[b] by {
        let a0: int = if a < j {
            a
        } else {
            a + 1
        };
        let b0: int = if b < j {
            b
        } else {
            b + 1
        };
        assert(r[a] == s[a0] && r[b] == s[b0]);
    }
    if r.contains(s[j]) {
        let q = choose|q: int| 0 <= q < r.len() && r[q] == s[j];
        if q < j {
            assert(s[q] == s[j]);
        } else {
            assert(s[q + 1] == s[j]);
        }
    }
}

proof fn lemma_cons_no_dup(x: usize, s: Seq<usize>)
    requires
        s.no_duplicates(),
        !s.contains(x),
    ensures
        (seq![x] + s).no_duplicates(),
{
    let t = seq![x] + s;
    assert forall|a: int, b: int| 0 <= a < t.len() && 0 <= b < t.len() && a != b implies t[a]
        != t[b] by {
        if a == 0 {
            assert(t[b] == s[b - 1]);
        } else if b == 0 {
            assert(t[a] == s[a - 1]);
        } else {
            assert(t[a] == s[a - 1] && t[b] == s[b - 1]);
        }
    }
}

proof fn lemma_cons_not_contains(x: usize, s: Seq<usize>, y: usize)
    requires
        x != y,
        !s.contains(y),
    ensures
        !(seq![x] + s).contains(y),
{
    let t = seq![x] + s;
    if t.contains(y) {
        let q = choose|q: int| 0 <= q < t.len() && t[q] == y;
        if q > 0 {
            assert(s[q - 1] == y);
        }
    }
}

/// Everything a diff schedules or keeps is either a matched old child or a
/// node the diff itself created.
pub proof fn lemma_diff_membership(
    ns: Seq<NodeV>,
    rem: Seq<usize>,
    recs: Seq<RecV>,
    i: int,
    dir: Seq<char>,
    store: bool,
)
    requires
        0 <= i <= recs.len(),
        forall|k: int| 0 <= k < rem.len() ==> (#[trigger] rem[k]) < ns.len(),
        ns.len() + recs.len() - i <= usize::MAX,
    ensures
        ({
            let d = diff_from(ns, rem, recs, i, dir, store);
            (forall|k: int|
                0 <= k < d.kids.len() ==> rem.contains(#[trigger] d.kids[k]) || (d.kids[k] as int)
                    >= ns.len()) && (forall|k: int|
                0 <= k < d.dls.len() ==> rem.contains(#[trigger] d.dls[k]) || (d.dls[k] as int)
                    >= ns.len())
        }),
    decreases recs.len() - i,
{
    let d = diff_from(ns, rem, recs, i, dir, store);
    if i >= recs.len() {
        assert(d.kids.len() == 0);
        assert(d.dls.len() == 0);
    } else {
        let r = recs[i];
        match find_from_ids(ns, rem, 0, r.uri) {
            Some(j) => {
                lemma_find_ids_found(ns, rem, 0, r.uri, j);
                let id0 = rem[j];
                let rem2 = rem.remove(j);
                rem.remove_ensures(j);
                assert(forall|k: int| 0 <= k < rem2.len() ==> (#[trigger] rem2[k]) < ns.len());
                assert forall|x: usize| rem2.contains(x) implies rem.contains(x) by {
                    let q = choose|q: int| 0 <= q < rem2.len() && rem2[q] == x;
                    if q < j {
                        assert(rem[q] == x);
                    } else {
                        assert(rem[q + 1] == x);
                    }
                }
                assert(rem.contains(id0));
                match bump_of(ns[id0 as int], r) {
                    Some(v) => {
                        let ns2 = ns.update(id0 as int, with_version(ns[id0 as int], v));
                        let rest = diff_from(ns2, rem2, recs, i + 1, dir, store);
                        lemma_diff_membership(ns2, rem2, recs, i + 1, dir, store);
                        assert forall|k: int| 0 <= k < d.kids.len() implies rem.contains(
                            #[trigger] d.kids[k],
                        ) || (d.kids[k] as int) >= ns.len() by {
                            if k > 0 {
                                assert(d.kids[k] == rest.kids[k - 1]);
                                assert(rem2.contains(rest.kids[k - 1]) || (rest.kids[k - 1] as int)
                                    >= ns2.len());
                            }
                        }
                        assert forall|k: int| 0 <= k < d.dls.len() implies rem.contains(
                            #[trigger] d.dls[k],
                        ) || (d.dls[k] as int) >= ns.len() by {
                            if k > 0 {
                                assert(d.dls[k] == rest.dls[k - 1]);
                                assert(rem2.contains(rest.dls[k - 1]) || (rest.dls[k - 1] as int)
                                    >= ns2.len());
                            }
                        }
                    },
                    None => {
                        let rest = diff_from(ns, rem2, recs, i + 1, dir, store);
                        lemma_diff_membership(ns, rem2, recs, i + 1, dir, store);
                        assert forall|k: int| 0 <= k < d.kids.len() implies rem.contains(
                            #[trigger] d.kids[k],
                        ) || (d.kids[k] as int) >= ns.len() by {
                            if k > 0 {
                                assert(d.kids[k] == rest.kids[k - 1]);
                                assert(rem2.contains(rest.kids[k - 1]) || (rest.kids[k - 1] as int)
                                    >= ns.len());
                            }
                        }
                        assert forall|k: int| 0 <= k < d.dls.len() implies rem.contains(
                            #[trigger] d.dls[k],
                        ) || (d.dls[k] as int) >= ns.len() by {
                            assert(d.dls[k] == rest.dls[k]);
                            assert(rem2.contains(rest.dls[k]) || (rest.dls[k] as int) >= ns.len());
                        }
                    },
                }
            },
            None => {
                match made_node(r, dir, store) {
                    Some(nv) => {
                        let ns2 = ns.push(nv);
                        assert(forall|k: int|
                            0 <= k < rem.len() ==> (#[trigger] rem[k]) < ns2.len());
                        let rest = diff_from(ns2, rem, recs, i + 1, dir, store);
                        lemma_diff_membership(ns2, rem, recs, i + 1, dir, store);
                        assert forall|k: int| 0 <= k < d.kids.len() implies rem.contains(
                            #[trigger] d.kids[k],
                        ) || (d.kids[k] as int) >= ns.len() by {
                            if k > 0 {
                                assert(d.kids[k] == rest.kids[k - 1]);
                                assert(rem.contains(rest.kids[k - 1]) || (rest.kids[k - 1] as int)
                                    >= ns2.len());
                            }
                        }
                        assert forall|k: int| 0 <= k < d.dls.len() implies rem.contains(
                            #[trigger] d.dls[k],
                        ) || (d.dls[k] as int) >= ns.len() by {
                            if nv.kind is File {
                                if k > 0 {
                                    assert(d.dls[k] == rest.dls[k - 1]);
                                    assert(rem.contains(rest.dls[k - 1]) || (rest.dls[
                                        k - 1] as int) >= ns2.len());
                                }
                            } else {
                                assert(d.dls[k] == rest.dls[k]);
                                assert(rem.contains(rest.dls[k]) || (rest.dls[k] as int)
                                    >= ns2.len());
                            }
                        }
                    },
                    None => {
                        let rest = diff_from(ns, rem, recs, i + 1, dir, store);
                        lemma_diff_membership(ns, rem, recs, i + 1, dir, store);
                        assert(d.kids == rest.kids);
                        assert(d.dls == rest.dls);
                    },
                }
            },
        }
    }
}

/// With distinct old children, no child is kept twice and no download is
/// scheduled twice.
pub proof fn lemma_diff_no_duplicates(
    ns: Seq<NodeV>,
    rem: Seq<usize>,
    recs: Seq<RecV>,
    i: int,
    dir: Seq<char>,
    store: bool,
)
    requires
        0 <= i <= recs.len(),
        forall|k: int| 0 <= k < rem.len() ==> (#[trigger] rem[k]) < ns.len(),
        ns.len() + recs.len() - i <= usize::MAX,
        rem.no_duplicates(),
    ensures
        diff_from(ns, rem, recs, i, dir, store).kids.no_duplicates(),
        diff_from(ns, rem, recs, i, dir, store).dls.no_duplicates(),
    decreases recs.len() - i,
{
    let d = diff_from(ns, rem, recs, i, dir, store);
    if i >= recs.len() {
    } else {
        let r = recs[i];
        match find_from_ids(ns, rem, 0, r.uri) {
            Some(j) => {
                lemma_find_ids_found(ns, rem, 0, r.uri, j);
                let id0 = rem[j];
                let rem2 = rem.remove(j);
                lemma_remove_no_dup(rem, j);
                rem.remove_ensures(j);
                assert(forall|k: int| 0 <= k < rem2.len() ==> (#[trigger] rem2[k]) < ns.len());
                match bump_of(ns[id0 as int], r) {
                    Some(v) => {
                        let ns2 = ns.update(id0 as int, with_version(ns[id0 as int], v));
                        let rest = diff_from(ns2, rem2, recs, i + 1, dir, store);
                        lemma_diff_no_duplicates(ns2, rem2, recs, i + 1, dir, store);
                        lemma_diff_membership(ns2, rem2, recs, i + 1, dir, store);
                        assert(!rest.kids.contains(id0) && !rest.dls.contains(id0)) by {
                            if rest.kids.contains(id0) {
                                let q = choose|q: int|
                                    0 <= q < rest.kids.len() && rest.kids[q] == id0;
                                assert(rem2.contains(id0) || (id0 as int) >= ns2.len());
                            }
                            if rest.dls.contains(id0) {
                                let q = choose|q: int|
                                    0 <= q < rest.dls.len() && rest.dls[q] == id0;
                                assert(rem2.contains(id0) || (id0 as int) >= ns2.len());
                            }
                        }
                        lemma_cons_no_dup(id0, rest.kids);
                        lemma_cons_no_dup(id0, rest.dls);
                    },
                    None => {
                        let rest = diff_from(ns, rem2, recs, i + 1, dir, store);
                        lemma_diff_no_duplicates(ns, rem2, recs, i + 1, dir, store);
                        lemma_diff_membership(ns, rem2, recs, i + 1, dir, store);
                        assert(!rest.kids.contains(id0)) by {
                            if rest.kids.contains(id0) {
                                let q = choose|q: int|
                                    0 <= q < rest.kids.len() && rest.kids[q] == id0;
                                assert(rem2.contains(id0) || (id0 as int) >= ns.len());
                            }
                        }
                        lemma_cons_no_dup(id0, rest.kids);
                    },
                }
            },
            None => {
                match made_node(r, dir, store) {
                    Some(nv) => {
                        let y = ns.len() as usize;
                        let ns2 = ns.push(nv);
                        assert(forall|k: int|
                            0 <= k < rem.len() ==> (#[trigger] rem[k]) < ns2.len());
                        let rest = diff_from(ns2, rem, recs, i + 1, dir, store);
                        lemma_diff_no_duplicates(ns2, rem, recs, i + 1, dir, store);
                        lemma_diff_membership(ns2, rem, recs, i + 1, dir, store);
                        assert(!rest.kids.contains(y) && !rest.dls.contains(y)) by {
                            if rest.kids.contains(y) {
                                let q = choose|q: int|
                                    0 <= q < rest.kids.len() && rest.kids[q] == y;
                                assert(rem.contains(y) || (y as int) >= ns2.len());
                                if rem.contains(y) {
                                    let w = choose|w: int| 0 <= w < rem.len() && rem[w] == y;
                                }
                            }
                            if rest.dls.contains(y) {
                                let q = choose|q: int| 0 <= q < rest.dls.len() && rest.dls[q] == y;
                                assert(rem.contains(y) || (y as int) >= ns2.len());
                                if rem.contains(y) {
                                    let w = choose|w: int| 0 <= w < rem.len() && rem[w] == y;
                                }
                            }
                        }
                        lemma_cons_no_dup(y, rest.kids);
                        if nv.kind is File {
                            lemma_cons_no_dup(y, rest.dls);
                        }
                    },
                    None => {
                        lemma_diff_no_duplicates(ns, rem, recs, i + 1, dir, store);
                    },
                }
            },
        }
    }
}

proof fn lemma_cons_contains(x: usize, s: Seq<usize>, y: usize)
    ensures
        (seq![x] + s).contains(y) <==> (y == x || s.contains(y)),
{
    let t = seq![x] + s;
    if t.contains(y) {
        let q = choose|q: int| 0 <= q < t.len() && t[q] == y;
        if q > 0 {
            assert(s[q - 1] == y);
        }
    }
    if y == x {
        assert(t[0] == y);
    }
    if s.contains(y) {
        let q = choose|q: int| 0 <= q < s.len() && s[q] == y;
        assert(t[q + 1] == y);
    }
}

/// The version a node keeps for change detection: only files store one.
pub open spec fn stored_version(n: NodeV) -> Option<u32> {
    match n.kind {
        KindV::File { version, .. } => Some(version),
        _ => None,
    }
}

/// Version monotonicity: an old node's stored version never decreases; a
/// kept child is scheduled for download exactly when its stored version
/// changed — which is exactly a strict increase to the remote version — and
/// no download is scheduled twice.
pub proof fn lemma_version_monotonicity(
    ns: Seq<NodeV>,
    rem: Seq<usize>,
    recs: Seq<RecV>,
    i: int,
    dir: Seq<char>,
    store: bool,
)
    requires
        0 <= i <= recs.len(),
        forall|k: int| 0 <= k < rem.len() ==> (#[trigger] rem[k]) < ns.len(),
        ns.len() + recs.len() - i <= usize::MAX,
        rem.no_duplicates(),
    ensures
        ({
            let d = diff_from(ns, rem, recs, i, dir, store);
            d.dls.no_duplicates() && (forall|id: int|
                0 <= id < ns.len() ==> version_only(#[trigger] d.nodes[id], ns[id])) && (forall|
                k: int,
            |
                0 <= k < d.kids.len() && (d.kids[k] as int) < ns.len() ==> (d.dls.contains(
                    #[trigger] d.kids[k],
                ) <==> stored_version(d.nodes[d.kids[k] as int]) != stored_version(
                    ns[d.kids[k] as int],
                )))
        }),
    decreases recs.len() - i,
{
    let d = diff_from(ns, rem, recs, i, dir, store);
    lemma_diff_no_duplicates(ns, rem, recs, i, dir, store);
    lemma_diff_frame(ns, rem, recs, i, dir, store);
    if i >= recs.len() {
        assert(d.kids.len() == 0);
    } else {
        let r = recs[i];
        match find_from_ids(ns, rem, 0, r.uri) {
            Some(j) => {
                lemma_find_ids_found(ns, rem, 0, r.uri, j);
                let id0 = rem[j];
                let rem2 = rem.remove(j);
                rem.remove_ensures(j);
                lemma_remove_no_dup(rem, j);
                assert(forall|k: int| 0 <= k < rem2.len() ==> (#[trigger] rem2[k]) < ns.len());
                match bump_of(ns[id0 as int], r) {
                    Some(v) => {
                        let ns2 = ns.update(id0 as int, with_version(ns[id0 as int], v));
                        let rest = diff_from(ns2, rem2, recs, i + 1, dir, store);
                        lemma_version_monotonicity(ns2, rem2, recs, i + 1, dir, store);
                        lemma_diff_membership(ns2, rem2, recs, i + 1, dir, store);
                        lemma_diff_frame(ns2, rem2, recs, i + 1, dir, store);
                        assert(rest.nodes[id0 as int] == ns2[id0 as int]);
                        assert forall|k: int|
                            0 <= k < d.kids.len() && (d.kids[k] as int) < ns.len() implies (d
                            .dls.contains(#[trigger] d.kids[k]) <==> stored_version(
                            d.nodes[d.kids[k] as int],
                        ) != stored_version(ns[d.kids[k] as int])) by {
                            lemma_cons_contains(id0, rest.dls, d.kids[k]);
                            if k == 0 {
                                assert(d.dls.contains(id0)) by {
                                    assert(d.dls[0] == id0);
                                }
                            } else {
                                let x = rest.kids[k - 1];
                                assert(d.kids[k] == x);
                                assert(rem2.contains(x) || (x as int) >= ns2.len());
                                assert(x != id0);
                                assert(ns2[x as int] == ns[x as int]);
                            }
                        }
                    },
                    None => {
                        let rest = diff_from(ns, rem2, recs, i + 1, dir, store);
                        lemma_version_monotonicity(ns, rem2, recs, i + 1, dir, store);
                        lemma_diff_membership(ns, rem2, recs, i + 1, dir, store);
                        lemma_diff_frame(ns, rem2, recs, i + 1, dir, store);
                        assert(!rem2.contains(id0));
                        assert(rest.nodes[id0 as int] == ns[id0 as int]);
                        assert forall|k: int|
                            0 <= k < d.kids.len() && (d.kids[k] as int) < ns.len() implies (d
                            .dls.contains(#[trigger] d.kids[k]) <==> stored_version(
                            d.nodes[d.kids[k] as int],
                        ) != stored_version(ns[d.kids[k] as int])) by {
                            if k == 0 {
                                assert(!rest.dls.contains(id0)) by {
                                    if rest.dls.contains(id0) {
                                        let q = choose|q: int|
                                            0 <= q < rest.dls.len() && rest.dls[q] == id0;
                                    }
                                }
                            } else {
                                let x = rest.kids[k - 1];
                                assert(d.kids[k] == x);
                                assert(rem2.contains(x) || (x as int) >= ns.len());
                            }
                        }
                    },
                }
            },
            None => {
                match made_node(r, dir, store) {
                    Some(nv) => {
                        let y = ns.len() as usize;
                        let ns2 = ns.push(nv);
                        assert(forall|k: int|
                            0 <= k < rem.len() ==> (#[trigger] rem[k]) < ns2.len());
                        let rest = diff_from(ns2, rem, recs, i + 1, dir, store);
                        lemma_version_monotonicity(ns2, rem, recs, i + 1, dir, store);
                        lemma_diff_membership(ns2, rem, recs, i + 1, dir, store);
                        assert forall|k: int|
                            0 <= k < d.kids.len() && (d.kids[k] as int) < ns.len() implies (d
                            .dls.contains(#[trigger] d.kids[k]) <==> stored_version(
                            d.nodes[d.kids[k] as int],
                        ) != stored_version(ns[d.kids[k] as int])) by {
                            if nv.kind is File {
                                lemma_cons_contains(y, rest.dls, d.kids[k]);
                            }
                            if k > 0 {
                                let x = rest.kids[k - 1];
                                assert(d.kids[k] == x);
                                assert(ns2[x as int] == ns[x as int]);
                            }
                        }
                    },
                    None => {
                        let rest = diff_from(ns, rem, recs, i + 1, dir, store);
                        lemma_version_monotonicity(ns, rem, recs, i + 1, dir, store);
                        assert(d.kids == rest.kids);
                        assert(d.dls == rest.dls);
                    },
                }
            },
        }
    }
}

/// A kept child that was scheduled for download had its stored version set
/// to the remote version: the version declared by a record carrying its
/// uri.
pub proof fn lemma_bumped_to_remote_version(
    ns: Seq<NodeV>,
    rem: Seq<usize>,
    recs: Seq<RecV>,
    i: int,
    dir: Seq<char>,
    store: bool,
)
    requires
        0 <= i <= recs.len(),
        forall|k: int| 0 <= k < rem.len() ==> (#[trigger] rem[k]) < ns.len(),
        ns.len() + recs.len() - i <= usize::MAX,
        rem.no_duplicates(),
    ensures
        ({
            let d = diff_from(ns, rem, recs, i, dir, store);
            forall|k: int|
                0 <= k < d.dls.len() && ((#[trigger] d.dls[k]) as int) < ns.len() ==> exists|
                    j: int,
                |
                    i <= j < recs.len() && (#[trigger] recs[j]).uri == ns[d.dls[k] as int].uri
                        && recs[j].version == stored_version(d.nodes[d.dls[k] as int])
        }),
    decreases recs.len() - i,
{
    let d = diff_from(ns, rem, recs, i, dir, store);
    if i >= recs.len() {
        assert(d.dls.len() == 0);
    } else {
        let r = recs[i];
        match find_from_ids(ns, rem, 0, r.uri) {
            Some(j) => {
                lemma_find_ids_found(ns, rem, 0, r.uri, j);
                let id0 = rem[j];
                let rem2 = rem.remove(j);
                rem.remove_ensures(j);
                lemma_remove_no_dup(rem, j);
                assert(forall|k: int| 0 <= k < rem2.len() ==> (#[trigger] rem2[k]) < ns.len());
                match bump_of(ns[id0 as int], r) {
                    Some(v) => {
                        let ns2 = ns.update(id0 as int, with_version(ns[id0 as int], v));
                        let rest = diff_from(ns2, rem2, recs, i + 1, dir, store);
                        lemma_bumped_to_remote_version(ns2, rem2, recs, i + 1, dir, store);
                        lemma_diff_membership(ns2, rem2, recs, i + 1, dir, store);
                        lemma_diff_frame(ns2, rem2, recs, i + 1, dir, store);
                        assert(rest.nodes[id0 as int] == ns2[id0 as int]);
                        assert forall|k: int|
                            0 <= k < d.dls.len() && ((#[trigger] d.dls[k]) as int) < ns.len()
                            implies exists|j2: int|
                            i <= j2 < recs.len() && (#[trigger] recs[j2]).uri == ns[d.dls[
                            k] as int].uri && recs[j2].version == stored_version(
                            d.nodes[d.dls[k] as int],
                        ) by {
                            if k == 0 {
                                assert(d.dls[0] == id0);
                                assert(recs[i].uri == ns[id0 as int].uri);
                                assert(recs[i].version == stored_version(d.nodes[id0 as int]));
                            } else {
                                let x = rest.dls[k - 1];
                                assert(d.dls[k] == x);
                                assert(rem2.contains(x) || (x as int) >= ns2.len());
                                assert(x != id0);
                                assert(ns2[x as int] == ns[x as int]);
                            }
                        }
                    },
                    None => {
                        let rest = diff_from(ns, rem2, recs, i + 1, dir, store);
                        lemma_bumped_to_remote_version(ns, rem2, recs, i + 1, dir, store);
                        assert forall|k: int|
                            0 <= k < d.dls.len() && ((#[trigger] d.dls[k]) as int) < ns.len()
                            implies exists|j2: int|
                            i <= j2 < recs.len() && (#[trigger] recs[j2]).uri == ns[d.dls[
                            k] as int].uri && recs[j2].version == stored_version(
                            d.nodes[d.dls[k] as int],
                        ) by {
                            assert(d.dls[k] == rest.dls[k]);
                        }
                    },
                }
            },
            None => {
                match made_node(r, dir, store) {
                    Some(nv) => {
                        let y = ns.len() as usize;
                        let ns2 = ns.push(nv);
                        assert(forall|k: int|
                            0 <= k < rem.len() ==> (#[trigger] rem[k]) < ns2.len());
                        let rest = diff_from(ns2, rem, recs, i + 1, dir, store);
                        lemma_bumped_to_remote_version(ns2, rem, recs, i + 1, dir, store);
                        assert forall|k: int|
                            0 <= k < d.dls.len() && ((#[trigger] d.dls[k]) as int) < ns.len()
                            implies exists|j2: int|
                            i <= j2 < recs.len() && (#[trigger] recs[j2]).uri == ns[d.dls[
                            k] as int].uri && recs[j2].version == stored_version(
                            d.nodes[d.dls[k] as int],
                        ) by {
                            if nv.kind is File {
                                if k > 0 {
                                    let x = rest.dls[k - 1];
                                    assert(d.dls[k] == x);
                                    assert(ns2[x as int] == ns[x as int]);
                                }
                            } else {
                                let x = rest.dls[k];
                                assert(d.dls[k] == x);
                                assert(ns2[x as int] == ns[x as int]);
                            }
                        }
                    },
                    None => {
                        let rest = diff_from(ns, rem, recs, i + 1, dir, store);
                        lemma_bumped_to_remote_version(ns, rem, recs, i + 1, dir, store);
                        assert(d.dls == rest.dls);
                    },
                }
            },
        }
    }
}

/// Removal: an old child whose uri is absent from the listing is absent
/// from the children a pass produces. Nothing else happens to it — in
/// particular, no local file of it is touched, since a diff touches no
/// file contents at all.
pub proof fn lemma_removal(
    ns: Seq<NodeV>,
    rem: Seq<usize>,
    recs: Seq<RecV>,
    i: int,
    dir: Seq<char>,
    store: bool,
    id: usize,
)
    requires
        0 <= i <= recs.len(),
        forall|k: int| 0 <= k < rem.len() ==> (#[trigger] rem[k]) < ns.len(),
        ns.len() + recs.len() - i <= usize::MAX,
        (id as int) < ns.len(),
        forall|j: int| i <= j < recs.len() ==> (#[trigger] recs[j]).uri != ns[id as int].uri,
    ensures
        !diff_from(ns, rem, recs, i, dir, store).kids.contains(id),
    decreases recs.len() - i,
{
    let d = diff_from(ns, rem, recs, i, dir, store);
    if i >= recs.len() {
        if d.kids.contains(id) {
            let q = choose|q: int| 0 <= q < d.kids.len() && d.kids[q] == id;
        }
    } else {
        let r = recs[i];
        match find_from_ids(ns, rem, 0, r.uri) {
            Some(j) => {
                lemma_find_ids_found(ns, rem, 0, r.uri, j);
                let id0 = rem[j];
                let rem2 = rem.remove(j);
                rem.remove_ensures(j);
                assert(forall|k: int| 0 <= k < rem2.len() ==> (#[trigger] rem2[k]) < ns.len());
                assert(ns[id0 as int].uri == r.uri);
                assert(id0 != id);
                match bump_of(ns[id0 as int], r) {
                    Some(v) => {
                        let ns2 = ns.update(id0 as int, with_version(ns[id0 as int], v));
                        let rest = diff_from(ns2, rem2, recs, i + 1, dir, store);
                        assert(ns2[id as int] == ns[id as int]);
                        lemma_removal(ns2, rem2, recs, i + 1, dir, store, id);
                        lemma_cons_not_contains(id0, rest.kids, id);
                    },
                    None => {
                        let rest = diff_from(ns, rem2, recs, i + 1, dir, store);
                        lemma_removal(ns, rem2, recs, i + 1, dir, store, id);
                        lemma_cons_not_contains(id0, rest.kids, id);
                    },
                }
            },
            None => {
                match made_node(r, dir, store) {
                    Some(nv) => {
                        let y = ns.len() as usize;
                        let ns2 = ns.push(nv);
                        assert(forall|k: int|
                            0 <= k < rem.len() ==> (#[trigger] rem[k]) < ns2.len());
                        assert(ns2[id as int] == ns[id as int]);
                        let rest = diff_from(ns2, rem, recs, i + 1, dir, store);
                        lemma_removal(ns2, rem, recs, i + 1, dir, store, id);
                        lemma_cons_not_contains(y, rest.kids, id);
                    },
                    None => {
                        lemma_removal(ns, rem, recs, i + 1, dir, store, id);
                        assert(d.kids == diff_from(ns, rem, recs, i + 1, dir, store).kids);
                    },
                }
            },
        }
    }
}

/// Identity preservation: every kept child of a pass is one of the node's
/// previous children, under the same arena index — the same node, not a
/// copy — and is at most bumped to a newer file version; every other index
/// in the produced children list is a node the pass itself created.
pub proof fn lemma_identity_preservation(
    ns: Seq<NodeV>,
    rem: Seq<usize>,
    recs: Seq<RecV>,
    i: int,
    dir: Seq<char>,
    store: bool,
)
    requires
        0 <= i <= recs.len(),
        forall|k: int| 0 <= k < rem.len() ==> (#[trigger] rem[k]) < ns.len(),
        ns.len() + recs.len() - i <= usize::MAX,
    ensures
        ({
            let d = diff_from(ns, rem, recs, i, dir, store);
            forall|k: int|
                0 <= k < d.kids.len() ==> ((#[trigger] d.kids[k] as int) < ns.len() ==> (
                rem.contains(d.kids[k]) && version_only(
                    d.nodes[d.kids[k] as int],
                    ns[d.kids[k] as int],
                ))) && ((d.kids[k] as int) >= ns.len() ==> (d.kids[k] as int) < d.nodes.len())
        }),
{
    lemma_diff_membership(ns, rem, recs, i, dir, store);
    lemma_diff_frame(ns, rem, recs, i, dir, store);
    lemma_diff_bounds(ns, rem, recs, i, dir, store);
    let d = diff_from(ns, rem, recs, i, dir, store);
    assert forall|k: int| 0 <= k < d.kids.len() implies ((#[trigger] d.kids[k] as int) < ns.len()
        ==> (rem.contains(d.kids[k]) && version_only(
        d.nodes[d.kids[k] as int],
        ns[d.kids[k] as int],
    ))) && ((d.kids[k] as int) >= ns.len() ==> (d.kids[k] as int) < d.nodes.len()) by {
        assert(rem.contains(d.kids[k]) || (d.kids[k] as int) >= ns.len());
        if (d.kids[k] as int) < ns.len() {
            assert(version_only(d.nodes[d.kids[k] as int], ns[d.kids[k] as int]));
        }
    }
}

proof fn lemma_find_ids_none(ns: Seq<NodeV>, rem: Seq<usize>, i: int, uri: Seq<char>)
    requires
        0 <= i,
        forall|k: int| i <= k < rem.len() ==> ns[(#[trigger] rem[k]) as int].uri != uri,
    ensures
        find_from_ids(ns, rem, i, uri) is None,
    decreases rem.len() - i + 1,
{
    if i >= rem.len() {
    } else {
        lemma_find_ids_none(ns, rem, i + 1, uri);
    }
}

/// Every child a diff produces carries the uri of one of the records it
/// processed.
proof fn lemma_kids_uris(
    ns: Seq<NodeV>,
    rem: Seq<usize>,
    recs: Seq<RecV>,
    i: int,
    dir: Seq<char>,
    store: bool,
)
    requires
        0 <= i <= recs.len(),
        forall|k: int| 0 <= k < rem.len() ==> (#[trigger] rem[k]) < ns.len(),
        ns.len() + recs.len() - i <= usize::MAX,
    ensures
        ({
            let d = diff_from(ns, rem, recs, i, dir, store);
            forall|k: int|
                0 <= k < d.kids.len() ==> exists|j: int|
                    i <= j < recs.len() && d.nodes[(#[trigger] d.kids[k]) as int].uri == (
                    #[trigger] recs[j]).uri
        }),
    decreases recs.len() - i,
{
    let d = diff_from(ns, rem, recs, i, dir, store);
    if i >= recs.len() {
        assert(d.kids.len() == 0);
    } else {
        let r = recs[i];
        match find_from_ids(ns, rem, 0, r.uri) {
            Some(j) => {
                lemma_find_ids_found(ns, rem, 0, r.uri, j);
                let id0 = rem[j];
                let rem2 = rem.remove(j);
                rem.remove_ensures(j);
                assert(forall|k: int| 0 <= k < rem2.len() ==> (#[trigger] rem2[k]) < ns.len());
                match bump_of(ns[id0 as int], r) {
                    Some(v) => {
                        let ns2 = ns.update(id0 as int, with_version(ns[id0 as int], v));
                        let rest = diff_from(ns2, rem2, recs, i + 1, dir, store);
                        lemma_kids_uris(ns2, rem2, recs, i + 1, dir, store);
                        lemma_diff_frame(ns2, rem2, recs, i + 1, dir, store);
                        assert forall|k: int| 0 <= k < d.kids.len() implies exists|j2: int|
                            i <= j2 < recs.len() && d.nodes[(#[trigger] d.kids[k]) as int].uri == (
                            #[trigger] recs[j2]).uri by {
                            if k == 0 {
                                assert(version_only(
                                    rest.nodes[id0 as int],
                                    ns2[id0 as int],
                                ));
                                assert(d.nodes[id0 as int].uri == r.uri);
                                assert(i <= i < recs.len() && d.nodes[d.kids[0] as int].uri
                                    == recs[i].uri);
                            } else {
                                assert(d.kids[k] == rest.kids[k - 1]);
                            }
                        }
                    },
                    None => {
                        let rest = diff_from(ns, rem2, recs, i + 1, dir, store);
                        lemma_kids_uris(ns, rem2, recs, i + 1, dir, store);
                        lemma_diff_frame(ns, rem2, recs, i + 1, dir, store);
                        assert forall|k: int| 0 <= k < d.kids.len() implies exists|j2: int|
                            i <= j2 < recs.len() && d.nodes[(#[trigger] d.kids[k]) as int].uri == (
                            #[trigger] recs[j2]).uri by {
                            if k == 0 {
                                assert(version_only(rest.nodes[id0 as int], ns[id0 as int]));
                                assert(i <= i < recs.len() && d.nodes[d.kids[0] as int].uri
                                    == recs[i].uri);
                            } else {
                                assert(d.kids[k] == rest.kids[k - 1]);
                            }
                        }
                    },
                }
            },
            None => {
                match made_node(r, dir, store) {
                    Some(nv) => {
                        let y = ns.len() as usize;
                        let ns2 = ns.push(nv);
                        assert(forall|k: int|
                            0 <= k < rem.len() ==> (#[trigger] rem[k]) < ns2.len());
                        let rest = diff_from(ns2, rem, recs, i + 1, dir, store);
                        lemma_kids_uris(ns2, rem, recs, i + 1, dir, store);
                        lemma_diff_frame(ns2, rem, recs, i + 1, dir, store);
                        assert forall|k: int| 0 <= k < d.kids.len() implies exists|j2: int|
                            i <= j2 < recs.len() && d.nodes[(#[trigger] d.kids[k]) as int].uri == (
                            #[trigger] recs[j2]).uri by {
                            if k == 0 {
                                assert(version_only(rest.nodes[y as int], ns2[y as int]));
                                assert(ns2[y as int].uri == r.uri);
                                assert(i <= i < recs.len() && d.nodes[d.kids[0] as int].uri
                                    == recs[i].uri);
                            } else {
                                assert(d.kids[k] == rest.kids[k - 1]);
                            }
                        }
                    },
                    None => {
                        lemma_kids_uris(ns, rem, recs, i + 1, dir, store);
                        assert(d.kids == diff_from(ns, rem, recs, i + 1, dir, store).kids);
                    },
                }
            },
        }
    }
}

/// Re-running a diff with the same records against the children it just
/// produced — over any arena that agrees on those children — changes
/// nothing: every record re-matches its own child, no version is bumped,
/// no node is created, no download is scheduled, and no child is left over.
/// This needs the listing's uris to be pairwise distinct.
pub proof fn lemma_second_pass(
    ns: Seq<NodeV>,
    rem: Seq<usize>,
    recs: Seq<RecV>,
    i: int,
    dir: Seq<char>,
    store: bool,
    ns2: Seq<NodeV>,
)
    requires
        0 <= i <= recs.len(),
        forall|k: int| 0 <= k < rem.len() ==> (#[trigger] rem[k]) < ns.len(),
        ns.len() + recs.len() - i <= usize::MAX,
        rem.no_duplicates(),
        forall|a: int, b: int|
            i <= a < b < recs.len() ==> (#[trigger] recs[a]).uri != (#[trigger] recs[b]).uri,
        ns2.len() == diff_from(ns, rem, recs, i, dir, store).nodes.len(),
        forall|x: usize|
            diff_from(ns, rem, recs, i, dir, store).kids.contains(x) ==> ns2[x as int]
                == diff_from(ns, rem, recs, i, dir, store).nodes[x as int],
    ensures
        ({
            let d = diff_from(ns, rem, recs, i, dir, store);
            let d2 = diff_from(ns2, d.kids, recs, i, dir, store);
            d2.nodes == ns2 && d2.kids == d.kids && d2.dls == Seq::<usize>::empty() && d2.rem
                == Seq::<usize>::empty()
        }),
    decreases recs.len() - i,
{
    let d = diff_from(ns, rem, recs, i, dir, store);
    let d2 = diff_from(ns2, d.kids, recs, i, dir, store);
    lemma_diff_bounds(ns, rem, recs, i, dir, store);
    if i >= recs.len() {
        assert(d.kids.len() == 0);
        assert(d2.kids =~= d.kids);
        assert(d2.rem =~= Seq::<usize>::empty());
    } else {
        let r = recs[i];
        match find_from_ids(ns, rem, 0, r.uri) {
            Some(j) => {
                lemma_find_ids_found(ns, rem, 0, r.uri, j);
                let id0 = rem[j];
                let rem2 = rem.remove(j);
                rem.remove_ensures(j);
                lemma_remove_no_dup(rem, j);
                assert(forall|k: int| 0 <= k < rem2.len() ==> (#[trigger] rem2[k]) < ns.len());
                let nsb = match bump_of(ns[id0 as int], r) {
                    Some(v) => ns.update(id0 as int, with_version(ns[id0 as int], v)),
                    None => ns,
                };
                let rest = diff_from(nsb, rem2, recs, i + 1, dir, store);
                assert(d.kids == seq![id0] + rest.kids);
                assert(d.kids[0] == id0);
                lemma_diff_frame(nsb, rem2, recs, i + 1, dir, store);
                assert(!rem2.contains(id0));
                assert(rest.nodes[id0 as int] == nsb[id0 as int]);
                assert(d.nodes[id0 as int] == nsb[id0 as int]);
                // the record re-matches its own child at the head
                assert(d.kids.contains(id0)) by {
                    assert(d.kids[0] == id0);
                }
                assert(ns2[id0 as int] == d.nodes[id0 as int]);
                assert(ns2[d.kids[0] as int].uri == r.uri);
                assert(find_from_ids(ns2, d.kids, 0, r.uri) == Some(0int));
                // no second bump
                assert(bump_of(ns2[id0 as int], r) is None);
                let kids2 = d.kids.remove(0);
                assert(kids2 =~= rest.kids);
                // the tail is idempotent by induction
                assert forall|x: usize| rest.kids.contains(x) implies ns2[x as int]
                    == rest.nodes[x as int] by {
                    let q = choose|q: int| 0 <= q < rest.kids.len() && rest.kids[q] == x;
                    assert(d.kids[q + 1] == x);
                    assert(d.kids.contains(x));
                }
                lemma_second_pass(nsb, rem2, recs, i + 1, dir, store, ns2);
                let rest2 = diff_from(ns2, rest.kids, recs, i + 1, dir, store);
                assert(d2.nodes == ns2);
                assert(d2.kids =~= d.kids);
                assert(d2.dls =~= Seq::<usize>::empty());
            },
            None => {
                match made_node(r, dir, store) {
                    Some(nv) => {
                        let y = ns.len() as usize;
                        let nsb = ns.push(nv);
                        assert(forall|k: int|
                            0 <= k < rem.len() ==> (#[trigger] rem[k]) < nsb.len());
                        let rest = diff_from(nsb, rem, recs, i + 1, dir, store);
                        assert(d.kids == seq![y] + rest.kids);
                        assert(d.kids[0] == y);
                        lemma_diff_frame(nsb, rem, recs, i + 1, dir, store);
                        assert(!rem.contains(y)) by {
                            if rem.contains(y) {
                                let q = choose|q: int| 0 <= q < rem.len() && rem[q] == y;
                            }
                        }
                        assert(rest.nodes[y as int] == nsb[y as int]);
                        assert(d.nodes[y as int] == nv);
                        assert(d.kids.contains(y)) by {
                            assert(d.kids[0] == y);
                        }
                        assert(ns2[y as int] == nv);
                        assert(nv.uri == r.uri);
                        assert(find_from_ids(ns2, d.kids, 0, r.uri) == Some(0int));
                        assert(bump_of(ns2[y as int], r) is None);
                        let kids2 = d.kids.remove(0);
                        assert(kids2 =~= rest.kids);
                        assert forall|x: usize| rest.kids.contains(x) implies ns2[x as int]
                            == rest.nodes[x as int] by {
                            let q = choose|q: int| 0 <= q < rest.kids.len() && rest.kids[q] == x;
                            assert(d.kids[q + 1] == x);
                            assert(d.kids.contains(x));
                        }
                        lemma_second_pass(nsb, rem, recs, i + 1, dir, store, ns2);
                        assert(d2.nodes == ns2);
                        assert(d2.kids =~= d.kids);
                        assert(d2.dls =~= Seq::<usize>::empty());
                    },
                    None => {
                        let rest = diff_from(ns, rem, recs, i + 1, dir, store);
                        assert(d.kids == rest.kids);
                        lemma_kids_uris(ns, rem, recs, i + 1, dir, store);
                        lemma_diff_bounds(ns, rem, recs, i + 1, dir, store);
                        // no child of the tail carries this record's uri
                        assert forall|k: int| 0 <= k < d.kids.len() implies ns2[(
                        #[trigger] d.kids[k]) as int].uri != r.uri by {
                            assert(d.kids.contains(d.kids[k]));
                            assert(ns2[d.kids[k] as int] == rest.nodes[d.kids[k] as int]);
                            let j2 = choose|j2: int|
                                i + 1 <= j2 < recs.len() && rest.nodes[d.kids[k] as int].uri
                                    == recs[j2].uri;
                            assert(recs[i].uri != recs[j2].uri);
                        }
                        lemma_find_ids_none(ns2, d.kids, 0, r.uri);
                        lemma_second_pass(ns, rem, recs, i + 1, dir, store, ns2);
                    },
                }
            },
        }
    }
}

/// Idempotence: after one pass over a container, a second pass against the
/// same listing leaves the arena exactly as it stood and schedules no
/// download. Holds whenever the listing's uris are pairwise distinct, the
/// container's children are distinct, and the container is not its own
/// child.
pub proof fn lemma_pass_idempotent(
    ns: Seq<NodeV>,
    node_id: int,
    recs: Seq<RecV>,
    dir: Seq<char>,
    store: bool,
)
    requires
        0 <= node_id < ns.len(),
        ns[node_id].children is Some,
        forall|k: int|
            0 <= k < ns[node_id].children->Some_0.len() ==> (#[trigger] ns[node_id]
                .children->Some_0[k]) < ns.len(),
        ns.len() + recs.len() <= usize::MAX,
        ns[node_id].children->Some_0.no_duplicates(),
        !ns[node_id].children->Some_0.contains(node_id as usize),
        forall|a: int, b: int|
            0 <= a < b < recs.len() ==> (#[trigger] recs[a]).uri != (#[trigger] recs[b]).uri,
    ensures
        ({
            let cids = ns[node_id].children->Some_0;
            let d1 = diff_from(ns, cids, recs, 0, dir, store);
            let ns1 = after_listing(ns, node_id, d1);
            match ns1[node_id].children {
                None => true,
                Some(cids2) => ({
                    let d2 = diff_from(ns1, cids2, recs, 0, dir, store);
                    after_listing(ns1, node_id, d2) == ns1 && d2.dls == Seq::<usize>::empty()
                }),
            }
        }),
{
    let cids = ns[node_id].children->Some_0;
    let d1 = diff_from(ns, cids, recs, 0, dir, store);
    let ns1 = after_listing(ns, node_id, d1);
    lemma_diff_bounds(ns, cids, recs, 0, dir, store);
    lemma_diff_membership(ns, cids, recs, 0, dir, store);
    if d1.kids.len() > 0 {
        assert(ns1[node_id].children == Some(d1.kids));
        assert(!d1.kids.contains(node_id as usize)) by {
            if d1.kids.contains(node_id as usize) {
                let q = choose|q: int| 0 <= q < d1.kids.len() && d1.kids[q] == node_id as usize;
                assert(cids.contains(d1.kids[q]) || (d1.kids[q] as int) >= ns.len());
            }
        }
        assert forall|x: usize| d1.kids.contains(x) implies ns1[x as int]
            == d1.nodes[x as int] by {
            assert(x != node_id as usize);
        }
        lemma_second_pass(ns, cids, recs, 0, dir, store, ns1);
        let d2 = diff_from(ns1, d1.kids, recs, 0, dir, store);
        assert(after_listing(ns1, node_id, d2) =~= ns1);
    } else {
        assert(ns1[node_id].children is None);
    }
}

/// The children among `kids[i..]` whose node is a folder, in order.
pub open spec fn folders_from(ns: Seq<NodeV>, kids: Seq<usize>, i: int) -> Seq<usize>
    decreases kids.len() - i + 1,
        when 0 <= i
{
    if i >= kids.len() {
        Seq::empty()
    } else {
        let rest = folders_from(ns, kids, i + 1);
        if ns[kids[i] as int].kind is Folder {
            seq![kids[i]] + rest
        } else {
            rest
        }
    }
}

/// The children among `kids[i..]` whose node is a direct link, in order.
pub open spec fn links_from(ns: Seq<NodeV>, kids: Seq<usize>, i: int) -> Seq<usize>
    decreases kids.len() - i + 1,
        when 0 <= i
{
    if i >= kids.len() {
        Seq::empty()
    } else {
        let rest = links_from(ns, kids, i + 1);
        if ns[kids[i] as int].kind is DirectLink {
            seq![kids[i]] + rest
        } else {
            rest
        }
    }
}

fn collect_kinds(
    tree: &Tree,
    kids: &Vec<usize>,
    i: usize,
    folders: &mut Vec<usize>,
    links: &mut Vec<usize>,
)
    requires
        i <= kids@.len(),
        forall|k: int| 0 <= k < kids@.len() ==> (#[trigger] kids@[k]) < tree.nodes@.len(),
    ensures
        final (folders)@ == old(folders)@ + folders_from(tree_view(*tree), kids@, i as int),
        final (links)@ == old(links)@ + links_from(tree_view(*tree), kids@, i as int),
    decreases kids@.len() - i,
{
    let ghost ns = tree_view(*tree);
    if i >= kids.len() {
        proof {
            assert(final (folders)@ =~= old(folders)@ + folders_from(ns, kids@, i as int));
            assert(final (links)@ =~= old(links)@ + links_from(ns, kids@, i as int));
        }
        return ;
    }
    let id = kids[i];
    proof {
        assert(ns[id as int].kind == crate::node::kind_view(tree.nodes@[id as int].breed));
    }
    match &tree.nodes[id].breed {
        crate::node::IlNodeType::Folder { .. } => {
            folders.push(id);
        },
        crate::node::IlNodeType::DirectLink => {
            links.push(id);
        },
        _ => {},
    }
    collect_kinds(tree, kids, i + 1, folders, links);
    proof {
        assert(folders@ =~= old(folders)@ + folders_from(ns, kids@, i as int));
        assert(links@ =~= old(links)@ + links_from(ns, kids@, i as int));
    }
}

/// What one pass reports back to the host: which children to download,
/// which to recurse into, and which direct links to resolve.
pub struct ApplyOutcome {
    pub downloads: Vec<usize>,
    pub folders: Vec<usize>,
    pub links: Vec<usize>,
}

/// The directory a container's new children are created under.
pub open spec fn folder_dir(k: KindV) -> Seq<char> {
    match k {
        KindV::Folder { path, .. } => path,
        _ => Seq::empty(),
    }
}

/// The children list installed after a pass: a container that produced no
/// children collapses to an absent list, and stays unexpanded until a later
/// listing shows items again.
pub open spec fn installed_children(kids: Seq<usize>) -> Option<Seq<usize>> {
    if kids.len() > 0 {
        Some(kids)
    } else {
        None
    }
}

/// The arena after a pass over `node_id`: the diff's arena, with the diffed
/// node's children list replaced by what the pass produced.
pub open spec fn after_listing(ns: Seq<NodeV>, node_id: int, d: DiffOut) -> Seq<NodeV> {
    d.nodes.update(node_id, (NodeV { children: installed_children(d.kids), ..d.nodes[node_id] }))
}

fn apply_to_node(
    tree: &mut Tree,
    node_id: usize,
    records: &Vec<ItemRecord>,
    dir: &str,
    store: bool,
) -> (out: ApplyOutcome)
    requires
        wf(tree_view(*old(tree))),
        node_id < old(tree).nodes@.len(),
        old(tree).nodes@.len() + records@.len() <= usize::MAX,
    ensures
        ({
            let ns = tree_view(*old(tree));
            match ns[node_id as int].children {
                None => tree_view(*final (tree)) == ns && out.downloads@ == Seq::<usize>::empty()
                    && out.folders@ == Seq::<usize>::empty() && out.links@ == Seq::<
                    usize,
                >::empty(),
                Some(cids) => ({
                    let d = diff_from(ns, cids, recs_view(records@), 0, dir@, store);
                    tree_view(*final (tree)) == after_listing(ns, node_id as int, d)
                        && out.downloads@ == d.dls && out.folders@ == folders_from(
                        d.nodes,
                        d.kids,
                        0,
                    ) && out.links@ == links_from(d.nodes, d.kids, 0)
                }),
            }
        }),
        wf(tree_view(*final (tree))),
{
    let ghost ns = tree_view(*tree);
    let has_children = tree.nodes[node_id].children.is_some();
    if !has_children {
        return ApplyOutcome { downloads: Vec::new(), folders: Vec::new(), links: Vec::new() };
    }
    let cn = match &tree.nodes[node_id].children {
        Some(v) => v.len(),
        None => 0,
    };
    let ghost cids = ns[node_id as int].children->Some_0;
    let mut rem: Vec<usize> = Vec::new();
    let mut t: usize = 0;
    while t < cn
        invariant
            node_id < tree.nodes@.len(),
            ns == tree_view(*tree),
            cids == ns[node_id as int].children->Some_0,
            tree.nodes@[node_id as int].children matches Some(v) && v@ == cids,
            cn == cids.len(),
            t <= cn,
            rem@ == cids.subrange(0, t as int),
        decreases cn - t,
    {
        let c = match &tree.nodes[node_id].children {
            Some(v) => v[t],
            None => 0,
        };
        rem.push(c);
        proof {
            assert(rem@ =~= cids.subrange(0, t + 1));
        }
        t += 1;
    }
    proof {
        assert(rem@ =~= cids);
        assert(wf_at(ns, node_id as int));
    }
    let dir_owned = dir.to_owned();
    let mut kids: Vec<usize> = Vec::new();
    let mut dls: Vec<usize> = Vec::new();
    apply_from(tree, &mut rem, records, 0, dir_owned.as_str(), store, &mut kids, &mut dls);
    let ghost d = diff_from(ns, cids, recs_view(records@), 0, dir@, store);
    proof {
        lemma_diff_bounds(ns, cids, recs_view(records@), 0, dir@, store);
        lemma_diff_wf(ns, cids, recs_view(records@), 0, dir@, store);
        assert(kids@ =~= d.kids);
        assert(dls@ =~= d.dls);
    }
    let mut folders: Vec<usize> = Vec::new();
    let mut links: Vec<usize> = Vec::new();
    collect_kinds(tree, &kids, 0, &mut folders, &mut links);
    let node = &mut tree.nodes[node_id];
    if kids.len() > 0 {
        node.children = Some(kids);
    } else {
        node.children = None;
    }
    proof {
        assert(tree_view(*tree) =~= after_listing(ns, node_id as int, d));
        let fin = tree_view(*tree);
        lemma_diff_frame(ns, cids, recs_view(records@), 0, dir@, store);
        assert forall|q: int| 0 <= q < fin.len() implies wf_at(fin, q) by {
            assert(wf_at(d.nodes, q));
            if q != node_id {
                assert(fin[q] == d.nodes[q]);
            } else {
                assert(version_only(d.nodes[q], ns[q]));
                assert(d.nodes[q].kind is Folder || d.nodes[q].kind is Root);
            }
        }
    }
    ApplyOutcome { downloads: dls, folders, links }
}

/// One sync pass over one folder node: diff `records` against its previous
/// children, install the result, and report downloads, folders to recurse
/// into, and links to resolve. A folder whose listing was never fetched
/// (children absent) is left unchanged.
pub fn apply_listing(tree: &mut Tree, node_id: usize, records: &Vec<ItemRecord>) -> (out:
    ApplyOutcome)
    requires
        wf(tree_view(*old(tree))),
        node_id < old(tree).nodes@.len(),
        tree_view(*old(tree))[node_id as int].kind is Folder,
        old(tree).nodes@.len() + records@.len() <= usize::MAX,
    ensures
        ({
            let ns = tree_view(*old(tree));
            match ns[node_id as int].children {
                None => tree_view(*final (tree)) == ns && out.downloads@ == Seq::<usize>::empty()
                    && out.folders@ == Seq::<usize>::empty() && out.links@ == Seq::<
                    usize,
                >::empty(),
                Some(cids) => ({
                    let d = diff_from(
                        ns,
                        cids,
                        recs_view(records@),
                        0,
                        folder_dir(ns[node_id as int].kind),
                        false,
                    );
                    tree_view(*final (tree)) == after_listing(ns, node_id as int, d)
                        && out.downloads@ == d.dls && out.folders@ == folders_from(
                        d.nodes,
                        d.kids,
                        0,
                    ) && out.links@ == links_from(d.nodes, d.kids, 0)
                }),
            }
        }),
        wf(tree_view(*final (tree))),
{
    let dir = match &tree.nodes[node_id].breed {
        crate::node::IlNodeType::Folder { path, .. } => path.clone(),
        _ => String::new(),
    };
    apply_to_node(tree, node_id, records, dir.as_str(), false)
}

/// One sync pass over the root node: as [`apply_listing`], except that the
/// new children are created directly under the storage root `root_dir` and
/// are folders that store their files.
pub fn apply_root_listing(
    tree: &mut Tree,
    node_id: usize,
    records: &Vec<ItemRecord>,
    root_dir: &str,
) -> (out: ApplyOutcome)
    requires
        wf(tree_view(*old(tree))),
        node_id < old(tree).nodes@.len(),
        tree_view(*old(tree))[node_id as int].kind is Root,
        old(tree).nodes@.len() + records@.len() <= usize::MAX,
    ensures
        ({
            let ns = tree_view(*old(tree));
            match ns[node_id as int].children {
                None => tree_view(*final (tree)) == ns && out.downloads@ == Seq::<usize>::empty()
                    && out.folders@ == Seq::<usize>::empty() && out.links@ == Seq::<
                    usize,
                >::empty(),
                Some(cids) => ({
                    let d = diff_from(ns, cids, recs_view(records@), 0, root_dir@, true);
                    tree_view(*final (tree)) == after_listing(ns, node_id as int, d)
                        && out.downloads@ == d.dls && out.folders@ == folders_from(
                        d.nodes,
                        d.kids,
                        0,
                    ) && out.links@ == links_from(d.nodes, d.kids, 0)
                }),
            }
        }),
        wf(tree_view(*final (tree))),
{
    apply_to_node(tree, node_id, records, root_dir, true)
}

/// One full sync step for a folder node, from the fetched page text:
/// extract the listing's records and apply them. Hands back nothing — and
/// leaves the tree untouched — when the node is out of range, not a
/// folder, or the arena cannot hold the listing's records.
pub fn sync_node(tree: &mut Tree, node_id: usize, page: &str) -> (r: Option<ApplyOutcome>)
    requires
        wf(tree_view(*old(tree))),
    ensures
        ({
            let ns = tree_view(*old(tree));
            let recs = crate::listing::records_of_page(page@);
            match r {
                Some(out) => node_id < ns.len() && ns[node_id as int].kind is Folder && wf(
                    tree_view(*final (tree)),
                ) && (match ns[node_id as int].children {
                    None => tree_view(*final (tree)) == ns && out.downloads@ == Seq::<
                        usize,
                    >::empty() && out.folders@ == Seq::<usize>::empty() && out.links@ == Seq::<
                        usize,
                    >::empty(),
                    Some(cids) => ({
                        let d = diff_from(
                            ns,
                            cids,
                            recs,
                            0,
                            folder_dir(ns[node_id as int].kind),
                            false,
                        );
                        tree_view(*final (tree)) == after_listing(ns, node_id as int, d)
                            && out.downloads@ == d.dls && out.folders@ == folders_from(
                            d.nodes,
                            d.kids,
                            0,
                        ) && out.links@ == links_from(d.nodes, d.kids, 0)
                    }),
                }),
                None => tree_view(*final (tree)) == ns && !(node_id < ns.len() && ns[
                    node_id as int].kind is Folder && ns.len() + recs.len() <= usize::MAX),
            }
        }),
{
    let records = crate::listing::parse_listing(page);
    if node_id >= tree.nodes.len() {
        return None;
    }
    let is_folder = matches!(&tree.nodes[node_id].breed, crate::node::IlNodeType::Folder { .. });
    if !is_folder {
        return None;
    }
    if tree.nodes.len() > usize::MAX - records.len() {
        return None;
    }
    Some(apply_listing(tree, node_id, &records))
}

/// One full sync step for the root node, from the fetched start page:
/// extract its course records and apply them under the storage root.
pub fn sync_root_node(tree: &mut Tree, node_id: usize, page: &str, root_dir: &str) -> (r: Option<
    ApplyOutcome,
>)
    requires
        wf(tree_view(*old(tree))),
    ensures
        ({
            let ns = tree_view(*old(tree));
            let recs = crate::listing::root_records_of_page(page@);
            match r {
                Some(out) => node_id < ns.len() && ns[node_id as int].kind is Root && wf(
                    tree_view(*final (tree)),
                ) && (match ns[node_id as int].children {
                    None => tree_view(*final (tree)) == ns && out.downloads@ == Seq::<
                        usize,
                    >::empty() && out.folders@ == Seq::<usize>::empty() && out.links@ == Seq::<
                        usize,
                    >::empty(),
                    Some(cids) => ({
                        let d = diff_from(ns, cids, recs, 0, root_dir@, true);
                        tree_view(*final (tree)) == after_listing(ns, node_id as int, d)
                            && out.downloads@ == d.dls && out.folders@ == folders_from(
                            d.nodes,
                            d.kids,
                            0,
                        ) && out.links@ == links_from(d.nodes, d.kids, 0)
                    }),
                }),
                None => tree_view(*final (tree)) == ns && !(node_id < ns.len() && ns[
                    node_id as int].kind is Root && ns.len() + recs.len() <= usize::MAX),
            }
        }),
{
    let records = crate::listing::parse_root_listing(page);
    if node_id >= tree.nodes.len() {
        return None;
    }
    let is_root = matches!(&tree.nodes[node_id].breed, crate::node::IlNodeType::Root);
    if !is_root {
        return None;
    }
    if tree.nodes.len() > usize::MAX - records.len() {
        return None;
    }
    Some(apply_root_listing(tree, node_id, &records, root_dir))
}

} // verus!
