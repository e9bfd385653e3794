//! Planning the materialization of one file node.
//!
//! The host fetches the file's bytes; this module decides everything else:
//! the extension taken from the response's declared content type, the final
//! local path stored on the node, the idempotent skip when that path
//! already exists, and the remote-only policy that keeps large media
//! (`mp4`, `zip`) unmaterialized.

use vstd::prelude::*;

use crate::node::IlNodeType;
use crate::node::KindV;
use crate::node::NodeV;
use crate::node::str_eq;
use crate::scan::find_at_or_after;
use crate::session::SyncError;
use crate::tree::Tree;
use crate::tree::tree_view;

verus! {

/// Index of the last occurrence of `c` in `s` at or before `i`.
pub open spec fn rfind_from(s: Seq<char>, c: char, i: int) -> Option<int>
    decreases i + 1,
        when i < s.len()
{
    if i < 0 {
        None
    } else if s[i] == c {
        Some(i)
    } else {
        rfind_from(s, c, i - 1)
    }
}

fn rfind_char(s: &str, c: char) -> (r: Option<usize>)
    ensures
        match r {
            Some(j) => rfind_from(s@, c, s@.len() - 1) == Some(j as int),
            None => rfind_from(s@, c, s@.len() - 1) is None,
        },
{
    let n = s.unicode_len();
    if n == 0 {
        proof {
            assert(rfind_from(s@, c, -1) is None);
        }
        return None;
    }
    let mut i: usize = n - 1;
    loop
        invariant
            n == s@.len(),
            0 < n,
            i < n,
            rfind_from(s@, c, n - 1) == rfind_from(s@, c, i as int),
        decreases i,
    {
        if s.get_char(i) == c {
            return Some(i);
        }
        if i == 0 {
            proof {
                assert(rfind_from(s@, c, -1) is None);
            }
            return None;
        }
        i -= 1;
    }
}

/// Where the file name of a path begins: right after the last separator.
pub open spec fn seg_start(p: Seq<char>) -> int {
    match rfind_from(p, '/', p.len() - 1) {
        Some(j) => j + 1,
        None => 0,
    }
}

/// The extension of a path's file name: what follows the last dot, when
/// that dot sits strictly inside the file name.
pub open spec fn path_ext(p: Seq<char>) -> Option<Seq<char>> {
    match rfind_from(p, '.', p.len() - 1) {
        Some(dt) => if dt > seg_start(p) {
            Some(p.subrange(dt + 1, p.len() as int))
        } else {
            None
        },
        None => None,
    }
}

/// `p` with its extension replaced by `ext`, or with `.ext` appended when
/// its file name has no extension.
pub open spec fn with_ext(p: Seq<char>, ext: Seq<char>) -> Seq<char> {
    match rfind_from(p, '.', p.len() - 1) {
        Some(dt) => if dt > seg_start(p) {
            p.subrange(0, dt) + seq!['.'] + ext
        } else {
            p + seq!['.'] + ext
        },
        None => p + seq!['.'] + ext,
    }
}

/// Replace or append the extension of `path`'s file name.
pub fn with_extension(path: &str, ext: &str) -> (r: String)
    ensures
        r@ == with_ext(path@, ext@),
{
    let n = path.unicode_len();
    let dot = rfind_char(path, '.');
    let sep = rfind_char(path, '/');
    proof {
        match dot {
            Some(dt) => lemma_rfind_in_range(path@, '.', path@.len() - 1, dt as int),
            None => (),
        }
        match sep {
            Some(j) => lemma_rfind_in_range(path@, '/', path@.len() - 1, j as int),
            None => (),
        }
    }
    let ss: usize = match sep {
        Some(j) => j + 1,
        None => 0,
    };
    let stem: &str = match dot {
        Some(dt) => {
            if dt > ss {
                path.substring_char(0, dt)
            } else {
                path
            }
        },
        None => path,
    };
    let mut out = stem.to_owned();
    out.push('.');
    out.append(ext);
    proof {
        assert(out@ =~= with_ext(path@, ext@));
    }
    out
}

/// The extension a declared content type names: the characters between its
/// first and second separator, or through its end.
pub open spec fn ext_of(ct: Seq<char>) -> Option<Seq<char>> {
    match find_at_or_after(ct, "/"@, 0) {
        None => None,
        Some(s1) => {
            let st = s1 + "/"@.len();
            let e = match find_at_or_after(ct, "/"@, st) {
                Some(e) => e,
                None => ct.len() as int,
            };
            Some(ct.subrange(st, e))
        },
    }
}

/// Read the extension out of a declared content type.
pub fn content_type_ext(ct: &str) -> (r: Option<String>)
    ensures
        match r {
            Some(x) => ext_of(ct@) == Some(x@),
            None => ext_of(ct@) is None,
        },
{
    let n = ct.unicode_len();
    let s1 = match crate::scan::find_sub_from(ct, "/", 0) {
        Some(p) => p,
        None => {
            return None;
        },
    };
    proof {
        crate::scan::lemma_find_found(ct@, "/"@, 0, s1 as int);
    }
    let st = s1 + "/".unicode_len();
    let e = match crate::scan::find_sub_from(ct, "/", st) {
        Some(e) => {
            proof {
                crate::scan::lemma_find_found(ct@, "/"@, st as int, e as int);
            }
            e
        },
        None => n,
    };
    Some(ct.substring_char(st, e).to_owned())
}

/// The local path a file node stores.
pub open spec fn file_path(n: NodeV) -> Seq<char> {
    match n.kind {
        KindV::File { path, .. } => path,
        _ => Seq::empty(),
    }
}

/// `n` with its file path replaced by `p`.
pub open spec fn with_file_path(n: NodeV, p: Seq<char>) -> NodeV {
    match n.kind {
        KindV::File { path, version, local } => NodeV {
            kind: KindV::File { path: p, version, local },
            ..n
        },
        _ => n,
    }
}

/// `n` with its materialization flag cleared.
pub open spec fn with_remote_only(n: NodeV) -> NodeV {
    match n.kind {
        KindV::File { path, version, local } => NodeV {
            kind: KindV::File { path, version, local: false },
            ..n
        },
        _ => n,
    }
}

/// Extensions whose files are deliberately kept remote-only.
pub open spec fn remote_only_ext(x: Option<Seq<char>>) -> bool {
    x == Some("mp4"@) || x == Some("zip"@)
}

/// Settle a file node's final local path from the response's declared
/// content type, store it on the node, and hand it back. Fails with
/// [`SyncError::MissingContentType`] when no content type was declared or
/// none with a separator, leaving the node untouched.
pub fn resolve_download_path(tree: &mut Tree, id: usize, content_type: Option<&str>) -> (r: Result<
    String,
    SyncError,
>)
    requires
        id < old(tree).nodes@.len(),
        tree_view(*old(tree))[id as int].kind is File,
    ensures
        ({
            let ns = tree_view(*old(tree));
            match r {
                Ok(p) => content_type matches Some(ct) && ext_of(ct@) matches Some(x) && p@
                    == with_ext(file_path(ns[id as int]), x) && tree_view(*final (tree))
                    == ns.update(id as int, with_file_path(ns[id as int], p@)),
                Err(e) => e == SyncError::MissingContentType && tree_view(*final (tree)) == ns && (
                match content_type {
                    Some(ct) => ext_of(ct@) is None,
                    None => true,
                }),
            }
        }),
{
    let ghost ns = tree_view(*tree);
    let ct = match content_type {
        Some(ct) => ct,
        None => {
            return Err(SyncError::MissingContentType);
        },
    };
    let x = match content_type_ext(ct) {
        Some(x) => x,
        None => {
            return Err(SyncError::MissingContentType);
        },
    };
    let old_path = match &tree.nodes[id].breed {
        IlNodeType::File { path, .. } => path.clone(),
        _ => String::new(),
    };
    let new_path = with_extension(old_path.as_str(), x.as_str());
    let node = &mut tree.nodes[id];
    match &mut node.breed {
        IlNodeType::File { path, .. } => {
            *path = new_path.clone();
        },
        _ => {},
    }
    proof {
        assert(tree_view(*tree) =~= ns.update(id as int, with_file_path(ns[id as int], new_path@)));
    }
    Ok(new_path)
}

/// What the host should do with the fetched bytes.
#[derive(Debug, Clone, PartialEq)]
pub enum DownloadAction {
    /// The local file already exists: the task is an idempotent no-op.
    SkipExisting,
    /// The node is kept remote-only: write nothing.
    RemoteOnly,
    /// Create missing parent directories and write the bytes here.
    Materialize { path: String },
}

/// Decide, for a file node whose path has been settled, whether its bytes
/// are written: an existing local file is never rewritten; `mp4` and `zip`
/// files are flagged remote-only and skipped; everything else still marked
/// local is materialized at the stored path.
pub fn decide_materialize(tree: &mut Tree, id: usize, path_exists: bool) -> (r: DownloadAction)
    requires
        id < old(tree).nodes@.len(),
        tree_view(*old(tree))[id as int].kind is File,
    ensures
        ({
            let ns = tree_view(*old(tree));
            let n = ns[id as int];
            if path_exists {
                r is SkipExisting && tree_view(*final (tree)) == ns
            } else if remote_only_ext(path_ext(file_path(n))) {
                r is RemoteOnly && tree_view(*final (tree)) == ns.update(
                    id as int,
                    with_remote_only(n),
                )
            } else {
                tree_view(*final (tree)) == ns && match n.kind {
                    KindV::File { path, local, .. } => if local {
                        r matches DownloadAction::Materialize { path: m } && m@ == path
                    } else {
                        r is RemoteOnly
                    },
                    _ => true,
                }
            }
        }),
{
    let ghost ns = tree_view(*tree);
    if path_exists {
        return DownloadAction::SkipExisting;
    }
    let path = match &tree.nodes[id].breed {
        IlNodeType::File { path, .. } => path.clone(),
        _ => String::new(),
    };
    let remote = match ext_of_path(path.as_str()) {
        Some(x) => str_eq(x.as_str(), "mp4") || str_eq(x.as_str(), "zip"),
        None => false,
    };
    if remote {
        let node = &mut tree.nodes[id];
        match &mut node.breed {
            IlNodeType::File { local, .. } => {
                *local = false;
            },
            _ => {},
        }
        proof {
            assert(tree_view(*tree) =~= ns.update(id as int, with_remote_only(ns[id as int])));
        }
        return DownloadAction::RemoteOnly;
    }
    let local = match &tree.nodes[id].breed {
        IlNodeType::File { local, .. } => *local,
        _ => false,
    };
    if local {
        DownloadAction::Materialize { path }
    } else {
        DownloadAction::RemoteOnly
    }
}

/// Read the extension of a path's file name.
pub fn ext_of_path(path: &str) -> (r: Option<String>)
    ensures
        match r {
            Some(x) => path_ext(path@) == Some(x@),
            None => path_ext(path@) is None,
        },
{
    let n = path.unicode_len();
    let dot = match rfind_char(path, '.') {
        Some(dt) => dt,
        None => {
            return None;
        },
    };
    let sep = rfind_char(path, '/');
    proof {
        match sep {
            Some(j) => lemma_rfind_in_range(path@, '/', path@.len() - 1, j as int),
            None => (),
        }
    }
    let ss: usize = match sep {
        Some(j) => j + 1,
        None => 0,
    };
    if dot > ss {
        proof {
            lemma_rfind_in_range(path@, '.', path@.len() - 1, dot as int);
        }
        Some(path.substring_char(dot + 1, n).to_owned())
    } else {
        None
    }
}

proof fn lemma_rfind_in_range(s: Seq<char>, c: char, i: int, j: int)
    requires
        i < s.len(),
        rfind_from(s, c, i) == Some(j),
    ensures
        0 <= j <= i,
        s[j] == c,
    decreases i + 1,
{
    if i < 0 {
    } else if s[i] == c {
    } else {
        lemma_rfind_in_range(s, c, i - 1, j);
    }
}

} // verus!
