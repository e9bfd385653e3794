//! The typed tree node and its classification.
//!
//! A node mirrors one remote item: a stable `uri` (the only diff key), a
//! display `title`, a kind with its kind-specific payload, and an optional
//! list of children. Children are arena indices into the [`crate::tree::Tree`]
//! that owns all nodes, so a matched child keeps its index — and therefore
//! its identity — across sync passes.

use vstd::prelude::*;

use crate::paths::sanitized;
use crate::paths::sanitize_title;
use crate::scan::find_at_or_after;
use crate::scan::match_at;

verus! {

/// One parsed listing entry, before it becomes a node: the extractor's
/// interface to the sync core.
#[derive(Debug, Clone, PartialEq)]
pub struct ItemRecord {
    /// Stable remote identity key.
    pub uri: String,
    /// Display title; may be empty when the entry carried no label.
    pub title: String,
    /// Opaque classifier value (the portal's icon name); unmapped hints are
    /// dropped during classification.
    pub kind_hint: String,
    /// Remote revision number, for file-like entries that declare one.
    pub version: Option<u32>,
}

/// Mathematical image of an [`ItemRecord`].
#[verifier::ext_equal]
pub ghost struct RecV {
    pub uri: Seq<char>,
    pub title: Seq<char>,
    pub hint: Seq<char>,
    pub version: Option<u32>,
}

pub open spec fn rec_view(r: ItemRecord) -> RecV {
    RecV { uri: r.uri@, title: r.title@, hint: r.kind_hint@, version: r.version }
}

pub open spec fn recs_view(rs: Seq<ItemRecord>) -> Seq<RecV> {
    rs.map_values(|r: ItemRecord| rec_view(r))
}

/// The kind of a node, with its kind-specific payload.
#[derive(Debug, Clone, PartialEq)]
pub enum IlNodeType {
    Root,
    Folder { store_files: bool, path: String },
    File { path: String, version: u32, local: bool },
    DirectLink,
    Forum,
    Group,
    Video,
    Exercise,
}

/// Mathematical image of an [`IlNodeType`].
#[verifier::ext_equal]
pub ghost enum KindV {
    Root,
    Folder { store_files: bool, path: Seq<char> },
    File { path: Seq<char>, version: u32, local: bool },
    DirectLink,
    Forum,
    Group,
    Video,
    Exercise,
}

pub open spec fn kind_view(k: IlNodeType) -> KindV {
    match k {
        IlNodeType::Root => KindV::Root,
        IlNodeType::Folder { store_files, path } => KindV::Folder {
            store_files,
            path: path@,
        },
        IlNodeType::File { path, version, local } => KindV::File { path: path@, version, local },
        IlNodeType::DirectLink => KindV::DirectLink,
        IlNodeType::Forum => KindV::Forum,
        IlNodeType::Group => KindV::Group,
        IlNodeType::Video => KindV::Video,
        IlNodeType::Exercise => KindV::Exercise,
    }
}

/// One node of the mirrored tree.
#[derive(Debug, Clone, PartialEq)]
pub struct IlNode {
    pub uri: String,
    pub title: String,
    pub breed: IlNodeType,
    /// Display-only flag; not consulted by the sync algorithm.
    pub visible: bool,
    /// Arena indices of the children; `None` marks a leaf or a container
    /// whose listing has never been fetched.
    pub children: Option<Vec<usize>>,
    /// Identifier assigned by [`crate::tree::set_ids`].
    pub id: usize,
    /// Identifier of the parent node, assigned by [`crate::tree::set_ids`].
    pub parent: usize,
}

/// Mathematical image of an [`IlNode`].
#[verifier::ext_equal]
pub ghost struct NodeV {
    pub uri: Seq<char>,
    pub title: Seq<char>,
    pub kind: KindV,
    pub visible: bool,
    pub children: Option<Seq<usize>>,
    pub id: usize,
    pub parent: usize,
}

pub open spec fn node_view(n: IlNode) -> NodeV {
    NodeV {
        uri: n.uri@,
        title: n.title@,
        kind: kind_view(n.breed),
        visible: n.visible,
        children: match n.children {
            Some(v) => Some(v@),
            None => None,
        },
        id: n.id,
        parent: n.parent,
    }
}

/// The sync-relevant payload of a file node: where it is materialized and
/// which remote revision it mirrors.
#[derive(Debug, Clone, PartialEq)]
pub struct SyncInfo {
    pub path: String,
    pub version: u32,
}

impl IlNodeType {
    /// Whether this kind is a file.
    pub fn is_file(&self) -> (r: bool)
        ensures
            r == (kind_view(*self) is File),
    {
        matches!(self, IlNodeType::File { .. })
    }

    /// The local directory a folder owns, if this kind is a folder.
    pub fn path(&self) -> (r: Option<String>)
        ensures
            match kind_view(*self) {
                KindV::Folder { path, .. } => r matches Some(p) && p@ == path,
                _ => r is None,
            },
    {
        match self {
            IlNodeType::Folder { path, .. } => Some(path.clone()),
            _ => None,
        }
    }

    /// The local path a file will be materialized at, if this kind is a file.
    pub fn get_path(&self) -> (r: Option<String>)
        ensures
            match kind_view(*self) {
                KindV::File { path, .. } => r matches Some(p) && p@ == path,
                _ => r is None,
            },
    {
        match self {
            IlNodeType::File { path, .. } => Some(path.clone()),
            _ => None,
        }
    }

    /// Whether a file's bytes are kept locally, if this kind is a file.
    pub fn get_local(&self) -> (r: Option<bool>)
        ensures
            match kind_view(*self) {
                KindV::File { local, .. } => r == Some(local),
                _ => r is None,
            },
    {
        match self {
            IlNodeType::File { local, .. } => Some(*local),
            _ => None,
        }
    }
}

impl IlNode {
    /// The file payload of this node, if it is a file.
    pub fn sync_info(&self) -> (r: Option<SyncInfo>)
        ensures
            match kind_view(self.breed) {
                KindV::File { path, version, .. } => r matches Some(s) && s.path@ == path
                    && s.version == version,
                _ => r is None,
            },
    {
        match &self.breed {
            IlNodeType::File { path, version, .. } => Some(
                SyncInfo { path: path.clone(), version: *version },
            ),
            _ => None,
        }
    }
}

/// Compare two strings character by character.
pub fn str_eq(a: &str, b: &str) -> (r: bool)
    ensures
        r == (a@ == b@),
{
    let n = a.unicode_len();
    let m = b.unicode_len();
    if n != m {
        return false;
    }
    let mut i: usize = 0;
    while i < n
        invariant
            n == a@.len(),
            n == b@.len(),
            i <= n,
            forall|k: int| 0 <= k < i ==> a@[k] == b@[k],
        decreases n - i,
    {
        if a.get_char(i) != b.get_char(i) {
            return false;
        }
        i += 1;
    }
    proof {
        assert(a@ =~= b@);
    }
    true
}

/// `"cmd="` stands at the start of a `'&'`-separated segment of `s` at `i`.
pub open spec fn cmd_key_at(s: Seq<char>, i: int) -> bool {
    (i == 0 || s[i - 1] == '&') && match_at(s, "cmd="@, i)
}

/// Index of the first `'&'`-separated segment starting with `"cmd="`.
pub open spec fn first_cmd_at_or_after(s: Seq<char>, i: int) -> Option<int>
    decreases s.len() - i + 1,
        when 0 <= i
{
    if i + "cmd="@.len() > s.len() {
        None
    } else if cmd_key_at(s, i) {
        Some(i)
    } else {
        first_cmd_at_or_after(s, i + 1)
    }
}

pub proof fn lemma_first_cmd_found(s: Seq<char>, i: int, j: int)
    requires
        0 <= i,
        first_cmd_at_or_after(s, i) == Some(j),
    ensures
        i <= j,
        cmd_key_at(s, j),
    decreases s.len() - i + 1,
{
    if i + "cmd="@.len() > s.len() {
    } else if cmd_key_at(s, i) {
    } else {
        lemma_first_cmd_found(s, i + 1, j);
    }
}

/// The value of the first `cmd` query parameter of a uri: the characters
/// between `"cmd="` and the next `'&'` or the end.
pub open spec fn cmd_value(s: Seq<char>) -> Option<Seq<char>> {
    match first_cmd_at_or_after(s, 0) {
        None => None,
        Some(p) => {
            let st = p + "cmd="@.len();
            let e = match find_at_or_after(s, "&"@, st) {
                Some(e) => e,
                None => s.len() as int,
            };
            Some(s.subrange(st, e))
        },
    }
}

fn find_cmd_start(s: &str) -> (r: Option<usize>)
    ensures
        match r {
            Some(j) => first_cmd_at_or_after(s@, 0) == Some(j as int),
            None => first_cmd_at_or_after(s@, 0) is None,
        },
{
    let n = s.unicode_len();
    let pat = "cmd=";
    let m = pat.unicode_len();
    if m > n {
        return None;
    }
    let mut i: usize = 0;
    while i < n - m
        invariant
            n == s@.len(),
            m == pat@.len(),
            pat@ == "cmd="@,
            m <= n,
            i <= n - m,
            first_cmd_at_or_after(s@, 0) == first_cmd_at_or_after(s@, i as int),
        decreases n - i,
    {
        let boundary = i == 0 || s.get_char(i - 1) == '&';
        if boundary && crate::scan::has_match_at(s, pat, i) {
            return Some(i);
        }
        i += 1;
    }
    let boundary = i == 0 || s.get_char(i - 1) == '&';
    if boundary && crate::scan::has_match_at(s, pat, i) {
        Some(i)
    } else {
        proof {
            assert(first_cmd_at_or_after(s@, i as int + 1) is None);
        }
        None
    }
}

/// The node kind a uri classifies to, before any payload is attached: a
/// `cmd` of `"view"` marks a folder, `"showThreads"` a forum,
/// `"calldirectlink"` a direct link; with no `cmd`, a `"goto.php"` uri marks
/// a file.
pub open spec fn il_node_type_of(uri: Seq<char>) -> Option<KindV> {
    match cmd_value(uri) {
        Some(v) => if v == "view"@ {
            Some(KindV::Folder { store_files: false, path: Seq::empty() })
        } else if v == "showThreads"@ {
            Some(KindV::Forum)
        } else if v == "calldirectlink"@ {
            Some(KindV::DirectLink)
        } else {
            None
        },
        None => if find_at_or_after(uri, "goto.php"@, 0) is Some {
            Some(KindV::File { path: Seq::empty(), version: 0, local: true })
        } else {
            None
        },
    }
}

/// Classify a uri by its `cmd` query parameter; the payload fields of the
/// returned kind are placeholders (empty path, version zero).
pub fn get_il_node_type(uri: &str) -> (r: Option<IlNodeType>)
    ensures
        match r {
            Some(k) => il_node_type_of(uri@) == Some(kind_view(k)),
            None => il_node_type_of(uri@) is None,
        },
{
    let n = uri.unicode_len();
    match find_cmd_start(uri) {
        Some(p) => {
            proof {
                lemma_first_cmd_found(uri@, 0, p as int);
            }
            let st = p + "cmd=".unicode_len();
            let e = match crate::scan::find_sub_from(uri, "&", st) {
                Some(e) => {
                    proof {
                        crate::scan::lemma_find_found(uri@, "&"@, st as int, e as int);
                    }
                    e
                },
                None => n,
            };
            let v = uri.substring_char(st, e);
            if str_eq(v, "view") {
                Some(IlNodeType::Folder { store_files: false, path: String::new() })
            } else if str_eq(v, "showThreads") {
                Some(IlNodeType::Forum)
            } else if str_eq(v, "calldirectlink") {
                Some(IlNodeType::DirectLink)
            } else {
                None
            }
        },
        None => {
            if crate::scan::find_sub_from(uri, "goto.php", 0).is_some() {
                Some(IlNodeType::File { path: String::new(), version: 0, local: true })
            } else {
                None
            }
        },
    }
}

/// The node a record classifies to under parent directory `dir`: folders for
/// the `"fold"` and `"crs"` hints (storing files when `store` is set), files
/// for `"file"` and `"file_inline"`, the other mapped hints their leaf kinds;
/// unmapped hints classify to nothing. A new folder starts with an empty
/// children list; every other kind starts without one.
pub open spec fn made_node(r: RecV, dir: Seq<char>, store: bool) -> Option<NodeV> {
    let path = dir + "/"@ + sanitized(r.title);
    let version = match r.version {
        Some(v) => v,
        None => 0u32,
    };
    if r.hint == "fold"@ || r.hint == "crs"@ {
        Some(plain_node(r, KindV::Folder { store_files: store, path }, Some(Seq::empty())))
    } else if r.hint == "frm"@ {
        Some(plain_node(r, KindV::Forum, None))
    } else if r.hint == "webr"@ {
        Some(plain_node(r, KindV::DirectLink, None))
    } else if r.hint == "file"@ || r.hint == "file_inline"@ {
        Some(plain_node(r, KindV::File { path, version, local: true }, None))
    } else if r.hint == "xvid"@ {
        Some(plain_node(r, KindV::Video, None))
    } else if r.hint == "exc"@ {
        Some(plain_node(r, KindV::Exercise, None))
    } else {
        None
    }
}

pub open spec fn plain_node(r: RecV, kind: KindV, children: Option<Seq<usize>>) -> NodeV {
    NodeV {
        uri: r.uri,
        title: r.title,
        kind,
        visible: true,
        children,
        id: 0,
        parent: 0,
    }
}

/// Build the node for an unmatched record, or nothing when its hint is
/// unmapped. The node's path is the parent directory plus the sanitized
/// title as one new segment.
pub fn node_from_record(rec: &ItemRecord, dir: &str, store: bool) -> (r: Option<IlNode>)
    ensures
        match r {
            Some(n) => made_node(rec_view(*rec), dir@, store) == Some(node_view(n)),
            None => made_node(rec_view(*rec), dir@, store) is None,
        },
{
    let seg = sanitize_title(rec.title.as_str());
    let mut path = dir.to_owned();
    path.append("/");
    path.append(seg.as_str());
    let hint = rec.kind_hint.as_str();
    let version = match rec.version {
        Some(v) => v,
        None => 0u32,
    };
    let breed: Option<IlNodeType> = if str_eq(hint, "fold") || str_eq(hint, "crs") {
        Some(IlNodeType::Folder { store_files: store, path })
    } else if str_eq(hint, "frm") {
        Some(IlNodeType::Forum)
    } else if str_eq(hint, "webr") {
        Some(IlNodeType::DirectLink)
    } else if str_eq(hint, "file") || str_eq(hint, "file_inline") {
        Some(IlNodeType::File { path, version, local: true })
    } else if str_eq(hint, "xvid") {
        Some(IlNodeType::Video)
    } else if str_eq(hint, "exc") {
        Some(IlNodeType::Exercise)
    } else {
        None
    };
    match breed {
        Some(breed) => {
            let is_folder = matches!(breed, IlNodeType::Folder { .. });
            let children: Option<Vec<usize>> = if is_folder {
                Some(Vec::new())
            } else {
                None
            };
            let n = IlNode {
                uri: rec.uri.clone(),
                title: rec.title.clone(),
                breed,
                visible: true,
                children,
                id: 0,
                parent: 0,
            };
            proof {
                assert(made_node(rec_view(*rec), dir@, store) matches Some(m) && m =~= node_view(
                    n,
                ));
            }
            Some(n)
        },
        None => None,
    }
}

} // verus!
