//! Watching file nodes for remote version changes.
//!
//! The watcher records, for every file node, its identifier, its title and
//! the uri of the listing page it appears on. A refresh then needs only
//! those pages: each one is fetched once, the versions printed there are
//! read off, and a file whose remote version is strictly greater than the
//! stored one is due for download.

use vstd::prelude::*;

use crate::node::IlNode;
use crate::node::IlNodeType;
use crate::node::KindV;
use crate::node::NodeV;
use crate::node::str_eq;
use crate::listing::links_of;
use crate::listing::marks_of;
use crate::listing::opt_view;
use crate::scan::version_in;
use crate::tree::Tree;
use crate::tree::tree_view;

verus! {

/// Which watched files a refresh covers.
pub enum FileSelect {
    All,
    Filtered(Vec<usize>),
}

/// The bookkeeping of watched file nodes. The association lists grow at the
/// front, so the first hit is the newest entry.
pub struct FileWatcher {
    pub files: Vec<usize>,
    pub titles: Vec<(String, usize)>,
    pub parents: Vec<(usize, String)>,
}

/// First value stored under a title, scanning newest first.
pub open spec fn title_lookup(ts: Seq<(String, usize)>, key: Seq<char>) -> Option<usize>
    decreases ts.len(),
{
    if ts.len() == 0 {
        None
    } else if ts[0].0@ == key {
        Some(ts[0].1)
    } else {
        title_lookup(ts.drop_first(), key)
    }
}

/// First parent uri stored under an identifier, scanning newest first.
pub open spec fn parent_lookup(ps: Seq<(usize, String)>, key: usize) -> Option<Seq<char>>
    decreases ps.len(),
{
    if ps.len() == 0 {
        None
    } else if ps[0].0 == key {
        Some(ps[0].1@)
    } else {
        parent_lookup(ps.drop_first(), key)
    }
}

/// A new entry shadows an older one with the same key and leaves every
/// other key's lookup unchanged.
pub proof fn lemma_title_lookup_insert(
    e: (String, usize),
    ts: Seq<(String, usize)>,
    key: Seq<char>,
)
    ensures
        title_lookup(seq![e] + ts, key) == if key == e.0@ {
            Some(e.1)
        } else {
            title_lookup(ts, key)
        },
{
    assert((seq![e] + ts).drop_first() =~= ts);
    assert((seq![e] + ts)[0] == e);
}

/// A new entry shadows an older one with the same identifier and leaves
/// every other identifier's lookup unchanged.
pub proof fn lemma_parent_lookup_insert(e: (usize, String), ps: Seq<(usize, String)>, key: usize)
    ensures
        parent_lookup(seq![e] + ps, key) == if key == e.0 {
            Some(e.1@)
        } else {
            parent_lookup(ps, key)
        },
{
    assert((seq![e] + ps).drop_first() =~= ps);
    assert((seq![e] + ps)[0] == e);
}

impl FileWatcher {
    /// An empty watcher.
    pub fn new() -> (w: FileWatcher)
        ensures
            w.files@ == Seq::<usize>::empty(),
            w.titles@ == Seq::<(String, usize)>::empty(),
            w.parents@ == Seq::<(usize, String)>::empty(),
    {
        FileWatcher { files: Vec::new(), titles: Vec::new(), parents: Vec::new() }
    }

    /// Record one file node under its title and the uri of its listing
    /// page.
    pub fn add_file(&mut self, id: usize, title: String, parent_uri: String)
        ensures
            final (self).files@ == old(self).files@.push(id),
            final (self).titles@ == seq![(title, id)] + old(self).titles@,
            final (self).parents@ == seq![(id, parent_uri)] + old(self).parents@,
    {
        self.files.push(id);
        self.titles.insert(0, (title, id));
        self.parents.insert(0, (id, parent_uri));
        proof {
            assert(self.titles@ =~= seq![(title, id)] + old(self).titles@);
            assert(self.parents@ =~= seq![(id, parent_uri)] + old(self).parents@);
        }
    }

    /// Look a watched file up by its title.
    pub fn find_by_title(&self, key: &str) -> (r: Option<usize>)
        ensures
            r == title_lookup(self.titles@, key@),
    {
        let n = self.titles.len();
        proof {
            assert(self.titles@.skip(0) =~= self.titles@);
        }
        let mut i: usize = 0;
        while i < n
            invariant
                n == self.titles@.len(),
                i <= n,
                title_lookup(self.titles@, key@) == title_lookup(self.titles@.skip(i as int), key@),
            decreases n - i,
        {
            proof {
                assert(self.titles@.skip(i as int)[0] == self.titles@[i as int]);
                assert(self.titles@.skip(i as int).drop_first() =~= self.titles@.skip(i + 1));
            }
            if str_eq(self.titles[i].0.as_str(), key) {
                return Some(self.titles[i].1);
            }
            i += 1;
        }
        proof {
            assert(title_lookup(self.titles@.skip(n as int), key@) is None);
        }
        None
    }

    /// Look a watched file's listing page up by the file's identifier.
    pub fn find_parent_uri(&self, id: usize) -> (r: Option<String>)
        ensures
            match r {
                Some(u) => parent_lookup(self.parents@, id) == Some(u@),
                None => parent_lookup(self.parents@, id) is None,
            },
    {
        let n = self.parents.len();
        proof {
            assert(self.parents@.skip(0) =~= self.parents@);
        }
        let mut i: usize = 0;
        while i < n
            invariant
                n == self.parents@.len(),
                i <= n,
                parent_lookup(self.parents@, id) == parent_lookup(
                    self.parents@.skip(i as int),
                    id,
                ),
            decreases n - i,
        {
            proof {
                assert(self.parents@.skip(i as int)[0] == self.parents@[i as int]);
                assert(self.parents@.skip(i as int).drop_first() =~= self.parents@.skip(i + 1));
            }
            if self.parents[i].0 == id {
                return Some(self.parents[i].1.clone());
            }
            i += 1;
        }
        proof {
            assert(parent_lookup(self.parents@.skip(n as int), id) is None);
        }
        None
    }

    /// The listing pages to fetch for a refresh: the parent uri of each
    /// selected watched file, each page once, in first-use order. Selected
    /// files must have been recorded.
    pub fn pages_to_request(&self, sel: &FileSelect) -> (pages: Vec<String>)
        requires
            match sel {
                FileSelect::All => true,
                FileSelect::Filtered(ids) => forall|k: int|
                    0 <= k < ids@.len() ==> parent_lookup(self.parents@, #[trigger] ids@[k])
                        is Some,
            },
        ensures
            ({
                let ids = match sel {
                    FileSelect::All => self.files@,
                    FileSelect::Filtered(ids) => ids@,
                };
                pages@.map_values(|p: String| p@) == pages_fold(
                    self.parents@,
                    ids,
                    0,
                    Seq::empty(),
                )
            }),
    {
        let ids: &Vec<usize> = match sel {
            FileSelect::All => &self.files,
            FileSelect::Filtered(ids) => ids,
        };
        let ghost idv = ids@;
        let mut pages: Vec<String> = Vec::new();
        proof {
            assert(pages@.map_values(|p: String| p@) =~= Seq::<Seq<char>>::empty());
        }
        let n = ids.len();
        let mut i: usize = 0;
        while i < n
            invariant
                n == ids@.len(),
                idv == ids@,
                i <= n,
                match sel {
                    FileSelect::All => idv == self.files@,
                    FileSelect::Filtered(v) => idv == v@ && forall|k: int|
                        0 <= k < idv.len() ==> parent_lookup(self.parents@, #[trigger] idv[k])
                            is Some,
                },
                pages_fold(self.parents@, idv, 0, Seq::empty()) == pages_fold(
                    self.parents@,
                    idv,
                    i as int,
                    pages@.map_values(|p: String| p@),
                ),
            decreases n - i,
        {
            let id = ids[i];
            match self.find_parent_uri(id) {
                Some(u) => {
                    if !contains_string(&pages, u.as_str()) {
                        let ghost before = pages@.map_values(|p: String| p@);
                        pages.push(u);
                        proof {
                            assert(pages@.map_values(|p: String| p@) =~= before.push(u@));
                        }
                    }
                },
                None => {},
            }
            i += 1;
        }
        pages
    }
}

/// One step of the page collection: a selected file's page is appended
/// unless already collected; a file never recorded contributes nothing.
pub open spec fn pages_fold(
    ps: Seq<(usize, String)>,
    ids: Seq<usize>,
    i: int,
    acc: Seq<Seq<char>>,
) -> Seq<Seq<char>>
    decreases ids.len() - i + 1,
        when 0 <= i
{
    if i >= ids.len() {
        acc
    } else {
        let acc2 = match parent_lookup(ps, ids[i]) {
            Some(u) => if acc.contains(u) {
                acc
            } else {
                acc.push(u)
            },
            None => acc,
        };
        pages_fold(ps, ids, i + 1, acc2)
    }
}

fn contains_string(v: &Vec<String>, s: &str) -> (r: bool)
    ensures
        r == v@.map_values(|p: String| p@).contains(s@),
{
    let ghost m = v@.map_values(|p: String| p@);
    let n = v.len();
    let mut i: usize = 0;
    while i < n
        invariant
            n == v@.len(),
            i <= n,
            m == v@.map_values(|p: String| p@),
            forall|k: int| 0 <= k < i ==> m[k] != s@,
        decreases n - i,
    {
        if str_eq(v[i].as_str(), s) {
            proof {
                assert(m[i as int] == s@);
            }
            return true;
        }
        i += 1;
    }
    proof {
        if m.contains(s@) {
            let q = choose|q: int| 0 <= q < m.len() && m[q] == s@;
        }
    }
    false
}

/// Record every file node of the tree, keyed by its identifier, under the
/// uri of its parent node's page.
pub fn add_to_file_watcher(tree: &Tree, watcher: &mut FileWatcher)
    requires
        forall|k: int|
            0 <= k < tree.nodes@.len() ==> (#[trigger] tree.nodes@[k]).parent < tree.nodes@.len(),
    ensures
        final (watcher).files@ == files_fold(tree.nodes@, 0, old(watcher).files@),
        final (watcher).titles@ == titles_fold(tree.nodes@, 0, old(watcher).titles@),
        final (watcher).parents@ == parents_fold(tree.nodes@, 0, old(watcher).parents@),
{
    let ghost nv = tree.nodes@;
    let n = tree.nodes.len();
    let mut i: usize = 0;
    while i < n
        invariant
            n == tree.nodes@.len(),
            nv == tree.nodes@,
            i <= n,
            forall|k: int|
                0 <= k < tree.nodes@.len() ==> (#[trigger] tree.nodes@[k]).parent
                    < tree.nodes@.len(),
            files_fold(nv, 0, old(watcher).files@) == files_fold(nv, i as int, watcher.files@),
            titles_fold(nv, 0, old(watcher).titles@) == titles_fold(nv, i as int, watcher.titles@),
            parents_fold(nv, 0, old(watcher).parents@) == parents_fold(
                nv,
                i as int,
                watcher.parents@,
            ),
        decreases n - i,
    {
        let is_file = tree.nodes[i].breed.is_file();
        if is_file {
            let title = tree.nodes[i].title.clone();
            let p = tree.nodes[i].parent;
            let parent_uri = tree.nodes[p].uri.clone();
            proof {
                assert(title == nv[i as int].title);
                assert(parent_uri == nv[nv[i as int].parent as int].uri);
            }
            watcher.add_file(i, title, parent_uri);
        }
        i += 1;
    }
}

/// The identifiers of the file nodes from `i` on, appended to `acc`.
pub open spec fn files_fold(ns: Seq<IlNode>, i: int, acc: Seq<usize>) -> Seq<usize>
    decreases ns.len() - i + 1,
        when 0 <= i
{
    if i >= ns.len() {
        acc
    } else if ns[i].breed is File {
        files_fold(ns, i + 1, acc.push(i as usize))
    } else {
        files_fold(ns, i + 1, acc)
    }
}

/// The title entries of the file nodes from `i` on, stacked onto `acc`.
pub open spec fn titles_fold(ns: Seq<IlNode>, i: int, acc: Seq<(String, usize)>) -> Seq<
    (String, usize),
>
    decreases ns.len() - i + 1,
        when 0 <= i
{
    if i >= ns.len() {
        acc
    } else if ns[i].breed is File {
        titles_fold(ns, i + 1, seq![(ns[i].title, i as usize)] + acc)
    } else {
        titles_fold(ns, i + 1, acc)
    }
}

/// The parent-uri entries of the file nodes from `i` on, stacked onto
/// `acc`.
pub open spec fn parents_fold(ns: Seq<IlNode>, i: int, acc: Seq<(usize, String)>) -> Seq<
    (usize, String),
>
    decreases ns.len() - i + 1,
        when 0 <= i
{
    if i >= ns.len() {
        acc
    } else if ns[i].breed is File {
        parents_fold(ns, i + 1, seq![(i as usize, ns[ns[i].parent as int].uri)] + acc)
    } else {
        parents_fold(ns, i + 1, acc)
    }
}

/// How a title is printed in a version table: separators become spaces.
pub open spec fn slash_to_space(c: char) -> char {
    if c == '/' {
        ' '
    } else {
        c
    }
}

fn replace_slashes(s: &str) -> (r: String)
    ensures
        r@ == s@.map_values(|c: char| slash_to_space(c)),
{
    let n = s.unicode_len();
    let mut out = String::new();
    let mut i: usize = 0;
    while i < n
        invariant
            n == s@.len(),
            i <= n,
            out@.len() == i,
            forall|j: int| 0 <= j < i ==> out@[j] == slash_to_space(s@[j]),
        decreases n - i,
    {
        let c = s.get_char(i);
        if c == '/' {
            out.push(' ');
        } else {
            out.push(c);
        }
        i += 1;
    }
    proof {
        assert(out@ =~= s@.map_values(|c: char| slash_to_space(c)));
    }
    out
}

/// The version table of a listing page, from row `i` on: one entry per
/// row whose uri classifies as a file, pairing the row's title (with
/// separators spaced out) with its declared version, or `1` where none is
/// printed.
pub open spec fn versions_from(
    links: Seq<(Option<Seq<char>>, Option<Seq<char>>)>,
    marks: Seq<(Option<Seq<char>>, Option<Seq<char>>)>,
    i: int,
) -> Seq<(Seq<char>, u32)>
    decreases links.len() - i + 1,
        when 0 <= i
{
    if i >= links.len() || i >= marks.len() {
        Seq::empty()
    } else {
        let rest = versions_from(links, marks, i + 1);
        match links[i].0 {
            Some(u) => if crate::node::il_node_type_of(u) matches Some(k) && k is File {
                seq![
                    (
                        (match links[i].1 {
                            Some(t) => t,
                            None => Seq::empty(),
                        }).map_values(|c: char| slash_to_space(c)),
                        match marks[i].1 {
                            Some(p) => match version_in(p) {
                                Some(v) => v as u32,
                                None => 1u32,
                            },
                            None => 1u32,
                        },
                    ),
                ] + rest
            } else {
                rest
            },
            None => rest,
        }
    }
}

/// All version entries of a listing page.
pub open spec fn versions_of_page(page: Seq<char>) -> Seq<(Seq<char>, u32)> {
    versions_from(links_of(page), marks_of(page), 0)
}

fn build_versions(
    links: &Vec<(Option<String>, Option<String>)>,
    marks: &Vec<(Option<String>, Option<String>)>,
    i: usize,
    out: &mut Vec<(String, u32)>,
)
    requires
        i <= links@.len(),
    ensures
        final (out)@.map_values(|e: (String, u32)| (e.0@, e.1)) == old(out)@.map_values(
            |e: (String, u32)| (e.0@, e.1),
        ) + versions_from(
            links@.map_values(|l: (Option<String>, Option<String>)| (opt_view(l.0), opt_view(l.1))),
            marks@.map_values(|m: (Option<String>, Option<String>)| (opt_view(m.0), opt_view(m.1))),
            i as int,
        ),
    decreases links@.len() - i,
{
    let ghost lv = links@.map_values(
        |l: (Option<String>, Option<String>)| (opt_view(l.0), opt_view(l.1)),
    );
    let ghost mv = marks@.map_values(
        |m: (Option<String>, Option<String>)| (opt_view(m.0), opt_view(m.1)),
    );
    if i >= links.len() || i >= marks.len() {
        proof {
            assert(out@.map_values(|e: (String, u32)| (e.0@, e.1)) =~= out@.map_values(
                |e: (String, u32)| (e.0@, e.1),
            ) + versions_from(lv, mv, i as int));
        }
        return ;
    }
    match &links[i].0 {
        Some(u) => {
            let is_file = match crate::node::get_il_node_type(u.as_str()) {
                Some(k) => k.is_file(),
                None => false,
            };
            if is_file {
                let title = match &links[i].1 {
                    Some(t) => replace_slashes(t.as_str()),
                    None => replace_slashes(""),
                };
                let version = match &marks[i].1 {
                    Some(p) => match crate::scan::extract_version(p.as_str()) {
                        Some(v) => v,
                        None => 1u32,
                    },
                    None => 1u32,
                };
                let ghost before = out@.map_values(|e: (String, u32)| (e.0@, e.1));
                let entry = (title, version);
                proof {
                    reveal_strlit("");
                    assert((entry.0@, entry.1) =~= versions_from(lv, mv, i as int)[0]);
                }
                out.push(entry);
                proof {
                    assert(out@.map_values(|e: (String, u32)| (e.0@, e.1)) =~= before.push(
                        (entry.0@, entry.1),
                    ));
                }
            }
        },
        None => {},
    }
    build_versions(links, marks, i + 1, out);
    proof {
        assert(out@.map_values(|e: (String, u32)| (e.0@, e.1)) =~= old(out)@.map_values(
            |e: (String, u32)| (e.0@, e.1),
        ) + versions_from(lv, mv, i as int));
    }
}

/// Read the version table off a listing page: the title and declared
/// version of every row whose uri classifies as a file.
pub fn get_versions(page: &str) -> (versions: Vec<(String, u32)>)
    ensures
        versions@.map_values(|e: (String, u32)| (e.0@, e.1)) == versions_of_page(page@),
{
    let links = crate::listing::scrape_links(page);
    let marks = crate::listing::scrape_marks(page);
    proof {
        assert(links@.map_values(
            |l: (Option<String>, Option<String>)| (opt_view(l.0), opt_view(l.1)),
        ) =~= links_of(page@));
        assert(marks@.map_values(
            |m: (Option<String>, Option<String>)| (opt_view(m.0), opt_view(m.1)),
        ) =~= marks_of(page@));
    }
    let mut out: Vec<(String, u32)> = Vec::new();
    build_versions(&links, &marks, 0, &mut out);
    proof {
        assert(out@.map_values(|e: (String, u32)| (e.0@, e.1)) =~= versions_of_page(page@));
    }
    out
}

/// The files due for download given a version table, from entry `i` on:
/// a watched file whose node stores a strictly smaller version than the
/// table declares.
pub open spec fn due_fold(
    ts: Seq<(String, usize)>,
    ns: Seq<NodeV>,
    infos: Seq<(Seq<char>, u32)>,
    i: int,
    acc: Seq<usize>,
) -> Seq<usize>
    decreases infos.len() - i + 1,
        when 0 <= i
{
    if i >= infos.len() {
        acc
    } else {
        let acc2 = match title_lookup(ts, infos[i].0) {
            Some(id) => if (id as int) < ns.len() && (ns[id as int].kind matches KindV::File {
                version,
                ..
            } && infos[i].1 > version) {
                acc.push(id)
            } else {
                acc
            },
            None => acc,
        };
        due_fold(ts, ns, infos, i + 1, acc2)
    }
}

impl FileWatcher {
    /// Compare a version table against the tree: a watched file is due for
    /// download exactly when the table declares a strictly greater version
    /// than its node stores.
    pub fn due_downloads(&self, tree: &Tree, infos: &Vec<(String, u32)>) -> (due: Vec<usize>)
        ensures
            due@ == due_fold(
                self.titles@,
                tree_view(*tree),
                infos@.map_values(|e: (String, u32)| (e.0@, e.1)),
                0,
                Seq::empty(),
            ),
    {
        let ghost ns = tree_view(*tree);
        let ghost iv = infos@.map_values(|e: (String, u32)| (e.0@, e.1));
        let mut due: Vec<usize> = Vec::new();
        let n = infos.len();
        let tlen = tree.nodes.len();
        let mut i: usize = 0;
        while i < n
            invariant
                n == infos@.len(),
                iv == infos@.map_values(|e: (String, u32)| (e.0@, e.1)),
                ns == tree_view(*tree),
                tlen == tree.nodes@.len(),
                i <= n,
                due_fold(self.titles@, ns, iv, 0, Seq::empty()) == due_fold(
                    self.titles@,
                    ns,
                    iv,
                    i as int,
                    due@,
                ),
            decreases n - i,
        {
            match self.find_by_title(infos[i].0.as_str()) {
                Some(id) => {
                    if id < tlen {
                        let hit = match &tree.nodes[id].breed {
                            IlNodeType::File { version, .. } => infos[i].1 > *version,
                            _ => false,
                        };
                        proof {
                            assert(ns[id as int].kind == crate::node::kind_view(
                                tree.nodes@[id as int].breed,
                            ));
                        }
                        if hit {
                            due.push(id);
                        }
                    }
                },
                None => {},
            }
            i += 1;
        }
        due
    }
}

} // verus!
