//! From a fetched listing page to item records.
//!
//! The markup query itself — CSS selectors over the parsed document — is
//! done by the `scraper` crate behind trusted wrappers that return plain
//! strings; everything after that (locating the icon name, decoding the
//! version, assembling records, filtering course rows) is verified here.
//! Each wrapper's result is a function of the page text alone, named by an
//! uninterpreted spec function.

use vstd::prelude::*;

use crate::node::ItemRecord;
use crate::node::RecV;
use crate::node::recs_view;
use crate::scan::icon_in;
use crate::scan::version_in;
use crate::scan::find_at_or_after;

verus! {

/// For each listing container of a page, its link href and link text, in
/// document order.
pub uninterp spec fn links_of(page: Seq<char>) -> Seq<(Option<Seq<char>>, Option<Seq<char>>)>;

/// For each listing container of a page, its icon source and its third
/// property text, in document order.
pub uninterp spec fn marks_of(page: Seq<char>) -> Seq<(Option<Seq<char>>, Option<Seq<char>>)>;

/// For each top-level item of the personal start page, its link href, link
/// text and icon alternative text, in document order.
pub uninterp spec fn root_rows_of(page: Seq<char>) -> Seq<
    (Option<Seq<char>>, Option<Seq<char>>, Option<Seq<char>>),
>;

pub open spec fn opt_view(o: Option<String>) -> Option<Seq<char>> {
    match o {
        Some(s) => Some(s@),
        None => None,
    }
}

/// Relies on scraper's `Html::parse_document`, `Selector::parse` and
/// element selection: for each `.ilContainerListItemOuter` container, the
/// `href` attribute and inner text of the last `.il_ContainerItemTitle > a`
/// link. Parsing is deterministic in the page text.
#[verifier::external_body]
pub(crate) fn scrape_links(page: &str) -> (rows: Vec<(Option<String>, Option<String>)>)
    ensures
        rows@.len() == links_of(page@).len(),
        forall|i: int|
            0 <= i < rows@.len() ==> (opt_view(#[trigger] rows@[i].0), opt_view(rows@[i].1))
                == links_of(page@)[i],
{
    let doc = scraper::Html::parse_document(page);
    let outer = scraper::Selector::parse(".ilContainerListItemOuter").unwrap();
    let link = scraper::Selector::parse(".il_ContainerItemTitle > a").unwrap();
    doc.select(&outer).map(
        |e|
            (
                e.select(&link).last().and_then(|a| a.attr("href")).map(str::to_string),
                e.select(&link).last().map(|a| a.inner_html()),
            ),
    ).collect()
}

/// Relies on scraper's `Html::parse_document`, `Selector::parse` and
/// element selection: for each `.ilContainerListItemOuter` container, the
/// `src` attribute of the last `.ilListItemIcon` image and the inner text
/// of the third `.il_ItemProperty`. Parsing is deterministic in the page
/// text.
#[verifier::external_body]
pub(crate) fn scrape_marks(page: &str) -> (rows: Vec<(Option<String>, Option<String>)>)
    ensures
        rows@.len() == marks_of(page@).len(),
        forall|i: int|
            0 <= i < rows@.len() ==> (opt_view(#[trigger] rows@[i].0), opt_view(rows@[i].1))
                == marks_of(page@)[i],
{
    let doc = scraper::Html::parse_document(page);
    let outer = scraper::Selector::parse(".ilContainerListItemOuter").unwrap();
    let icon = scraper::Selector::parse(".ilListItemIcon").unwrap();
    let prop = scraper::Selector::parse(".il_ItemProperty").unwrap();
    doc.select(&outer).map(
        |e|
            (
                e.select(&icon).last().and_then(|m| m.attr("src")).map(str::to_string),
                e.select(&prop).nth(2).map(|p| p.inner_html()),
            ),
    ).collect()
}

/// Relies on scraper's `Html::parse_document`, `Selector::parse` and
/// element selection: for each `.il-item` of the start page, the `href`
/// and inner text of the first `.il-item-title > a` link and the `alt`
/// text of the first `.icon` image. Parsing is deterministic in the page
/// text.
#[verifier::external_body]
fn scrape_root_rows(page: &str) -> (rows: Vec<(Option<String>, Option<String>, Option<String>)>)
    ensures
        rows@.len() == root_rows_of(page@).len(),
        forall|i: int|
            0 <= i < rows@.len() ==> (
                opt_view(#[trigger] rows@[i].0),
                opt_view(rows@[i].1),
                opt_view(rows@[i].2),
            ) == root_rows_of(page@)[i],
{
    let doc = scraper::Html::parse_document(page);
    let outer = scraper::Selector::parse(".il-item").unwrap();
    let link = scraper::Selector::parse(".il-item-title > a").unwrap();
    let icon = scraper::Selector::parse(".icon").unwrap();
    doc.select(&outer).map(
        |e|
            (
                e.select(&link).next().and_then(|a| a.attr("href")).map(str::to_string),
                e.select(&link).next().map(|a| a.inner_html()),
                e.select(&icon).next().and_then(|m| m.attr("alt")).map(str::to_string),
            ),
    ).collect()
}

/// The kind hint a container row carries: the icon name of its image
/// source, or nothing recognizable.
pub open spec fn hint_of_mark(mark: (Option<Seq<char>>, Option<Seq<char>>)) -> Seq<char> {
    match mark.0 {
        Some(src) => match icon_in(src) {
            Some(h) => h,
            None => Seq::empty(),
        },
        None => Seq::empty(),
    }
}

/// The version a container row declares in its third property, if any.
pub open spec fn version_of_mark(mark: (Option<Seq<char>>, Option<Seq<char>>)) -> Option<u32> {
    match mark.1 {
        Some(p) => match version_in(p) {
            Some(v) => Some(v as u32),
            None => None,
        },
        None => None,
    }
}

/// The records of a listing page, from row `i` on: one per container row
/// that carries an href, pairing the row's link with its icon hint and
/// declared version. Rows without an href are skipped.
pub open spec fn listing_records_from(
    links: Seq<(Option<Seq<char>>, Option<Seq<char>>)>,
    marks: Seq<(Option<Seq<char>>, Option<Seq<char>>)>,
    i: int,
) -> Seq<RecV>
    decreases links.len() - i + 1,
        when 0 <= i
{
    if i >= links.len() || i >= marks.len() {
        Seq::empty()
    } else {
        let rest = listing_records_from(links, marks, i + 1);
        match links[i].0 {
            Some(u) => seq![
                RecV {
                    uri: u,
                    title: match links[i].1 {
                        Some(t) => t,
                        None => Seq::empty(),
                    },
                    hint: hint_of_mark(marks[i]),
                    version: version_of_mark(marks[i]),
                },
            ] + rest,
            None => rest,
        }
    }
}

/// All records of a listing page.
pub open spec fn records_of_page(page: Seq<char>) -> Seq<RecV> {
    listing_records_from(links_of(page), marks_of(page), 0)
}

fn build_records(
    links: &Vec<(Option<String>, Option<String>)>,
    marks: &Vec<(Option<String>, Option<String>)>,
    i: usize,
    out: &mut Vec<ItemRecord>,
)
    requires
        i <= links@.len(),
    ensures
        recs_view(final (out)@) == recs_view(old(out)@) + listing_records_from(
            links@.map_values(|l: (Option<String>, Option<String>)| (opt_view(l.0), opt_view(l.1))),
            marks@.map_values(|m: (Option<String>, Option<String>)| (opt_view(m.0), opt_view(m.1))),
            i as int,
        ),
    decreases links@.len() - i,
{
    let ghost lv = links@.map_values(
        |l: (Option<String>, Option<String>)| (opt_view(l.0), opt_view(l.1)),
    );
    let ghost mv = marks@.map_values(
        |m: (Option<String>, Option<String>)| (opt_view(m.0), opt_view(m.1)),
    );
    if i >= links.len() || i >= marks.len() {
        proof {
            assert(recs_view(out@) =~= recs_view(out@) + listing_records_from(lv, mv, i as int));
        }
        return ;
    }
    match &links[i].0 {
        Some(u) => {
            let title = match &links[i].1 {
                Some(t) => t.clone(),
                None => String::new(),
            };
            let hint = match &marks[i].0 {
                Some(src) => match crate::scan::icon_hint(src.as_str()) {
                    Some(h) => h,
                    None => String::new(),
                },
                None => String::new(),
            };
            let version = match &marks[i].1 {
                Some(p) => crate::scan::extract_version(p.as_str()),
                None => None,
            };
            let rec = ItemRecord { uri: u.clone(), title, kind_hint: hint, version };
            proof {
                assert(crate::node::rec_view(rec) =~= listing_records_from(lv, mv, i as int)[0]);
            }
            out.push(rec);
        },
        None => {},
    }
    let ghost mid = out@;
    build_records(links, marks, i + 1, out);
    proof {
        assert(recs_view(out@) =~= recs_view(old(out)@) + listing_records_from(lv, mv, i as int));
    }
}

/// Parse a container's listing page into its item records.
pub fn parse_listing(page: &str) -> (records: Vec<ItemRecord>)
    ensures
        recs_view(records@) == records_of_page(page@),
{
    let links = scrape_links(page);
    let marks = scrape_marks(page);
    proof {
        assert(links@.map_values(
            |l: (Option<String>, Option<String>)| (opt_view(l.0), opt_view(l.1)),
        ) =~= links_of(page@));
        assert(marks@.map_values(
            |m: (Option<String>, Option<String>)| (opt_view(m.0), opt_view(m.1)),
        ) =~= marks_of(page@));
    }
    let mut out: Vec<ItemRecord> = Vec::new();
    build_records(&links, &marks, 0, &mut out);
    proof {
        assert(recs_view(out@) =~= records_of_page(page@));
    }
    out
}

/// Whether a start-page row is a course: its icon alternative text contains
/// the course marker.
pub open spec fn is_course_row(
    row: (Option<Seq<char>>, Option<Seq<char>>, Option<Seq<char>>),
) -> bool {
    match row.2 {
        Some(alt) => find_at_or_after(alt, "Kurs"@, 0) is Some,
        None => false,
    }
}

/// The records of the start page, from row `i` on: one per course row that
/// carries an href, each hinted as a course.
pub open spec fn root_records_from(
    rows: Seq<(Option<Seq<char>>, Option<Seq<char>>, Option<Seq<char>>)>,
    i: int,
) -> Seq<RecV>
    decreases rows.len() - i + 1,
        when 0 <= i
{
    if i >= rows.len() {
        Seq::empty()
    } else {
        let rest = root_records_from(rows, i + 1);
        match rows[i].0 {
            Some(u) => if is_course_row(rows[i]) {
                seq![
                    RecV {
                        uri: u,
                        title: match rows[i].1 {
                            Some(t) => t,
                            None => Seq::empty(),
                        },
                        hint: "crs"@,
                        version: None,
                    },
                ] + rest
            } else {
                rest
            },
            None => rest,
        }
    }
}

/// All course records of the start page.
pub open spec fn root_records_of_page(page: Seq<char>) -> Seq<RecV> {
    root_records_from(root_rows_of(page), 0)
}

fn build_root_records(
    rows: &Vec<(Option<String>, Option<String>, Option<String>)>,
    i: usize,
    out: &mut Vec<ItemRecord>,
)
    requires
        i <= rows@.len(),
    ensures
        recs_view(final (out)@) == recs_view(old(out)@) + root_records_from(
            rows@.map_values(
                |r: (Option<String>, Option<String>, Option<String>)|
                    (opt_view(r.0), opt_view(r.1), opt_view(r.2)),
            ),
            i as int,
        ),
    decreases rows@.len() - i,
{
    let ghost rv = rows@.map_values(
        |r: (Option<String>, Option<String>, Option<String>)|
            (opt_view(r.0), opt_view(r.1), opt_view(r.2)),
    );
    if i >= rows.len() {
        proof {
            assert(recs_view(out@) =~= recs_view(out@) + root_records_from(rv, i as int));
        }
        return ;
    }
    match &rows[i].0 {
        Some(u) => {
            let course = match &rows[i].2 {
                Some(alt) => crate::scan::find_sub_from(alt.as_str(), "Kurs", 0).is_some(),
                None => false,
            };
            if course {
                let title = match &rows[i].1 {
                    Some(t) => t.clone(),
                    None => String::new(),
                };
                let rec = ItemRecord {
                    uri: u.clone(),
                    title,
                    kind_hint: "crs".to_owned(),
                    version: None,
                };
                proof {
                    assert(crate::node::rec_view(rec) =~= root_records_from(rv, i as int)[0]);
                }
                out.push(rec);
            }
        },
        None => {},
    }
    build_root_records(rows, i + 1, out);
    proof {
        assert(recs_view(out@) =~= recs_view(old(out)@) + root_records_from(rv, i as int));
    }
}

/// Parse the personal start page into one course record per course shown.
pub fn parse_root_listing(page: &str) -> (records: Vec<ItemRecord>)
    ensures
        recs_view(records@) == root_records_of_page(page@),
{
    let rows = scrape_root_rows(page);
    proof {
        assert(rows@.map_values(
            |r: (Option<String>, Option<String>, Option<String>)|
                (opt_view(r.0), opt_view(r.1), opt_view(r.2)),
        ) =~= root_rows_of(page@));
    }
    let mut out: Vec<ItemRecord> = Vec::new();
    build_root_records(&rows, 0, &mut out);
    proof {
        assert(recs_view(out@) =~= root_records_of_page(page@));
    }
    out
}

} // verus!
