use vstd::prelude::*;

use crate::config::Config;
use crate::project::{
    contains_path, display_of, has_path, paths_unique, views_of, Project, ProjectView,
};

verus! {

/// One directory entry met while walking a scan root, as read from disk.
pub struct WalkEntry {
    /// Path of the entry.
    pub path: String,
    /// Depth of the entry below the scan root; the root itself is at depth 0.
    pub depth: usize,
    /// Whether the entry is a directory.
    pub is_dir: bool,
    /// For each configured marker, in order, whether it exists inside the entry.
    pub markers_found: Vec<bool>,
}

/// What was read under one scan root: `None` where the root does not resolve
/// to an existing directory.
pub struct RootListing {
    /// The scan root, with the home directory already expanded.
    pub root: String,
    pub entries: Option<Vec<WalkEntry>>,
}

/// The view of an optional string.
pub open spec fn opt_chars(s: Option<String>) -> Option<Seq<char>> {
    match s {
        Some(t) => Some(t@),
        None => None,
    }
}

/// `input` with a leading `~`, alone or followed by a separator, replaced by
/// the home directory, where one is known.
pub open spec fn tilde_expanded(input: Seq<char>, home: Option<Seq<char>>) -> Seq<char> {
    if input.len() > 0 && input[0] == '~' && (input.len() == 1 || input[1] == '/') && home is Some {
        home->0 + input.drop_first()
    } else {
        input
    }
}

/// Relies on shellexpand's `tilde_with_context`, with `home` as the home
/// directory: on Unix it replaces a leading `~` that stands alone or before a
/// `/` by the home directory when there is one, and leaves any other input as
/// it is.
#[verifier::external_body]
fn expand_tilde(input: &str, home: &Option<String>) -> (r: String)
    ensures
        r@ == tilde_expanded(input@, opt_chars(*home)),
{
    shellexpand::tilde_with_context(input, || home.as_deref()).into_owned()
}

/// The scan roots of `config`, each with the home directory `home` expanded.
pub fn resolve_roots(config: &Config, home: &Option<String>) -> (r: Vec<String>)
    ensures
        r.len() == config.scan_paths.len(),
        forall|i: int|
            0 <= i < r.len() ==> (#[trigger] r[i])@ == tilde_expanded(
                config.scan_paths[i]@,
                opt_chars(*home),
            ),
{
    let mut r: Vec<String> = Vec::new();
    let mut i: usize = 0;
    while i < config.scan_paths.len()
        invariant
            i <= config.scan_paths.len(),
            r.len() == i,
            forall|t: int|
                0 <= t < i ==> (#[trigger] r[t])@ == tilde_expanded(
                    config.scan_paths[t]@,
                    opt_chars(*home),
                ),
        decreases config.scan_paths.len() - i,
    {
        r.push(expand_tilde(config.scan_paths[i].as_str(), home));
        i = i + 1;
    }
    r
}

/// At least one marker was found.
pub open spec fn any_found(found: Seq<bool>) -> bool {
    exists|i: int| 0 <= i < found.len() && found[i]
}

/// A directory is a project root when at least one of the markers was found
/// in it.
pub fn is_project(markers_found: &[bool]) -> (r: bool)
    ensures
        r == any_found(markers_found@),
{
    let mut i: usize = 0;
    while i < markers_found.len()
        invariant
            i <= markers_found.len(),
            forall|t: int| 0 <= t < i ==> !markers_found@[t],
        decreases markers_found.len() - i,
    {
        if markers_found[i] {
            return true;
        }
        i = i + 1;
    }
    false
}

/// The entry is a project root within reach: a directory, no deeper than
/// `max_depth`, holding at least one marker.
pub open spec fn qualifies(e: WalkEntry, max_depth: usize) -> bool {
    &&& e.depth <= max_depth
    &&& e.is_dir
    &&& any_found(e.markers_found@)
}

/// Entry `j` of listing `i` exists and is a project root within reach.
pub open spec fn found_at(listings: Seq<RootListing>, max_depth: usize, i: int, j: int) -> bool {
    &&& 0 <= i < listings.len()
    &&& listings[i].entries is Some
    &&& 0 <= j < listings[i].entries->0.len()
    &&& qualifies(listings[i].entries->0[j], max_depth)
}

/// The project made of entry `j` of listing `i`.
pub open spec fn discovered(listings: Seq<RootListing>, i: int, j: int) -> ProjectView {
    let path = listings[i].entries->0[j].path@;
    ProjectView { path: path, display_path: display_of(path, listings[i].root@) }
}

/// The path of entry `j` of listing `i`.
pub open spec fn entry_path(listings: Seq<RootListing>, i: int, j: int) -> Seq<char> {
    listings[i].entries->0[j].path@
}

/// Entry `(a, b)` comes before entry `(i, j)` in walk order.
pub open spec fn earlier(a: int, b: int, i: int, j: int) -> bool {
    a < i || (a == i && b < j)
}

/// Entry `j` of listing `i` is a project root within reach, and no earlier
/// such entry has its path.
pub open spec fn first_found(listings: Seq<RootListing>, max_depth: usize, i: int, j: int) -> bool {
    &&& found_at(listings, max_depth, i, j)
    &&& forall|a: int, b: int|
        #[trigger] found_at(listings, max_depth, a, b) && earlier(a, b, i, j) ==> entry_path(
            listings,
            a,
            b,
        ) != entry_path(listings, i, j)
}

/// `p` is made of the first project root within reach, in walk order, that
/// has its path.
pub open spec fn from_listings(listings: Seq<RootListing>, max_depth: usize, p: ProjectView) -> bool {
    exists|i: int, j: int| #[trigger] first_found(listings, max_depth, i, j) && p == discovered(listings, i, j)
}

/// `r` is what a scan of `listings` finds: every project root within reach,
/// each path once, displayed relative to the root of its first occurrence.
pub open spec fn is_scan_result(listings: Seq<RootListing>, max_depth: usize, r: Seq<ProjectView>) -> bool {
    &&& forall|k: int| 0 <= k < r.len() ==> from_listings(listings, max_depth, #[trigger] r[k])
    &&& forall|i: int, j: int|
        #[trigger] found_at(listings, max_depth, i, j) ==> has_path(r, listings[i].entries->0[j].path@)
    &&& paths_unique(r)
}

/// A path is found exactly when some entry with that path is a project root
/// within reach.
pub proof fn lemma_found_iff_within_reach(
    listings: Seq<RootListing>,
    max_depth: usize,
    r: Seq<ProjectView>,
    p: Seq<char>,
)
    requires
        is_scan_result(listings, max_depth, r),
    ensures
        has_path(r, p) <==> exists|a: int, b: int|
            #[trigger] found_at(listings, max_depth, a, b) && entry_path(listings, a, b) == p,
{
    if has_path(r, p) {
        let k = choose|k: int| 0 <= k < r.len() && (#[trigger] r[k]).path == p;
        assert(from_listings(listings, max_depth, r[k]));
        let (a, b) = choose|a: int, b: int|
            #[trigger] first_found(listings, max_depth, a, b) && r[k] == discovered(listings, a, b);
        assert(found_at(listings, max_depth, a, b) && entry_path(listings, a, b) == p);
    }
}

/// Under one scan root, whose walk meets each path once, a directory holding
/// a marker is found exactly when its depth is at most `max_depth`.
pub proof fn lemma_depth_bound(
    listings: Seq<RootListing>,
    max_depth: usize,
    r: Seq<ProjectView>,
    j: int,
)
    requires
        is_scan_result(listings, max_depth, r),
        listings.len() == 1,
        listings[0].entries is Some,
        forall|b1: int, b2: int|
            0 <= b1 < b2 < listings[0].entries->0.len() ==> entry_path(listings, 0, b1) != entry_path(
                listings,
                0,
                b2,
            ),
        0 <= j < listings[0].entries->0.len(),
        listings[0].entries->0[j].is_dir,
        any_found(listings[0].entries->0[j].markers_found@),
    ensures
        has_path(r, entry_path(listings, 0, j)) <==> listings[0].entries->0[j].depth <= max_depth,
{
    let p = entry_path(listings, 0, j);
    lemma_found_iff_within_reach(listings, max_depth, r, p);
    if listings[0].entries->0[j].depth <= max_depth {
        assert(found_at(listings, max_depth, 0, j));
    } else if has_path(r, p) {
        let (a, b) = choose|a: int, b: int|
            #[trigger] found_at(listings, max_depth, a, b) && entry_path(listings, a, b) == p;
        if b < j {
            assert(entry_path(listings, 0, b) != entry_path(listings, 0, j));
        } else if b > j {
            assert(entry_path(listings, 0, j) != entry_path(listings, 0, b));
        }
    }
}

/// The project made of the first occurrence of a path is among the results.
proof fn lemma_first_is_found(
    listings: Seq<RootListing>,
    max_depth: usize,
    r: Seq<ProjectView>,
    i: int,
    j: int,
)
    requires
        is_scan_result(listings, max_depth, r),
        first_found(listings, max_depth, i, j),
    ensures
        r.contains(discovered(listings, i, j)),
{
    let p = entry_path(listings, i, j);
    assert(has_path(r, p));
    let k = choose|k: int| 0 <= k < r.len() && (#[trigger] r[k]).path == p;
    assert(from_listings(listings, max_depth, r[k]));
    let (c, d) = choose|c: int, d: int|
        #[trigger] first_found(listings, max_depth, c, d) && r[k] == discovered(listings, c, d);
    if earlier(c, d, i, j) {
        assert(found_at(listings, max_depth, c, d));
    } else if earlier(i, j, c, d) {
        assert(found_at(listings, max_depth, i, j));
    }
    assert(c == i && d == j);
}

/// Dropping from the listings any number of scan roots that could not be read
/// leaves the projects found the same. `kept` gives, in increasing order, the
/// positions of the listings that stay; every readable one stays.
pub proof fn lemma_missing_roots_ignored(
    listings: Seq<RootListing>,
    max_depth: usize,
    kept: Seq<int>,
    r1: Seq<ProjectView>,
    r2: Seq<ProjectView>,
)
    requires
        forall|t: int| 0 <= t < kept.len() ==> 0 <= #[trigger] kept[t] < listings.len(),
        forall|t1: int, t2: int| 0 <= t1 < t2 < kept.len() ==> #[trigger] kept[t1] < #[trigger] kept[t2],
        forall|i: int|
            0 <= i < listings.len() && (#[trigger] listings[i]).entries is Some ==> exists|t: int|
                0 <= t < kept.len() && kept[t] == i,
        is_scan_result(listings, max_depth, r1),
        is_scan_result(Seq::new(kept.len(), |t: int| listings[kept[t]]), max_depth, r2),
    ensures
        forall|x: ProjectView| r1.contains(x) <==> r2.contains(x),
{
    let l2 = Seq::new(kept.len(), |t: int| listings[kept[t]]);
    assert forall|t1: int, t2: int| 0 <= t1 < kept.len() && 0 <= t2 < kept.len() implies
        (t1 < t2 <==> kept[t1] < kept[t2]) && (t1 == t2 <==> kept[t1] == kept[t2]) by {
        if t1 < t2 {
            assert(kept[t1] < kept[t2]);
        } else if t2 < t1 {
            assert(kept[t2] < kept[t1]);
        }
    }
    assert forall|x: ProjectView| r1.contains(x) implies r2.contains(x) by {
        let k = choose|k: int| 0 <= k < r1.len() && r1[k] == x;
        assert(from_listings(listings, max_depth, r1[k]));
        let (a, b) = choose|a: int, b: int|
            #[trigger] first_found(listings, max_depth, a, b) && r1[k] == discovered(listings, a, b);
        assert(listings[a].entries is Some);
        let a2 = choose|t: int| 0 <= t < kept.len() && kept[t] == a;
        assert(l2[a2] == listings[a]);
        assert(found_at(l2, max_depth, a2, b));
        assert forall|c2: int, d2: int|
            #[trigger] found_at(l2, max_depth, c2, d2) && earlier(c2, d2, a2, b) implies entry_path(l2, c2, d2) != entry_path(l2, a2, b) by {
            let c = kept[c2];
            assert(l2[c2] == listings[c]);
            assert(found_at(listings, max_depth, c, d2));
            assert(earlier(c, d2, a, b));
        }
        assert(first_found(l2, max_depth, a2, b));
        lemma_first_is_found(l2, max_depth, r2, a2, b);
        assert(discovered(l2, a2, b) == x);
    }
    assert forall|x: ProjectView| r2.contains(x) implies r1.contains(x) by {
        let k = choose|k: int| 0 <= k < r2.len() && r2[k] == x;
        assert(from_listings(l2, max_depth, r2[k]));
        let (a2, b) = choose|a2: int, b: int|
            #[trigger] first_found(l2, max_depth, a2, b) && r2[k] == discovered(l2, a2, b);
        let a = kept[a2];
        assert(l2[a2] == listings[a]);
        assert(found_at(listings, max_depth, a, b));
        assert forall|c: int, d: int|
            #[trigger] found_at(listings, max_depth, c, d) && earlier(c, d, a, b) implies entry_path(listings, c, d) != entry_path(listings, a, b) by {
            assert(listings[c].entries is Some);
            let c2 = choose|t: int| 0 <= t < kept.len() && kept[t] == c;
            assert(l2[c2] == listings[c]);
            assert(found_at(l2, max_depth, c2, d));
            assert(earlier(c2, d, a2, b));
            assert(entry_path(l2, c2, d) == entry_path(listings, c, d));
            assert(entry_path(l2, a2, b) == entry_path(listings, a, b));
        }
        assert(first_found(listings, max_depth, a, b));
        lemma_first_is_found(listings, max_depth, r1, a, b);
        assert(discovered(listings, a, b) == x);
    }
}

/// The projects found in what was read under the scan roots: every project
/// root within reach of `config`, each path once, displayed relative to the
/// root of its first occurrence in walk order. A root that could not be read
/// adds nothing.
pub fn scan_listings(config: &Config, listings: &Vec<RootListing>) -> (r: Vec<Project>)
    ensures
        is_scan_result(listings@, config.max_depth, views_of(r@)),
{
    let ghost ls = listings@;
    let md = config.max_depth;
    let mut out: Vec<Project> = Vec::new();
    let mut i: usize = 0;
    while i < listings.len()
        invariant
            ls == listings@,
            md == config.max_depth,
            i <= listings.len(),
            forall|k: int| 0 <= k < out.len() ==> from_listings(ls, md, (#[trigger] out[k])@),
            forall|a: int, b: int|
                0 <= a < i && #[trigger] found_at(ls, md, a, b) ==> has_path(
                    views_of(out@),
                    ls[a].entries->0[b].path@,
                ),
            paths_unique(views_of(out@)),
        decreases listings.len() - i,
    {
        let listing = &listings[i];
        match &listing.entries {
            None => {},
            Some(entries) => {
                let mut j: usize = 0;
                while j < entries.len()
                    invariant
                        ls == listings@,
                        md == config.max_depth,
                        i < listings.len(),
                        *listing == ls[i as int],
                        listing.entries == Some(*entries),
                        j <= entries.len(),
                        forall|k: int| 0 <= k < out.len() ==> from_listings(ls, md, (#[trigger] out[k])@),
                        forall|a: int, b: int|
                            (0 <= a < i || (a == i && b < j)) && #[trigger] found_at(ls, md, a, b)
                                ==> has_path(views_of(out@), ls[a].entries->0[b].path@),
                        paths_unique(views_of(out@)),
                    decreases entries.len() - j,
                {
                    let e = &entries[j];
                    if e.depth <= md && e.is_dir && is_project(e.markers_found.as_slice()) {
                        if !contains_path(&out, &e.path) {
                            let ghost before = views_of(out@);
                            let ghost before_out = out@;
                            let p = Project::new(e.path.clone(), listing.root.as_str());
                            out.push(p);
                            proof {
                                let now = views_of(out@);
                                assert(now =~= before.push(p@));
                                assert(found_at(ls, md, i as int, j as int));
                                assert(e.path@ == entry_path(ls, i as int, j as int));
                                assert(!has_path(before, e.path@));
                                assert forall|a: int, b: int|
                                    #[trigger] found_at(ls, md, a, b) && earlier(a, b, i as int, j as int)
                                        implies entry_path(ls, a, b) != entry_path(ls, i as int, j as int) by {
                                    assert(has_path(before, ls[a].entries->0[b].path@));
                                }
                                assert(first_found(ls, md, i as int, j as int));
                                assert(p@ == discovered(ls, i as int, j as int));
                                assert forall|k: int| 0 <= k < out.len() implies from_listings(ls, md, (#[trigger] out[k])@) by {
                                    if k == out.len() - 1 {
                                        assert(first_found(ls, md, i as int, j as int) && out[k]@ == discovered(ls, i as int, j as int));
                                    } else {
                                        assert(out@[k] == before_out[k]);
                                    }
                                }
                                assert forall|a: int, b: int|
                                    0 <= a < now.len() && 0 <= b < now.len() && a < b implies (#[trigger] now[a]).path != (#[trigger] now[b]).path by {
                                    assert(now[a] == if a < before.len() { before[a] } else { p@ });
                                    if b == now.len() - 1 {
                                        assert(before[a].path != p@.path);
                                    } else {
                                        assert(now[b] == before[b]);
                                    }
                                }
                                assert forall|a: int, b: int|
                                    (0 <= a < i || (a == i && b < j + 1)) && #[trigger] found_at(ls, md, a, b)
                                        implies has_path(now, ls[a].entries->0[b].path@) by {
                                    if a == i && b == j {
                                        assert(now[now.len() - 1].path == p@.path);
                                    } else {
                                        let t = choose|t: int| 0 <= t < before.len() && (#[trigger] before[t]).path == ls[a].entries->0[b].path@;
                                        assert(now[t] == before[t]);
                                    }
                                }
                            }
                        }
                    }
                    j = j + 1;
                }
            },
        }
        i = i + 1;
    }
    proof {
        let v = views_of(out@);
        assert forall|k: int| 0 <= k < v.len() implies from_listings(ls, md, #[trigger] v[k]) by {
            assert(v[k] == out[k]@);
        }
    }
    out
}

} // verus!
