use vstd::prelude::*;

verus! {

/// The mathematical model of a project: its path and its display path.
pub struct ProjectView {
    pub path: Seq<char>,
    pub display_path: Seq<char>,
}

/// A discovered project root.
#[derive(Debug, Clone)]
pub struct Project {
    /// Path of the project directory; it identifies the project.
    pub path: String,
    /// Path relative to the scan root the project was found under, used for
    /// display and as the text a query is matched against.
    pub display_path: String,
}

impl View for Project {
    type V = ProjectView;

    open spec fn view(&self) -> ProjectView {
        ProjectView { path: self.path@, display_path: self.display_path@ }
    }
}

/// `s` without the separators it ends with.
pub open spec fn trim_trailing_sep(s: Seq<char>) -> Seq<char>
    decreases s.len(),
{
    if s.len() > 0 && s.last() == '/' {
        trim_trailing_sep(s.drop_last())
    } else {
        s
    }
}

/// `s` without the separators it starts with.
pub open spec fn trim_leading_sep(s: Seq<char>) -> Seq<char>
    decreases s.len(),
{
    if s.len() > 0 && s[0] == '/' {
        trim_leading_sep(s.drop_first())
    } else {
        s
    }
}

/// `path` lies inside the non-empty `root`: the root, without trailing
/// separators, is a prefix of `path` that ends at a separator or at the end.
pub open spec fn is_under(path: Seq<char>, root: Seq<char>) -> bool {
    let r = trim_trailing_sep(root);
    &&& root.len() > 0
    &&& r.len() <= path.len()
    &&& path.subrange(0, r.len() as int) == r
    &&& (path.len() == r.len() || path[r.len() as int] == '/')
}

/// The display path of `path` found under `root`: what follows the root and
/// its separator, or the whole path where it does not lie under the root.
pub open spec fn display_of(path: Seq<char>, root: Seq<char>) -> Seq<char> {
    if is_under(path, root) {
        trim_leading_sep(path.subrange(trim_trailing_sep(root).len() as int, path.len() as int))
    } else {
        path
    }
}

proof fn lemma_trim_trailing_len(s: Seq<char>)
    ensures
        trim_trailing_sep(s).len() <= s.len(),
        trim_trailing_sep(s) == s.subrange(0, trim_trailing_sep(s).len() as int),
    decreases s.len(),
{
    if s.len() > 0 && s.last() == '/' {
        lemma_trim_trailing_len(s.drop_last());
        assert(s.drop_last().subrange(0, trim_trailing_sep(s).len() as int)
            =~= s.subrange(0, trim_trailing_sep(s).len() as int));
    } else {
        assert(s.subrange(0, s.len() as int) =~= s);
    }
}

/// A project at `root/rel` scanned from `root` is displayed as `rel`.
pub proof fn lemma_display_under_root(root: Seq<char>, rel: Seq<char>)
    requires
        root.len() > 0,
        root.last() != '/',
        rel.len() > 0 ==> rel[0] != '/',
    ensures
        display_of(root + seq!['/'] + rel, root) == rel,
{
    let path = root + seq!['/'] + rel;
    assert(trim_trailing_sep(root) == root);
    assert(path.subrange(0, root.len() as int) =~= root);
    assert(path[root.len() as int] == '/');
    let tail = path.subrange(root.len() as int, path.len() as int);
    assert(tail =~= seq!['/'] + rel);
    assert(tail.drop_first() =~= rel);
    assert(trim_leading_sep(tail) == trim_leading_sep(rel));
}

/// Number of characters of `root` left once its trailing separators are
/// removed.
fn trimmed_root_len(root: &str) -> (r: usize)
    ensures
        r == trim_trailing_sep(root@).len(),
{
    let mut k: usize = root.unicode_len();
    assert(root@.subrange(0, k as int) =~= root@);
    while k > 0 && root.get_char(k - 1) == '/'
        invariant
            k <= root@.len(),
            trim_trailing_sep(root@) == trim_trailing_sep(root@.subrange(0, k as int)),
        decreases k,
    {
        assert(root@.subrange(0, k as int).drop_last() =~= root@.subrange(0, k - 1));
        k = k - 1;
    }
    proof {
        let t = root@.subrange(0, k as int);
        assert(!(t.len() > 0 && t.last() == '/'));
    }
    k
}

/// Computes the display path of `path` found under `root`.
pub fn relative_display(path: &str, root: &str) -> (r: String)
    ensures
        r@ == display_of(path@, root@),
{
    let n = path.unicode_len();
    let m = root.unicode_len();
    let rl = trimmed_root_len(root);
    proof {
        lemma_trim_trailing_len(root@);
    }
    let mut under = m > 0 && rl <= n;
    if under {
        let mut i: usize = 0;
        while i < rl
            invariant
                rl <= n,
                n == path@.len(),
                rl == trim_trailing_sep(root@).len(),
                trim_trailing_sep(root@) == root@.subrange(0, rl as int),
                rl <= root@.len(),
                i <= rl,
                under ==> path@.subrange(0, i as int) =~= root@.subrange(0, i as int),
                !under ==> path@.subrange(0, rl as int) != root@.subrange(0, rl as int),
            decreases rl - i,
        {
            if path.get_char(i) != root.get_char(i) {
                assert(path@.subrange(0, rl as int)[i as int] != root@.subrange(0, rl as int)[i as int]);
                under = false;
                i = rl;
            } else {
                i = i + 1;
            }
        }
        if under && rl < n && path.get_char(rl) != '/' {
            under = false;
        }
    }
    if !under {
        assert(!is_under(path@, root@));
        return String::from_str(path);
    }
    let mut s: usize = rl;
    while s < n && path.get_char(s) == '/'
        invariant
            rl <= s <= n,
            n == path@.len(),
            trim_leading_sep(path@.subrange(rl as int, n as int))
                == trim_leading_sep(path@.subrange(s as int, n as int)),
        decreases n - s,
    {
        assert(path@.subrange(s as int, n as int).drop_first() =~= path@.subrange(s + 1, n as int));
        s = s + 1;
    }
    let rest = path.substring_char(s, n);
    proof {
        let t = path@.subrange(s as int, n as int);
        assert(!(t.len() > 0 && t[0] == '/'));
        assert(trim_leading_sep(t) == t);
    }
    String::from_str(rest)
}

/// Whether some candidate of `s` has the path `path`.
pub open spec fn has_path(s: Seq<ProjectView>, path: Seq<char>) -> bool {
    exists|k: int| 0 <= k < s.len() && (#[trigger] s[k]).path == path
}

/// No two candidates of `s` share a path.
pub open spec fn paths_unique(s: Seq<ProjectView>) -> bool {
    forall|i: int, j: int| 0 <= i < j < s.len() ==> (#[trigger] s[i]).path != (#[trigger] s[j]).path
}

/// The models of a list of projects.
pub open spec fn views_of(v: Seq<Project>) -> Seq<ProjectView> {
    v.map_values(|p: Project| p@)
}

/// Whether a project of `projects` has the path `path`.
pub fn contains_path(projects: &Vec<Project>, path: &String) -> (r: bool)
    ensures
        r == has_path(views_of(projects@), path@),
{
    let ghost v = views_of(projects@);
    let mut k: usize = 0;
    while k < projects.len()
        invariant
            k <= projects.len(),
            v == views_of(projects@),
            forall|t: int| 0 <= t < k ==> (#[trigger] projects@[t]).path@ != path@,
        decreases projects.len() - k,
    {
        if projects[k].path == *path {
            assert(v[k as int].path == path@);
            return true;
        }
        k = k + 1;
    }
    assert forall|t: int| 0 <= t < v.len() implies (#[trigger] v[t]).path != path@ by {
        assert(projects@[t].path@ != path@);
    }
    false
}

impl Project {
    /// A project at `path`, found under `scan_root`.
    pub fn new(path: String, scan_root: &str) -> (r: Project)
        ensures
            r.path@ == path@,
            r.display_path@ == display_of(path@, scan_root@),
    {
        let display_path = relative_display(path.as_str(), scan_root);
        Project { path, display_path }
    }

    /// The text a query is matched against.
    pub fn display_path(&self) -> (r: &str)
        ensures
            r@ == self.display_path@,
    {
        self.display_path.as_str()
    }

    /// A copy of this project.
    pub fn duplicate(&self) -> (r: Project)
        ensures
            r@ == self@,
    {
        Project { path: self.path.clone(), display_path: self.display_path.clone() }
    }
}

} // verus!
