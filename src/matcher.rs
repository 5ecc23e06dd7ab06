use vstd::prelude::*;

use nucleo::pattern::{Atom, AtomKind, CaseMatching, Normalization};
use nucleo::Matcher as FuzzyScratch;
use nucleo::Utf32Str;

use crate::order::{
    lemma_slot_before_facts, lemma_slot_before_transitive, lex_less, ranks_before, same_chars,
    slot_before,
};
use crate::project::{contains_path, has_path, paths_unique, views_of, Project, ProjectView};

verus! {

/// The longest query, in characters, that the scorer takes.
pub const MAX_QUERY_LEN: usize = 2048;

/// The longest text, in characters, that the scorer takes.
pub const MAX_TEXT_LEN: usize = 1073741823;

#[verifier::external_type_specification]
#[verifier::external_body]
pub struct ExFuzzyScratch(FuzzyScratch);

/// The score nucleo gives `text` for `query` taken whole as one fuzzy atom,
/// with smart case and smart normalization; `None` when the characters of
/// the query do not occur in the text in order.
pub uninterp spec fn fuzzy_score_of(query: Seq<char>, text: Seq<char>) -> Option<u32>;

/// Relies on nucleo's `Matcher::new`: a scoring scratch area.
#[verifier::external_body]
fn new_scratch() -> FuzzyScratch {
    FuzzyScratch::new(nucleo::Config::DEFAULT)
}

/// Relies on nucleo's `Atom::new` (one fuzzy atom, smart case, smart
/// normalization, no escapes) and `Atom::score`: the score depends on the
/// query and the text alone (the scratch's configuration is reset first), and
/// the empty query scores `Some(0)`. Scoring asserts that the text's length,
/// counted in bytes where its graphemes all start with an ASCII character, is
/// at most `u32::MAX`; a text of at most `MAX_TEXT_LEN` characters (4 bytes
/// each at most) meets that. Its `u16` score stays clear of overflow for
/// queries of at most `MAX_QUERY_LEN` characters.
#[verifier::external_body]
fn fuzzy_score(scratch: &mut FuzzyScratch, query: &str, text: &str) -> (r: Option<u32>)
    requires
        text@.len() <= MAX_TEXT_LEN,
        query@.len() <= MAX_QUERY_LEN,
    ensures
        r == fuzzy_score_of(query@, text@),
        query@.len() == 0 ==> r == Some(0u32),
{
    scratch.config = nucleo::Config::DEFAULT;
    let atom = Atom::new(query, CaseMatching::Smart, Normalization::Smart, AtomKind::Fuzzy, false);
    let mut buf = Vec::new();
    atom.score(Utf32Str::new(text, &mut buf), scratch).map(u32::from)
}

/// Whether the candidate `p` matches `query`.
pub open spec fn matches_query(query: Seq<char>, p: ProjectView) -> bool {
    fuzzy_score_of(query, p.display_path) is Some
}

/// The score of a matching candidate.
pub open spec fn score_of(query: Seq<char>, p: ProjectView) -> u32 {
    fuzzy_score_of(query, p.display_path)->0
}

/// Whether `a` ranks before `b` for `query`.
pub open spec fn before_for(query: Seq<char>, a: ProjectView, b: ProjectView) -> bool {
    ranks_before(score_of(query, a), a, score_of(query, b), b)
}

/// `r` is the answer to `query` over the candidates `c`: exactly the matching
/// candidates, best first, in a strict order.
pub open spec fn is_ranking(query: Seq<char>, c: Seq<ProjectView>, r: Seq<ProjectView>) -> bool {
    &&& forall|k: int| 0 <= k < r.len() ==> c.contains(#[trigger] r[k]) && matches_query(query, r[k])
    &&& forall|i: int| 0 <= i < c.len() && matches_query(query, #[trigger] c[i]) ==> r.contains(c[i])
    &&& forall|k1: int, k2: int|
        0 <= k1 < k2 < r.len() ==> #[trigger] before_for(query, r[k1], r[k2])
}

/// The candidates after adding `incoming`, in order, to `s`: a project whose
/// path is already present is not added again.
pub open spec fn ingest(s: Seq<ProjectView>, incoming: Seq<ProjectView>) -> Seq<ProjectView>
    decreases incoming.len(),
{
    if incoming.len() == 0 {
        s
    } else {
        let prev = ingest(s, incoming.drop_last());
        if has_path(prev, incoming.last().path) {
            prev
        } else {
            prev.push(incoming.last())
        }
    }
}

/// Order of the candidate at position `i` against the one at `j`, given the
/// candidates and their scores.
pub open spec fn slot_order(c: Seq<ProjectView>, sc: Seq<Option<u32>>, i: int, j: int) -> bool {
    slot_before(sc[i]->0, c[i], i, sc[j]->0, c[j], j)
}

/// The characters of `s`.
fn chars_of(s: &str) -> (r: Vec<char>)
    ensures
        r@ == s@,
{
    let n = s.unicode_len();
    let mut r: Vec<char> = Vec::new();
    let mut i: usize = 0;
    while i < n
        invariant
            n == s@.len(),
            i <= n,
            r@ == s@.subrange(0, i as int),
        decreases n - i,
    {
        r.push(s.get_char(i));
        i = i + 1;
        assert(r@ =~= s@.subrange(0, i as int));
    }
    assert(s@.subrange(0, n as int) =~= s@);
    r
}

/// Orders the candidates that have a score: the result lists the positions in
/// `candidates` of exactly those with `Some` score, best first, in a strict
/// order.
pub fn rank(candidates: &Vec<Project>, scores: &Vec<Option<u32>>) -> (r: Vec<usize>)
    requires
        scores.len() == candidates.len(),
    ensures
        forall|k: int| 0 <= k < r.len() ==> (#[trigger] r[k]) < candidates.len() && scores[r[k] as int] is Some,
        forall|i: int| 0 <= i < candidates.len() && (#[trigger] scores[i]) is Some ==> exists|k: int| 0 <= k < r.len() && r[k] == i,
        forall|k1: int, k2: int|
            0 <= k1 < k2 < r.len() ==> #[trigger] slot_order(
                views_of(candidates@),
                scores@,
                r[k1] as int,
                r[k2] as int,
            ),
{
    let ghost c = views_of(candidates@);
    let n = candidates.len();
    let mut disp: Vec<Vec<char>> = Vec::new();
    let mut paths: Vec<Vec<char>> = Vec::new();
    let mut j: usize = 0;
    while j < n
        invariant
            n == candidates.len(),
            c == views_of(candidates@),
            c.len() == n,
            j <= n,
            disp.len() == j,
            paths.len() == j,
            forall|t: int| 0 <= t < j ==> (#[trigger] disp[t])@ == c[t].display_path && paths[t]@ == c[t].path,
        decreases n - j,
    {
        assert(c[j as int] == candidates@[j as int]@);
        disp.push(chars_of(candidates[j].display_path.as_str()));
        paths.push(chars_of(candidates[j].path.as_str()));
        j = j + 1;
    }
    let mut order: Vec<usize> = Vec::new();
    let mut i: usize = 0;
    while i < n
        invariant
            n == candidates.len(),
            n == scores.len(),
            c == views_of(candidates@),
            c.len() == n,
            i <= n,
            disp.len() == n,
            paths.len() == n,
            forall|t: int| 0 <= t < n ==> (#[trigger] disp[t])@ == c[t].display_path && paths[t]@ == c[t].path,
            forall|k: int| 0 <= k < order.len() ==> (#[trigger] order[k]) < i && scores[order[k] as int] is Some,
            forall|t: int| 0 <= t < i && (#[trigger] scores[t]) is Some ==> exists|k: int| 0 <= k < order.len() && order[k] == t,
            forall|k1: int, k2: int|
                0 <= k1 < k2 < order.len() ==> #[trigger] slot_order(c, scores@, order[k1] as int, order[k2] as int),
        decreases n - i,
    {
        if let Some(si) = scores[i] {
            let mut pos: usize = 0;
            let mut placed = false;
            while pos < order.len() && !placed
                invariant
                    n == candidates.len(),
                    n == scores.len(),
                    i < n,
                    c == views_of(candidates@),
                    c.len() == n,
                    scores[i as int] == Some(si),
                    disp.len() == n,
                    paths.len() == n,
                    forall|t: int| 0 <= t < n ==> (#[trigger] disp[t])@ == c[t].display_path && paths[t]@ == c[t].path,
                    forall|k: int| 0 <= k < order.len() ==> (#[trigger] order[k]) < i && scores[order[k] as int] is Some,
                    pos <= order.len(),
                    forall|k: int| 0 <= k < pos ==> #[trigger] slot_order(c, scores@, order[k] as int, i as int),
                    placed ==> pos < order.len() && slot_order(c, scores@, i as int, order[pos as int] as int),
                decreases (order.len() - pos) * 2 + if placed { 0int } else { 1int },
            {
                let o = order[pos];
                let so = match scores[o] {
                    Some(v) => v,
                    None => 0,
                };
                let first = if si != so {
                    si > so
                } else if disp[i].len() != disp[o].len() {
                    disp[i].len() < disp[o].len()
                } else if lex_less(&disp[i], &disp[o]) {
                    true
                } else if !same_chars(&disp[i], &disp[o]) {
                    false
                } else if lex_less(&paths[i], &paths[o]) {
                    true
                } else if !same_chars(&paths[i], &paths[o]) {
                    false
                } else {
                    i < o
                };
                proof {
                    let a = c[i as int];
                    let b = c[o as int];
                    assert(first == slot_order(c, scores@, i as int, o as int));
                    lemma_slot_before_facts(si, a, i as int, so, b, o as int);
                }
                if first {
                    placed = true;
                } else {
                    pos = pos + 1;
                }
            }
            let ghost old_order = order@;
            order.insert(pos, i);
            proof {
                assert forall|k1: int, k2: int|
                    0 <= k1 < k2 < order.len() implies #[trigger] slot_order(c, scores@, order[k1] as int, order[k2] as int) by {
                    if k2 < pos {
                        assert(order[k1] == old_order[k1]);
                        assert(order[k2] == old_order[k2]);
                    } else if k2 == pos {
                        assert(order[k1] == old_order[k1]);
                    } else if k1 < pos {
                        assert(order[k1] == old_order[k1]);
                        assert(order[k2] == old_order[k2 - 1]);
                    } else if k1 == pos {
                        let p = old_order[pos as int] as int;
                        assert(order[pos + 1] == p);
                        if k2 - 1 > pos {
                            assert(order[k2] == old_order[k2 - 1]);
                            assert(slot_order(c, scores@, p, order[k2] as int));
                            lemma_slot_before_transitive(
                                scores@[i as int]->0, c[i as int], i as int,
                                scores@[p]->0, c[p], p,
                                scores@[order[k2] as int]->0, c[order[k2] as int], order[k2] as int,
                            );
                        }
                    } else {
                        assert(order[k1] == old_order[k1 - 1]);
                        assert(order[k2] == old_order[k2 - 1]);
                    }
                }
                assert forall|t: int| 0 <= t < i + 1 && (#[trigger] scores[t]) is Some implies exists|k: int| 0 <= k < order.len() && order[k] == t by {
                    if t == i {
                        assert(order[pos as int] == i);
                    } else {
                        let k = choose|k: int| 0 <= k < old_order.len() && old_order[k] == t;
                        if k < pos {
                            assert(order[k] == t);
                        } else {
                            assert(order[k + 1] == t);
                        }
                    }
                }
            }
        }
        i = i + 1;
    }
    order
}

/// Ranks projects against a query typed by the user.
///
/// Each query scores every candidate before it returns, on the caller's
/// thread: a result always covers the whole candidate set and the exact
/// pattern given, never a partial or earlier one, and ties are broken by an
/// explicit order rather than by the order candidates arrived in. A
/// background matching engine would give neither guarantee.
pub struct Matcher {
    projects: Vec<Project>,
    scratch: FuzzyScratch,
}

impl View for Matcher {
    type V = Seq<ProjectView>;

    closed spec fn view(&self) -> Seq<ProjectView> {
        views_of(self.projects@)
    }
}

impl Default for Matcher {
    fn default() -> (r: Matcher)
        ensures
            r@ == Seq::<ProjectView>::empty(),
            r.wf(),
    {
        Matcher::new()
    }
}

impl Matcher {
    /// The candidates have distinct paths.
    pub closed spec fn wf(&self) -> bool {
        paths_unique(self@)
    }

    /// A matcher with no candidates.
    pub fn new() -> (r: Matcher)
        ensures
            r@ == Seq::<ProjectView>::empty(),
            r.wf(),
    {
        let r = Matcher { projects: Vec::new(), scratch: new_scratch() };
        assert(r@ =~= Seq::<ProjectView>::empty());
        r
    }

    /// Adds projects; one whose path is already held is not added again.
    pub fn add_projects(&mut self, projects: Vec<Project>)
        requires
            old(self).wf(),
        ensures
            final(self).wf(),
            final(self)@ == ingest(old(self)@, views_of(projects@)),
    {
        let ghost start = self@;
        let ghost incoming = views_of(projects@);
        let mut i: usize = 0;
        assert(incoming.subrange(0, 0) =~= Seq::<ProjectView>::empty());
        while i < projects.len()
            invariant
                i <= projects.len(),
                incoming == views_of(projects@),
                self.wf(),
                self@ == ingest(start, incoming.subrange(0, i as int)),
            decreases projects.len() - i,
        {
            let ghost before = self@;
            assert(incoming.subrange(0, i + 1).drop_last() =~= incoming.subrange(0, i as int));
            assert(incoming.subrange(0, i + 1).last() == projects@[i as int]@);
            if !contains_path(&self.projects, &projects[i].path) {
                self.projects.push(projects[i].duplicate());
                assert(self@ =~= before.push(projects@[i as int]@));
                assert forall|a: int, b: int| 0 <= a < b < self@.len() implies (#[trigger] self@[a]).path != (#[trigger] self@[b]).path by {
                    if b == self@.len() - 1 {
                        assert(before[a] == self@[a]);
                    } else {
                        assert(before[a] == self@[a]);
                        assert(before[b] == self@[b]);
                    }
                }
            }
            i = i + 1;
        }
        assert(incoming.subrange(0, projects.len() as int) =~= incoming);
    }

    /// The candidates that match `pattern`, best first. Every candidate
    /// matches the empty pattern. The scorer takes patterns of at most
    /// `MAX_QUERY_LEN` characters and display paths of at most `MAX_TEXT_LEN`.
    pub fn find_matches(&mut self, pattern: &str) -> (r: Vec<Project>)
        requires
            old(self).wf(),
            pattern@.len() <= MAX_QUERY_LEN,
            forall|i: int| 0 <= i < old(self)@.len() ==> (#[trigger] old(self)@[i]).display_path.len() <= MAX_TEXT_LEN,
        ensures
            final(self)@ == old(self)@,
            final(self).wf(),
            is_ranking(pattern@, old(self)@, views_of(r@)),
            pattern@.len() == 0 ==> r.len() == old(self)@.len(),
            pattern@.len() == 0 ==> forall|i: int|
                0 <= i < old(self)@.len() ==> views_of(r@).contains(#[trigger] old(self)@[i]),
    {
        let ghost c = self@;
        let n = self.projects.len();
        let mut scores: Vec<Option<u32>> = Vec::new();
        let mut i: usize = 0;
        while i < n
            invariant
                n == self.projects.len(),
                c == views_of(self.projects@),
                c == old(self)@,
                pattern@.len() <= MAX_QUERY_LEN,
                forall|t: int| 0 <= t < c.len() ==> (#[trigger] c[t]).display_path.len() <= MAX_TEXT_LEN,
                i <= n,
                scores.len() == i,
                forall|t: int| 0 <= t < i ==> (#[trigger] scores[t]) == fuzzy_score_of(pattern@, c[t].display_path),
                pattern@.len() == 0 ==> forall|t: int| 0 <= t < i ==> (#[trigger] scores[t]) is Some,
            decreases n - i,
        {
            assert(c[i as int] == self.projects@[i as int]@);
            let s = fuzzy_score(&mut self.scratch, pattern, self.projects[i].display_path.as_str());
            scores.push(s);
            i = i + 1;
        }
        let order = rank(&self.projects, &scores);
        let mut out: Vec<Project> = Vec::new();
        let mut k: usize = 0;
        while k < order.len()
            invariant
                n == self.projects.len(),
                c == views_of(self.projects@),
                k <= order.len(),
                out.len() == k,
                forall|t: int| 0 <= t < order.len() ==> (#[trigger] order[t]) < n,
                forall|t: int| 0 <= t < k ==> (#[trigger] out@[t])@ == c[order[t] as int],
            decreases order.len() - k,
        {
            out.push(self.projects[order[k]].duplicate());
            k = k + 1;
        }
        proof {
            let r = views_of(out@);
            assert forall|t: int| 0 <= t < r.len() implies r[t] == c[order[t] as int] by {
                assert(out@[t]@ == c[order[t] as int]);
            }
            assert forall|k1: int, k2: int| 0 <= k1 < k2 < r.len() implies #[trigger] before_for(pattern@, r[k1], r[k2]) by {
                let a = order[k1] as int;
                let b = order[k2] as int;
                assert(slot_order(c, scores@, a, b));
                lemma_slot_before_facts(scores@[a]->0, c[a], a, scores@[b]->0, c[b], b);
                if a == b {
                    assert(false);
                }
                assert(c[a].path != c[b].path);
            }
            assert forall|t: int| 0 <= t < r.len() implies c.contains(#[trigger] r[t]) && matches_query(pattern@, r[t]) by {
                assert(c[order[t] as int] == r[t]);
            }
            assert forall|t: int| 0 <= t < c.len() && matches_query(pattern@, #[trigger] c[t]) implies r.contains(c[t]) by {
                assert(scores[t] is Some);
                let k = choose|k: int| 0 <= k < order.len() && order[k] == t;
                assert(r[k] == c[t]);
            }
            if pattern@.len() == 0 {
                assert forall|t: int| 0 <= t < c.len() implies r.contains(#[trigger] c[t]) by {
                    assert(scores[t] is Some);
                    let k = choose|k: int| 0 <= k < order.len() && order[k] == t;
                    assert(r[k] == c[t]);
                }
                lemma_same_members_same_len(c, r, pattern@);
            }
        }
        out
    }
}

/// Two lists, each strictly ordered best first for `q`, that hold the same
/// members are equal.
proof fn lemma_ordered_same_members_equal(q: Seq<char>, r1: Seq<ProjectView>, r2: Seq<ProjectView>)
    requires
        forall|k1: int, k2: int| 0 <= k1 < k2 < r1.len() ==> #[trigger] before_for(q, r1[k1], r1[k2]),
        forall|k1: int, k2: int| 0 <= k1 < k2 < r2.len() ==> #[trigger] before_for(q, r2[k1], r2[k2]),
        forall|x: ProjectView| r1.contains(x) <==> r2.contains(x),
    ensures
        r1 == r2,
    decreases r1.len(),
{
    if r1.len() == 0 {
        if r2.len() > 0 {
            assert(r2.contains(r2[0]));
        }
        assert(r1 =~= r2);
    } else if r2.len() == 0 {
        assert(r1.contains(r1[0]));
    } else {
        let a = r1[0];
        let b = r2[0];
        if a != b {
            assert(r1.contains(a));
            assert(r2.contains(b));
            let m = choose|m: int| 0 <= m < r2.len() && r2[m] == a;
            let j = choose|j: int| 0 <= j < r1.len() && r1[j] == b;
            assert(before_for(q, r2[0], r2[m]));
            assert(before_for(q, r1[0], r1[j]));
            crate::order::lemma_ranks_before_asymmetric(score_of(q, a), a, score_of(q, b), b);
        }
        let t1 = r1.drop_first();
        let t2 = r2.drop_first();
        assert forall|x: ProjectView| t1.contains(x) <==> t2.contains(x) by {
            crate::order::lemma_ranks_before_irreflexive(score_of(q, a), a);
            if t1.contains(x) {
                let k = choose|k: int| 0 <= k < t1.len() && t1[k] == x;
                assert(before_for(q, r1[0], r1[k + 1]));
                assert(r1.contains(r1[k + 1]));
                let m = choose|m: int| 0 <= m < r2.len() && r2[m] == x;
                assert(m != 0);
                assert(t2[m - 1] == x);
            }
            if t2.contains(x) {
                let k = choose|k: int| 0 <= k < t2.len() && t2[k] == x;
                assert(before_for(q, r2[0], r2[k + 1]));
                assert(r2.contains(r2[k + 1]));
                let m = choose|m: int| 0 <= m < r1.len() && r1[m] == x;
                assert(m != 0);
                assert(t1[m - 1] == x);
            }
        }
        assert forall|k1: int, k2: int| 0 <= k1 < k2 < t1.len() implies #[trigger] before_for(q, t1[k1], t1[k2]) by {
            assert(before_for(q, r1[k1 + 1], r1[k2 + 1]));
        }
        assert forall|k1: int, k2: int| 0 <= k1 < k2 < t2.len() implies #[trigger] before_for(q, t2[k1], t2[k2]) by {
            assert(before_for(q, r2[k1 + 1], r2[k2 + 1]));
        }
        lemma_ordered_same_members_equal(q, t1, t2);
        assert(r1 =~= seq![a] + t1);
        assert(r2 =~= seq![b] + t2);
    }
}

/// Querying the same candidates twice with the same pattern gives the same
/// answer, in the same order.
pub proof fn lemma_query_deterministic(
    query: Seq<char>,
    candidates: Seq<ProjectView>,
    r1: Seq<ProjectView>,
    r2: Seq<ProjectView>,
)
    requires
        is_ranking(query, candidates, r1),
        is_ranking(query, candidates, r2),
    ensures
        r1 == r2,
{
    assert forall|x: ProjectView| r1.contains(x) <==> r2.contains(x) by {
        if r1.contains(x) {
            let k = choose|k: int| 0 <= k < r1.len() && r1[k] == x;
            assert(candidates.contains(r1[k]));
            let i = choose|i: int| 0 <= i < candidates.len() && candidates[i] == x;
            assert(matches_query(query, candidates[i]));
        }
        if r2.contains(x) {
            let k = choose|k: int| 0 <= k < r2.len() && r2[k] == x;
            assert(candidates.contains(r2[k]));
            let i = choose|i: int| 0 <= i < candidates.len() && candidates[i] == x;
            assert(matches_query(query, candidates[i]));
        }
    }
    lemma_ordered_same_members_equal(query, r1, r2);
}

/// Two lists without repeated entries that hold the same members have the
/// same length.
proof fn lemma_same_members_same_len(c: Seq<ProjectView>, r: Seq<ProjectView>, q: Seq<char>)
    requires
        paths_unique(c),
        forall|t: int| 0 <= t < r.len() ==> c.contains(#[trigger] r[t]),
        forall|t: int| 0 <= t < c.len() ==> r.contains(#[trigger] c[t]),
        forall|k1: int, k2: int| 0 <= k1 < k2 < r.len() ==> #[trigger] before_for(q, r[k1], r[k2]),
    ensures
        r.len() == c.len(),
{
    assert(c.no_duplicates()) by {
        assert forall|i: int, j: int| 0 <= i < c.len() && 0 <= j < c.len() && i != j implies c[i] != c[j] by {
            if i < j {
                assert(c[i].path != c[j].path);
            } else {
                assert(c[j].path != c[i].path);
            }
        }
    }
    assert(r.no_duplicates()) by {
        assert forall|i: int, j: int| 0 <= i < r.len() && 0 <= j < r.len() && i != j implies r[i] != r[j] by {
            crate::order::lemma_ranks_before_irreflexive(score_of(q, r[i]), r[i]);
            if i < j {
                assert(before_for(q, r[i], r[j]));
            } else {
                assert(before_for(q, r[j], r[i]));
            }
        }
    }
    assert(c.to_set() =~= r.to_set()) by {
        assert forall|x: ProjectView| c.to_set().contains(x) <==> r.to_set().contains(x) by {
            if c.contains(x) {
                let t = choose|t: int| 0 <= t < c.len() && c[t] == x;
                assert(r.contains(c[t]));
            }
            if r.contains(x) {
                let t = choose|t: int| 0 <= t < r.len() && r[t] == x;
                assert(c.contains(r[t]));
            }
        }
    }
    c.unique_seq_to_set();
    r.unique_seq_to_set();
}

} // verus!
