use vstd::prelude::*;

use crate::project::ProjectView;

verus! {

/// Strict lexicographic order on character sequences, by code point; a proper
/// prefix comes first.
pub open spec fn seq_lt(a: Seq<char>, b: Seq<char>) -> bool
    decreases a.len(),
{
    if a.len() == 0 {
        b.len() > 0
    } else if b.len() == 0 {
        false
    } else if a[0] != b[0] {
        (a[0] as int) < (b[0] as int)
    } else {
        seq_lt(a.drop_first(), b.drop_first())
    }
}

pub proof fn lemma_seq_lt_irreflexive(a: Seq<char>)
    ensures
        !seq_lt(a, a),
    decreases a.len(),
{
    if a.len() > 0 {
        lemma_seq_lt_irreflexive(a.drop_first());
    }
}

pub proof fn lemma_seq_lt_asymmetric(a: Seq<char>, b: Seq<char>)
    requires
        seq_lt(a, b),
    ensures
        !seq_lt(b, a),
    decreases a.len(),
{
    if a.len() > 0 && b.len() > 0 && a[0] == b[0] {
        lemma_seq_lt_asymmetric(a.drop_first(), b.drop_first());
    }
}

pub proof fn lemma_seq_lt_transitive(a: Seq<char>, b: Seq<char>, c: Seq<char>)
    requires
        seq_lt(a, b),
        seq_lt(b, c),
    ensures
        seq_lt(a, c),
    decreases a.len(),
{
    if a.len() > 0 && b.len() > 0 && c.len() > 0 && a[0] == b[0] && b[0] == c[0] {
        lemma_seq_lt_transitive(a.drop_first(), b.drop_first(), c.drop_first());
    }
}

pub proof fn lemma_seq_lt_total(a: Seq<char>, b: Seq<char>)
    requires
        a != b,
    ensures
        seq_lt(a, b) || seq_lt(b, a),
    decreases a.len(),
{
    if a.len() == 0 && b.len() == 0 {
        assert(a =~= b);
    } else if a.len() > 0 && b.len() > 0 && a[0] == b[0] {
        if a.drop_first() == b.drop_first() {
            assert(a =~= seq![a[0]] + a.drop_first());
            assert(b =~= seq![b[0]] + b.drop_first());
        }
        lemma_seq_lt_total(a.drop_first(), b.drop_first());
    }
}

/// Whether a candidate with score `sa` and model `a` ranks before one with
/// score `sb` and model `b`: higher score first, then the shorter display
/// path, then display paths in lexicographic order, then paths in
/// lexicographic order.
pub open spec fn ranks_before(sa: u32, a: ProjectView, sb: u32, b: ProjectView) -> bool {
    ||| sa > sb
    ||| sa == sb && a.display_path.len() < b.display_path.len()
    ||| sa == sb && a.display_path.len() == b.display_path.len() && seq_lt(
        a.display_path,
        b.display_path,
    )
    ||| sa == sb && a.display_path == b.display_path && seq_lt(a.path, b.path)
}

/// `ranks_before`, with candidates equal in all of it ordered by their
/// position `ia`, `ib` in the candidate list.
pub open spec fn slot_before(sa: u32, a: ProjectView, ia: int, sb: u32, b: ProjectView, ib: int) -> bool {
    ||| ranks_before(sa, a, sb, b)
    ||| sa == sb && a == b && ia < ib
}

pub proof fn lemma_ranks_before_irreflexive(s: u32, a: ProjectView)
    ensures
        !ranks_before(s, a, s, a),
{
    lemma_seq_lt_irreflexive(a.display_path);
    lemma_seq_lt_irreflexive(a.path);
}

pub proof fn lemma_ranks_before_asymmetric(sa: u32, a: ProjectView, sb: u32, b: ProjectView)
    requires
        ranks_before(sa, a, sb, b),
    ensures
        !ranks_before(sb, b, sa, a),
{
    if seq_lt(a.display_path, b.display_path) {
        lemma_seq_lt_asymmetric(a.display_path, b.display_path);
    }
    if seq_lt(b.display_path, a.display_path) {
        lemma_seq_lt_asymmetric(b.display_path, a.display_path);
    }
    if seq_lt(a.path, b.path) {
        lemma_seq_lt_asymmetric(a.path, b.path);
    }
    lemma_seq_lt_irreflexive(a.display_path);
}

pub proof fn lemma_ranks_before_transitive(
    sa: u32,
    a: ProjectView,
    sb: u32,
    b: ProjectView,
    sc: u32,
    c: ProjectView,
)
    requires
        ranks_before(sa, a, sb, b),
        ranks_before(sb, b, sc, c),
    ensures
        ranks_before(sa, a, sc, c),
{
    if seq_lt(a.display_path, b.display_path) && seq_lt(b.display_path, c.display_path) {
        lemma_seq_lt_transitive(a.display_path, b.display_path, c.display_path);
    }
    if seq_lt(a.path, b.path) && seq_lt(b.path, c.path) {
        lemma_seq_lt_transitive(a.path, b.path, c.path);
    }
}

/// Two different candidates with the same score are always ordered one way
/// or the other.
pub proof fn lemma_ranks_before_total(sa: u32, a: ProjectView, sb: u32, b: ProjectView)
    requires
        a != b,
    ensures
        ranks_before(sa, a, sb, b) || ranks_before(sb, b, sa, a),
{
    if a.display_path != b.display_path {
        lemma_seq_lt_total(a.display_path, b.display_path);
    } else if a.path != b.path {
        lemma_seq_lt_total(a.path, b.path);
    }
}

pub proof fn lemma_slot_before_facts(
    sa: u32,
    a: ProjectView,
    ia: int,
    sb: u32,
    b: ProjectView,
    ib: int,
)
    ensures
        !slot_before(sa, a, ia, sa, a, ia),
        slot_before(sa, a, ia, sb, b, ib) ==> !slot_before(sb, b, ib, sa, a, ia),
        ia != ib ==> slot_before(sa, a, ia, sb, b, ib) || slot_before(sb, b, ib, sa, a, ia),
        slot_before(sa, a, ia, sb, b, ib) && a != b ==> ranks_before(sa, a, sb, b),
{
    lemma_ranks_before_irreflexive(sa, a);
    if ranks_before(sa, a, sb, b) {
        lemma_ranks_before_asymmetric(sa, a, sb, b);
    }
    if ranks_before(sb, b, sa, a) {
        lemma_ranks_before_asymmetric(sb, b, sa, a);
    }
    if a != b {
        lemma_ranks_before_total(sa, a, sb, b);
    }
}

pub proof fn lemma_slot_before_transitive(
    sa: u32,
    a: ProjectView,
    ia: int,
    sb: u32,
    b: ProjectView,
    ib: int,
    sc: u32,
    c: ProjectView,
    ic: int,
)
    requires
        slot_before(sa, a, ia, sb, b, ib),
        slot_before(sb, b, ib, sc, c, ic),
    ensures
        slot_before(sa, a, ia, sc, c, ic),
{
    if ranks_before(sa, a, sb, b) && ranks_before(sb, b, sc, c) {
        lemma_ranks_before_transitive(sa, a, sb, b, sc, c);
    }
}

/// Whether `a` comes before `b` in lexicographic order.
pub fn lex_less(a: &Vec<char>, b: &Vec<char>) -> (r: bool)
    ensures
        r == seq_lt(a@, b@),
{
    let mut i: usize = 0;
    assert(a@.skip(0) =~= a@);
    assert(b@.skip(0) =~= b@);
    while i < a.len() && i < b.len() && a[i] == b[i]
        invariant
            i <= a.len(),
            i <= b.len(),
            seq_lt(a@, b@) == seq_lt(a@.skip(i as int), b@.skip(i as int)),
        decreases a.len() - i,
    {
        assert(a@.skip(i as int).drop_first() =~= a@.skip(i + 1));
        assert(b@.skip(i as int).drop_first() =~= b@.skip(i + 1));
        i = i + 1;
    }
    if i == a.len() {
        i < b.len()
    } else if i == b.len() {
        false
    } else {
        assert(a@.skip(i as int)[0] == a@[i as int]);
        assert(b@.skip(i as int)[0] == b@[i as int]);
        a[i] < b[i]
    }
}

/// Whether `a` and `b` hold the same characters.
pub fn same_chars(a: &Vec<char>, b: &Vec<char>) -> (r: bool)
    ensures
        r == (a@ == b@),
{
    let lt = lex_less(a, b);
    let gt = lex_less(b, a);
    proof {
        lemma_seq_lt_irreflexive(a@);
        if a@ != b@ {
            lemma_seq_lt_total(a@, b@);
        }
    }
    !lt && !gt
}

} // verus!
