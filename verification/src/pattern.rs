//! The abstract syntax of the regex dialect: quantified primitives,
//! bracket classes, capturing groups, alternations and backreferences,
//! together with the mathematical form of a pattern that contracts speak of.

use crate::chars::{spec_is_alnum, spec_is_digit, spec_is_metachar, spec_is_word_char};
use vstd::prelude::*;

verus! {

/// Quantifiers supported by this engine.
#[derive(Debug, Clone, Copy, PartialEq, Eq, Structural)]
pub enum Count {
    /// Exactly one occurrence.
    One,
    /// One or more occurrences, greedy.
    OneOrMore,
    /// Zero or one occurrence, greedy.
    ZeroOrOne,
}

/// One node of the parsed regex.
#[derive(Debug)]
pub enum Pattern {
    /// A literal character, with a quantifier.
    Literal(char, Count),
    /// The digit class `\d`, with a quantifier.
    Digit(Count),
    /// The class `\w` (ASCII letters, digits, underscore), with a quantifier.
    Alphanumeric(Count),
    /// The wildcard `.`, which accepts anything but a metacharacter.
    Wildcard(Count),
    /// A bracket class `[...]` or `[^...]`, with a quantifier.
    CharGroup(bool, Vec<char>, Count),
    /// A capturing alternation `(a|b|...)`.
    Alternation(Alternation),
    /// A capturing group `(...)` with a single branch.
    CapturedGroup(Group),
    /// A backreference `\1` ... `\9`.
    Backreference(usize),
}

/// A capturing alternation: source-order capture index, two or more
/// alternative branches, and the quantifier attached to the whole group.
#[derive(Debug)]
pub struct Alternation {
    pub idx: usize,
    pub alternatives: Vec<Vec<Pattern>>,
    pub count: Count,
}

/// A capturing group with a single branch: source-order capture index,
/// the inner sequence, and the quantifier attached to the group.
#[derive(Debug)]
pub struct Group {
    pub idx: usize,
    pub patterns: Vec<Pattern>,
    pub count: Count,
}

/// The mathematical form of a pattern node, with sequences in place of
/// vectors; every contract about parsing and matching is stated over it.
pub enum SpecPattern {
    Literal(char, Count),
    Digit(Count),
    Alphanumeric(Count),
    Wildcard(Count),
    CharGroup(bool, Seq<char>, Count),
    Alternation(nat, Seq<Seq<SpecPattern>>, Count),
    CapturedGroup(nat, Seq<SpecPattern>, Count),
    Backreference(nat),
}

pub open spec fn pat_view(p: Pattern) -> SpecPattern
    decreases p, 4int,
{
    match p {
        Pattern::Literal(c, q) => SpecPattern::Literal(c, q),
        Pattern::Digit(q) => SpecPattern::Digit(q),
        Pattern::Alphanumeric(q) => SpecPattern::Alphanumeric(q),
        Pattern::Wildcard(q) => SpecPattern::Wildcard(q),
        Pattern::CharGroup(neg, members, q) => SpecPattern::CharGroup(neg, members@, q),
        Pattern::Alternation(a) => SpecPattern::Alternation(
            a.idx as nat,
            alternation_view(a),
            a.count,
        ),
        Pattern::CapturedGroup(g) => SpecPattern::CapturedGroup(g.idx as nat, group_view(g), g.count),
        Pattern::Backreference(n) => SpecPattern::Backreference(n as nat),
    }
}

pub open spec fn group_view(g: Group) -> Seq<SpecPattern>
    decreases g, 3int,
{
    vec_view(g.patterns)
}

pub open spec fn alternation_view(a: Alternation) -> Seq<Seq<SpecPattern>>
    decreases a, 3int,
{
    vecvec_view(a.alternatives)
}

pub open spec fn vec_view(v: Vec<Pattern>) -> Seq<SpecPattern>
    decreases v, 2int,
{
    pats_view(v@)
}

pub open spec fn vecvec_view(vv: Vec<Vec<Pattern>>) -> Seq<Seq<SpecPattern>>
    decreases vv, 2int,
{
    alts_view(vv@)
}

pub open spec fn pats_view(ps: Seq<Pattern>) -> Seq<SpecPattern>
    decreases ps, 0int,
{
    if ps.len() == 0 {
        Seq::empty()
    } else {
        seq![pat_view(ps[0])] + pats_view(ps.subrange(1, ps.len() as int))
    }
}

pub open spec fn alts_view(aa: Seq<Vec<Pattern>>) -> Seq<Seq<SpecPattern>>
    decreases aa, 1int,
{
    if aa.len() == 0 {
        Seq::empty()
    } else {
        seq![vec_view(aa[0])] + alts_view(aa.subrange(1, aa.len() as int))
    }
}

/// `pats_view` maps each element through `pat_view` and keeps the length.
pub proof fn lemma_pats_view(ps: Seq<Pattern>)
    ensures
        pats_view(ps).len() == ps.len(),
        forall|i: int| 0 <= i < ps.len() ==> pats_view(ps)[i] == pat_view(ps[i]),
    decreases ps.len(),
{
    if ps.len() > 0 {
        lemma_pats_view(ps.subrange(1, ps.len() as int));
    }
}

/// `alts_view` maps each branch through `vec_view` and keeps the length.
pub proof fn lemma_alts_view(aa: Seq<Vec<Pattern>>)
    ensures
        alts_view(aa).len() == aa.len(),
        forall|i: int| 0 <= i < aa.len() ==> alts_view(aa)[i] == vec_view(aa[i]),
    decreases aa.len(),
{
    if aa.len() > 0 {
        lemma_alts_view(aa.subrange(1, aa.len() as int));
    }
}

fn chars_vec_eq(x: &Vec<char>, y: &Vec<char>) -> (r: bool)
    ensures
        r == (x@ == y@),
{
    if x.len() != y.len() {
        return false;
    }
    let mut i: usize = 0;
    while i < x.len()
        invariant
            x@.len() == y@.len(),
            i <= x@.len(),
            forall|k: int| 0 <= k < i ==> x@[k] == y@[k],
        decreases x@.len() - i,
    {
        if x[i] != y[i] {
            return false;
        }
        i = i + 1;
    }
    proof {
        assert(x@ =~= y@);
    }
    true
}

/// Structural equality of two pattern nodes, decided exactly by their
/// mathematical views.
pub fn pattern_eq(a: &Pattern, b: &Pattern) -> (r: bool)
    ensures
        r == (pat_view(*a) == pat_view(*b)),
    decreases pat_view(*a), 2int,
{
    match (a, b) {
        (Pattern::Literal(c1, q1), Pattern::Literal(c2, q2)) => *c1 == *c2 && *q1 == *q2,
        (Pattern::Digit(q1), Pattern::Digit(q2)) => *q1 == *q2,
        (Pattern::Alphanumeric(q1), Pattern::Alphanumeric(q2)) => *q1 == *q2,
        (Pattern::Wildcard(q1), Pattern::Wildcard(q2)) => *q1 == *q2,
        (Pattern::CharGroup(n1, m1, q1), Pattern::CharGroup(n2, m2, q2)) => *n1 == *n2 && *q1
            == *q2 && chars_vec_eq(m1, m2),
        (Pattern::Alternation(a1), Pattern::Alternation(a2)) => {
            proof {
                let node = pat_view(*a);
                assert(node->Alternation_1 == vecvec_view(a1.alternatives));
                assert(decreases_to!(node => node->Alternation_1));
            }
            a1.idx == a2.idx && a1.count == a2.count && alternatives_eq(
                &a1.alternatives,
                &a2.alternatives,
            )
        },
        (Pattern::CapturedGroup(g1), Pattern::CapturedGroup(g2)) => {
            proof {
                let node = pat_view(*a);
                assert(node->CapturedGroup_1 == vec_view(g1.patterns));
                assert(decreases_to!(node => node->CapturedGroup_1));
            }
            g1.idx == g2.idx && g1.count == g2.count && patterns_eq(&g1.patterns, &g2.patterns)
        },
        (Pattern::Backreference(n1), Pattern::Backreference(n2)) => *n1 == *n2,
        _ => false,
    }
}

/// Structural equality of two pattern sequences.
#[verifier::loop_isolation(false)]
pub fn patterns_eq(x: &Vec<Pattern>, y: &Vec<Pattern>) -> (r: bool)
    ensures
        r == (vec_view(*x) == vec_view(*y)),
    decreases vec_view(*x), 0int,
{
    proof {
        lemma_pats_view(x@);
        lemma_pats_view(y@);
    }
    if x.len() != y.len() {
        return false;
    }
    let mut i: usize = 0;
    while i < x.len()
        invariant
            x@.len() == y@.len(),
            i <= x@.len(),
            forall|k: int| 0 <= k < i ==> pat_view(x@[k]) == pat_view(y@[k]),
        decreases x@.len() - i,
    {
        proof {
            assert(vec_view(*x)[i as int] == pat_view(x@[i as int]));
            assert(decreases_to!(vec_view(*x) => vec_view(*x)[i as int]));
        }
        if !pattern_eq(&x[i], &y[i]) {
            proof {
                assert(pats_view(x@)[i as int] != pats_view(y@)[i as int]);
            }
            return false;
        }
        i = i + 1;
    }
    proof {
        assert(pats_view(x@) =~= pats_view(y@));
    }
    true
}

/// Structural equality of two branch lists.
#[verifier::loop_isolation(false)]
fn alternatives_eq(x: &Vec<Vec<Pattern>>, y: &Vec<Vec<Pattern>>) -> (r: bool)
    ensures
        r == (vecvec_view(*x) == vecvec_view(*y)),
    decreases vecvec_view(*x), 1int,
{
    proof {
        lemma_alts_view(x@);
        lemma_alts_view(y@);
    }
    if x.len() != y.len() {
        return false;
    }
    let mut i: usize = 0;
    while i < x.len()
        invariant
            x@.len() == y@.len(),
            i <= x@.len(),
            forall|k: int| 0 <= k < i ==> vec_view(x@[k]) == vec_view(y@[k]),
        decreases x@.len() - i,
    {
        proof {
            assert(vecvec_view(*x)[i as int] == vec_view(x@[i as int]));
            assert(decreases_to!(vecvec_view(*x) => vecvec_view(*x)[i as int]));
        }
        if !patterns_eq(&x[i], &y[i]) {
            proof {
                assert(alts_view(x@)[i as int] != alts_view(y@)[i as int]);
            }
            return false;
        }
        i = i + 1;
    }
    proof {
        assert(alts_view(x@) =~= alts_view(y@));
    }
    true
}

impl View for Pattern {
    type V = SpecPattern;

    open spec fn view(&self) -> SpecPattern {
        pat_view(*self)
    }
}

impl SpecPattern {
    /// The quantifier attached to a node; a backreference takes none.
    pub open spec fn quant(self) -> Count {
        match self {
            SpecPattern::Literal(_, q) => q,
            SpecPattern::Digit(q) => q,
            SpecPattern::Alphanumeric(q) => q,
            SpecPattern::Wildcard(q) => q,
            SpecPattern::CharGroup(_, _, q) => q,
            SpecPattern::Alternation(_, _, q) => q,
            SpecPattern::CapturedGroup(_, _, q) => q,
            SpecPattern::Backreference(_) => Count::One,
        }
    }

    /// A node that consumes one character at a time.
    pub open spec fn is_primitive(self) -> bool {
        match self {
            SpecPattern::Literal(_, _) => true,
            SpecPattern::Digit(_) => true,
            SpecPattern::Alphanumeric(_) => true,
            SpecPattern::Wildcard(_) => true,
            SpecPattern::CharGroup(_, _, _) => true,
            _ => false,
        }
    }

    /// Whether a primitive node accepts the character `c`.
    pub open spec fn accepts(self, c: char) -> bool {
        match self {
            SpecPattern::Literal(l, _) => c == l,
            SpecPattern::Digit(_) => spec_is_digit(c),
            SpecPattern::Alphanumeric(_) => spec_is_word_char(c),
            SpecPattern::Wildcard(_) => !spec_is_metachar(c),
            SpecPattern::CharGroup(neg, members, _) => spec_is_alnum(c) && (members.contains(c)
                != neg),
            _ => false,
        }
    }
}

} // verus!
