//! The backtracking matcher: greedy quantifiers tried largest-first,
//! alternatives tried in source order, capture slices recorded on group
//! success, and backreferences resolved against the captured text.
//!
//! The semantics is fixed by the `spec_*` functions below; every
//! executable function is proved to return exactly what they define.

use crate::chars::{chars_to_string, copy_range, is_alnum_or_underscore, is_char_in_group,
    is_digit_char, is_unrestricted_char, spec_trim, str_to_chars, trim_chars};
use crate::parser::{parse, spec_parse};
use crate::pattern::{lemma_alts_view, lemma_pats_view, pat_view, pats_view, vec_view, vecvec_view,
    Alternation, Count, Group, Pattern, SpecPattern};
use vstd::prelude::*;

verus! {

/// The matcher's state between two pattern items: the cursor into the
/// input, and the capture table (one slice per capture index seen so far).
pub struct SpecState {
    pub pos: nat,
    pub caps: Seq<Seq<char>>,
}

/// The capture-table slot of group number `n` (groups are numbered from 1).
pub open spec fn cap_slot(n: nat) -> nat {
    if n == 0 {
        0
    } else {
        (n - 1) as nat
    }
}

/// `inp[a..b]`, or the empty sequence where the bounds are not a valid range.
pub open spec fn spec_slice(inp: Seq<char>, a: nat, b: nat) -> Seq<char> {
    if a <= b && b <= inp.len() {
        inp.subrange(a as int, b as int)
    } else {
        Seq::empty()
    }
}

/// Writes `text` into capture slot `slot`, growing the table with empty
/// slices so that the slot exists.
pub open spec fn store_cap(caps: Seq<Seq<char>>, slot: nat, text: Seq<char>) -> Seq<Seq<char>> {
    let padded = if caps.len() >= slot + 1 {
        caps
    } else {
        caps + Seq::new((slot + 1 - caps.len()) as nat, |i: int| Seq::<char>::empty())
    };
    padded.update(slot as int, text)
}

/// Length of the longest run of characters from `pos` that the primitive
/// `p` accepts.
pub open spec fn spec_run_len(inp: Seq<char>, pos: nat, p: SpecPattern) -> nat
    decreases inp.len() - pos,
{
    if pos >= inp.len() {
        0
    } else if p.accepts(inp[pos as int]) {
        1 + spec_run_len(inp, pos + 1, p)
    } else {
        0
    }
}

/// The capture table as a sequence of character sequences.
pub open spec fn caps_view(caps: Vec<Vec<char>>) -> Seq<Seq<char>> {
    Seq::new(caps@.len(), |i: int| caps@[i]@)
}

/// Matches the whole pattern sequence `ps` from `pos`. Returns the state
/// after the first success that the backtracking order finds, or `None`.
pub open spec fn spec_match_seq(
    inp: Seq<char>,
    pos: nat,
    ps: Seq<SpecPattern>,
    caps: Seq<Seq<char>>,
) -> Option<SpecState>
    decreases ps, 3int, 0int,
{
    if ps.len() == 0 {
        Some(SpecState { pos, caps })
    } else {
        let p = ps[0];
        let tail = ps.subrange(1, ps.len() as int);
        match p {
            SpecPattern::Backreference(n) => {
                let slot = cap_slot(n);
                if slot < caps.len() {
                    let text = caps[slot as int];
                    if pos + text.len() <= inp.len() && inp.subrange(
                        pos as int,
                        (pos + text.len()) as int,
                    ) == text {
                        spec_match_seq(inp, (pos + text.len()) as nat, tail, caps)
                    } else {
                        None
                    }
                } else {
                    None
                }
            },
            SpecPattern::Alternation(_, _, _) => spec_match_group_like(inp, pos, ps, caps),
            SpecPattern::CapturedGroup(_, _, _) => spec_match_group_like(inp, pos, ps, caps),
            _ => {
                let max = spec_run_len(inp, pos, p);
                let cands = Seq::new(
                    max + 1,
                    |k: int| SpecState { pos: (pos + k) as nat, caps },
                );
                match p.quant() {
                    Count::One => if max >= 1 {
                        spec_descend(inp, ps, cands, 1, 1)
                    } else {
                        None
                    },
                    Count::OneOrMore => if max >= 1 {
                        spec_descend(inp, ps, cands, max, 1)
                    } else {
                        None
                    },
                    Count::ZeroOrOne => spec_descend(
                        inp,
                        ps,
                        cands,
                        if max >= 1 {
                            1
                        } else {
                            0
                        },
                        0,
                    ),
                }
            },
        }
    }
}

/// Matches a group-like head `ps[0]` (group or alternation) followed by
/// the rest of `ps`: collects the greedy run states, then tries repetition
/// counts from the largest down.
pub open spec fn spec_match_group_like(
    inp: Seq<char>,
    pos: nat,
    ps: Seq<SpecPattern>,
    caps: Seq<Seq<char>>,
) -> Option<SpecState>
    decreases ps, 2int, 0int,
{
    if ps.len() == 0 {
        None
    } else {
        let node = ps[0];
        let runs = spec_runs(inp, pos, node, caps);
        let max = runs.len();
        let cands = seq![SpecState { pos, caps }] + runs;
        match node.quant() {
            Count::One => if max >= 1 {
                spec_descend(inp, ps, cands, 1, 1)
            } else {
                None
            },
            Count::OneOrMore => if max >= 1 {
                spec_descend(inp, ps, cands, max, 1)
            } else {
                None
            },
            Count::ZeroOrOne => spec_descend(
                inp,
                ps,
                cands,
                if max >= 1 {
                    1
                } else {
                    0
                },
                0,
            ),
        }
    }
}

/// Tries the repetition counts `n, n-1, ..., lo` for the head of `ps`;
/// `cands[k]` is the state after `k` repetitions. The first count whose
/// continuation matches the rest of `ps` wins.
pub open spec fn spec_descend(
    inp: Seq<char>,
    ps: Seq<SpecPattern>,
    cands: Seq<SpecState>,
    n: nat,
    lo: nat,
) -> Option<SpecState>
    decreases ps, 1int, n,
{
    if ps.len() == 0 || n < lo {
        None
    } else {
        let st = cands[n as int];
        match spec_match_seq(inp, st.pos, ps.subrange(1, ps.len() as int), st.caps) {
            Some(r) => Some(r),
            None => {
                if n == lo {
                    None
                } else {
                    spec_descend(inp, ps, cands, (n - 1) as nat, lo)
                }
            },
        }
    }
}

/// The states after 1, 2, ... greedy repetitions of the group-like `node`,
/// each run starting from the position the previous one reached but from
/// the caller's capture table. Collection stops at the first failing or
/// empty run.
pub open spec fn spec_runs(
    inp: Seq<char>,
    pos: nat,
    node: SpecPattern,
    caps: Seq<Seq<char>>,
) -> Seq<SpecState>
    decreases node, 1int, inp.len() - pos,
{
    match spec_run_once(inp, pos, node, caps) {
        None => Seq::empty(),
        Some(st) => {
            if pos < st.pos <= inp.len() {
                seq![st] + spec_runs(inp, st.pos, node, caps)
            } else {
                Seq::empty()
            }
        },
    }
}

/// One run of a group or alternation: matches the body once and records
/// the consumed slice in the node's capture slot.
pub open spec fn spec_run_once(
    inp: Seq<char>,
    pos: nat,
    node: SpecPattern,
    caps: Seq<Seq<char>>,
) -> Option<SpecState>
    decreases node, 0int, 0int,
{
    match node {
        SpecPattern::CapturedGroup(idx, inner, _) => {
            match spec_match_seq(inp, pos, inner, caps) {
                Some(st) => Some(
                    SpecState {
                        pos: st.pos,
                        caps: store_cap(st.caps, cap_slot(idx), spec_slice(inp, pos, st.pos)),
                    },
                ),
                None => None,
            }
        },
        SpecPattern::Alternation(idx, alts, _) => spec_alt_from(inp, pos, idx, alts, 0, caps),
        _ => None,
    }
}

/// Tries the alternatives of an alternation in source order, starting at
/// branch `j`; the first branch that matches has its slice captured.
pub open spec fn spec_alt_from(
    inp: Seq<char>,
    pos: nat,
    idx: nat,
    alts: Seq<Seq<SpecPattern>>,
    j: nat,
    caps: Seq<Seq<char>>,
) -> Option<SpecState>
    decreases alts, 0int, alts.len() - j,
{
    if j >= alts.len() {
        None
    } else {
        match spec_match_seq(inp, pos, alts[j as int], caps) {
            Some(st) => Some(
                SpecState {
                    pos: st.pos,
                    caps: store_cap(st.caps, cap_slot(idx), spec_slice(inp, pos, st.pos)),
                },
            ),
            None => spec_alt_from(inp, pos, idx, alts, j + 1, caps),
        }
    }
}

/// A run of accepting characters never reaches past the end of the input.
pub proof fn lemma_run_len_le(inp: Seq<char>, pos: nat, p: SpecPattern)
    requires
        pos <= inp.len(),
    ensures
        spec_run_len(inp, pos, p) <= inp.len() - pos,
    decreases inp.len() - pos,
{
    if pos < inp.len() && p.accepts(inp[pos as int]) {
        lemma_run_len_le(inp, pos + 1, p);
    }
}

/// A successful match never moves the cursor backwards or past the end of
/// the input.
pub proof fn lemma_match_seq_in_bounds(
    inp: Seq<char>,
    pos: nat,
    ps: Seq<SpecPattern>,
    caps: Seq<Seq<char>>,
)
    requires
        pos <= inp.len(),
    ensures
        spec_match_seq(inp, pos, ps, caps) matches Some(st) ==> pos <= st.pos <= inp.len(),
    decreases ps, 3int, 0int,
{
    if ps.len() > 0 {
        let p = ps[0];
        let tail = ps.subrange(1, ps.len() as int);
        match p {
            SpecPattern::Backreference(n) => {
                let slot = cap_slot(n);
                if slot < caps.len() && pos + caps[slot as int].len() <= inp.len() {
                    lemma_match_seq_in_bounds(
                        inp,
                        (pos + caps[slot as int].len()) as nat,
                        tail,
                        caps,
                    );
                }
            },
            SpecPattern::Alternation(_, _, _) => {
                lemma_group_like_in_bounds(inp, pos, ps, caps);
            },
            SpecPattern::CapturedGroup(_, _, _) => {
                lemma_group_like_in_bounds(inp, pos, ps, caps);
            },
            _ => {
                lemma_run_len_le(inp, pos, p);
                let max = spec_run_len(inp, pos, p);
                let cands = Seq::new(max + 1, |k: int| SpecState { pos: (pos + k) as nat, caps });
                assert(forall|k: nat|
                    k <= max ==> #[trigger] cands[k as int].pos == pos + k);
                match p.quant() {
                    Count::One => {
                        if max >= 1 {
                            lemma_descend_in_bounds(inp, ps, cands, 1, 1, pos);
                        }
                    },
                    Count::OneOrMore => {
                        if max >= 1 {
                            lemma_descend_in_bounds(inp, ps, cands, max, 1, pos);
                        }
                    },
                    Count::ZeroOrOne => {
                        lemma_descend_in_bounds(
                            inp,
                            ps,
                            cands,
                            if max >= 1 {
                                1
                            } else {
                                0
                            },
                            0,
                            pos,
                        );
                    },
                }
            },
        }
    }
}

/// As `lemma_match_seq_in_bounds`, for a group-like head.
pub proof fn lemma_group_like_in_bounds(
    inp: Seq<char>,
    pos: nat,
    ps: Seq<SpecPattern>,
    caps: Seq<Seq<char>>,
)
    requires
        pos <= inp.len(),
    ensures
        spec_match_group_like(inp, pos, ps, caps) matches Some(st) ==> pos <= st.pos <= inp.len(),
    decreases ps, 2int, 0int,
{
    if ps.len() > 0 {
        let node = ps[0];
        lemma_runs_in_bounds(inp, pos, node, caps);
        let runs = spec_runs(inp, pos, node, caps);
        let max = runs.len();
        let cands = seq![SpecState { pos, caps }] + runs;
        assert(forall|k: nat|
            k <= max ==> pos <= #[trigger] cands[k as int].pos <= inp.len());
        match node.quant() {
            Count::One => {
                if max >= 1 {
                    lemma_descend_in_bounds(inp, ps, cands, 1, 1, pos);
                }
            },
            Count::OneOrMore => {
                if max >= 1 {
                    lemma_descend_in_bounds(inp, ps, cands, max, 1, pos);
                }
            },
            Count::ZeroOrOne => {
                lemma_descend_in_bounds(
                    inp,
                    ps,
                    cands,
                    if max >= 1 {
                        1
                    } else {
                        0
                    },
                    0,
                    pos,
                );
            },
        }
    }
}

/// As `lemma_match_seq_in_bounds`, for the descent over repetition
/// counts, given that every tried candidate state lies within the input.
pub proof fn lemma_descend_in_bounds(
    inp: Seq<char>,
    ps: Seq<SpecPattern>,
    cands: Seq<SpecState>,
    n: nat,
    lo: nat,
    pos0: nat,
)
    requires
        forall|k: nat|
            lo <= k <= n ==> pos0 <= #[trigger] cands[k as int].pos <= inp.len(),
    ensures
        spec_descend(inp, ps, cands, n, lo) matches Some(st) ==> pos0 <= st.pos <= inp.len(),
    decreases ps, 1int, n,
{
    if ps.len() > 0 && n >= lo {
        let st = cands[n as int];
        lemma_match_seq_in_bounds(inp, st.pos, ps.subrange(1, ps.len() as int), st.caps);
        if spec_match_seq(inp, st.pos, ps.subrange(1, ps.len() as int), st.caps) is None && n
            > lo {
            lemma_descend_in_bounds(inp, ps, cands, (n - 1) as nat, lo, pos0);
        }
    }
}

/// Every recorded run state lies between the start position and the end
/// of the input.
pub proof fn lemma_runs_in_bounds(
    inp: Seq<char>,
    pos: nat,
    node: SpecPattern,
    caps: Seq<Seq<char>>,
)
    requires
        pos <= inp.len(),
    ensures
        forall|i: int|
            0 <= i < spec_runs(inp, pos, node, caps).len() ==> pos <= #[trigger] spec_runs(
                inp,
                pos,
                node,
                caps,
            )[i].pos <= inp.len(),
    decreases node, 1int, inp.len() - pos,
{
    match spec_run_once(inp, pos, node, caps) {
        None => {
        },
        Some(st) => {
            if pos < st.pos <= inp.len() {
                lemma_runs_in_bounds(inp, st.pos, node, caps);
                let rr = spec_runs(inp, pos, node, caps);
                let rec = spec_runs(inp, st.pos, node, caps);
                assert forall|i: int| 0 <= i < rr.len() implies pos <= #[trigger] rr[i].pos <= inp.len() by {
                    if i == 0 {
                        assert(rr[i] == st);
                    } else {
                        assert(rr[i] == rec[i - 1]);
                    }
                }
            }
        },
    }
}

/// The still-unmatched part of a pattern vector, in mathematical form.
pub open spec fn suffix_view(ps: Seq<Pattern>, pi: int) -> Seq<SpecPattern> {
    pats_view(ps).subrange(pi, pats_view(ps).len() as int)
}

pub proof fn lemma_suffix_view(ps: Seq<Pattern>, pi: int)
    requires
        0 <= pi <= ps.len(),
    ensures
        suffix_view(ps, pi).len() == ps.len() - pi,
        forall|k: int| 0 <= k < ps.len() - pi ==> suffix_view(ps, pi)[k] == pat_view(ps[pi + k]),
        pi < ps.len() ==> suffix_view(ps, pi).subrange(
            1,
            suffix_view(ps, pi).len() as int,
        ) == suffix_view(ps, pi + 1),
{
    lemma_pats_view(ps);
    if pi < ps.len() {
        assert(suffix_view(ps, pi).subrange(1, suffix_view(ps, pi).len() as int) =~= suffix_view(
            ps,
            pi + 1,
        ));
    }
}

/// The run states recorded by the executable matcher, in mathematical form.
pub open spec fn runs_view(rv: Seq<(usize, Vec<Vec<char>>)>) -> Seq<SpecState> {
    Seq::new(rv.len(), |i: int| SpecState { pos: rv[i].0 as nat, caps: caps_view(rv[i].1) })
}

/// The quantifier carried by a pattern node; a backreference takes none.
fn quant_of(p: &Pattern) -> (q: Count)
    ensures
        q == pat_view(*p).quant(),
{
    match p {
        Pattern::Literal(_, q) => *q,
        Pattern::Digit(q) => *q,
        Pattern::Alphanumeric(q) => *q,
        Pattern::Wildcard(q) => *q,
        Pattern::CharGroup(_, _, q) => *q,
        Pattern::Alternation(a) => a.count,
        Pattern::CapturedGroup(g) => g.count,
        Pattern::Backreference(_) => Count::One,
    }
}

/// Whether the primitive node `p` accepts the character `c`.
fn prim_matches(p: &Pattern, c: char) -> (r: bool)
    requires
        pat_view(*p).is_primitive(),
    ensures
        r == pat_view(*p).accepts(c),
{
    match p {
        Pattern::Literal(l, _) => c == *l,
        Pattern::Digit(_) => is_digit_char(c),
        Pattern::Alphanumeric(_) => is_alnum_or_underscore(c),
        Pattern::Wildcard(_) => is_unrestricted_char(c),
        Pattern::CharGroup(neg, members, _) => is_char_in_group(c, *neg, members),
        _ => false,
    }
}

fn clone_chars(v: &Vec<char>) -> (out: Vec<char>)
    ensures
        out@ == v@,
{
    let out = copy_range(v, 0, v.len());
    proof {
        assert(out@ =~= v@);
    }
    out
}

fn clone_caps(caps: &Vec<Vec<char>>) -> (out: Vec<Vec<char>>)
    ensures
        caps_view(out) == caps_view(*caps),
{
    let mut out: Vec<Vec<char>> = Vec::new();
    let mut i: usize = 0;
    while i < caps.len()
        invariant
            i <= caps.len(),
            out@.len() == i,
            forall|k: int| 0 <= k < i ==> out@[k]@ == caps@[k]@,
        decreases caps.len() - i,
    {
        out.push(clone_chars(&caps[i]));
        i = i + 1;
    }
    proof {
        assert(caps_view(out) =~= caps_view(*caps));
    }
    out
}

/// Writes `text` into capture slot `slot`, growing the table as needed.
fn write_cap(caps: Vec<Vec<char>>, slot: usize, text: Vec<char>) -> (out: Vec<Vec<char>>)
    ensures
        caps_view(out) == store_cap(caps_view(caps), slot as nat, text@),
{
    let ghost orig = caps;
    let mut caps = caps;
    while caps.len() <= slot
        invariant
            caps@.len() >= orig@.len(),
            forall|k: int| 0 <= k < orig@.len() ==> caps@[k]@ == orig@[k]@,
            forall|k: int| orig@.len() <= k < caps@.len() ==> caps@[k]@ == Seq::<char>::empty(),
            caps@.len() <= slot + 1 || caps@.len() == orig@.len(),
        decreases slot + 1 - caps.len(),
    {
        let empty: Vec<char> = Vec::new();
        caps.push(empty);
    }
    caps.set(slot, text);
    proof {
        assert(caps_view(caps) =~= store_cap(caps_view(orig), slot as nat, text@));
    }
    caps
}

/// Consumes the text of capture `n` from the cursor, if the slot exists
/// and the input continues with exactly that text.
pub fn match_backreference(input: &Vec<char>, pos: usize, n: usize, caps: &Vec<Vec<char>>) -> (r:
    Option<usize>)
    requires
        pos <= input.len(),
    ensures
        ({
            let slot = cap_slot(n as nat);
            let cv = caps_view(*caps);
            let text = cv[slot as int];
            match r {
                Some(p2) => slot < cv.len() && p2 == pos + text.len() && p2 <= input@.len()
                    && input@.subrange(pos as int, p2 as int) == text,
                None => !(slot < cv.len() && pos + text.len() <= input@.len() && input@.subrange(
                    pos as int,
                    (pos + text.len()) as int,
                ) == text),
            }
        }),
{
    let slot: usize = if n == 0 {
        0
    } else {
        n - 1
    };
    if slot >= caps.len() {
        return None;
    }
    let expected = &caps[slot];
    if expected.len() > input.len() - pos {
        return None;
    }
    let end: usize = pos + expected.len();
    let mut i: usize = 0;
    while i < expected.len()
        invariant
            slot < caps@.len(),
            slot as nat == cap_slot(n as nat),
            expected@ == caps@[slot as int]@,
            end == pos + expected@.len(),
            end <= input@.len(),
            i <= expected@.len(),
            forall|k: int| 0 <= k < i ==> input@[pos + k] == expected@[k],
        decreases expected.len() - i,
    {
        if input[pos + i] != expected[i] {
            proof {
                let cv = caps_view(*caps);
                let text = cv[slot as int];
                assert(text == expected@);
                assert(input@.subrange(pos as int, (pos + text.len()) as int)[i as int] != text[i as int]);
                assert(input@.subrange(pos as int, (pos + text.len()) as int) != text);
            }
            return None;
        }
        i = i + 1;
    }
    proof {
        let cv = caps_view(*caps);
        assert(cv[slot as int] == expected@);
        assert(input@.subrange(pos as int, end as int) =~= expected@);
    }
    Some(end)
}

/// The executable matcher returns exactly the state that the spec-level
/// semantics `s` names, and never moves the cursor backwards.
pub open spec fn corresponds(
    r: Option<(usize, Vec<Vec<char>>)>,
    s: Option<SpecState>,
    pos: usize,
    input: Seq<char>,
) -> bool {
    match r {
        None => s is None,
        Some((p2, c2)) => s == Some((SpecState { pos: p2 as nat, caps: caps_view(c2) })) && pos
            <= p2 <= input.len(),
    }
}

/// Matches `ps[pi..]` from `pos` with capture table `caps`, backtracking
/// as the specification prescribes.
pub fn match_sequence(
    input: &Vec<char>,
    ps: &Vec<Pattern>,
    pi: usize,
    pos: usize,
    caps: &Vec<Vec<char>>,
) -> (r: Option<(usize, Vec<Vec<char>>)>)
    requires
        pi <= ps@.len(),
        pos <= input@.len(),
    ensures
        corresponds(
            r,
            spec_match_seq(input@, pos as nat, suffix_view(ps@, pi as int), caps_view(*caps)),
            pos,
            input@,
        ),
    decreases suffix_view(ps@, pi as int), 3int, 0int,
{
    proof {
        lemma_suffix_view(ps@, pi as int);
    }
    if pi == ps.len() {
        let out = clone_caps(caps);
        return Some((pos, out));
    }
    let ghost sv = suffix_view(ps@, pi as int);
    let p = &ps[pi];
    proof {
        assert(sv[0] == pat_view(ps@[pi as int]));
        assert(sv.subrange(1, sv.len() as int) == suffix_view(ps@, pi as int + 1));
    }
    match p {
        Pattern::Backreference(n) => {
            match match_backreference(input, pos, *n, caps) {
                Some(p2) => match_sequence(input, ps, pi + 1, p2, caps),
                None => None,
            }
        },
        Pattern::Alternation(_) => try_group_like(input, ps, pi, pos, caps),
        Pattern::CapturedGroup(_) => try_group_like(input, ps, pi, pos, caps),
        _ => try_quantified(input, ps, pi, pos, caps),
    }
}

/// Matches a quantified primitive `ps[pi]` and then the rest of `ps`,
/// trying repetition counts from the greedy maximum down.
#[verifier::loop_isolation(false)]
fn try_quantified(
    input: &Vec<char>,
    ps: &Vec<Pattern>,
    pi: usize,
    pos: usize,
    caps: &Vec<Vec<char>>,
) -> (r: Option<(usize, Vec<Vec<char>>)>)
    requires
        pi < ps@.len(),
        pos <= input@.len(),
        pat_view(ps@[pi as int]).is_primitive(),
    ensures
        corresponds(
            r,
            spec_match_seq(input@, pos as nat, suffix_view(ps@, pi as int), caps_view(*caps)),
            pos,
            input@,
        ),
    decreases suffix_view(ps@, pi as int), 2int, 0int,
{
    proof {
        lemma_suffix_view(ps@, pi as int);
    }
    let ghost sv = suffix_view(ps@, pi as int);
    let ghost pv = pat_view(ps@[pi as int]);
    let ghost cv = caps_view(*caps);
    proof {
        assert(sv[0] == pv);
        assert(sv.subrange(1, sv.len() as int) == suffix_view(ps@, pi as int + 1));
    }
    let p = &ps[pi];
    proof {
        assert(input.len() == input@.len());
        assert(ps.len() == ps@.len());
    }

    let mut max: usize = 0;
    while max < input.len() - pos && prim_matches(p, input[pos + max])
        invariant
            pos + max <= input@.len(),
            spec_run_len(input@, pos as nat, pv) == max + spec_run_len(
                input@,
                (pos + max) as nat,
                pv,
            ),
        decreases input@.len() - pos - max,
    {
        max = max + 1;
    }
    proof {
        assert(spec_run_len(input@, (pos + max) as nat, pv) == 0);
    }

    let q = quant_of(p);
    let ghost cands = Seq::new(
        (max + 1) as nat,
        |k: int| SpecState { pos: (pos + k) as nat, caps: cv },
    );
    let ghost s = spec_match_seq(input@, pos as nat, sv, cv);

    let mut runs: Vec<(usize, Vec<Vec<char>>)> = Vec::new();
    let mut t: usize = 0;
    while t < max
        invariant
            t <= max,
            runs@.len() == t,
            forall|u: int|
                0 <= u < t ==> #[trigger] runs@[u].0 == pos + u + 1 && caps_view(runs@[u].1) == cv,
        decreases max - t,
    {
        runs.push((pos + t + 1, clone_caps(caps)));
        t = t + 1;
    }
    proof {
        assert(seq![(SpecState { pos: pos as nat, caps: cv })] + runs_view(runs@) =~= cands);
    }

    let n: usize;
    let lo: usize;
    match q {
        Count::One => {
            if max == 0 {
                proof {
                    assert(s is None);
                }
                return None;
            }
            n = 1;
            lo = 1;
        },
        Count::OneOrMore => {
            if max == 0 {
                proof {
                    assert(s is None);
                }
                return None;
            }
            n = max;
            lo = 1;
        },
        Count::ZeroOrOne => {
            n = if max >= 1 {
                1
            } else {
                0
            };
            lo = 0;
        },
    }
    proof {
        assert(s == spec_descend(input@, sv, cands, n as nat, lo as nat));
    }
    try_repetitions(input, ps, pi, pos, caps, &runs, n, lo)
}

/// Common logic for trying repetition counts in greedy order: `runs[t]`
/// holds the state after `t + 1` repetitions of the head of `ps`, and the
/// counts `n, n-1, ..., lo` are tried until the rest of `ps` matches.
#[verifier::loop_isolation(false)]
fn try_repetitions(
    input: &Vec<char>,
    ps: &Vec<Pattern>,
    pi: usize,
    pos: usize,
    caps: &Vec<Vec<char>>,
    runs: &Vec<(usize, Vec<Vec<char>>)>,
    n: usize,
    lo: usize,
) -> (r: Option<(usize, Vec<Vec<char>>)>)
    requires
        pi < ps@.len(),
        pos <= input@.len(),
        lo <= n <= runs@.len(),
        forall|t: int| 0 <= t < runs@.len() ==> pos <= #[trigger] runs@[t].0 <= input@.len(),
    ensures
        corresponds(
            r,
            spec_descend(
                input@,
                suffix_view(ps@, pi as int),
                seq![(SpecState { pos: pos as nat, caps: caps_view(*caps) })] + runs_view(runs@),
                n as nat,
                lo as nat,
            ),
            pos,
            input@,
        ),
    decreases suffix_view(ps@, pi as int), 1int, 0int,
{
    proof {
        lemma_suffix_view(ps@, pi as int);
        assert(ps.len() == ps@.len());
    }
    let ghost sv = suffix_view(ps@, pi as int);
    let ghost cv = caps_view(*caps);
    let ghost cands = seq![(SpecState { pos: pos as nat, caps: cv })] + runs_view(runs@);
    proof {
        assert(sv.subrange(1, sv.len() as int) == suffix_view(ps@, pi as int + 1));
    }
    let mut k: usize = n;
    loop
        invariant
            lo <= k <= n,
            spec_descend(input@, sv, cands, n as nat, lo as nat) == spec_descend(
                input@,
                sv,
                cands,
                k as nat,
                lo as nat,
            ),
        decreases k,
    {
        let rr: Option<(usize, Vec<Vec<char>>)>;
        if k == 0 {
            proof {
                assert(cands[k as int] == (SpecState { pos: pos as nat, caps: cv }));
            }
            rr = match_sequence(input, ps, pi + 1, pos, caps);
        } else {
            let cp = runs[k - 1].0;
            proof {
                assert(cands[k as int] == runs_view(runs@)[k - 1]);
                assert(cands[k as int] == (SpecState {
                    pos: cp as nat,
                    caps: caps_view(runs@[k - 1].1),
                }));
            }
            rr = match_sequence(input, ps, pi + 1, cp, &runs[k - 1].1);
        }
        match rr {
            Some(out) => {
                return Some(out);
            },
            None => {
                if k == lo {
                    return None;
                }
                k = k - 1;
            },
        }
    }
}

/// One run of a group-like node: dispatches to the alternation or group
/// matcher.
fn run_group_once(
    p: &Pattern,
    input: &Vec<char>,
    pos: usize,
    caps: &Vec<Vec<char>>,
) -> (r: Option<(usize, Vec<Vec<char>>)>)
    requires
        pos <= input@.len(),
        pat_view(*p) is Alternation || pat_view(*p) is CapturedGroup,
    ensures
        corresponds(r, spec_run_once(input@, pos as nat, pat_view(*p), caps_view(*caps)), pos, input@),
    decreases pat_view(*p), 5int, 0int,
{
    match p {
        Pattern::Alternation(a) => {
            proof {
                assert(pat_view(*p) == (SpecPattern::Alternation(
                    a.idx as nat,
                    vecvec_view(a.alternatives),
                    a.count,
                )));
            }
            match_alternation(a, input, pos, caps)
        },
        Pattern::CapturedGroup(g) => {
            proof {
                assert(pat_view(*p) == (SpecPattern::CapturedGroup(
                    g.idx as nat,
                    vec_view(g.patterns),
                    g.count,
                )));
            }
            match_captured_group(g, input, pos, caps)
        },
        _ => {
            proof {
                assert(false);
            }
            None
        },
    }
}

/// Matches a quantified group-like `ps[pi]` and then the rest of `ps`:
/// collects the greedy run states, then tries repetition counts from the
/// largest down.
#[verifier::loop_isolation(false)]
fn try_group_like(
    input: &Vec<char>,
    ps: &Vec<Pattern>,
    pi: usize,
    pos: usize,
    caps: &Vec<Vec<char>>,
) -> (r: Option<(usize, Vec<Vec<char>>)>)
    requires
        pi < ps@.len(),
        pos <= input@.len(),
        pat_view(ps@[pi as int]) is Alternation || pat_view(ps@[pi as int]) is CapturedGroup,
    ensures
        corresponds(
            r,
            spec_match_seq(input@, pos as nat, suffix_view(ps@, pi as int), caps_view(*caps)),
            pos,
            input@,
        ),
    decreases suffix_view(ps@, pi as int), 2int, 0int,
{
    proof {
        lemma_suffix_view(ps@, pi as int);
    }
    let ghost sv = suffix_view(ps@, pi as int);
    let ghost node = pat_view(ps@[pi as int]);
    let ghost cv = caps_view(*caps);
    proof {
        assert(sv[0] == node);
        assert(sv.subrange(1, sv.len() as int) == suffix_view(ps@, pi as int + 1));
        assert(decreases_to!(sv => sv[0]));
        assert(input.len() == input@.len());
        assert(ps.len() == ps@.len());
    }
    let p = &ps[pi];

    let mut runs: Vec<(usize, Vec<Vec<char>>)> = Vec::new();
    let mut cur: usize = pos;
    let mut done = false;
    while !done
        invariant
            pos <= cur <= input@.len(),
            spec_runs(input@, pos as nat, node, cv) == runs_view(runs@) + spec_runs(
                input@,
                cur as nat,
                node,
                cv,
            ),
            done ==> spec_runs(input@, cur as nat, node, cv) == Seq::<SpecState>::empty(),
            forall|t: int| 0 <= t < runs@.len() ==> pos <= #[trigger] runs@[t].0 <= input@.len(),
        decreases input@.len() - cur + (if done {
            0int
        } else {
            1int
        }),
    {
        let once = run_group_once(p, input, cur, caps);
        match once {
            None => {
                done = true;
            },
            Some((p2, c2)) => {
                if p2 == cur {
                    done = true;
                } else {
                    proof {
                        let st = (SpecState { pos: p2 as nat, caps: caps_view(c2) });
                        assert(spec_runs(input@, cur as nat, node, cv) == seq![st] + spec_runs(
                            input@,
                            p2 as nat,
                            node,
                            cv,
                        ));
                        assert(runs_view(runs@.push((p2, c2))) =~= runs_view(runs@) + seq![st]);
                        assert(runs_view(runs@) + (seq![st] + spec_runs(
                            input@,
                            p2 as nat,
                            node,
                            cv,
                        )) =~= (runs_view(runs@) + seq![st]) + spec_runs(
                            input@,
                            p2 as nat,
                            node,
                            cv,
                        ));
                    }
                    runs.push((p2, c2));
                    cur = p2;
                }
            },
        }
    }
    proof {
        assert(spec_runs(input@, pos as nat, node, cv) =~= runs_view(runs@));
    }

    let q = quant_of(p);
    let max = runs.len();
    let ghost cands = seq![SpecState { pos: pos as nat, caps: cv }] + runs_view(runs@);
    let ghost s = spec_match_seq(input@, pos as nat, sv, cv);
    proof {
        assert(s == spec_match_group_like(input@, pos as nat, sv, cv));
    }
    let n: usize;
    let lo: usize;
    match q {
        Count::One => {
            if max == 0 {
                proof {
                    assert(s is None);
                }
                return None;
            }
            n = 1;
            lo = 1;
        },
        Count::OneOrMore => {
            if max == 0 {
                proof {
                    assert(s is None);
                }
                return None;
            }
            n = max;
            lo = 1;
        },
        Count::ZeroOrOne => {
            n = if max >= 1 {
                1
            } else {
                0
            };
            lo = 0;
        },
    }
    proof {
        assert(s == spec_descend(input@, sv, cands, n as nat, lo as nat));
    }
    try_repetitions(input, ps, pi, pos, caps, &runs, n, lo)
}

/// Tries the alternatives of `a` in source order at `pos`; the first
/// branch that matches has its consumed slice written to the capture slot.
#[verifier::loop_isolation(false)]
fn match_alternation(
    a: &Alternation,
    input: &Vec<char>,
    pos: usize,
    caps: &Vec<Vec<char>>,
) -> (r: Option<(usize, Vec<Vec<char>>)>)
    requires
        pos <= input@.len(),
    ensures
        corresponds(
            r,
            spec_run_once(
                input@,
                pos as nat,
                (SpecPattern::Alternation(a.idx as nat, vecvec_view(a.alternatives), a.count)),
                caps_view(*caps),
            ),
            pos,
            input@,
        ),
    decreases vecvec_view(a.alternatives), 4int, 0int,
{
    let ghost alts = vecvec_view(a.alternatives);
    let ghost cv = caps_view(*caps);
    proof {
        lemma_alts_view(a.alternatives@);
    }
    let mut j: usize = 0;
    loop
        invariant
            j <= a.alternatives@.len(),
            spec_alt_from(input@, pos as nat, a.idx as nat, alts, 0, cv) == spec_alt_from(
                input@,
                pos as nat,
                a.idx as nat,
                alts,
                j as nat,
                cv,
            ),
        decreases a.alternatives@.len() - j,
    {
        if j == a.alternatives.len() {
            return None;
        }
        let branch = &a.alternatives[j];
        proof {
            lemma_suffix_view(branch@, 0);
            assert(suffix_view(branch@, 0) =~= vec_view(*branch));
            assert(alts[j as int] == vec_view(*branch));
            assert(decreases_to!(alts => alts[j as int]));
        }
        match match_sequence(input, branch, 0, pos, caps) {
            Some((p2, c2)) => {
                let text = copy_range(input, pos, p2);
                let slot: usize = if a.idx == 0 {
                    0
                } else {
                    a.idx - 1
                };
                let out = write_cap(c2, slot, text);
                proof {
                    assert(text@ == spec_slice(input@, pos as nat, p2 as nat));
                    assert(slot as nat == cap_slot(a.idx as nat));
                }
                return Some((p2, out));
            },
            None => {
                j = j + 1;
            },
        }
    }
}

/// Matches the body of the capturing group `g` once at `pos` and records
/// the consumed slice in the group's capture slot.
fn match_captured_group(
    g: &Group,
    input: &Vec<char>,
    pos: usize,
    caps: &Vec<Vec<char>>,
) -> (r: Option<(usize, Vec<Vec<char>>)>)
    requires
        pos <= input@.len(),
    ensures
        corresponds(
            r,
            spec_run_once(
                input@,
                pos as nat,
                (SpecPattern::CapturedGroup(g.idx as nat, vec_view(g.patterns), g.count)),
                caps_view(*caps),
            ),
            pos,
            input@,
        ),
    decreases vec_view(g.patterns), 4int, 0int,
{
    proof {
        lemma_suffix_view(g.patterns@, 0);
        assert(suffix_view(g.patterns@, 0) =~= vec_view(g.patterns));
    }
    match match_sequence(input, &g.patterns, 0, pos, caps) {
        None => None,
        Some((p2, c2)) => {
            let text = copy_range(input, pos, p2);
            let slot: usize = if g.idx == 0 {
                0
            } else {
                g.idx - 1
            };
            let out = write_cap(c2, slot, text);
            proof {
                assert(text@ == spec_slice(input@, pos as nat, p2 as nat));
                assert(slot as nat == cap_slot(g.idx as nat));
            }
            Some((p2, out))
        },
    }
}

/// The first start offset at or after `i` whose attempt succeeds (and, with
/// an end anchor, consumes to the end of the input); returns the matched
/// range of the input.
pub open spec fn spec_search(
    inp: Seq<char>,
    psv: Seq<SpecPattern>,
    end_anchor: bool,
    i: nat,
) -> Option<(nat, nat)>
    decreases inp.len() + 1 - i,
{
    if i > inp.len() {
        None
    } else {
        let a = spec_match_seq(inp, i, psv, Seq::empty());
        if a is Some && (!end_anchor || a->0.pos == inp.len()) {
            Some((i, a->0.pos))
        } else if i == inp.len() {
            None
        } else {
            spec_search(inp, psv, end_anchor, i + 1)
        }
    }
}

/// What `match_regex` returns: the line is trimmed, the regex parsed; with
/// a start anchor only offset zero is attempted, otherwise start offsets
/// are tried left to right; an end anchor demands the attempt consume the
/// whole trimmed line. The matched slice of the trimmed line comes back.
pub open spec fn spec_match_regex(line: Seq<char>, regex: Seq<char>) -> Option<Seq<char>> {
    let t = spec_trim(line);
    match spec_parse(regex) {
        Err(_) => None,
        Ok((psv, sa, ea)) => {
            if sa {
                let a = spec_match_seq(t, 0, psv, Seq::empty());
                if a is Some && (!ea || a->0.pos == t.len()) {
                    Some(t.subrange(0, a->0.pos as int))
                } else {
                    None
                }
            } else {
                match spec_search(t, psv, ea, 0) {
                    Some((s, e)) => Some(t.subrange(s as int, e as int)),
                    None => None,
                }
            }
        },
    }
}

/// Entry point: attempts to match `regex` against `input_line` and returns
/// the matched substring of the trimmed line.
#[verifier::loop_isolation(false)]
pub fn match_regex(input_line: &str, regex: &str) -> (r: Option<String>)
    requires
        spec_parse(regex@) is Ok,
    ensures
        ({
            let s = spec_match_regex(input_line@, regex@);
            match r {
                None => s is None,
                Some(m) => s == Some(m@),
            }
        }),
        r matches Some(m) ==> exists|a: int, b: int|
            0 <= a <= b <= spec_trim(input_line@).len() && m@ == spec_trim(
                input_line@,
            ).subrange(a, b),
{
    let line_chars = str_to_chars(input_line);
    let trimmed = trim_chars(&line_chars);
    let parsed = parse(regex);
    let (patterns, start_anchor, end_anchor) = match parsed {
        Ok(t) => t,
        Err(_) => {
            proof {
                assert(false);
            }
            return None;
        },
    };
    let ghost psv = vec_view(patterns);
    proof {
        lemma_suffix_view(patterns@, 0);
        assert(suffix_view(patterns@, 0) =~= psv);
    }
    let empty_caps: Vec<Vec<char>> = Vec::new();
    proof {
        assert(caps_view(empty_caps) =~= Seq::<Seq<char>>::empty());
    }
    if start_anchor {
        match match_sequence(&trimmed, &patterns, 0, 0, &empty_caps) {
            Some((end, _caps)) => {
                if !end_anchor || end == trimmed.len() {
                    let m = copy_range(&trimmed, 0, end);
                    proof {
                        assert(0 <= 0int <= end as int <= spec_trim(input_line@).len() && m@
                            == spec_trim(input_line@).subrange(0, end as int));
                    }
                    Some(chars_to_string(&m))
                } else {
                    None
                }
            },
            None => None,
        }
    } else {
        let mut i: usize = 0;
        loop
            invariant
                i <= trimmed@.len(),
                spec_search(trimmed@, psv, end_anchor, 0) == spec_search(
                    trimmed@,
                    psv,
                    end_anchor,
                    i as nat,
                ),
            decreases trimmed@.len() + 1 - i,
        {
            match match_sequence(&trimmed, &patterns, 0, i, &empty_caps) {
                Some((end, _caps)) => {
                    if !end_anchor || end == trimmed.len() {
                        let m = copy_range(&trimmed, i, end);
                        proof {
                            assert(0 <= i as int <= end as int <= spec_trim(input_line@).len()
                                && m@ == spec_trim(input_line@).subrange(i as int, end as int));
                        }
                        return Some(chars_to_string(&m));
                    }
                },
                None => {},
            }
            if i == trimmed.len() {
                return None;
            }
            i = i + 1;
        }
    }
}

} // verus!
