//! Laws of the engine, proved once and for all against the specification
//! functions: leftmost start search, greedy repetition, anchor semantics,
//! capture/backreference agreement, and the boundary behaviours of empty
//! patterns, unentered captures and classes at the end of input.

use crate::chars::spec_trim;
use crate::matcher::{cap_slot, lemma_match_seq_in_bounds, spec_match_regex, spec_match_seq,
    spec_run_len, spec_run_once, spec_search, spec_slice, store_cap, SpecState};
use crate::parser::spec_parse;
use crate::pattern::{Count, SpecPattern};
use vstd::prelude::*;

verus! {

/// An attempt of the pattern program at start offset `j` that succeeds
/// and, when `ea` holds, consumes to the end of the input.
pub open spec fn spec_ok_attempt(inp: Seq<char>, psv: Seq<SpecPattern>, ea: bool, j: nat) -> bool {
    let a = spec_match_seq(inp, j, psv, Seq::empty());
    a is Some && (!ea || a->0.pos == inp.len())
}

/// The search returns the smallest start offset at or after `i` whose
/// attempt succeeds; every earlier offset fails.
pub proof fn lemma_search_leftmost(inp: Seq<char>, psv: Seq<SpecPattern>, ea: bool, i: nat)
    requires
        i <= inp.len(),
    ensures
        match spec_search(inp, psv, ea, i) {
            Some((s, e)) => i <= s <= e <= inp.len() && spec_ok_attempt(inp, psv, ea, s) && e
                == spec_match_seq(inp, s, psv, Seq::empty())->0.pos && (forall|j: nat|
                i <= j < s ==> !spec_ok_attempt(inp, psv, ea, j)),
            None => forall|j: nat| i <= j <= inp.len() ==> !spec_ok_attempt(inp, psv, ea, j),
        },
    decreases inp.len() + 1 - i,
{
    if spec_ok_attempt(inp, psv, ea, i) {
        lemma_match_seq_in_bounds(inp, i, psv, Seq::empty());
    } else if i < inp.len() {
        lemma_search_leftmost(inp, psv, ea, i + 1);
    }
}

/// Slice fidelity: a successful match is a contiguous slice of the
/// trimmed line.
pub proof fn lemma_slice_fidelity(line: Seq<char>, regex: Seq<char>)
    requires
        spec_parse(regex) is Ok,
    ensures
        spec_match_regex(line, regex) matches Some(m) ==> exists|a: int, b: int|
            0 <= a <= b <= spec_trim(line).len() && m == spec_trim(line).subrange(a, b),
{
    let t = spec_trim(line);
    let psv = spec_parse(regex)->Ok_0.0;
    let sa = spec_parse(regex)->Ok_0.1;
    let ea = spec_parse(regex)->Ok_0.2;
    if spec_match_regex(line, regex) is Some {
        if sa {
            lemma_match_seq_in_bounds(t, 0, psv, Seq::empty());
            let e = spec_match_seq(t, 0, psv, Seq::empty())->0.pos;
            assert(0 <= 0int <= e as int <= t.len() && spec_match_regex(line, regex)->0
                == t.subrange(0, e as int));
        } else {
            lemma_search_leftmost(t, psv, ea, 0);
            let (a, b) = spec_search(t, psv, ea, 0)->0;
            assert(0 <= a as int <= b as int <= t.len() && spec_match_regex(line, regex)->0
                == t.subrange(a as int, b as int));
        }
    }
}

/// Leftmost start: without a start anchor, a successful match begins at
/// the smallest offset of the trimmed line at which any attempt succeeds,
/// and a failed match means every offset fails.
pub proof fn lemma_leftmost_start(line: Seq<char>, regex: Seq<char>)
    requires
        spec_parse(regex) is Ok,
        !spec_parse(regex)->Ok_0.1,
    ensures
        ({
            let t = spec_trim(line);
            let psv = spec_parse(regex)->Ok_0.0;
            let ea = spec_parse(regex)->Ok_0.2;
            match spec_match_regex(line, regex) {
                Some(m) => exists|s: nat|
                    #[trigger] spec_ok_attempt(t, psv, ea, s) && s <= t.len() && m == t.subrange(
                        s as int,
                        spec_match_seq(t, s, psv, Seq::empty())->0.pos as int,
                    ) && (forall|j: nat| j < s ==> !spec_ok_attempt(t, psv, ea, j)),
                None => forall|j: nat| j <= t.len() ==> !spec_ok_attempt(t, psv, ea, j),
            }
        }),
{
    let t = spec_trim(line);
    let psv = spec_parse(regex)->Ok_0.0;
    let ea = spec_parse(regex)->Ok_0.2;
    lemma_search_leftmost(t, psv, ea, 0);
    if spec_match_regex(line, regex) is Some {
        let (s, e) = spec_search(t, psv, ea, 0)->0;
        assert(spec_ok_attempt(t, psv, ea, s));
    }
}

/// The descent over repetition counts returns the continuation's result
/// at the largest count that lets the rest of the pattern match.
pub proof fn lemma_descend_picks_largest(
    inp: Seq<char>,
    ps: Seq<SpecPattern>,
    cands: Seq<SpecState>,
    n: nat,
    lo: nat,
    k: nat,
)
    requires
        ps.len() > 0,
        lo <= k <= n,
        spec_match_seq(
            inp,
            cands[k as int].pos,
            ps.subrange(1, ps.len() as int),
            cands[k as int].caps,
        ) is Some,
        forall|j: nat|
            k < j <= n ==> spec_match_seq(
                inp,
                #[trigger] cands[j as int].pos,
                ps.subrange(1, ps.len() as int),
                cands[j as int].caps,
            ) is None,
    ensures
        crate::matcher::spec_descend(inp, ps, cands, n, lo) == spec_match_seq(
            inp,
            cands[k as int].pos,
            ps.subrange(1, ps.len() as int),
            cands[k as int].caps,
        ),
    decreases n,
{
    if n > k {
        assert(cands[n as int].pos == cands[n as int].pos);
        lemma_descend_picks_largest(inp, ps, cands, (n - 1) as nat, lo, k);
    }
}

/// Greedy repetition: a one-or-more primitive over a run of accepting
/// characters commits to the largest repetition count whose continuation
/// matches; if only a smaller count lets the rest match, the sequence
/// still matches with that count's result.
pub proof fn lemma_greedy_one_or_more(
    inp: Seq<char>,
    pos: nat,
    ps: Seq<SpecPattern>,
    caps: Seq<Seq<char>>,
    k: nat,
)
    requires
        ps.len() > 0,
        ps[0].is_primitive(),
        ps[0].quant() == Count::OneOrMore,
        1 <= k <= spec_run_len(inp, pos, ps[0]),
        spec_match_seq(inp, (pos + k) as nat, ps.subrange(1, ps.len() as int), caps) is Some,
        forall|j: nat|
            k < j <= spec_run_len(inp, pos, ps[0]) ==> #[trigger] spec_match_seq(
                inp,
                (pos + j) as nat,
                ps.subrange(1, ps.len() as int),
                caps,
            ) is None,
    ensures
        spec_match_seq(inp, pos, ps, caps) == spec_match_seq(
            inp,
            (pos + k) as nat,
            ps.subrange(1, ps.len() as int),
            caps,
        ),
{
    let max = spec_run_len(inp, pos, ps[0]);
    let cands = Seq::new(max + 1, |j: int| SpecState { pos: (pos + j) as nat, caps });
    assert forall|j: nat| k < j <= max implies spec_match_seq(
        inp,
        #[trigger] cands[j as int].pos,
        ps.subrange(1, ps.len() as int),
        cands[j as int].caps,
    ) is None by {
        assert(cands[j as int].pos == pos + j);
    }
    lemma_descend_picks_largest(inp, ps, cands, max, 1, k);
    assert(spec_match_seq(inp, pos, ps, caps) == crate::matcher::spec_descend(
        inp,
        ps,
        cands,
        max,
        1,
    ));
}

/// Start-anchor semantics: `^p` matches exactly when `p`'s program
/// matches at offset zero of the trimmed line, and then returns the slice
/// that attempt consumed.
pub proof fn lemma_start_anchor(line: Seq<char>, regex: Seq<char>)
    requires
        spec_parse(regex) is Ok,
        spec_parse(regex)->Ok_0.1,
    ensures
        ({
            let t = spec_trim(line);
            let psv = spec_parse(regex)->Ok_0.0;
            let ea = spec_parse(regex)->Ok_0.2;
            &&& (spec_match_regex(line, regex) is Some <==> spec_ok_attempt(t, psv, ea, 0))
            &&& (spec_match_regex(line, regex) is Some ==> spec_match_regex(line, regex)->0
                == t.subrange(0, spec_match_seq(t, 0, psv, Seq::empty())->0.pos as int))
        }),
{
}

/// End-anchor semantics: `p$` (without a start anchor) matches exactly
/// when some attempt of `p`'s program ends at the end of the trimmed line.
pub proof fn lemma_end_anchor(line: Seq<char>, regex: Seq<char>)
    requires
        spec_parse(regex) is Ok,
        !spec_parse(regex)->Ok_0.1,
        spec_parse(regex)->Ok_0.2,
    ensures
        ({
            let t = spec_trim(line);
            let psv = spec_parse(regex)->Ok_0.0;
            spec_match_regex(line, regex) is Some <==> exists|j: nat|
                j <= t.len() && #[trigger] spec_ok_attempt(t, psv, true, j)
        }),
{
    let t = spec_trim(line);
    let psv = spec_parse(regex)->Ok_0.0;
    lemma_search_leftmost(t, psv, true, 0);
    if spec_match_regex(line, regex) is Some {
        let (s, e) = spec_search(t, psv, true, 0)->0;
        assert(spec_ok_attempt(t, psv, true, s));
    }
}

/// Capture equality, group side: on a successful run of a capturing
/// group, the group's slot holds exactly the slice the run consumed.
pub proof fn lemma_group_capture(
    inp: Seq<char>,
    pos: nat,
    idx: nat,
    inner: Seq<SpecPattern>,
    q: Count,
    caps: Seq<Seq<char>>,
)
    requires
        spec_run_once(inp, pos, SpecPattern::CapturedGroup(idx, inner, q), caps) is Some,
    ensures
        ({
            let st = spec_run_once(inp, pos, SpecPattern::CapturedGroup(idx, inner, q), caps)->0;
            cap_slot(idx) < st.caps.len() && st.caps[cap_slot(idx) as int] == spec_slice(
                inp,
                pos,
                st.pos,
            )
        }),
{
    let st0 = spec_match_seq(inp, pos, inner, caps)->0;
    let slot = cap_slot(idx);
    let text = spec_slice(inp, pos, st0.pos);
    let padded = if st0.caps.len() >= slot + 1 {
        st0.caps
    } else {
        st0.caps + Seq::new((slot + 1 - st0.caps.len()) as nat, |i: int| Seq::<char>::empty())
    };
    assert(store_cap(st0.caps, slot, text) == padded.update(slot as int, text));
    assert(padded.len() > slot);
}

/// Capture equality, backreference side: a backreference that fires
/// consumes exactly the text stored in its group's capture slot, and the
/// match then continues after that text.
pub proof fn lemma_backreference_consumes(
    inp: Seq<char>,
    pos: nat,
    ps: Seq<SpecPattern>,
    caps: Seq<Seq<char>>,
    n: nat,
)
    requires
        ps.len() > 0,
        ps[0] == SpecPattern::Backreference(n),
        spec_match_seq(inp, pos, ps, caps) is Some,
    ensures
        cap_slot(n) < caps.len(),
        pos + caps[cap_slot(n) as int].len() <= inp.len(),
        inp.subrange(pos as int, (pos + caps[cap_slot(n) as int].len()) as int) == caps[cap_slot(
            n,
        ) as int],
        spec_match_seq(
            inp,
            (pos + caps[cap_slot(n) as int].len()) as nat,
            ps.subrange(1, ps.len() as int),
            caps,
        ) == spec_match_seq(inp, pos, ps, caps),
{
}

/// A backreference to a capture slot that does not exist fails the
/// whole branch.
pub proof fn lemma_unentered_backreference(
    inp: Seq<char>,
    pos: nat,
    ps: Seq<SpecPattern>,
    caps: Seq<Seq<char>>,
    n: nat,
)
    requires
        ps.len() > 0,
        ps[0] == SpecPattern::Backreference(n),
        cap_slot(n) >= caps.len(),
    ensures
        spec_match_seq(inp, pos, ps, caps) is None,
{
}

/// An empty pattern program without an end anchor matches every line,
/// returning the empty slice at the first attempted offset.
pub proof fn lemma_empty_pattern(line: Seq<char>, regex: Seq<char>)
    requires
        spec_parse(regex) is Ok,
        spec_parse(regex)->Ok_0.0.len() == 0,
        !spec_parse(regex)->Ok_0.2,
    ensures
        spec_match_regex(line, regex) == Some(Seq::<char>::empty()),
{
    let t = spec_trim(line);
    let psv = spec_parse(regex)->Ok_0.0;
    let sa = spec_parse(regex)->Ok_0.1;
    if sa {
        assert(spec_match_regex(line, regex) == Some(t.subrange(0, 0)));
    } else {
        assert(spec_search(t, psv, false, 0) == Some((0nat, 0nat)));
        assert(spec_match_regex(line, regex) == Some(t.subrange(0, 0)));
    }
    assert(t.subrange(0, 0) =~= Seq::<char>::empty());
}

/// `^$` matches exactly the lines that are empty once trimmed.
pub proof fn lemma_caret_dollar(line: Seq<char>)
    ensures
        spec_match_regex(line, seq!['^', '$']) == if spec_trim(line).len() == 0 {
            Some(Seq::<char>::empty())
        } else {
            None::<Seq<char>>
        },
{
    let regex = seq!['^', '$'];
    let mid = regex.subrange(1, 1);
    assert(mid.len() == 0);
    assert(crate::parser::sp_program(mid, 0, 0) == Ok::<_, crate::parser::ParseError>((
        Seq::<SpecPattern>::empty(),
        0nat,
    )));
    let t = spec_trim(line);
    assert(spec_parse(regex) == Ok::<_, crate::parser::ParseError>((
        Seq::<SpecPattern>::empty(),
        true,
        true,
    )));
    if t.len() == 0 {
        assert(spec_match_regex(line, regex) == Some(t.subrange(0, 0)));
        assert(t.subrange(0, 0) =~= Seq::<char>::empty());
    }
}

/// A bracket class required exactly once fails at the end of the input
/// rather than matching nothing.
pub proof fn lemma_class_at_end(
    inp: Seq<char>,
    neg: bool,
    members: Seq<char>,
    ps: Seq<SpecPattern>,
    caps: Seq<Seq<char>>,
)
    requires
        ps.len() > 0,
        ps[0] == SpecPattern::CharGroup(neg, members, Count::One),
    ensures
        spec_match_seq(inp, inp.len(), ps, caps) is None,
{
    assert(spec_run_len(inp, inp.len(), ps[0]) == 0);
}

} // verus!
