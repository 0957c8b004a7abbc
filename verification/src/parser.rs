//! The recursive-descent parser: regex text to a sequence of pattern
//! nodes, with capture indices assigned in source order (outermost first,
//! then left to right) and the two anchors stripped from the ends.
//!
//! The accepted language and the produced tree are fixed by the `sp_*`
//! functions; the executable parser is proved to return exactly that.

use crate::chars::{copy_range, is_alnum_char, spec_is_alnum, str_to_chars};
use crate::pattern::{lemma_alts_view, lemma_pats_view, pat_view, vec_view, vecvec_view,
    Alternation, Count, Group, Pattern, SpecPattern};
use vstd::prelude::*;

verus! {

/// The ways a regex can be malformed.
#[derive(Debug, Clone, Copy, PartialEq, Eq, Structural)]
pub enum ParseError {
    /// `\` followed by anything but `d`, `w`, `\` or a digit `1`-`9`,
    /// or a trailing `\`.
    UnknownEscape,
    /// `[` with no closing `]`.
    UnterminatedClass,
    /// A bracket-class member that is not ASCII alphanumeric.
    InvalidClassMember,
    /// `(` with no matching `)`.
    UnterminatedGroup,
    /// `()` with nothing between the parentheses.
    EmptyGroup,
    /// `+` or `?` with no preceding quantifiable atom.
    DanglingQuantifier,
    /// `]` outside any bracket class.
    UnmatchedBracket,
}

/// An optional quantifier at `pos`: `+`, `?`, or none.
pub open spec fn sp_count(cs: Seq<char>, pos: nat) -> (Count, nat) {
    if pos < cs.len() && cs[pos as int] == '+' {
        (Count::OneOrMore, (pos + 1) as nat)
    } else if pos < cs.len() && cs[pos as int] == '?' {
        (Count::ZeroOrOne, (pos + 1) as nat)
    } else {
        (Count::One, pos)
    }
}

/// The item after a `\`: a character class, a literal backslash, or a
/// backreference (which takes no quantifier).
pub open spec fn sp_escape(cs: Seq<char>, pos: nat) -> Result<(SpecPattern, nat), ParseError> {
    if pos >= cs.len() {
        Err(ParseError::UnknownEscape)
    } else {
        let c = cs[pos as int];
        if c == 'd' {
            let (q, p2) = sp_count(cs, pos + 1);
            Ok((SpecPattern::Digit(q), p2))
        } else if c == 'w' {
            let (q, p2) = sp_count(cs, pos + 1);
            Ok((SpecPattern::Alphanumeric(q), p2))
        } else if c == '\\' {
            let (q, p2) = sp_count(cs, pos + 1);
            Ok((SpecPattern::Literal('\\', q), p2))
        } else if 49 <= c as u32 && c as u32 <= 57 {
            Ok((SpecPattern::Backreference((c as u32 - 48) as nat), (pos + 1) as nat))
        } else {
            Err(ParseError::UnknownEscape)
        }
    }
}

/// The members of a bracket class up to the closing `]`; each must be
/// ASCII alphanumeric.
pub open spec fn sp_class_members(cs: Seq<char>, pos: nat, acc: Seq<char>) -> Result<
    (Seq<char>, nat),
    ParseError,
>
    decreases cs.len() - pos, 0int,
{
    if pos >= cs.len() {
        Err(ParseError::UnterminatedClass)
    } else if cs[pos as int] == ']' {
        Ok((acc, (pos + 1) as nat))
    } else if spec_is_alnum(cs[pos as int]) {
        sp_class_members(cs, pos + 1, acc.push(cs[pos as int]))
    } else {
        Err(ParseError::InvalidClassMember)
    }
}

/// A bracket class after the opening `[`: an optional leading `^`, then
/// the members.
pub open spec fn sp_class(cs: Seq<char>, pos: nat) -> Result<((bool, Seq<char>), nat), ParseError>
    decreases cs.len() - pos, 1int,
{
    let negated = pos < cs.len() && cs[pos as int] == '^';
    let start = if negated {
        (pos + 1) as nat
    } else {
        pos
    };
    match sp_class_members(cs, start, Seq::empty()) {
        Ok((m, p2)) => Ok(((negated, m), p2)),
        Err(e) => Err(e),
    }
}

/// One pattern item at `pos`, with `g` groups opened so far. Returns the
/// item, the position after it, and the updated group count.
pub open spec fn sp_parse(cs: Seq<char>, pos: nat, g: nat) -> Result<
    (SpecPattern, nat, nat),
    ParseError,
>
    decreases cs.len() - pos, 0int,
{
    if pos >= cs.len() {
        Err(ParseError::UnterminatedGroup)
    } else {
        let c = cs[pos as int];
        if c == '\\' {
            match sp_escape(cs, pos + 1) {
                Ok((p, p2)) => Ok((p, p2, g)),
                Err(e) => Err(e),
            }
        } else if c == '[' {
            match sp_class(cs, pos + 1) {
                Ok(((neg, m), p2)) => {
                    let (q, p3) = sp_count(cs, p2);
                    Ok((SpecPattern::CharGroup(neg, m, q), p3, g))
                },
                Err(e) => Err(e),
            }
        } else if c == '.' {
            let (q, p2) = sp_count(cs, pos + 1);
            Ok((SpecPattern::Wildcard(q), p2, g))
        } else if c == '(' {
            sp_group(cs, pos + 1, g)
        } else if c == '+' || c == '?' {
            Err(ParseError::DanglingQuantifier)
        } else if c == ']' {
            Err(ParseError::UnmatchedBracket)
        } else {
            let (q, p2) = sp_count(cs, pos + 1);
            Ok((SpecPattern::Literal(c, q), p2, g))
        }
    }
}

/// A group after the opening `(`: takes the next capture index, reads the
/// branches up to the matching `)`, and attaches an optional quantifier.
/// A single branch is a capturing group, several are an alternation.
pub open spec fn sp_group(cs: Seq<char>, pos: nat, g: nat) -> Result<
    (SpecPattern, nat, nat),
    ParseError,
>
    decreases cs.len() - pos, 3int,
{
    let idx = g + 1;
    if pos < cs.len() && cs[pos as int] == ')' {
        Err(ParseError::EmptyGroup)
    } else {
        match sp_branches(cs, pos, idx, Seq::empty()) {
            Ok((branches, p2, g2)) => {
                let (q, p3) = sp_count(cs, p2);
                if branches.len() == 1 {
                    Ok((SpecPattern::CapturedGroup(idx, branches[0], q), p3, g2))
                } else {
                    Ok((SpecPattern::Alternation(idx, branches, q), p3, g2))
                }
            },
            Err(e) => Err(e),
        }
    }
}

/// The `|`-separated branches of a group body, up to the closing `)`.
pub open spec fn sp_branches(
    cs: Seq<char>,
    pos: nat,
    g: nat,
    acc: Seq<Seq<SpecPattern>>,
) -> Result<(Seq<Seq<SpecPattern>>, nat, nat), ParseError>
    decreases cs.len() - pos, 2int,
{
    match sp_items(cs, pos, g) {
        Ok((items, p2, g2)) => {
            if p2 < cs.len() && cs[p2 as int] == '|' {
                if pos < p2 + 1 {
                    sp_branches(cs, (p2 + 1) as nat, g2, acc.push(items))
                } else {
                    Err(ParseError::UnterminatedGroup)
                }
            } else if p2 < cs.len() && cs[p2 as int] == ')' {
                Ok((acc.push(items), (p2 + 1) as nat, g2))
            } else {
                Err(ParseError::UnterminatedGroup)
            }
        },
        Err(e) => Err(e),
    }
}

/// The items of one branch, up to a top-level `|` or `)` (not consumed).
pub open spec fn sp_items(cs: Seq<char>, pos: nat, g: nat) -> Result<
    (Seq<SpecPattern>, nat, nat),
    ParseError,
>
    decreases cs.len() - pos, 1int,
{
    if pos >= cs.len() {
        Err(ParseError::UnterminatedGroup)
    } else if cs[pos as int] == ')' || cs[pos as int] == '|' {
        Ok((Seq::empty(), pos, g))
    } else {
        match sp_parse(cs, pos, g) {
            Ok((p, p2, g2)) => {
                if pos < p2 <= cs.len() {
                    match sp_items(cs, p2, g2) {
                        Ok((rest, p3, g3)) => Ok((seq![p] + rest, p3, g3)),
                        Err(e) => Err(e),
                    }
                } else {
                    Err(ParseError::UnterminatedGroup)
                }
            },
            Err(e) => Err(e),
        }
    }
}

/// The whole de-anchored pattern text, item by item until the end.
pub open spec fn sp_program(cs: Seq<char>, pos: nat, g: nat) -> Result<
    (Seq<SpecPattern>, nat),
    ParseError,
>
    decreases cs.len() - pos,
{
    if pos >= cs.len() {
        Ok((Seq::empty(), g))
    } else {
        match sp_parse(cs, pos, g) {
            Ok((p, p2, g2)) => {
                if pos < p2 <= cs.len() {
                    match sp_program(cs, p2, g2) {
                        Ok((rest, g3)) => Ok((seq![p] + rest, g3)),
                        Err(e) => Err(e),
                    }
                } else {
                    Err(ParseError::UnterminatedGroup)
                }
            },
            Err(e) => Err(e),
        }
    }
}

/// Parses a whole regex: a leading `^` and a trailing `$` are anchors,
/// the text between them is the pattern program.
pub open spec fn spec_parse(regex: Seq<char>) -> Result<
    (Seq<SpecPattern>, bool, bool),
    ParseError,
> {
    let sa = regex.len() > 0 && regex[0] == '^';
    let ea = regex.len() > 0 && regex[regex.len() - 1] == '$';
    let lo: int = if sa {
        1
    } else {
        0
    };
    let hi: int = regex.len() - (if ea {
        1int
    } else {
        0int
    });
    let mid = regex.subrange(lo, hi);
    match sp_program(mid, 0, 0) {
        Ok((ps, _g)) => Ok((ps, sa, ea)),
        Err(e) => Err(e),
    }
}

/// The recursive-descent parser's only state: how many groups have been
/// opened so far, which is the last capture index given out.
pub struct Parser {
    group_idx: usize,
}

impl View for Parser {
    type V = nat;

    closed spec fn view(&self) -> nat {
        self.group_idx as nat
    }
}

impl Parser {
    /// A parser with no groups seen yet.
    pub fn new() -> (p: Parser)
        ensures
            p@ == 0,
    {
        Parser { group_idx: 0 }
    }

    /// Parses one pattern item at `*pos`, advancing the position past it.
    pub fn parse(&mut self, chars: &Vec<char>, pos: &mut usize) -> (r: Result<Pattern, ParseError>)
        requires
            *old(pos) < chars@.len(),
            old(self)@ <= *old(pos),
        ensures
            ({
                let s = sp_parse(chars@, *old(pos) as nat, old(self)@);
                match r {
                    Ok(p) => s == Ok::<_, ParseError>((pat_view(p), *final(pos) as nat, final(self)@)),
                    Err(e) => s is Err && s->Err_0 == e,
                }
            }),
            r is Ok ==> *old(pos) < *final(pos) <= chars@.len() && old(self)@ <= final(self)@ && final(self)@ <= *final(pos),
        decreases chars@.len() - *old(pos), 0int,
    {
        proof {
            assert(chars.len() == chars@.len());
        }
        let c = chars[*pos];
        *pos = *pos + 1;
        if c == '\\' {
            match Parser::parse_escape(chars, pos) {
                Ok(p) => Ok(p),
                Err(e) => Err(e),
            }
        } else if c == '[' {
            match Parser::parse_char_group(chars, pos) {
                Ok((negated, members)) => {
                    let q = Parser::parse_count(chars, pos);
                    Ok(Pattern::CharGroup(negated, members, q))
                },
                Err(e) => Err(e),
            }
        } else if c == '.' {
            let q = Parser::parse_count(chars, pos);
            Ok(Pattern::Wildcard(q))
        } else if c == '(' {
            self.parse_group(chars, pos)
        } else if c == '+' || c == '?' {
            Err(ParseError::DanglingQuantifier)
        } else if c == ']' {
            Err(ParseError::UnmatchedBracket)
        } else {
            let q = Parser::parse_count(chars, pos);
            proof {
                lemma_literal_view(c, q);
                assert(sp_parse(chars@, *old(pos) as nat, old(self)@) == Ok::<_, ParseError>((
                    SpecPattern::Literal(c, q),
                    *pos as nat,
                    self@,
                )));
            }
            Ok(Pattern::Literal(c, q))
        }
    }

    /// The item after a `\`.
    fn parse_escape(chars: &Vec<char>, pos: &mut usize) -> (r: Result<Pattern, ParseError>)
        requires
            *old(pos) <= chars@.len(),
        ensures
            ({
                let s = sp_escape(chars@, *old(pos) as nat);
                match r {
                    Ok(p) => s == Ok::<_, ParseError>((pat_view(p), *final(pos) as nat)),
                    Err(e) => s is Err && s->Err_0 == e,
                }
            }),
            r is Ok ==> *old(pos) < *final(pos) <= chars@.len(),
    {
        if *pos >= chars.len() {
            return Err(ParseError::UnknownEscape);
        }
        let c = chars[*pos];
        *pos = *pos + 1;
        if c == 'd' {
            let q = Parser::parse_count(chars, pos);
            Ok(Pattern::Digit(q))
        } else if c == 'w' {
            let q = Parser::parse_count(chars, pos);
            Ok(Pattern::Alphanumeric(q))
        } else if c == '\\' {
            let q = Parser::parse_count(chars, pos);
            Ok(Pattern::Literal('\\', q))
        } else {
            let u = c as u32;
            if 49 <= u && u <= 57 {
                Ok(Pattern::Backreference((u - 48) as usize))
            } else {
                Err(ParseError::UnknownEscape)
            }
        }
    }

    /// An optional `+` or `?` at `*pos`.
    fn parse_count(chars: &Vec<char>, pos: &mut usize) -> (q: Count)
        requires
            *old(pos) <= chars@.len(),
        ensures
            (q, *final(pos) as nat) == sp_count(chars@, *old(pos) as nat),
            *old(pos) <= *final(pos) <= chars@.len(),
    {
        if *pos < chars.len() {
            let c = chars[*pos];
            if c == '+' {
                *pos = *pos + 1;
                return Count::OneOrMore;
            }
            if c == '?' {
                *pos = *pos + 1;
                return Count::ZeroOrOne;
            }
        }
        Count::One
    }

    /// A bracket class after the opening `[`.
    #[verifier::loop_isolation(false)]
    fn parse_char_group(chars: &Vec<char>, pos: &mut usize) -> (r: Result<
        (bool, Vec<char>),
        ParseError,
    >)
        requires
            *old(pos) <= chars@.len(),
        ensures
            ({
                let s = sp_class(chars@, *old(pos) as nat);
                match r {
                    Ok((negated, members)) => s == Ok::<_, ParseError>(((negated, members@), *final(pos) as nat)),
                    Err(e) => s is Err && s->Err_0 == e,
                }
            }),
            r is Ok ==> *old(pos) < *final(pos) <= chars@.len(),
    {
        let negated = *pos < chars.len() && chars[*pos] == '^';
        if negated {
            *pos = *pos + 1;
        }
        let ghost start = *pos as nat;
        let mut members: Vec<char> = Vec::new();
        loop
            invariant
                start <= *pos <= chars@.len(),
                sp_class_members(chars@, *pos as nat, members@) == sp_class_members(
                    chars@,
                    start,
                    Seq::<char>::empty(),
                ),
            decreases chars@.len() - *pos,
        {
            if *pos >= chars.len() {
                return Err(ParseError::UnterminatedClass);
            }
            let c = chars[*pos];
            if c == ']' {
                *pos = *pos + 1;
                return Ok((negated, members));
            }
            if is_alnum_char(c) {
                proof {
                    assert(members@.push(c) =~= members@ + seq![c]);
                }
                members.push(c);
                *pos = *pos + 1;
            } else {
                return Err(ParseError::InvalidClassMember);
            }
        }
    }

    /// A group after the opening `(`: reads the alternation body and the
    /// optional quantifier, and builds the capturing node.
    fn parse_group(&mut self, chars: &Vec<char>, pos: &mut usize) -> (r: Result<
        Pattern,
        ParseError,
    >)
        requires
            *old(pos) <= chars@.len(),
            old(self)@ < *old(pos),
        ensures
            ({
                let s = sp_group(chars@, *old(pos) as nat, old(self)@);
                match r {
                    Ok(p) => s == Ok::<_, ParseError>((pat_view(p), *final(pos) as nat, final(self)@)),
                    Err(e) => s is Err && s->Err_0 == e,
                }
            }),
            r is Ok ==> *old(pos) < *final(pos) <= chars@.len() && old(self)@ <= final(self)@ && final(self)@ <= *final(pos),
        decreases chars@.len() - *old(pos), 3int,
    {
        if *pos < chars.len() && chars[*pos] == ')' {
            return Err(ParseError::EmptyGroup);
        }
        match self.parse_alternation(chars, pos) {
            Err(e) => Err(e),
            Ok((idx, mut branches)) => {
                let q = Parser::parse_count(chars, pos);
                if branches.len() == 1 {
                    proof {
                        lemma_alts_view(branches@);
                    }
                    match branches.pop() {
                        Some(patterns) => Ok(
                            Pattern::CapturedGroup(Group { idx, patterns, count: q }),
                        ),
                        None => {
                            proof {
                                assert(false);
                            }
                            Err(ParseError::UnterminatedGroup)
                        },
                    }
                } else {
                    Ok(Pattern::Alternation(Alternation { idx, alternatives: branches, count: q }))
                }
            },
        }
    }

    /// The `|`-separated branches of a group body; takes the group's
    /// capture index and consumes through the closing `)`.
    #[verifier::loop_isolation(false)]
    fn parse_alternation(&mut self, chars: &Vec<char>, pos: &mut usize) -> (r: Result<
        (usize, Vec<Vec<Pattern>>),
        ParseError,
    >)
        requires
            *old(pos) <= chars@.len(),
            old(self)@ < *old(pos),
        ensures
            ({
                let s = sp_branches(
                    chars@,
                    *old(pos) as nat,
                    old(self)@ + 1,
                    Seq::<Seq<SpecPattern>>::empty(),
                );
                match r {
                    Ok((idx, branches)) => idx == old(self)@ + 1 && s == Ok::<_, ParseError>(
                        (vecvec_view(branches), *final(pos) as nat, final(self)@),
                    ),
                    Err(e) => s is Err && s->Err_0 == e,
                }
            }),
            r is Ok ==> *old(pos) < *final(pos) <= chars@.len() && old(self)@ < final(self)@ && final(self)@ <= *final(pos),
        decreases chars@.len() - *old(pos), 2int,
    {
        proof {
            assert(chars.len() == chars@.len());
        }
        self.group_idx = self.group_idx + 1;
        let idx = self.group_idx;
        let mut branches: Vec<Vec<Pattern>> = Vec::new();
        loop
            invariant
                *old(pos) <= *pos <= chars@.len(),
                idx as nat <= self@,
                self@ <= *pos,
                sp_branches(
                    chars@,
                    *old(pos) as nat,
                    idx as nat,
                    Seq::<Seq<SpecPattern>>::empty(),
                ) == sp_branches(chars@, *pos as nat, self@, vecvec_view(branches)),
            decreases chars@.len() - *pos,
        {
            match self.read_group_items(chars, pos) {
                Err(e) => {
                    return Err(e);
                },
                Ok(items) => {
                    let c = chars[*pos];
                    let ghost bold = branches@;
                    let ghost iview = vec_view(items);
                    branches.push(items);
                    *pos = *pos + 1;
                    proof {
                        lemma_alts_view(bold);
                        lemma_alts_view(branches@);
                        assert(crate::pattern::alts_view(branches@) =~= crate::pattern::alts_view(
                            bold,
                        ).push(iview));
                    }
                    if c == ')' {
                        return Ok((idx, branches));
                    }
                },
            }
        }
    }

    /// The items of one branch, up to a top-level `|` or `)`.
    #[verifier::loop_isolation(false)]
    fn read_group_items(&mut self, chars: &Vec<char>, pos: &mut usize) -> (r: Result<
        Vec<Pattern>,
        ParseError,
    >)
        requires
            *old(pos) <= chars@.len(),
            old(self)@ <= *old(pos),
        ensures
            ({
                let s = sp_items(chars@, *old(pos) as nat, old(self)@);
                match r {
                    Ok(items) => s == Ok::<_, ParseError>((vec_view(items), *final(pos) as nat, final(self)@)),
                    Err(e) => s is Err && s->Err_0 == e,
                }
            }),
            r is Ok ==> *old(pos) <= *final(pos) && *final(pos) < chars@.len() && old(self)@
                <= final(self)@ && final(self)@ <= *final(pos),
            r is Ok ==> chars@[*final(pos) as int] == ')' || chars@[*final(pos) as int] == '|',
        decreases chars@.len() - *old(pos), 1int,
    {
        let mut items: Vec<Pattern> = Vec::new();
        loop
            invariant
                *old(pos) <= *pos <= chars@.len(),
                old(self)@ <= self@,
                self@ <= *pos,
                sp_items(chars@, *old(pos) as nat, old(self)@) == (match sp_items(
                    chars@,
                    *pos as nat,
                    self@,
                ) {
                    Ok((rest, p3, g3)) => Ok((vec_view(items) + rest, p3, g3)),
                    Err(e) => Err(e),
                }),
            decreases chars@.len() - *pos,
        {
            if *pos >= chars.len() {
                return Err(ParseError::UnterminatedGroup);
            }
            let c = chars[*pos];
            if c == ')' || c == '|' {
                proof {
                    assert(vec_view(items) + Seq::<SpecPattern>::empty() =~= vec_view(items));
                }
                return Ok(items);
            }
            match self.parse(chars, pos) {
                Err(e) => {
                    return Err(e);
                },
                Ok(p) => {
                    let ghost iold = items@;
                    items.push(p);
                    proof {
                        lemma_pats_view(iold);
                        lemma_pats_view(items@);
                        assert(crate::pattern::pats_view(items@) =~= crate::pattern::pats_view(
                            iold,
                        ) + seq![pat_view(p)]);
                        let s2 = sp_items(chars@, *pos as nat, self@);
                        if s2 is Ok {
                            let rest = s2->Ok_0.0;
                            assert((crate::pattern::pats_view(iold) + (seq![pat_view(p)] + rest))
                                =~= (crate::pattern::pats_view(items@) + rest));
                        }
                    }
                },
            }
        }
    }
}

/// Parses a whole regex into its pattern program and two anchor flags.
#[verifier::loop_isolation(false)]
pub fn parse(regex: &str) -> (r: Result<(Vec<Pattern>, bool, bool), ParseError>)
    ensures
        ({
            let s = spec_parse(regex@);
            match r {
                Ok((ps, sa, ea)) => s == Ok::<_, ParseError>((vec_view(ps), sa, ea)),
                Err(e) => s is Err && s->Err_0 == e,
            }
        }),
{
    let chars = str_to_chars(regex);
    let n = chars.len();
    let sa = n > 0 && chars[0] == '^';
    let ea = n > 0 && chars[n - 1] == '$';
    let lo: usize = if sa {
        1
    } else {
        0
    };
    let hi: usize = if ea {
        n - 1
    } else {
        n
    };
    let mid = copy_range(&chars, lo, hi);
    let mut parser = Parser::new();
    let mut patterns: Vec<Pattern> = Vec::new();
    let mut pos: usize = 0;
    while pos < mid.len()
        invariant
            parser@ <= pos <= mid@.len(),
            sp_program(mid@, 0, 0) == (match sp_program(mid@, pos as nat, parser@) {
                Ok((rest, g3)) => Ok((vec_view(patterns) + rest, g3)),
                Err(e) => Err(e),
            }),
        decreases mid@.len() - pos,
    {
        match parser.parse(&mid, &mut pos) {
            Err(e) => {
                return Err(e);
            },
            Ok(p) => {
                let ghost pold = patterns@;
                patterns.push(p);
                proof {
                    lemma_pats_view(pold);
                    lemma_pats_view(patterns@);
                    assert(crate::pattern::pats_view(patterns@) =~= crate::pattern::pats_view(pold)
                        + seq![pat_view(p)]);
                    let s2 = sp_program(mid@, pos as nat, parser@);
                    if s2 is Ok {
                        let rest = s2->Ok_0.0;
                        assert((crate::pattern::pats_view(pold) + (seq![pat_view(p)] + rest)) =~= (
                        crate::pattern::pats_view(patterns@) + rest));
                    }
                }
            },
        }
    }
    proof {
        assert(vec_view(patterns) + Seq::<SpecPattern>::empty() =~= vec_view(patterns));
    }
    Ok((patterns, sa, ea))
}

/// The view of a literal node, spelled out where the view function does
/// not unfold on its own.
proof fn lemma_literal_view(c: char, q: Count)
    ensures
        pat_view(Pattern::Literal(c, q)) == SpecPattern::Literal(c, q),
{
}

} // verus!
