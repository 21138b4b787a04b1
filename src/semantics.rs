//! The meaning of parsing, as a state machine over mathematical trees.
//!
//! The scan reads the pattern from left to right. Its state holds the
//! concatenation built so far at the current nesting level, the finished
//! alternatives of that level, a stack of the levels that enclose it (one
//! for each open group) and whether a backslash was just read.
use vstd::prelude::*;
use crate::ast::{ParserError, Tree, PSQ};

verus! {

/// The seven characters that have a syntactic role unless escaped.
pub open spec fn is_meta(c: char) -> bool {
    c == '\\' || c == '+' || c == '*' || c == '?' || c == '|' || c == '(' || c == ')'
}

/// The quantifier that a character denotes, if any.
pub open spec fn quantifier_of(c: char) -> Option<PSQ> {
    if c == '+' {
        Some(PSQ::Plus)
    } else if c == '*' {
        Some(PSQ::Star)
    } else if c == '?' {
        Some(PSQ::Question)
    } else {
        None
    }
}

/// A tree under a quantifier.
pub open spec fn quantify(kind: PSQ, t: Tree) -> Tree {
    match kind {
        PSQ::Plus => Tree::Plus(Box::new(t)),
        PSQ::Star => Tree::Star(Box::new(t)),
        PSQ::Question => Tree::Question(Box::new(t)),
    }
}

/// The alternation of a non-empty list of trees, nested to the right:
/// `[a0, a1, a2]` gives `Or(a0, Or(a1, a2))`, and one tree stands alone.
pub open spec fn or_chain(alts: Seq<Tree>) -> Tree
    recommends
        alts.len() > 0,
    decreases alts.len(),
{
    if alts.len() <= 1 {
        alts[0]
    } else {
        Tree::Or(Box::new(alts[0]), Box::new(or_chain(alts.drop_first())))
    }
}

/// The fold of a list of alternatives: nothing for an empty list.
pub open spec fn fold_alternatives(alts: Seq<Tree>) -> Option<Tree> {
    if alts.len() == 0 {
        None
    } else {
        Some(or_chain(alts))
    }
}

/// The alternatives of a level once its current concatenation is finished:
/// a non-empty concatenation becomes one more alternative.
pub open spec fn close_level(seq: Seq<Tree>, alts: Seq<Tree>) -> Seq<Tree> {
    if seq.len() > 0 {
        alts.push(Tree::Sequence(seq))
    } else {
        alts
    }
}

/// The state of the scan between two characters.
pub struct Scan {
    /// The concatenation built so far at the current level.
    pub seq: Seq<Tree>,
    /// The finished alternatives of the current level.
    pub alts: Seq<Tree>,
    /// The levels that enclose the current one, innermost last.
    pub groups: Seq<(Seq<Tree>, Seq<Tree>)>,
    /// Whether the last character read was an escaping backslash.
    pub escaped: bool,
}

/// The state before the first character.
pub open spec fn initial_scan() -> Scan {
    Scan { seq: Seq::empty(), alts: Seq::empty(), groups: Seq::empty(), escaped: false }
}

/// One step of the scan: character `c` at position `pos` read in state `st`.
pub open spec fn step(st: Scan, pos: usize, c: char) -> Result<Scan, ParserError> {
    if st.escaped {
        if is_meta(c) {
            Ok(Scan { seq: st.seq.push(Tree::Char(c)), escaped: false, ..st })
        } else {
            Err(ParserError::InvalidEscape(pos, c))
        }
    } else if quantifier_of(c) is Some {
        if st.seq.len() == 0 {
            Err(ParserError::NoPrev(pos))
        } else {
            let q = quantify(quantifier_of(c)->0, st.seq.last());
            Ok(Scan { seq: st.seq.drop_last().push(q), ..st })
        }
    } else if c == '(' {
        Ok(
            Scan {
                seq: Seq::empty(),
                alts: Seq::empty(),
                groups: st.groups.push((st.seq, st.alts)),
                escaped: false,
            },
        )
    } else if c == ')' {
        if st.groups.len() == 0 {
            Err(ParserError::InvalidRightParen(pos))
        } else {
            let (outer_seq, outer_alts) = st.groups.last();
            let seq = match fold_alternatives(close_level(st.seq, st.alts)) {
                Some(t) => outer_seq.push(t),
                None => outer_seq,
            };
            Ok(Scan { seq, alts: outer_alts, groups: st.groups.drop_last(), escaped: false })
        }
    } else if c == '|' {
        if st.seq.len() == 0 {
            Err(ParserError::NoPrev(pos))
        } else {
            Ok(Scan { seq: Seq::empty(), alts: st.alts.push(Tree::Sequence(st.seq)), ..st })
        }
    } else if c == '\\' {
        Ok(Scan { escaped: true, ..st })
    } else {
        Ok(Scan { seq: st.seq.push(Tree::Char(c)), ..st })
    }
}

/// The state after reading all of `s`, or the first error met on the way.
pub open spec fn scan(s: Seq<char>) -> Result<Scan, ParserError>
    decreases s.len(),
{
    if s.len() == 0 {
        Ok(initial_scan())
    } else {
        match scan(s.drop_last()) {
            Ok(st) => step(st, (s.len() - 1) as usize, s.last()),
            Err(e) => Err(e),
        }
    }
}

/// The end of the scan: an open group is an error, and otherwise the
/// alternatives of the outer level fold into the tree; with none the
/// pattern is empty.
pub open spec fn finish_scan(st: Scan) -> Result<Tree, ParserError> {
    if st.groups.len() > 0 {
        Err(ParserError::NoRightParen)
    } else {
        match fold_alternatives(close_level(st.seq, st.alts)) {
            Some(t) => Ok(t),
            None => Err(ParserError::Empty),
        }
    }
}

/// The result of parsing pattern `s`.
pub open spec fn parsed(s: Seq<char>) -> Result<Tree, ParserError> {
    match scan(s) {
        Ok(st) => finish_scan(st),
        Err(e) => Err(e),
    }
}

/// Reading one more character: the scan of the first `k + 1` characters
/// is one step from the scan of the first `k`.
pub proof fn lemma_scan_take_step(s: Seq<char>, k: int)
    requires
        0 <= k < s.len(),
    ensures
        scan(s.take(k + 1)) == match scan(s.take(k)) {
            Ok(st) => step(st, k as usize, s[k]),
            Err(e) => Err(e),
        },
{
    assert(s.take(k + 1).drop_last() =~= s.take(k));
}

/// An error met on a prefix is the error of the whole scan.
pub proof fn lemma_scan_error_persists(s: Seq<char>, k: int)
    requires
        0 <= k <= s.len(),
    ensures
        scan(s.take(k)) is Err ==> scan(s) == scan(s.take(k)),
    decreases s.len(),
{
    if scan(s.take(k)) is Ok {
    } else if k < s.len() {
        assert(s.drop_last().take(k) =~= s.take(k));
        lemma_scan_error_persists(s.drop_last(), k);
    } else {
        assert(s.take(k) =~= s);
    }
}

} // verus!
