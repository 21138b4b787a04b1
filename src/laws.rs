//! Properties of parsing that follow from the model, proved once for all
//! patterns.
use vstd::prelude::*;
use crate::ast::{result_tree, ParserError, Tree, AST};
use crate::semantics::{
    close_level, fold_alternatives, initial_scan, is_meta, or_chain, parsed, quantifier_of,
    quantify, scan, step, Scan,
};

verus! {

/// The tree of a literal character.
pub open spec fn literal(c: char) -> Tree {
    Tree::Char(c)
}

/// The trees of the characters of `s`, each a literal.
pub open spec fn literals(s: Seq<char>) -> Seq<Tree> {
    s.map_values(|c: char| literal(c))
}

/// Scanning characters that are not metacharacters only appends their
/// literals to the outer concatenation.
proof fn lemma_scan_literals(s: Seq<char>)
    requires
        forall|i: int| 0 <= i < s.len() ==> !is_meta(#[trigger] s[i]),
    ensures
        scan(s) == Ok::<Scan, ParserError>(Scan { seq: literals(s), ..initial_scan() }),
    decreases s.len(),
{
    if s.len() == 0 {
        assert(literals(s) =~= Seq::<Tree>::empty());
    } else {
        let p = s.drop_last();
        assert forall|i: int| 0 <= i < p.len() implies !is_meta(#[trigger] p[i]) by {
            assert(p[i] == s[i]);
        }
        lemma_scan_literals(p);
        assert(!is_meta(s[s.len() - 1]));
        assert(literals(p).push(literal(s.last())) =~= literals(s));
    }
}

/// A non-empty pattern in which no character is a metacharacter parses to
/// the concatenation of its characters as literals, in input order.
pub proof fn lemma_literal_pattern(s: Seq<char>)
    requires
        s.len() > 0,
        forall|i: int| 0 <= i < s.len() ==> !is_meta(#[trigger] s[i]),
    ensures
        parsed(s) == Ok::<Tree, ParserError>(Tree::Sequence(literals(s))),
{
    lemma_scan_literals(s);
    let alts = Seq::<Tree>::empty().push(Tree::Sequence(literals(s)));
    assert(or_chain(alts) == alts[0]);
}

/// Parsing is deterministic: two parses of the same pattern give
/// structurally equal results.
pub proof fn lemma_parse_deterministic(
    s: Seq<char>,
    r1: Result<AST, ParserError>,
    r2: Result<AST, ParserError>,
)
    requires
        result_tree(r1) == parsed(s),
        result_tree(r2) == parsed(s),
    ensures
        result_tree(r1) == result_tree(r2),
{
}

/// A tree in which every concatenation is non-empty.
pub open spec fn well_formed(t: Tree) -> bool
    decreases t,
{
    match t {
        Tree::Char(_) => true,
        Tree::Plus(a) => well_formed(*a),
        Tree::Star(a) => well_formed(*a),
        Tree::Question(a) => well_formed(*a),
        Tree::Or(a, b) => well_formed(*a) && well_formed(*b),
        Tree::Sequence(v) => v.len() > 0 && forall|i: int|
            0 <= i < v.len() ==> well_formed(#[trigger] v[i]),
    }
}

/// Every tree of a list is well formed.
pub open spec fn all_well_formed(v: Seq<Tree>) -> bool {
    forall|i: int| 0 <= i < v.len() ==> well_formed(#[trigger] v[i])
}

/// Every tree held in a scan state is well formed.
pub open spec fn scan_well_formed(st: Scan) -> bool {
    &&& all_well_formed(st.seq)
    &&& all_well_formed(st.alts)
    &&& forall|k: int|
        0 <= k < st.groups.len() ==> all_well_formed((#[trigger] st.groups[k]).0)
            && all_well_formed(st.groups[k].1)
}

proof fn lemma_sequence_well_formed(v: Seq<Tree>)
    requires
        v.len() > 0,
        all_well_formed(v),
    ensures
        well_formed(Tree::Sequence(v)),
{
}

proof fn lemma_push_well_formed(v: Seq<Tree>, t: Tree)
    requires
        all_well_formed(v),
        well_formed(t),
    ensures
        all_well_formed(v.push(t)),
{
    assert forall|i: int| 0 <= i < v.push(t).len() implies well_formed(#[trigger] v.push(t)[i]) by {
        if i < v.len() {
            assert(v.push(t)[i] == v[i]);
        }
    }
}

proof fn lemma_or_chain_well_formed(alts: Seq<Tree>)
    requires
        alts.len() > 0,
        all_well_formed(alts),
    ensures
        well_formed(or_chain(alts)),
    decreases alts.len(),
{
    if alts.len() > 1 {
        let rest = alts.drop_first();
        assert forall|i: int| 0 <= i < rest.len() implies well_formed(#[trigger] rest[i]) by {
            assert(rest[i] == alts[i + 1]);
        }
        lemma_or_chain_well_formed(rest);
        assert(well_formed(alts[0]));
    }
}

proof fn lemma_close_level_well_formed(seq: Seq<Tree>, alts: Seq<Tree>)
    requires
        all_well_formed(seq),
        all_well_formed(alts),
    ensures
        all_well_formed(close_level(seq, alts)),
        fold_alternatives(close_level(seq, alts)) matches Some(t) ==> well_formed(t),
{
    if seq.len() > 0 {
        lemma_sequence_well_formed(seq);
        lemma_push_well_formed(alts, Tree::Sequence(seq));
    }
    if close_level(seq, alts).len() > 0 {
        lemma_or_chain_well_formed(close_level(seq, alts));
    }
}

proof fn lemma_step_well_formed(st: Scan, pos: usize, c: char)
    requires
        scan_well_formed(st),
    ensures
        step(st, pos, c) matches Ok(next) ==> scan_well_formed(next),
{
    let empty = Seq::<Tree>::empty();
    assert(all_well_formed(empty));
    if st.escaped {
        lemma_push_well_formed(st.seq, Tree::Char(c));
    } else if quantifier_of(c) is Some {
        if st.seq.len() > 0 {
            let q = quantify(quantifier_of(c)->0, st.seq.last());
            assert(well_formed(st.seq.last()));
            assert(well_formed(q));
            let rest = st.seq.drop_last();
            assert(all_well_formed(rest)) by {
                assert forall|i: int| 0 <= i < rest.len() implies well_formed(#[trigger] rest[i]) by {
                    assert(rest[i] == st.seq[i]);
                }
            }
            lemma_push_well_formed(rest, q);
        }
    } else if c == '(' {
        let groups = st.groups.push((st.seq, st.alts));
        assert forall|k: int| 0 <= k < groups.len() implies all_well_formed(
            (#[trigger] groups[k]).0,
        ) && all_well_formed(groups[k].1) by {
            if k < st.groups.len() {
                assert(groups[k] == st.groups[k]);
            }
        }
    } else if c == ')' {
        if st.groups.len() > 0 {
            let (outer_seq, outer_alts) = st.groups.last();
            assert(all_well_formed(st.groups[st.groups.len() - 1].0));
            lemma_close_level_well_formed(st.seq, st.alts);
            if let Some(t) = fold_alternatives(close_level(st.seq, st.alts)) {
                lemma_push_well_formed(outer_seq, t);
            }
            let groups = st.groups.drop_last();
            assert forall|k: int| 0 <= k < groups.len() implies all_well_formed(
                (#[trigger] groups[k]).0,
            ) && all_well_formed(groups[k].1) by {
                assert(groups[k] == st.groups[k]);
            }
        }
    } else if c == '|' {
        if st.seq.len() > 0 {
            lemma_sequence_well_formed(st.seq);
            lemma_push_well_formed(st.alts, Tree::Sequence(st.seq));
        }
    } else if c != '\\' {
        lemma_push_well_formed(st.seq, Tree::Char(c));
    }
}

proof fn lemma_scan_well_formed(s: Seq<char>)
    ensures
        scan(s) matches Ok(st) ==> scan_well_formed(st),
    decreases s.len(),
{
    if s.len() == 0 {
        assert(all_well_formed(Seq::<Tree>::empty()));
    } else {
        lemma_scan_well_formed(s.drop_last());
        if let Ok(st) = scan(s.drop_last()) {
            lemma_step_well_formed(st, (s.len() - 1) as usize, s.last());
        }
    }
}

/// Every tree that parsing yields is well formed: no concatenation in it is
/// empty.
pub proof fn lemma_parsed_well_formed(s: Seq<char>)
    ensures
        parsed(s) matches Ok(t) ==> well_formed(t),
{
    lemma_scan_well_formed(s);
    if let Ok(st) = scan(s) {
        lemma_close_level_well_formed(st.seq, st.alts);
    }
}

} // verus!
