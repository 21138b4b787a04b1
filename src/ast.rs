//! Syntax trees of patterns, the errors of parsing, and their
//! mathematical views.
use vstd::prelude::*;

verus! {

/// A syntax tree of a pattern.
#[derive(Debug, PartialEq, Eq)]
pub enum AST {
    /// A literal character.
    Char(char),
    /// One or more repetitions of the inner tree.
    Plus(Box<AST>),
    /// Zero or more repetitions of the inner tree.
    Star(Box<AST>),
    /// Zero or one occurrence of the inner tree.
    Question(Box<AST>),
    /// Alternation of two trees; the left one comes first.
    Or(Box<AST>, Box<AST>),
    /// Concatenation of a non-empty list of trees.
    Sequence(Vec<AST>),
}

/// What can go wrong while parsing a pattern. Positions count characters,
/// starting at 0.
#[derive(Debug, Clone, Copy, PartialEq, Eq)]
pub enum ParserError {
    /// A backslash before a character that needs no escaping.
    InvalidEscape(usize, char),
    /// A `)` with no open group to close.
    InvalidRightParen(usize),
    /// A quantifier or `|` with nothing before it to apply to.
    NoPrev(usize),
    /// A group left open at the end of the pattern.
    NoRightParen,
    /// A pattern that yields no tree at all.
    Empty,
}

/// The three postfix quantifiers.
#[derive(Debug, Clone, Copy, PartialEq, Eq)]
pub enum PSQ {
    Plus,
    Star,
    Question,
}

/// The mathematical value of an [`AST`]: the same shape, with a
/// sequence in place of each vector.
pub enum Tree {
    Char(char),
    Plus(Box<Tree>),
    Star(Box<Tree>),
    Question(Box<Tree>),
    Or(Box<Tree>, Box<Tree>),
    Sequence(Seq<Tree>),
}

impl AST {
    pub open spec fn view(&self) -> Tree
        decreases self,
    {
        match self {
            AST::Char(c) => Tree::Char(*c),
            AST::Plus(a) => Tree::Plus(Box::new(a.view())),
            AST::Star(a) => Tree::Star(Box::new(a.view())),
            AST::Question(a) => Tree::Question(Box::new(a.view())),
            AST::Or(a, b) => Tree::Or(Box::new(a.view()), Box::new(b.view())),
            // `Seq::new` reads its function only below the length; the guard
            // lets the recursion be seen to terminate.
            AST::Sequence(v) => Tree::Sequence(
                Seq::new(v.len() as nat, |i: int| if 0 <= i < v.len() { v[i].view() } else { Tree::Char('\0') }),
            ),
        }
    }
}

/// The trees of a list of syntax trees, in order.
pub open spec fn trees(v: Seq<AST>) -> Seq<Tree> {
    v.map_values(|a: AST| a@)
}

/// The view of a parse result: the tree of a success, the error of a failure.
pub open spec fn result_tree(r: Result<AST, ParserError>) -> Result<Tree, ParserError> {
    match r {
        Ok(a) => Ok(a@),
        Err(e) => Err(e),
    }
}

/// The view of an optional syntax tree.
pub open spec fn option_tree(r: Option<AST>) -> Option<Tree> {
    match r {
        Some(a) => Some(a@),
        None => None,
    }
}

pub proof fn lemma_sequence_view(v: Vec<AST>)
    ensures
        AST::Sequence(v)@ == Tree::Sequence(trees(v@)),
{
    assert(AST::Sequence(v)@->Sequence_0 =~= trees(v@));
}

pub proof fn lemma_trees_push(v: Seq<AST>, a: AST)
    ensures
        trees(v.push(a)) == trees(v).push(a@),
{
    assert(trees(v.push(a)) =~= trees(v).push(a@));
}

pub proof fn lemma_trees_drop_last(v: Seq<AST>)
    requires
        v.len() > 0,
    ensures
        trees(v.drop_last()) == trees(v).drop_last(),
{
    assert(trees(v.drop_last()) =~= trees(v).drop_last());
}

} // verus!
