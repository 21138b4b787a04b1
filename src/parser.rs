//! The single-pass parser from patterns to syntax trees.
use vstd::prelude::*;
use crate::ast::{
    lemma_sequence_view, lemma_trees_drop_last, lemma_trees_push, option_tree, result_tree, trees,
    ParserError, Tree, AST, PSQ,
};
use crate::semantics::{
    finish_scan, fold_alternatives, initial_scan, is_meta, lemma_scan_error_persists,
    lemma_scan_take_step, or_chain, parsed, quantify, scan, step, Scan,
};

verus! {

/// The literal for an escaped character `c` at position `pos`: only the
/// seven metacharacters may be escaped.
pub fn parse_escape(pos: usize, c: char) -> (r: Result<AST, ParserError>)
    ensures
        is_meta(c) ==> r == Ok::<AST, ParserError>(AST::Char(c)),
        !is_meta(c) ==> r == Err::<AST, ParserError>(ParserError::InvalidEscape(pos, c)),
{
    match c {
        '\\' | '+' | '*' | '?' | '|' | '(' | ')' => Ok(AST::Char(c)),
        _ => Err(ParserError::InvalidEscape(pos, c)),
    }
}

/// Puts the last tree of `seq` under the quantifier `ast_type`, found at
/// position `pos`; with no tree before it the quantifier is an error and
/// `seq` is left as it was.
pub fn parse_plus_star_question(
    seq: &mut Vec<AST>,
    ast_type: PSQ,
    pos: usize,
) -> (r: Result<(), ParserError>)
    ensures
        old(seq)@.len() == 0 ==> r == Err::<(), ParserError>(ParserError::NoPrev(pos))
            && final(seq)@ == old(seq)@,
        old(seq)@.len() > 0 ==> r is Ok && trees(final(seq)@) == trees(old(seq)@).drop_last().push(
            quantify(ast_type, old(seq)@.last()@),
        ),
{
    proof {
        if old(seq)@.len() > 0 {
            lemma_trees_drop_last(old(seq)@);
        }
    }
    if let Some(prev) = seq.pop() {
        let ast = match ast_type {
            PSQ::Plus => AST::Plus(Box::new(prev)),
            PSQ::Star => AST::Star(Box::new(prev)),
            PSQ::Question => AST::Question(Box::new(prev)),
        };
        proof {
            lemma_trees_push(seq@, ast);
        }
        seq.push(ast);
        Ok(())
    } else {
        Err(ParserError::NoPrev(pos))
    }
}

/// Folds the alternatives `seq_or`, in source order, into one tree nested
/// to the right; a single alternative is returned as it is, and none gives
/// `None`.
pub fn fold_or(seq_or: Vec<AST>) -> (r: Option<AST>)
    ensures
        option_tree(r) == fold_alternatives(trees(seq_or@)),
{
    let ghost all = trees(seq_or@);
    let mut seq_or = seq_or;
    match seq_or.pop() {
        None => None,
        Some(last) => {
            let mut ast = last;
            proof {
                assert(all.subrange(all.len() - 1, all.len() as int) =~= seq![ast@]);
                assert(trees(seq_or@) =~= all.drop_last());
            }
            while seq_or.len() > 0
                invariant
                    0 < all.len(),
                    seq_or@.len() < all.len(),
                    trees(seq_or@) == all.subrange(0, seq_or@.len() as int),
                    ast@ == or_chain(all.subrange(seq_or@.len() as int, all.len() as int)),
                decreases seq_or.len(),
            {
                let ghost k = seq_or@.len() - 1;
                proof {
                    lemma_trees_drop_last(seq_or@);
                    assert(all.subrange(k, all.len() as int).drop_first() =~= all.subrange(
                        k + 1,
                        all.len() as int,
                    ));
                    assert(trees(seq_or@)[k] == seq_or@[k]@);
                }
                let s = seq_or.pop().unwrap();
                ast = AST::Or(Box::new(s), Box::new(ast));
                proof {
                    assert(trees(seq_or@) =~= all.subrange(0, seq_or@.len() as int));
                }
            }
            proof {
                assert(all.subrange(0, all.len() as int) =~= all);
            }
            Some(ast)
        },
    }
}

/// Whether the scan is reading an ordinary character or the one after a
/// backslash.
enum ParseState {
    Char,
    Escape,
}

/// The trees of the saved levels on the group stack.
spec fn frames(v: Seq<(Vec<AST>, Vec<AST>)>) -> Seq<(Seq<Tree>, Seq<Tree>)> {
    v.map_values(|p: (Vec<AST>, Vec<AST>)| (trees(p.0@), trees(p.1@)))
}

/// The working state of one call of [`parse`].
struct Scanner {
    /// The concatenation at the current nesting level.
    seq: Vec<AST>,
    /// The finished alternatives at the current nesting level.
    seq_or: Vec<AST>,
    /// The saved levels of the open groups, innermost last.
    stack: Vec<(Vec<AST>, Vec<AST>)>,
    state: ParseState,
}

impl Scanner {
    spec fn view(&self) -> Scan {
        Scan {
            seq: trees(self.seq@),
            alts: trees(self.seq_or@),
            groups: frames(self.stack@),
            escaped: self.state is Escape,
        }
    }

    fn new() -> (r: Scanner)
        ensures
            r@ == initial_scan(),
    {
        let r = Scanner {
            seq: Vec::new(),
            seq_or: Vec::new(),
            stack: Vec::new(),
            state: ParseState::Char,
        };
        proof {
            assert(trees(r.seq@) =~= Seq::<Tree>::empty());
            assert(trees(r.seq_or@) =~= Seq::<Tree>::empty());
            assert(frames(r.stack@) =~= Seq::<(Seq<Tree>, Seq<Tree>)>::empty());
        }
        r
    }

    /// Reads character `c` at position `pos`.
    fn read_char(&mut self, pos: usize, c: char) -> (r: Result<(), ParserError>)
        ensures
            step(old(self)@, pos, c) == match r {
                Ok(_) => Ok::<Scan, ParserError>(final(self)@),
                Err(e) => Err::<Scan, ParserError>(e),
            },
    {
        match self.state {
            ParseState::Char => match c {
                '+' => parse_plus_star_question(&mut self.seq, PSQ::Plus, pos),
                '*' => parse_plus_star_question(&mut self.seq, PSQ::Star, pos),
                '?' => parse_plus_star_question(&mut self.seq, PSQ::Question, pos),
                '(' => {
                    self.open_group();
                    Ok(())
                },
                ')' => self.close_group(pos),
                '|' => {
                    if self.seq.is_empty() {
                        Err(ParserError::NoPrev(pos))
                    } else {
                        let mut prev = Vec::new();
                        std::mem::swap(&mut self.seq, &mut prev);
                        proof {
                            lemma_sequence_view(prev);
                            lemma_trees_push(self.seq_or@, AST::Sequence(prev));
                            assert(trees(self.seq@) =~= Seq::<Tree>::empty());
                        }
                        self.seq_or.push(AST::Sequence(prev));
                        Ok(())
                    }
                },
                '\\' => {
                    self.state = ParseState::Escape;
                    Ok(())
                },
                _ => {
                    proof {
                        lemma_trees_push(self.seq@, AST::Char(c));
                    }
                    self.seq.push(AST::Char(c));
                    Ok(())
                },
            },
            ParseState::Escape => match parse_escape(pos, c) {
                Ok(ast) => {
                    proof {
                        lemma_trees_push(self.seq@, ast);
                    }
                    self.seq.push(ast);
                    self.state = ParseState::Char;
                    Ok(())
                },
                Err(e) => Err(e),
            },
        }
    }

    /// Saves the current level on the stack and starts an empty one.
    fn open_group(&mut self)
        requires
            old(self).state is Char,
        ensures
            final(self)@ == (Scan {
                seq: Seq::empty(),
                alts: Seq::empty(),
                groups: old(self)@.groups.push((old(self)@.seq, old(self)@.alts)),
                escaped: false,
            }),
    {
        let mut prev = Vec::new();
        std::mem::swap(&mut self.seq, &mut prev);
        let mut prev_or = Vec::new();
        std::mem::swap(&mut self.seq_or, &mut prev_or);
        proof {
            assert(frames(self.stack@.push((prev, prev_or))) =~= frames(self.stack@).push(
                (trees(prev@), trees(prev_or@)),
            ));
            assert(trees(self.seq@) =~= Seq::<Tree>::empty());
            assert(trees(self.seq_or@) =~= Seq::<Tree>::empty());
        }
        self.stack.push((prev, prev_or));
    }

    /// Closes the innermost group, read at position `pos`: its level folds
    /// into one tree, which joins the concatenation of the enclosing level.
    fn close_group(&mut self, pos: usize) -> (r: Result<(), ParserError>)
        requires
            old(self).state is Char,
        ensures
            step(old(self)@, pos, ')') == match r {
                Ok(_) => Ok::<Scan, ParserError>(final(self)@),
                Err(e) => Err::<Scan, ParserError>(e),
            },
    {
        proof {
            if self.stack@.len() > 0 {
                assert(frames(self.stack@.drop_last()) =~= frames(self.stack@).drop_last());
                assert(frames(self.stack@)[self.stack@.len() - 1] == (
                    trees(self.stack@.last().0@),
                    trees(self.stack@.last().1@),
                ));
            }
        }
        match self.stack.pop() {
            Some((outer_seq, outer_or)) => {
                let mut inner_seq = outer_seq;
                std::mem::swap(&mut self.seq, &mut inner_seq);
                let mut inner_or = outer_or;
                std::mem::swap(&mut self.seq_or, &mut inner_or);
                if !inner_seq.is_empty() {
                    proof {
                        lemma_sequence_view(inner_seq);
                        lemma_trees_push(inner_or@, AST::Sequence(inner_seq));
                    }
                    inner_or.push(AST::Sequence(inner_seq));
                }
                if let Some(ast) = fold_or(inner_or) {
                    proof {
                        lemma_trees_push(self.seq@, ast);
                    }
                    self.seq.push(ast);
                }
                Ok(())
            },
            None => Err(ParserError::InvalidRightParen(pos)),
        }
    }

    /// Ends the scan: an open group is an error, and otherwise the
    /// alternatives of the outer level fold into the result.
    fn finish(self) -> (r: Result<AST, ParserError>)
        ensures
            result_tree(r) == finish_scan(self@),
    {
        let Scanner { seq, seq_or, stack, state: _ } = self;
        if !stack.is_empty() {
            return Err(ParserError::NoRightParen);
        }
        let mut seq_or = seq_or;
        if !seq.is_empty() {
            proof {
                lemma_sequence_view(seq);
                lemma_trees_push(seq_or@, AST::Sequence(seq));
            }
            seq_or.push(AST::Sequence(seq));
        }
        match fold_or(seq_or) {
            Some(ast) => Ok(ast),
            None => Err(ParserError::Empty),
        }
    }
}

/// Parses a pattern into its syntax tree, or reports the first error.
pub fn parse(expr: &str) -> (r: Result<AST, ParserError>)
    ensures
        result_tree(r) == parsed(expr@),
{
    // The character count bounds the position counter below.
    let n = expr.unicode_len();
    let mut scanner = Scanner::new();
    let mut i: usize = 0;
    proof {
        assert(expr@.take(0) =~= Seq::<char>::empty());
    }
    for c in it: expr.chars()
        invariant
            i == it.index(),
            n == expr@.len(),
            it.seq() == expr@,
            scan(expr@.take(i as int)) == Ok::<Scan, ParserError>(scanner@),
    {
        proof {
            lemma_scan_take_step(expr@, i as int);
            lemma_scan_error_persists(expr@, i + 1);
        }
        if let Err(e) = scanner.read_char(i, c) {
            return Err(e);
        }
        i += 1;
    }
    proof {
        assert(expr@.take(i as int) =~= expr@);
    }
    scanner.finish()
}

} // verus!
