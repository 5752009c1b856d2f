//! The parser: turns tokens into an instruction tree whose root is a block.

pub use crate::ir::Expr;
use crate::ir::{irs_of, lemma_block_view, Ir};
use crate::lexer::{Token, TokenData};
use vstd::prelude::*;

verus! {

/// The error of the parser. No list of tokens gives it.
#[derive(Debug)]
pub enum ParseError {
    Rejected,
}

/// What parsing gave: the children of a block, the index of the first token
/// that was not read, and how many loops are still open there.
pub struct Parsed {
    pub body: Seq<Ir>,
    pub next: nat,
    pub depth: nat,
}

/// `p` with the instruction `first` before its children.
pub open spec fn after(first: Ir, p: Parsed) -> Parsed {
    Parsed { body: seq![first] + p.body, ..p }
}

/// The children of the block that starts at the token at `i`, with `depth`
/// loops open.
///
/// A run or a single command gives its instruction. `[` gives a loop over
/// the block that starts after it. `]` ends the block if a loop is open, and
/// is skipped if none is. Other tokens are skipped. The end of the tokens
/// ends every block.
pub open spec fn parse_from(tokens: Seq<Token>, i: nat, depth: nat) -> Parsed
    decreases tokens.len() - i,
{
    if i >= tokens.len() {
        Parsed { body: Seq::empty(), next: i, depth }
    } else {
        match tokens[i as int].data {
            TokenData::Increment(n) => after(
                Ir::Increment { num: n as nat },
                parse_from(tokens, i + 1, depth),
            ),
            TokenData::Decrement(n) => after(
                Ir::Decrement { num: n as nat },
                parse_from(tokens, i + 1, depth),
            ),
            TokenData::ShiftLeft(n) => after(
                Ir::ShiftLeft { num: n as nat },
                parse_from(tokens, i + 1, depth),
            ),
            TokenData::ShiftRight(n) => after(
                Ir::ShiftRight { num: n as nat },
                parse_from(tokens, i + 1, depth),
            ),
            TokenData::Print => after(Ir::PrintChar, parse_from(tokens, i + 1, depth)),
            TokenData::Read => after(Ir::ReadChar, parse_from(tokens, i + 1, depth)),
            TokenData::StartLoop => {
                let inner = parse_from(tokens, i + 1, depth + 1);
                if i < inner.next <= tokens.len() {
                    after(
                        Ir::Loop { inner: Box::new(Ir::Block { body: inner.body }) },
                        parse_from(tokens, inner.next, inner.depth),
                    )
                } else {
                    inner
                }
            },
            TokenData::EndLoop => if depth > 0 {
                Parsed { body: Seq::empty(), next: i + 1, depth: (depth - 1) as nat }
            } else {
                parse_from(tokens, i + 1, depth)
            },
            TokenData::Other(_) => parse_from(tokens, i + 1, depth),
        }
    }
}

/// Parsing reads on: it ends at or after the token at which it started, and
/// after it where there was a token. It opens no loop that it does not
/// count.
pub proof fn lemma_parse_advances(tokens: Seq<Token>, i: nat, depth: nat)
    ensures
        parse_from(tokens, i, depth).next >= i,
        i < tokens.len() ==> i < parse_from(tokens, i, depth).next <= tokens.len(),
        i <= tokens.len() ==> parse_from(tokens, i, depth).depth + i <= depth + parse_from(
            tokens,
            i,
            depth,
        ).next,
    decreases tokens.len() - i,
{
    if i < tokens.len() {
        match tokens[i as int].data {
            TokenData::StartLoop => {
                lemma_parse_advances(tokens, i + 1, depth + 1);
                let inner = parse_from(tokens, i + 1, depth + 1);
                lemma_parse_advances(tokens, inner.next, inner.depth);
            },
            TokenData::EndLoop => {
                if depth == 0 {
                    lemma_parse_advances(tokens, i + 1, depth);
                }
            },
            _ => {
                lemma_parse_advances(tokens, i + 1, depth);
            },
        }
    }
}

/// The parser: the tokens, the index of the next token, and how many loops
/// are open there.
pub struct Parser {
    pub tokens: Vec<Token>,
    pub index: usize,
    pub loop_count: usize,
}

impl Parser {
    /// True iff the parser is at a place that parsing can reach: within the
    /// tokens, with no more loops open than tokens were read.
    pub open spec fn wf(&self) -> bool {
        self.loop_count <= self.index <= self.tokens@.len()
    }

    /// A parser at the start of `tokens`, with no loop open.
    pub fn new(tokens: Vec<Token>) -> (p: Self)
        ensures
            p.tokens == tokens,
            p.index == 0,
            p.loop_count == 0,
            p.wf(),
    {
        Self { tokens, index: 0, loop_count: 0 }
    }

    /// Parses the block that starts at the next token.
    ///
    /// The result is always `Ok`: a block whose children are what
    /// [`parse_from`] gives for the tokens from the next one on.
    #[verifier::loop_isolation(false)]
    pub fn parse(&mut self) -> (res: Result<Expr, ParseError>)
        requires
            old(self).wf(),
        ensures
            final(self).wf(),
            final(self).tokens == old(self).tokens,
            res matches Ok(e) && e@ == (Ir::Block {
                body: parse_from(
                    old(self).tokens@,
                    old(self).index as nat,
                    old(self).loop_count as nat,
                ).body,
            }),
            final(self).index == parse_from(
                old(self).tokens@,
                old(self).index as nat,
                old(self).loop_count as nat,
            ).next,
            final(self).loop_count == parse_from(
                old(self).tokens@,
                old(self).index as nat,
                old(self).loop_count as nat,
            ).depth,
        decreases old(self).tokens@.len() - old(self).index,
    {
        let ghost tokens = self.tokens@;
        let ghost whole = parse_from(tokens, self.index as nat, self.loop_count as nat);
        let mut exprs: Vec<Expr> = Vec::new();
        let mut open = true;
        assert(irs_of(exprs@) + whole.body =~= whole.body);
        while open && self.index < self.tokens.len()
            invariant
                self.wf(),
                self.tokens == old(self).tokens,
                self.index >= old(self).index,
                open ==> whole == (Parsed {
                    body: irs_of(exprs@) + parse_from(
                        tokens,
                        self.index as nat,
                        self.loop_count as nat,
                    ).body,
                    ..parse_from(tokens, self.index as nat, self.loop_count as nat)
                }),
                !open ==> whole == (Parsed {
                    body: irs_of(exprs@),
                    next: self.index as nat,
                    depth: self.loop_count as nat,
                }),
            decreases self.tokens@.len() - self.index, (if open { 1nat } else { 0nat }),
        {
            let ghost before = exprs@;
            let ghost rest = parse_from(tokens, self.index as nat, self.loop_count as nat);
            match &self.tokens[self.index].data {
                TokenData::Increment(n) => {
                    exprs.push(Expr::Increment { num: *n });
                    self.index += 1;
                },
                TokenData::Decrement(n) => {
                    exprs.push(Expr::Decrement { num: *n });
                    self.index += 1;
                },
                TokenData::ShiftLeft(n) => {
                    exprs.push(Expr::ShiftLeft { num: *n });
                    self.index += 1;
                },
                TokenData::ShiftRight(n) => {
                    exprs.push(Expr::ShiftRight { num: *n });
                    self.index += 1;
                },
                TokenData::Print => {
                    exprs.push(Expr::PrintChar);
                    self.index += 1;
                },
                TokenData::Read => {
                    exprs.push(Expr::ReadChar);
                    self.index += 1;
                },
                TokenData::StartLoop => {
                    let ghost at = self.index as nat;
                    proof {
                        lemma_parse_advances(tokens, at + 1, self.loop_count as nat + 1);
                    }
                    self.loop_count += 1;
                    self.index += 1;
                    match self.parse() {
                        Ok(expr) => {
                            exprs.push(Expr::Loop { expr: Box::new(expr) });
                        },
                        Err(e) => {
                            return Err(e);
                        },
                    }
                },
                TokenData::EndLoop => {
                    self.index += 1;
                    if self.loop_count > 0 {
                        self.loop_count -= 1;
                        open = false;
                    }
                },
                TokenData::Other(_) => {
                    self.index += 1;
                },
            }
            proof {
                if exprs@.len() > before.len() {
                    let now = parse_from(tokens, self.index as nat, self.loop_count as nat);
                    assert(irs_of(exprs@) =~= irs_of(before).push(exprs@.last()@));
                    assert(rest.body == seq![exprs@.last()@] + now.body);
                    assert(irs_of(exprs@) + now.body =~= irs_of(before) + rest.body);
                } else {
                    assert(irs_of(exprs@) =~= irs_of(before));
                    if !open {
                        assert(irs_of(before) + rest.body =~= irs_of(before));
                    }
                }
            }
        }
        proof {
            lemma_block_view(exprs);
            if open {
                assert(irs_of(exprs@) + Seq::<Ir>::empty() =~= irs_of(exprs@));
            }
        }
        Ok(Expr::Block { exprs })
    }
}

} // verus!
