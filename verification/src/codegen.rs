//! The code generator: writes an instruction tree down as a transcript in an
//! imperative language with scopes by indentation, over an array `cells` and
//! an index `cell_index`.

use crate::ir::{irs_of, lemma_block_view, touches_memory, Expr, Ir};
use crate::lexer::{push_char, repeated};
use vstd::prelude::*;

verus! {

/// The state of the generator: the text so far, the depth of indentation,
/// and whether the next character starts a line.
pub struct Printer {
    pub text: Seq<char>,
    pub tabs: nat,
    pub newline: bool,
}

/// The printer after one more character: a character that starts a line has
/// the line's tabs before it, and a line break makes the next one start a
/// line.
pub open spec fn put_char(p: Printer, c: char) -> Printer {
    let lead = if p.newline {
        p.text + repeated('\t', p.tabs)
    } else {
        p.text
    };
    Printer { text: lead.push(c), tabs: p.tabs, newline: c == '\n' }
}

/// The printer after the characters of `s`, in order.
pub open spec fn written(p: Printer, s: Seq<char>) -> Printer
    decreases s.len(),
{
    if s.len() == 0 {
        p
    } else {
        put_char(written(p, s.drop_last()), s.last())
    }
}

/// Writing one text and then another is writing the two as one.
pub proof fn lemma_written_concat(p: Printer, a: Seq<char>, b: Seq<char>)
    ensures
        written(written(p, a), b) == written(p, a + b),
    decreases b.len(),
{
    if b.len() == 0 {
        assert(a + b =~= a);
    } else {
        lemma_written_concat(p, a, b.drop_last());
        assert((a + b).drop_last() =~= a + b.drop_last());
    }
}

/// The character of a decimal digit.
pub open spec fn digit(d: nat) -> char {
    if d == 0 {
        '0'
    } else if d == 1 {
        '1'
    } else if d == 2 {
        '2'
    } else if d == 3 {
        '3'
    } else if d == 4 {
        '4'
    } else if d == 5 {
        '5'
    } else if d == 6 {
        '6'
    } else if d == 7 {
        '7'
    } else if d == 8 {
        '8'
    } else {
        '9'
    }
}

/// A number in decimal, without leading zeros.
pub open spec fn decimal(n: nat) -> Seq<char>
    decreases n,
{
    if n < 10 {
        seq![digit(n)]
    } else {
        decimal(n / 10).push(digit(n % 10))
    }
}

/// The bytes of a string, each as the character with its number.
pub open spec fn chars_of(bytes: Seq<u8>) -> Seq<char> {
    Seq::new(bytes.len(), |i: int| bytes[i] as char)
}

/// The printer one level deeper; the depth does not go beyond what a
/// machine word can count.
pub open spec fn deeper(p: Printer) -> Printer {
    Printer { tabs: if p.tabs < usize::MAX { p.tabs + 1 } else { p.tabs }, ..p }
}

/// The printer after the lines that set up the tape and the pointer.
pub open spec fn preamble(p: Printer) -> Printer {
    let a = written(p, "cells = []\n"@);
    let b = written(a, "for i in range(0, 10000):\n"@);
    let c = written(deeper(b), "cells.append(0)\n"@);
    written(Printer { tabs: b.tabs, ..c }, "cell_index = 0\n"@)
}

/// The line of one instruction that is neither a block nor a loop.
pub open spec fn line_of(ir: Ir) -> Seq<char> {
    match ir {
        Ir::Increment { num } => "cells[cell_index] += "@ + decimal(num) + "\n"@,
        Ir::Decrement { num } => "cells[cell_index] -= "@ + decimal(num) + "\n"@,
        Ir::ShiftRight { num } => "cell_index += "@ + decimal(num) + "\n"@,
        Ir::ShiftLeft { num } => "cell_index -= "@ + decimal(num) + "\n"@,
        Ir::ReadChar => "cells[cell_index] = ord((input() + ' ')[0])\n"@,
        Ir::PrintChar => "print(chr(cells[cell_index]), end='')\n"@,
        Ir::Assign { index, value } => "cells["@ + decimal(index) + "] = "@ + decimal(
            value as nat,
        ) + "\n"@,
        Ir::AssignCurrent { value } => "cells[cell_index] = "@ + decimal(value as nat) + "\n"@,
        Ir::SetCellPointer { value } => "cell_index = "@ + decimal(value) + "\n"@,
        Ir::PrintString { value } => "print('"@ + chars_of(value) + "', end='')\n"@,
        Ir::ReadCharForget => "input()\n"@,
        _ => Seq::empty(),
    }
}

/// The printer after the transcript of `ir`: the children of a block one
/// after the other, a loop as its head with its body one level deeper, and
/// every other instruction as its line.
pub open spec fn generated(ir: Ir, p: Printer) -> Printer
    decreases ir,
{
    match ir {
        Ir::Block { body } => generated_all(body, p),
        Ir::Loop { inner } => {
            let head = written(p, "while cells[cell_index] != 0:\n"@);
            let body = generated(*inner, deeper(head));
            Printer { tabs: head.tabs, ..body }
        },
        _ => written(p, line_of(ir)),
    }
}

/// The printer after the transcripts of a list of trees, in order.
pub open spec fn generated_all(body: Seq<Ir>, p: Printer) -> Printer
    decreases body,
{
    if body.len() == 0 {
        p
    } else {
        generated(body.last(), generated_all(body.drop_last(), p))
    }
}

/// The transcript of a whole program: the lines that set up the tape and
/// the pointer, if the program uses them, and then the transcript of the
/// tree.
pub open spec fn transcript(ir: Ir, p: Printer) -> Printer {
    generated(
        ir,
        if touches_memory(ir) {
            preamble(p)
        } else {
            p
        },
    )
}

/// The code generator.
pub struct PythonCodeGen {
    /// The transcript so far.
    pub output: String,
    /// The depth of indentation.
    pub tab_index: usize,
    /// Whether the next character starts a line.
    pub newline: bool,
}

impl View for PythonCodeGen {
    type V = Printer;

    open spec fn view(&self) -> Printer {
        Printer { text: self.output@, tabs: self.tab_index as nat, newline: self.newline }
    }
}

impl Default for PythonCodeGen {
    fn default() -> (g: Self)
        ensures
            g@ == (Printer { text: Seq::empty(), tabs: 0, newline: true }),
    {
        PythonCodeGen::new()
    }
}

impl PythonCodeGen {
    /// A generator with no text, at the start of a line, not indented.
    pub fn new() -> (g: Self)
        ensures
            g@ == (Printer { text: Seq::empty(), tabs: 0, newline: true }),
    {
        Self { output: String::new(), tab_index: 0, newline: true }
    }

    /// Writes one character.
    fn put(&mut self, c: char)
        ensures
            final(self)@ == put_char(old(self)@, c),
    {
        if self.newline {
            let ghost start = self.output@;
            let mut i: usize = 0;
            while i < self.tab_index
                invariant
                    i <= self.tab_index,
                    self.tab_index == old(self).tab_index,
                    self.newline == old(self).newline,
                    self.output@ == start + repeated('\t', i as nat),
                decreases self.tab_index - i,
            {
                push_char(&mut self.output, '\t');
                i += 1;
                assert(self.output@ =~= start + repeated('\t', i as nat));
            }
            self.newline = false;
        }
        if c == '\n' {
            self.newline = true;
        }
        push_char(&mut self.output, c);
    }

    /// Writes `s`, with the tabs of the current depth at the start of each
    /// line.
    pub fn write(&mut self, s: &str)
        ensures
            final(self)@ == written(old(self)@, s@),
    {
        for c in iter: s.chars()
            invariant
                iter.seq() == s@,
                self@ == written(old(self)@, iter.seq().take(iter.index() as int)),
        {
            self.put(c);
            assert(iter.seq().take(iter.index() + 1).drop_last() =~= iter.seq().take(
                iter.index() as int,
            ));
        }
        assert(s@.take(s@.len() as int) =~= s@);
    }

    /// Writes `n` in decimal.
    fn write_number(&mut self, n: usize)
        ensures
            final(self)@ == written(old(self)@, decimal(n as nat)),
        decreases n,
    {
        if n >= 10 {
            self.write_number(n / 10);
        }
        let d = n % 10;
        let c = if d == 0 {
            '0'
        } else if d == 1 {
            '1'
        } else if d == 2 {
            '2'
        } else if d == 3 {
            '3'
        } else if d == 4 {
            '4'
        } else if d == 5 {
            '5'
        } else if d == 6 {
            '6'
        } else if d == 7 {
            '7'
        } else if d == 8 {
            '8'
        } else {
            '9'
        };
        let ghost before = self@;
        self.put(c);
        proof {
            let all = decimal(n as nat);
            assert(all.last() == c);
            if n >= 10 {
                assert(all.drop_last() =~= decimal((n / 10) as nat));
            } else {
                assert(all.drop_last() =~= Seq::<char>::empty());
                assert(written(old(self)@, all.drop_last()) == old(self)@);
            }
        }
    }

    /// Goes one level deeper, if the depth can still be counted; says
    /// whether it did.
    fn indent(&mut self) -> (went: bool)
        ensures
            final(self)@ == deeper(old(self)@),
            went == (old(self).tab_index < usize::MAX),
    {
        if self.tab_index < usize::MAX {
            self.tab_index += 1;
            true
        } else {
            false
        }
    }

    /// Writes the lines that set up the tape and the pointer.
    pub fn write_preamble(&mut self)
        ensures
            final(self)@ == preamble(old(self)@),
    {
        self.write("cells = []\n");
        self.write("for i in range(0, 10000):\n");
        let ghost head = self@;
        let went = self.indent();
        self.write("cells.append(0)\n");
        proof {
            lemma_written_tabs(deeper(head), "cells.append(0)\n"@);
        }
        if went {
            self.tab_index -= 1;
        }
        self.write("cell_index = 0\n");
    }

    /// Writes the transcript of a whole program.
    pub fn gen(&mut self, expr: &Expr)
        ensures
            final(self)@ == transcript(expr@, old(self)@),
    {
        if expr.uses_memory() {
            self.write_preamble();
        }
        self.gen_expr(expr);
    }

    /// Writes `a`, then `n` in decimal, then `b`.
    fn write_with(&mut self, a: &str, n: usize, b: &str)
        ensures
            final(self)@ == written(old(self)@, a@ + decimal(n as nat) + b@),
    {
        self.write(a);
        self.write_number(n);
        self.write(b);
        proof {
            lemma_written_concat(old(self)@, a@, decimal(n as nat));
            lemma_written_concat(old(self)@, a@ + decimal(n as nat), b@);
        }
    }

    /// Writes the bytes of `value`, each as the character with its number.
    fn write_bytes(&mut self, value: &Vec<u8>)
        ensures
            final(self)@ == written(old(self)@, chars_of(value@)),
    {
        let mut i: usize = 0;
        while i < value.len()
            invariant
                i <= value.len(),
                self@ == written(old(self)@, chars_of(value@).take(i as int)),
            decreases value.len() - i,
        {
            self.put(value[i] as char);
            assert(chars_of(value@).take(i + 1).drop_last() =~= chars_of(value@).take(i as int));
            i += 1;
        }
        assert(chars_of(value@).take(i as int) =~= chars_of(value@));
    }

    /// Writes the transcript of `expr`.
    #[verifier::loop_isolation(false)]
    fn gen_expr(&mut self, expr: &Expr)
        ensures
            final(self)@ == generated(expr@, old(self)@),
        decreases expr,
    {
        match expr {
            Expr::Block { exprs } => {
                proof {
                    lemma_block_view(*exprs);
                }
                let ghost body = irs_of(exprs@);
                let mut i: usize = 0;
                while i < exprs.len()
                    invariant
                        i <= exprs.len(),
                        self@ == generated_all(body.take(i as int), old(self)@),
                    decreases exprs.len() - i,
                {
                    self.gen_expr(&exprs[i]);
                    assert(body.take(i + 1).drop_last() =~= body.take(i as int));
                    assert(body.take(i + 1).last() == exprs@[i as int]@);
                    i += 1;
                }
                assert(body.take(i as int) =~= body);
            },
            Expr::Increment { num } => {
                self.write_with("cells[cell_index] += ", *num, "\n");
            },
            Expr::Decrement { num } => {
                self.write_with("cells[cell_index] -= ", *num, "\n");
            },
            Expr::ShiftRight { num } => {
                self.write_with("cell_index += ", *num, "\n");
            },
            Expr::ShiftLeft { num } => {
                self.write_with("cell_index -= ", *num, "\n");
            },
            Expr::Loop { expr: inner } => {
                self.write("while cells[cell_index] != 0:\n");
                let went = self.indent();
                self.gen_expr(inner);
                if went {
                    proof {
                        lemma_generated_tabs(inner@, deeper(written(old(self)@, "while cells[cell_index] != 0:\n"@)));
                    }
                    self.tab_index -= 1;
                }
                proof {
                    lemma_generated_tabs(inner@, deeper(written(old(self)@, "while cells[cell_index] != 0:\n"@)));
                    lemma_written_tabs(old(self)@, "while cells[cell_index] != 0:\n"@);
                }
            },
            Expr::ReadChar => {
                self.write("cells[cell_index] = ord((input() + ' ')[0])\n");
            },
            Expr::PrintChar => {
                self.write("print(chr(cells[cell_index]), end='')\n");
            },
            Expr::Assign { index, value } => {
                self.write_with("cells[", *index, "] = ");
                let ghost mid = self@;
                self.write_with("", *value as usize, "\n");
                proof {
                    let a = "cells["@ + decimal(*index as nat) + "] = "@;
                    let b = ""@ + decimal(*value as nat) + "\n"@;
                    reveal_strlit("");
                    assert(""@ + decimal(*value as nat) =~= decimal(*value as nat));
                    lemma_written_concat(old(self)@, a, b);
                    assert(a + b =~= a + decimal(*value as nat) + "\n"@);
                }
            },
            Expr::AssignCurrent { value } => {
                self.write_with("cells[cell_index] = ", *value as usize, "\n");
            },
            Expr::SetCellPointer { value } => {
                self.write_with("cell_index = ", *value, "\n");
            },
            Expr::PrintString { value } => {
                self.write("print('");
                self.write_bytes(value);
                self.write("', end='')\n");
                proof {
                    lemma_written_concat(old(self)@, "print('"@, chars_of(value@));
                    lemma_written_concat(
                        old(self)@,
                        "print('"@ + chars_of(value@),
                        "', end='')\n"@,
                    );
                }
            },
            Expr::ReadCharForget => {
                self.write("input()\n");
            },
        }
    }
}

/// Writing changes no depth.
pub proof fn lemma_written_tabs(p: Printer, s: Seq<char>)
    ensures
        written(p, s).tabs == p.tabs,
    decreases s.len(),
{
    if s.len() > 0 {
        lemma_written_tabs(p, s.drop_last());
    }
}

/// A transcript ends at the depth at which it began.
pub proof fn lemma_generated_tabs(ir: Ir, p: Printer)
    ensures
        generated(ir, p).tabs == p.tabs,
    decreases ir,
{
    match ir {
        Ir::Block { body } => {
            lemma_generated_all_tabs(body, p);
        },
        Ir::Loop { inner } => {
            lemma_written_tabs(p, "while cells[cell_index] != 0:\n"@);
        },
        _ => {
            lemma_written_tabs(p, line_of(ir));
        },
    }
}

/// The same for a list of trees.
pub proof fn lemma_generated_all_tabs(body: Seq<Ir>, p: Printer)
    ensures
        generated_all(body, p).tabs == p.tabs,
    decreases body,
{
    if body.len() > 0 {
        lemma_generated_all_tabs(body.drop_last(), p);
        lemma_generated_tabs(body.last(), generated_all(body.drop_last(), p));
    }
}

} // verus!
