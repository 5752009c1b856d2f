use bf::ir::Ir;
use bf::{
    Expr, Lexer, OptimizePass, Optimizer, Parser, PythonCodeGen, SpecExecOptimizer,
    ZeroLoopOptimizer,
};

fn parsed(source: &str) -> Expr {
    let mut l = Lexer::new(source);
    l.lex().unwrap();
    let mut p = Parser::new(l.tokens);
    p.parse().unwrap()
}

fn zero_looped(source: &str) -> Expr {
    let mut e = parsed(source);
    ZeroLoopOptimizer.optimize(&mut e);
    e
}

fn speculated(mut e: Expr) -> Expr {
    SpecExecOptimizer.optimize(&mut e);
    e
}

fn text(s: &str) -> Expr {
    Expr::PrintString { value: s.as_bytes().to_vec() }
}

#[test]
fn a_clearing_loop_becomes_an_assignment() {
    assert_eq!(
        zero_looped("+[-]>[-]"),
        Expr::Block {
            exprs: vec![
                Expr::Increment { num: 1 },
                Expr::AssignCurrent { value: 0 },
                Expr::ShiftRight { num: 1 },
                Expr::AssignCurrent { value: 0 },
            ],
        }
    );
}

#[test]
fn other_loops_stay() {
    for source in ["[--]", "[+]", "[-+]", "[->]", "[]", "+[>-<-]", "[[-]]", "+[>[-]<-]"] {
        assert_eq!(zero_looped(source), parsed(source), "{}", source);
    }
}

#[test]
fn a_clearing_loop_as_the_tree_itself_is_rewritten() {
    let mut e = Expr::Loop {
        expr: Box::new(Expr::Block { exprs: vec![Expr::Decrement { num: 1 }] }),
    };
    ZeroLoopOptimizer.optimize(&mut e);
    assert_eq!(e, Expr::AssignCurrent { value: 0 });
    let mut e = Expr::Loop { expr: Box::new(Expr::Decrement { num: 1 }) };
    ZeroLoopOptimizer.optimize(&mut e);
    assert_eq!(e, Expr::Loop { expr: Box::new(Expr::Decrement { num: 1 }) });
}

#[test]
fn a_program_without_reads_becomes_its_output() {
    assert_eq!(speculated(parsed("++++++++[>++++++++<-]>+.")), Expr::Block { exprs: vec![text("A")] });
    assert_eq!(speculated(parsed("")), Expr::Block { exprs: vec![text("")] });
    assert_eq!(speculated(parsed("+++")), Expr::Block { exprs: vec![text("")] });
}

#[test]
fn a_read_that_is_overwritten_is_kept_as_a_read() {
    assert_eq!(
        speculated(zero_looped(",[-]+.")),
        Expr::Block { exprs: vec![text(""), Expr::ReadCharForget, text("\x01")] }
    );
    assert_eq!(
        speculated(zero_looped("+.,[-]++.,[-]")),
        Expr::Block {
            exprs: vec![
                text("\x01"),
                Expr::ReadCharForget,
                text("\x02"),
                Expr::ReadCharForget,
                text(""),
            ],
        }
    );
}

#[test]
fn a_read_that_is_used_splits_the_block() {
    assert_eq!(
        speculated(parsed("+>++.<,.")),
        Expr::Block {
            exprs: vec![
                Expr::Assign { index: 0, value: 1 },
                Expr::Assign { index: 1, value: 2 },
                text("\x02"),
                Expr::SetCellPointer { value: 0 },
                Expr::ReadChar,
                Expr::PrintChar,
            ],
        }
    );
    assert_eq!(
        speculated(parsed(",")),
        Expr::Block { exprs: vec![text(""), Expr::SetCellPointer { value: 0 }, Expr::ReadChar] }
    );
}

#[test]
fn a_loop_that_reads_is_run_without_input_where_its_cell_is_overwritten() {
    assert_eq!(
        speculated(zero_looped("+[,.][-]")),
        Expr::Block { exprs: vec![text(""), Expr::ReadCharForget, text("\0")] }
    );
}

#[test]
fn reads_at_the_tail_that_touch_no_memory_are_run() {
    let tail = Expr::Block {
        exprs: vec![text("a"), Expr::ReadCharForget, text("b"), Expr::ReadCharForget],
    };
    assert_eq!(
        speculated(tail),
        Expr::Block {
            exprs: vec![text("a"), Expr::ReadCharForget, text("b"), Expr::ReadCharForget, text("")],
        }
    );
}

#[test]
fn a_fault_in_the_run_leaves_the_block() {
    assert_eq!(speculated(parsed("+.<")), parsed("+.<"));
}

#[test]
fn only_a_block_is_speculated() {
    assert_eq!(speculated(Expr::Increment { num: 1 }), Expr::Increment { num: 1 });
}

#[test]
fn bytes_above_127_stay_one_byte() {
    assert_eq!(
        speculated(parsed("-.")),
        Expr::Block { exprs: vec![Expr::PrintString { value: vec![255] }] }
    );
}

#[test]
fn the_optimizer_wraps_what_is_no_block() {
    let o = Optimizer::new(Expr::Increment { num: 2 });
    assert_eq!(o.expr, Expr::Block { exprs: vec![Expr::Increment { num: 2 }] });
    let o = Optimizer::new(parsed("+"));
    assert_eq!(o.expr, parsed("+"));
}

#[test]
fn the_optimizer_without_passes_changes_nothing() {
    let mut o = Optimizer::new(parsed("+[-]."));
    o.optimize();
    assert_eq!(o.expr, parsed("+[-]."));
}

#[test]
fn the_optimizer_runs_the_passes_in_order() {
    let mut o = Optimizer::new(parsed(",[-]+."));
    o.add_pass(ZeroLoopOptimizer);
    o.add_pass(SpecExecOptimizer);
    o.optimize();
    assert_eq!(o.expr, Expr::Block { exprs: vec![text(""), Expr::ReadCharForget, text("\x01")] });

    let mut o = Optimizer::new(parsed(",[-]+."));
    o.add_pass(SpecExecOptimizer);
    o.add_pass(ZeroLoopOptimizer);
    o.optimize();
    assert_eq!(o.expr, Expr::Block { exprs: vec![text(""), Expr::ReadCharForget, text("\x01")] });

    let mut o = Optimizer::new(parsed(",[-]+."));
    o.add_pass(SpecExecOptimizer);
    o.optimize();
    assert_eq!(
        o.expr,
        Expr::Block {
            exprs: vec![
                text(""),
                Expr::SetCellPointer { value: 0 },
                Expr::ReadChar,
                Expr::Loop {
                    expr: Box::new(Expr::Block { exprs: vec![Expr::Decrement { num: 1 }] }),
                },
                Expr::Increment { num: 1 },
                Expr::PrintChar,
            ],
        }
    );
}

struct Stepper;

impl OptimizePass for Stepper {
    fn rewritten(&self, _ir: Ir) -> Ir {
        unreachable!()
    }

    fn optimize(&mut self, expr: &mut Expr) {
        if let Expr::Block { exprs } = expr {
            exprs.push(Expr::PrintChar);
        }
    }
}

#[test]
fn the_optimizer_stops_after_three_cycles() {
    let mut o = Optimizer::new(Expr::Block { exprs: vec![] });
    o.add_pass(Stepper);
    o.optimize();
    assert_eq!(
        o.expr,
        Expr::Block { exprs: vec![Expr::PrintChar, Expr::PrintChar, Expr::PrintChar] }
    );
}

#[test]
fn the_transcript_of_a_small_program() {
    let mut g = PythonCodeGen::new();
    g.gen(&parsed("++>[-<.>],"));
    assert_eq!(
        g.output,
        "cells = []\n\
         for i in range(0, 10000):\n\
         \tcells.append(0)\n\
         cell_index = 0\n\
         cells[cell_index] += 2\n\
         cell_index += 1\n\
         while cells[cell_index] != 0:\n\
         \tcells[cell_index] -= 1\n\
         \tcell_index -= 1\n\
         \tprint(chr(cells[cell_index]), end='')\n\
         \tcell_index += 1\n\
         cells[cell_index] = ord((input() + ' ')[0])\n"
    );
}

#[test]
fn the_transcript_of_synthesized_instructions() {
    let mut g = PythonCodeGen::default();
    g.gen(&Expr::Block {
        exprs: vec![
            Expr::Assign { index: 12, value: 255 },
            Expr::AssignCurrent { value: 0 },
            Expr::SetCellPointer { value: 1000 },
            text("hi"),
            Expr::ReadCharForget,
            Expr::Increment { num: 10 },
        ],
    });
    assert_eq!(
        g.output,
        "cells = []\n\
         for i in range(0, 10000):\n\
         \tcells.append(0)\n\
         cell_index = 0\n\
         cells[12] = 255\n\
         cells[cell_index] = 0\n\
         cell_index = 1000\n\
         print('hi', end='')\n\
         input()\n\
         cells[cell_index] += 10\n"
    );
}

#[test]
fn no_preamble_without_memory() {
    let mut g = PythonCodeGen::new();
    g.gen(&Expr::Block { exprs: vec![text("a"), Expr::ReadCharForget, text("")] });
    assert_eq!(g.output, "print('a', end='')\ninput()\nprint('', end='')\n");
}

#[test]
fn nested_loops_indent() {
    let mut g = PythonCodeGen::new();
    g.gen(&parsed("[[+]-]"));
    assert!(g.output.ends_with(
        "while cells[cell_index] != 0:\n\
         \twhile cells[cell_index] != 0:\n\
         \t\tcells[cell_index] += 1\n\
         \tcells[cell_index] -= 1\n"
    ));
}

#[test]
fn write_indents_each_line() {
    let mut g = PythonCodeGen::new();
    g.write("a\nb");
    g.write("c\n\n");
    g.write("d");
    assert_eq!(g.output, "a\nbc\n\nd");
    let mut g = PythonCodeGen::new();
    g.write_preamble();
    assert_eq!(
        g.output,
        "cells = []\nfor i in range(0, 10000):\n\tcells.append(0)\ncell_index = 0\n"
    );
}

#[test]
fn bytes_of_a_string_are_written_as_characters() {
    let mut g = PythonCodeGen::new();
    g.gen(&Expr::PrintString { value: vec![b'A', 0xe9] });
    assert_eq!(g.output, "print('A\u{e9}', end='')\n");
}
