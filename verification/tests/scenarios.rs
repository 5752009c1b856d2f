use bf::interpreter::{DefaultHandler, RuntimeError};
use bf::{
    Expr, Handler, Interpreter, Lexer, Optimizer, Parser, SpecExecOptimizer, ZeroLoopOptimizer,
};

struct Io {
    input: Vec<u8>,
    taken: usize,
    out: Vec<u8>,
    probes: Vec<usize>,
}

impl Io {
    fn new(input: &[u8]) -> Self {
        Self { input: input.to_vec(), taken: 0, out: Vec::new(), probes: Vec::new() }
    }
}

impl Handler for Io {
    fn read_char(&mut self) -> u8 {
        let c = if self.taken < self.input.len() { self.input[self.taken] } else { 0 };
        self.taken += 1;
        c
    }

    fn write_char(&mut self, c: u8) {
        self.out.push(c);
    }

    fn mem_read(&mut self, index: usize) {
        self.probes.push(index);
    }
}

fn parsed(source: &str) -> Expr {
    let mut l = Lexer::new(source);
    l.lex().unwrap();
    let mut p = Parser::new(l.tokens);
    p.parse().unwrap()
}

fn optimized(source: &str) -> Expr {
    let mut o = Optimizer::new(parsed(source));
    o.add_pass(ZeroLoopOptimizer);
    o.add_pass(SpecExecOptimizer);
    o.optimize();
    o.expr
}

fn run(expr: &Expr, input: &[u8]) -> Interpreter<Io> {
    let mut vm = Interpreter::new(Io::new(input));
    vm.run(expr).unwrap();
    vm
}

fn message(res: Result<(), RuntimeError>) -> &'static str {
    match res {
        Ok(()) => panic!("the run did not fail"),
        Err(RuntimeError::GenericStr(m)) => m,
    }
}

#[test]
fn nested_loop_prints_a() {
    let vm = run(&parsed("++++++++[>++++++++<-]>+."), b"");
    assert_eq!(vm.handler.out, vec![0x41]);
    assert_eq!(vm.cells(), &[0, 65]);
    assert_eq!(vm.current_cell_index(), 1);
}

#[test]
fn clearing_loop_leaves_zero() {
    let vm = run(&parsed("+++++[-]"), b"");
    assert_eq!(vm.cells(), &[0]);
    assert!(vm.handler.out.is_empty());
    let vm = run(&optimized("+++++[-]"), b"");
    assert!(vm.handler.out.is_empty());
}

#[test]
fn input_does_not_clobber_the_cell_before() {
    let vm = run(&parsed("+++>,<."), b"Z");
    assert_eq!(vm.handler.out, vec![3]);
    assert_eq!(vm.cells(), &[3, b'Z']);
    assert_eq!(vm.handler.taken, 1);
}

#[test]
fn hello_world_scenario() {
    let source = "++++++++++[>+++++++>++++++++++>+++>+<<<<-]>++.>+.+++++++..+++.>++.<<+++++++++++++++.>.+++.------.--------.>+.>.";
    assert_eq!(run(&parsed(source), b"").handler.out, b"Hello World!\n".to_vec());
    assert_eq!(run(&optimized(source), b"").handler.out, b"Hello World!\n".to_vec());
}

#[test]
fn speculation_stops_at_a_read_that_is_used() {
    let expr = optimized("+++.,+.");
    let vm = run(&expr, b"A");
    assert_eq!(vm.handler.out, b"\x03B".to_vec());
    assert_eq!(vm.handler.taken, 1);
    assert_eq!(
        expr,
        Expr::Block {
            exprs: vec![
                Expr::Assign { index: 0, value: 3 },
                Expr::PrintString { value: vec![3] },
                Expr::SetCellPointer { value: 0 },
                Expr::ReadChar,
                Expr::Increment { num: 1 },
                Expr::PrintChar,
            ],
        }
    );
}

#[test]
fn increment_wraps_at_256() {
    let expr = Expr::Block {
        exprs: vec![Expr::Increment { num: 200 }, Expr::Increment { num: 100 }],
    };
    assert_eq!(run(&expr, b"").cells(), &[44]);
    let expr = Expr::Block { exprs: vec![Expr::Increment { num: 256 * 3 + 7 }] };
    assert_eq!(run(&expr, b"").cells(), &[7]);
    let mut steps = Vec::new();
    for _ in 0..300 {
        steps.push(Expr::Increment { num: 1 });
    }
    assert_eq!(run(&Expr::Block { exprs: steps }, b"").cells(), &[44]);
}

#[test]
fn decrement_wraps_below_zero() {
    let expr = Expr::Block { exprs: vec![Expr::Decrement { num: 1 }] };
    assert_eq!(run(&expr, b"").cells(), &[255]);
    let expr = Expr::Block {
        exprs: vec![Expr::Increment { num: 5 }, Expr::Decrement { num: 256 + 10 }],
    };
    assert_eq!(run(&expr, b"").cells(), &[251]);
}

#[test]
fn reading_past_the_input_gives_zero() {
    let vm = run(&parsed(",.,.,."), b"a");
    assert_eq!(vm.handler.out, vec![b'a', 0, 0]);
    assert_eq!(vm.handler.taken, 3);
}

#[test]
fn the_tape_grows_to_the_cell_that_is_touched() {
    let vm = run(&parsed(">>>+"), b"");
    assert_eq!(vm.cells(), &[0, 0, 0, 1]);
    let vm = run(&parsed(">>"), b"");
    assert!(vm.cells().is_empty());
    assert_eq!(vm.current_cell_index(), 2);
    let vm = run(&parsed(">>."), b"");
    assert_eq!(vm.cells(), &[0, 0, 0]);
}

#[test]
fn synthesized_instructions_run() {
    let expr = Expr::Block {
        exprs: vec![
            Expr::Assign { index: 2, value: 9 },
            Expr::SetCellPointer { value: 2 },
            Expr::PrintChar,
            Expr::AssignCurrent { value: 7 },
            Expr::PrintString { value: vec![1, 2, 255] },
            Expr::ReadCharForget,
            Expr::ReadChar,
        ],
    };
    let vm = run(&expr, b"xy");
    assert_eq!(vm.handler.out, vec![9, 1, 2, 255]);
    assert_eq!(vm.cells(), &[0, 0, b'y']);
    assert_eq!(vm.handler.taken, 2);
}

#[test]
fn moving_below_the_first_cell_is_an_error() {
    let mut vm = Interpreter::new(DefaultHandler);
    assert_eq!(message(vm.run(&parsed("+><<+"))), "pointer moved below the first cell");
    assert_eq!(vm.cells(), &[1]);
    assert_eq!(vm.current_cell_index(), 1);
    let mut vm = Interpreter::new(DefaultHandler);
    assert_eq!(message(vm.run(&parsed("<"))), "pointer moved below the first cell");
    assert_eq!(vm.current_cell_index(), 0);
}

#[test]
fn a_cell_out_of_range_is_an_error() {
    let mut vm = Interpreter::new(DefaultHandler);
    let expr = Expr::Block {
        exprs: vec![Expr::SetCellPointer { value: usize::MAX }, Expr::Increment { num: 1 }],
    };
    assert_eq!(message(vm.run(&expr)), "cell index out of range");
    let mut vm = Interpreter::new(DefaultHandler);
    let expr = Expr::Block {
        exprs: vec![Expr::ShiftRight { num: usize::MAX }, Expr::ShiftRight { num: 1 }],
    };
    assert_eq!(message(vm.run(&expr)), "cell index out of range");
    let mut vm = Interpreter::new(DefaultHandler);
    assert_eq!(
        message(vm.run(&Expr::Assign { index: usize::MAX, value: 1 })),
        "cell index out of range"
    );
}

#[test]
fn a_loop_without_fuel_is_an_error() {
    let mut vm = Interpreter::with_fuel(DefaultHandler, 3);
    assert_eq!(message(vm.run(&parsed("+[]"))), "out of fuel");
    let mut vm = Interpreter::with_fuel(DefaultHandler, 3);
    assert!(vm.run(&parsed("+++[-]")).is_ok());
    let mut vm = Interpreter::with_fuel(DefaultHandler, 3);
    assert_eq!(message(vm.run(&parsed("++++[-]"))), "out of fuel");
    assert_eq!(vm.cells(), &[1]);
}

#[test]
fn the_handler_hears_of_each_look_at_a_cell() {
    let vm = run(&parsed("++[>.<-]"), b"");
    assert_eq!(vm.handler.probes, vec![0, 1, 0, 1, 0]);
    let vm = run(&parsed("+>+"), b"");
    assert!(vm.handler.probes.is_empty());
}

#[test]
fn optimizing_keeps_output_and_reads() {
    let sources = [
        "+++.,+.",
        ",[-]+.",
        "++>+++[<+>-]<.,.,.",
        "+.,[.,]",
        "",
        "+++",
        ",",
        "+++[>++<-]>.<,[-]++.>.",
        "-.--.",
    ];
    let inputs: [&[u8]; 4] = [b"", b"a", b"abc", b"\x00\xffz"];
    for source in sources {
        let before = parsed(source);
        let after = optimized(source);
        for input in inputs {
            let a = run(&before, input);
            let b = run(&after, input);
            assert_eq!(a.handler.out, b.handler.out, "output of {:?} on {:?}", source, input);
            assert_eq!(a.handler.taken, b.handler.taken, "reads of {:?} on {:?}", source, input);
        }
    }
}
