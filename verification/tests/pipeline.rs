use bf::{
    Expr, Handler, Interpreter, Lexer, Optimizer, Parser, PythonCodeGen, SpecExecOptimizer,
    ZeroLoopOptimizer,
};

const AIDS: &str = "><++++++++[>+++++++++<-]>.<++++++[>++++++<-]>+++.++++++++.<+++++++[>------------<-]>---.<++++++++[>++++++++<-]>+.<++++[>++++<-]>+.<+++[>----<-]>-.<++++++[>-----------<-]>---.<++++++++[>+++++++++++<-]>+.----------.++++++.<++++++[>---------<-]>.>,[-]><++++++++[>+++++++++<-]>+.<+++++[>--------<-]>-.<+++++++[>++++++++++<-]>.<+++[>+++++<-]>.<+++[>------<-]>.++++++++.------.-.<++++++[>-----------<-]>--.<++++++++[>++++++++<-]>+.<++++++++[>--------<-]>-.<++++++[>+++++++++++<-]>+.+++++.---..<++[>+++++++<-]>.<++[>-------<-]>.<++++++[>-----------<-]>---.<++++++[>+++++++++++<-]>.<+++[>++++++<-]>+.---.-----------.--.<+++[>++++<-]>+.";

struct TestHandler {
    out: String,
}

impl TestHandler {
    fn new() -> Self {
        Self { out: String::new() }
    }
}

impl Handler for TestHandler {
    fn read_char(&mut self) -> u8 {
        0
    }

    fn write_char(&mut self, c: u8) {
        self.out.push(char::from(c));
    }

    fn mem_read(&mut self, _index: usize) {}
}

fn optimized(data: &str) -> Expr {
    let mut l = Lexer::new(data);
    l.lex().unwrap();

    let mut p = Parser::new(l.tokens);
    let exprs = p.parse().unwrap();

    let mut o = Optimizer::new(exprs);
    o.add_pass(ZeroLoopOptimizer);
    o.add_pass(SpecExecOptimizer);
    o.optimize();

    o.expr
}

fn test_output_optimized_py(data: &str, expected: &str) {
    let exprs = optimized(data);

    let mut codegen = PythonCodeGen::new();
    codegen.gen(&exprs);

    let mut vm = Interpreter::new(TestHandler::new());
    vm.run(&exprs).unwrap();

    assert_eq!(vm.handler.out.as_str(), expected);
}

#[test]
fn aids_optimized_py() {
    test_output_optimized_py(AIDS, "How are you?I fucked a cheese burger");
}

fn test_output_optimized(data: &str, expected: &str) {
    let exprs = optimized(data);

    let mut vm = Interpreter::new(TestHandler::new());
    vm.run(&exprs).unwrap();

    assert_eq!(vm.handler.out.as_str(), expected);
}

#[test]
fn aids_optimized() {
    test_output_optimized(AIDS, "How are you?I fucked a cheese burger");
}
