use bf::lexer::LexerError;
use bf::{Expr, Lexer, Parser, Token, TokenData};

fn kinds(source: &str) -> Vec<String> {
    let mut l = Lexer::new(source);
    let res: Result<(), LexerError> = l.lex();
    assert!(res.is_ok());
    l.tokens.iter().map(|t| format!("{:?}", t.data)).collect()
}

fn parsed(source: &str) -> Expr {
    let mut l = Lexer::new(source);
    l.lex().unwrap();
    let mut p = Parser::new(l.tokens);
    p.parse().unwrap()
}

fn spelled(tokens: &[Token]) -> String {
    let mut s = String::new();
    for t in tokens {
        match &t.data {
            TokenData::ShiftLeft(n) => s.push_str(&"<".repeat(*n)),
            TokenData::ShiftRight(n) => s.push_str(&">".repeat(*n)),
            TokenData::Increment(n) => s.push_str(&"+".repeat(*n)),
            TokenData::Decrement(n) => s.push_str(&"-".repeat(*n)),
            TokenData::StartLoop => s.push('['),
            TokenData::EndLoop => s.push(']'),
            TokenData::Read => s.push(','),
            TokenData::Print => s.push('.'),
            TokenData::Other(o) => s.push_str(o),
        }
    }
    s
}

fn flat(expr: &Expr, out: &mut String) {
    match expr {
        Expr::Block { exprs } => {
            for e in exprs {
                flat(e, out);
            }
        }
        Expr::Increment { num } => out.push_str(&"+".repeat(*num)),
        Expr::Decrement { num } => out.push_str(&"-".repeat(*num)),
        Expr::ShiftLeft { num } => out.push_str(&"<".repeat(*num)),
        Expr::ShiftRight { num } => out.push_str(&">".repeat(*num)),
        Expr::PrintChar => out.push('.'),
        Expr::ReadChar => out.push(','),
        Expr::Loop { expr } => {
            out.push('[');
            flat(expr, out);
            out.push(']');
        }
        _ => panic!("the parser gives no such instruction"),
    }
}

#[test]
fn runs_become_one_token() {
    assert_eq!(
        kinds("+++--<<<<>."),
        vec!["Increment(3)", "Decrement(2)", "ShiftLeft(4)", "ShiftRight(1)", "Print"]
    );
    assert_eq!(kinds("[[]],,"), vec!["StartLoop", "StartLoop", "EndLoop", "EndLoop", "Read", "Read"]);
    assert_eq!(kinds("+ +"), vec!["Increment(1)", "Other(\" \")", "Increment(1)"]);
    assert!(kinds("").is_empty());
}

#[test]
fn other_characters_are_kept_whole() {
    assert_eq!(kinds("abc"), vec!["Other(\"abc\")"]);
    assert_eq!(kinds("a"), vec!["Other(\"a\")"]);
    assert_eq!(kinds("+x"), vec!["Increment(1)", "Other(\"x\")"]);
    assert_eq!(kinds("hi there+"), vec!["Other(\"hi there\")", "Increment(1)"]);
    assert_eq!(kinds("é→+ü"), vec!["Other(\"é→\")", "Increment(1)", "Other(\"ü\")"]);
}

#[test]
fn tokens_spell_the_source() {
    for source in ["", "+", "++[>,.<-]  done", "x+y-z", "]]][[[", "add 2: ++\nprint: .\n"] {
        let mut l = Lexer::new(source);
        l.lex().unwrap();
        assert_eq!(spelled(&l.tokens), source);
    }
}

#[test]
fn lexing_twice_adds_nothing() {
    let mut l = Lexer::new("+-");
    l.lex().unwrap();
    l.lex().unwrap();
    assert_eq!(l.tokens.len(), 2);
}

#[test]
fn parsing_keeps_the_counts() {
    assert_eq!(
        parsed("+++>>-<."),
        Expr::Block {
            exprs: vec![
                Expr::Increment { num: 3 },
                Expr::ShiftRight { num: 2 },
                Expr::Decrement { num: 1 },
                Expr::ShiftLeft { num: 1 },
                Expr::PrintChar,
            ],
        }
    );
}

#[test]
fn loops_nest() {
    assert_eq!(
        parsed("+[>[-],]."),
        Expr::Block {
            exprs: vec![
                Expr::Increment { num: 1 },
                Expr::Loop {
                    expr: Box::new(Expr::Block {
                        exprs: vec![
                            Expr::ShiftRight { num: 1 },
                            Expr::Loop {
                                expr: Box::new(Expr::Block {
                                    exprs: vec![Expr::Decrement { num: 1 }],
                                }),
                            },
                            Expr::ReadChar,
                        ],
                    }),
                },
                Expr::PrintChar,
            ],
        }
    );
}

#[test]
fn a_stray_closing_bracket_is_skipped() {
    assert_eq!(
        parsed("+]-]"),
        Expr::Block { exprs: vec![Expr::Increment { num: 1 }, Expr::Decrement { num: 1 }] }
    );
    assert_eq!(parsed("]"), Expr::Block { exprs: vec![] });
}

#[test]
fn an_open_loop_takes_the_rest() {
    assert_eq!(
        parsed("+[-."),
        Expr::Block {
            exprs: vec![
                Expr::Increment { num: 1 },
                Expr::Loop {
                    expr: Box::new(Expr::Block {
                        exprs: vec![Expr::Decrement { num: 1 }, Expr::PrintChar],
                    }),
                },
            ],
        }
    );
    assert_eq!(
        parsed("["),
        Expr::Block { exprs: vec![Expr::Loop { expr: Box::new(Expr::Block { exprs: vec![] }) }] }
    );
}

#[test]
fn other_tokens_are_dropped() {
    assert_eq!(parsed("a+b"), Expr::Block { exprs: vec![Expr::Increment { num: 1 }] });
    assert_eq!(parsed("no commands here"), Expr::Block { exprs: vec![] });
}

#[test]
fn parsing_and_flattening_gives_the_commands_back() {
    for source in ["", "+", "++[>,.<-]", "[[[]]]", "+[-[+]>>]<<..,,", "a+b[c-d]e"] {
        let mut out = String::new();
        flat(&parsed(source), &mut out);
        let commands: String = source.chars().filter(|c| "+-<>.,[]".contains(*c)).collect();
        assert_eq!(out, commands);
    }
}

#[test]
fn a_parser_at_the_end_gives_an_empty_block() {
    let mut l = Lexer::new("+");
    l.lex().unwrap();
    let mut p = Parser::new(l.tokens);
    p.parse().unwrap();
    assert_eq!(p.parse().unwrap(), Expr::Block { exprs: vec![] });
}

#[test]
fn predicates_of_the_tree() {
    let read = Expr::ReadChar;
    assert!(read.is_read() && read.contains_read() && read.uses_memory());
    assert!(!Expr::ReadCharForget.is_read());
    assert!(Expr::ReadCharForget.contains_read());
    assert!(!Expr::ReadCharForget.uses_memory());
    assert!(!Expr::PrintString { value: vec![1] }.uses_memory());
    assert!(!Expr::PrintString { value: vec![1] }.contains_read());
    let block = parsed("+[>,]");
    assert!(block.is_block() && !block.is_loop());
    assert!(block.contains_read() && block.uses_memory());
    assert!(!parsed("+[>.]").contains_read());
    let pure = Expr::Block {
        exprs: vec![Expr::PrintString { value: vec![] }, Expr::ReadCharForget],
    };
    assert!(!pure.uses_memory() && pure.contains_read());
    let l = Expr::Loop { expr: Box::new(Expr::Block { exprs: vec![] }) };
    assert!(l.is_loop() && !l.is_block() && !l.uses_memory() && !l.contains_read());
    assert!(Expr::Assign { index: 0, value: 0 }.uses_memory());
    assert!(Expr::SetCellPointer { value: 0 }.uses_memory());
}

#[test]
fn trees_compare_by_structure() {
    let a = parsed("+[>,]");
    let b = a.clone();
    assert_eq!(a, b);
    assert_ne!(a, parsed("+[>.]"));
    assert_ne!(a, parsed("++[>,]"));
    assert_ne!(
        Expr::PrintString { value: vec![1, 2] },
        Expr::PrintString { value: vec![1, 3] }
    );
    assert_ne!(Expr::PrintString { value: vec![1] }, Expr::PrintString { value: vec![1, 1] });
    assert_eq!(Expr::Assign { index: 1, value: 2 }, Expr::Assign { index: 1, value: 2 });
    assert_ne!(Expr::Assign { index: 1, value: 2 }, Expr::Assign { index: 2, value: 2 });
    assert_ne!(Expr::ReadChar, Expr::ReadCharForget);
}
