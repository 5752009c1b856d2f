use bf::v1::{Action, Instruction, Interpreter};

// The squares of 0 to 100, by Daniel B Cristofani (brainfuck.org).
const SQUARES: &str = "++++[>+++++<-]>[<+++++>-]+<+[\n    >[>+>+<<-]++>>[<<+>>-]>>>[-]++>[-]+\n    >>>+[[-]++++++>>>]<<<[[<++++++++<++>>-]+<.<[>----<-]<]\n    <<[>>>>>[>>>[-]+++++++++<[>-<-]+++++++++>[-[<->-]+[<<<]]<[>+<-]>]<<-]<<-\n]";

const HELLO_WORLD1: &str = "++++++++++[>+++++++>++++++++++>+++>+<<<<-]>++.>+.+++++++..+++.>++.<<+++++++++++++++.>.+++.------.--------.>+.>.";

const HELLO_WORLD2: &str = "say it twice ><++++++++[>+++++++++<-]>.<++++[>+++++++<-]>+.+++++++..+++.<++++++[>-------------<-]>-.<+++++[>+++++++++++<-]>.<++++[>++++++<-]>.+++.------.--------.<++++++[>-----------<-]>-.<+++[>-------<-]>--.";

const HELLO_WORLD3: &str = "><++++++++[>+++++++++<-]>.<++++[>+++++++<-]>+.+++++++..+++.<++++++[>-----------<-]>-.<+++[>----<-]>.<+++++++[>++++++++++++<-]>+++.--------.+++.------.--------.<++++++[>-----------<-]>-.<+++[>-------<-]>--.";

const FACTORIAL: &str = "><++++++[>++++++++<-]>.<+++[>-----<-]>.-.<++++[>+++++++<-]>+.<++++[>-------<-]>-.<++++[>++++<-]>+.<++++++[>------<-]>---.<++++++[>++++++<-]>+++.<++++[>----<-]>.-.<++++[>+++++++<-]>+.<++++[>-------<-]>-.<++++[>++++<-]>+.<++++++[>------<-]>---.<+++++[>++++++++<-]>.<++++[>----<-]>-.-.<++++[>+++++++<-]>+.<++++[>-------<-]>-.<+++[>++++++<-]>.<+++++[>--------<-]>.<+++++[>++++++++<-]>+.<+++[>------<-]>.-.<++++[>+++++++<-]>+.<++++[>-------<-]>-.<+++[>+++++++<-]>+.<++++[>-----------<-]>.<++++++[>+++++++<-]>.<+++[>------<-]>-.-.<++++[>+++++++<-]>+.<++++[>-------<-]>-.<+++[>++++++<-]>.++.<++++++[>-------<-]>.<++++++[>+++++++<-]>+.<++++[>-----<-]>.-.<++++[>+++++++<-]>+.<++++[>-------<-]>-.<++++[>++++<-]>+.+.--.<++++++[>------<-]>--.<++++[>+++++++++++<-]>.<+++[>-------<-]>.-.<++++[>+++++++<-]>+.<++++[>-------<-]>-.<+++[>++++++<-]>.++++++.<+++++[>---------<-]>-.";

const COUNT_DOWN: &str = "++++++++[>+++++++>++++<<-]>+>[-]++++++++[<<++++>>-]<<[-]>>>++++++++[<++++>-]<<<++++++++++[>.>.<-<-]";

const AIDS: &str = "><++++++++[>+++++++++<-]>.<++++++[>++++++<-]>+++.++++++++.<+++++++[>------------<-]>---.<++++++++[>++++++++<-]>+.<++++[>++++<-]>+.<+++[>----<-]>-.<++++++[>-----------<-]>---.<++++++++[>+++++++++++<-]>+.----------.++++++.<++++++[>---------<-]>.>,[-]><++++++++[>+++++++++<-]>+.<+++++[>--------<-]>-.<+++++++[>++++++++++<-]>.<+++[>+++++<-]>.<+++[>------<-]>.++++++++.------.-.<++++++[>-----------<-]>--.<++++++++[>++++++++<-]>+.<++++++++[>--------<-]>-.<++++++[>+++++++++++<-]>+.+++++.---..<++[>+++++++<-]>.<++[>-------<-]>.<++++++[>-----------<-]>---.<++++++[>+++++++++++<-]>.<+++[>++++++<-]>+.---.-----------.--.<+++[>++++<-]>+.";

fn instructions(data: &str) -> Vec<Instruction> {
    data.chars().filter_map(Instruction::from_char).collect::<Vec<_>>()
}

fn run(data: &str, input: &[u8]) -> (Interpreter, Vec<u8>, Action) {
    let data = instructions(data);
    let mut out = Vec::new();
    let mut taken = 0;
    let mut vm = Interpreter::new();
    loop {
        match vm.step(&data) {
            Action::Continue => {}
            Action::Print(c) => out.push(c),
            Action::Read => {
                vm.store(if taken < input.len() { input[taken] } else { 0 });
                taken += 1;
            }
            Action::Stop => return (vm, out, Action::Stop),
            Action::Fault => return (vm, out, Action::Fault),
        }
    }
}

fn test_output(data: &str, expected: &str) {
    let (_, out, end) = run(data, b"");
    assert_eq!(end, Action::Stop);
    let mut s = String::new();
    for c in out {
        s.push(char::from(c));
    }
    assert_eq!(s.as_str(), expected);
}

#[test]
fn v1_factorial() {
    test_output(
        FACTORIAL,
        "0! = 1\n1! = 1\n2! = 2\n3! = 6\n4! = 24\n5! = 120\n6! = 28\n",
    );
}

#[test]
fn v1_squares() {
    test_output(SQUARES, "0\n1\n4\n9\n16\n25\n36\n49\n64\n81\n100\n121\n144\n169\n196\n225\n256\n289\n324\n361\n400\n441\n484\n529\n576\n625\n676\n729\n784\n841\n900\n961\n1024\n1089\n1156\n1225\n1296\n1369\n1444\n1521\n1600\n1681\n1764\n1849\n1936\n2025\n2116\n2209\n2304\n2401\n2500\n2601\n2704\n2809\n2916\n3025\n3136\n3249\n3364\n3481\n3600\n3721\n3844\n3969\n4096\n4225\n4356\n4489\n4624\n4761\n4900\n5041\n5184\n5329\n5476\n5625\n5776\n5929\n6084\n6241\n6400\n6561\n6724\n6889\n7056\n7225\n7396\n7569\n7744\n7921\n8100\n8281\n8464\n8649\n8836\n9025\n9216\n9409\n9604\n9801\n10000\n");
}

#[test]
fn v1_hello_world3() {
    test_output(HELLO_WORLD3, "Hello, world!\n");
}

#[test]
fn v1_hello_world2() {
    test_output(HELLO_WORLD2, "Hello World!\n");
}

#[test]
fn v1_hello_world1() {
    test_output(HELLO_WORLD1, "Hello World!\n");
}

#[test]
fn v1_count_down() {
    test_output(COUNT_DOWN, "9 8 7 6 5 4 3 2 1 0 ");
}

#[test]
fn v1_aids() {
    test_output(AIDS, "How are you?I fucked a cheese burger");
}

#[test]
fn characters_become_instructions() {
    let names: Vec<String> =
        instructions("><+-[],.x ").iter().map(|i| format!("{:?}", i)).collect();
    assert_eq!(
        names,
        vec![
            "ShiftRight",
            "ShiftLeft",
            "Increment",
            "Decrement",
            "StartLoop",
            "EndLoop",
            "Read",
            "Print"
        ]
    );
    assert!(Instruction::from_char('a').is_none());
    assert!(Instruction::from_char('[').unwrap().is_start_loop());
    assert!(!Instruction::from_char('[').unwrap().is_end_loop());
    assert!(Instruction::from_char(']').unwrap().is_end_loop());
    assert!(!Instruction::from_char(']').unwrap().is_start_loop());
    assert!(!Instruction::from_char('+').unwrap().is_start_loop());
}

#[test]
fn one_step_at_a_time() {
    let prog = instructions("+>.");
    let mut vm = Interpreter::default();
    assert_eq!(vm.step(&prog), Action::Continue);
    assert_eq!((vm.mem.clone(), vm.ptr, vm.pc), (vec![1], 0, 1));
    assert_eq!(vm.step(&prog), Action::Continue);
    assert_eq!((vm.ptr, vm.pc), (1, 2));
    assert_eq!(vm.step(&prog), Action::Print(0));
    assert_eq!((vm.mem.clone(), vm.pc), (vec![1, 0], 3));
    assert_eq!(vm.step(&prog), Action::Stop);
    assert_eq!(vm.step(&prog), Action::Stop);
}

#[test]
fn cells_wrap_both_ways() {
    let (vm, _, _) = run("-", b"");
    assert_eq!(vm.mem, vec![255]);
    let (vm, _, _) = run("-+", b"");
    assert_eq!(vm.mem, vec![0]);
}

#[test]
fn a_loop_is_skipped_on_zero_and_repeated_otherwise() {
    let (vm, out, end) = run("[[+].]+++[>++<-]>.", b"");
    assert_eq!(end, Action::Stop);
    assert_eq!(out, vec![6]);
    assert_eq!(vm.mem, vec![0, 6]);
    assert!(vm.loop_stack.is_empty());
}

#[test]
fn input_is_stored_under_the_pointer() {
    let (vm, out, _) = run(">,.,.", b"Q");
    assert_eq!(out, vec![b'Q', 0]);
    assert_eq!(vm.mem, vec![0, 0]);
}

#[test]
fn what_cannot_go_on_is_a_fault() {
    assert_eq!(run("<", b"").2, Action::Fault);
    assert_eq!(run("[", b"").2, Action::Fault);
    assert_eq!(run("[[]", b"").2, Action::Fault);
    assert_eq!(run("]", b"").2, Action::Fault);
    assert_eq!(run("+]", b"").2, Action::Fault);
    let (vm, _, end) = run("+[", b"");
    assert_eq!(end, Action::Stop);
    assert_eq!(vm.loop_stack, vec![1]);
}
