use staq_lang::integer::Integer;
use staq_lang::interpreter::{run_from_string, Halt, Run, RunError, RuntimeError, Stack};
use staq_lang::optimize::optimize;
use staq_lang::token::TokenType;
use staq_lang::parser::{parse, tokenize, unknown_commands, ParseError};
use staq_lang::vfs::{FileSystem, IoError, VirtualFileSystem};

fn run_with_input(program: &str, input: &[u8]) -> Run {
    let mut fs = VirtualFileSystem::new();
    match run_from_string(program.to_string(), &mut fs, &input.to_vec(), 10_000) {
        Ok(run) => run,
        Err(_) => panic!("the program did not start"),
    }
}

fn run(program: &str) -> Run {
    run_with_input(program, &[])
}

fn text(run: &Run) -> String {
    run.output.iter().collect()
}

#[test]
fn push_then_printnum_prints_the_value() {
    assert_eq!(text(&run("push:42 printnum")), "42");
    assert_eq!(text(&run("push:0 printnum")), "0");
    assert_eq!(text(&run("push:-7 printnum")), "-7");
    let big = "-123456789012345678901234567890";
    assert_eq!(text(&run(&format!("push:{} printnum", big))), big);
}

#[test]
fn printnum_prints_in_pop_order() {
    assert_eq!(text(&run("push:1 push:2 push:3 printnum")), "321");
}

#[test]
fn popping_empty_stacks_gives_zero() {
    let r = run("pop:A pop:B pop:C pop:A pop:A push:5 printnum");
    assert_eq!(text(&r), "5");
    assert_eq!(r.halt, Some(Halt::End));
    // an empty A and B give 0 - 0
    assert_eq!(text(&run("- printnum")), "0");
    let mut s = Stack::new();
    let z = s.pop();
    assert_eq!(z.to_decimal().iter().collect::<String>(), "0");
    assert_eq!(s.len(), 0);
    let z = s.pop();
    assert_eq!(z.to_decimal().iter().collect::<String>(), "0");
}

#[test]
fn subtraction_takes_a_minus_b() {
    let r = run("push:10 move:C:A push:3 move:C:B - printnum");
    assert_eq!(text(&r), "7");
}

#[test]
fn arithmetic_instructions() {
    assert_eq!(text(&run("push:6 move:C:A push:7 move:C:B * printnum")), "42");
    assert_eq!(text(&run("push:6 move:C:A push:7 move:C:B + printnum")), "13");
    assert_eq!(text(&run("push:-7 move:C:A push:2 move:C:B / printnum")), "-3");
    assert_eq!(text(&run("push:-7 move:C:A push:2 move:C:B % printnum")), "-1");
    assert_eq!(text(&run("push:7 move:C:A push:-2 move:C:B % printnum")), "1");
}

#[test]
fn comparison_instructions() {
    let cmp = |a: i64, b: i64, op: &str| text(&run(&format!("push:{} move:C:A push:{} move:C:B {} printnum", a, b, op)));
    assert_eq!(cmp(3, 2, ">"), "1");
    assert_eq!(cmp(2, 3, ">"), "0");
    assert_eq!(cmp(3, 3, ">="), "1");
    assert_eq!(cmp(2, 3, "<"), "1");
    assert_eq!(cmp(3, 3, "<="), "1");
    assert_eq!(cmp(4, 3, "<="), "0");
    assert_eq!(cmp(3, 3, "=="), "1");
    assert_eq!(cmp(3, 4, "=="), "0");
}

#[test]
fn bitwise_instructions() {
    let op = |a: i64, b: i64, op: &str| text(&run(&format!("push:{} move:C:A push:{} move:C:B {} printnum", a, b, op)));
    assert_eq!(op(12, 10, "&"), "8");
    assert_eq!(op(12, 10, "|"), "14");
    assert_eq!(op(12, 10, "^"), "6");
    assert_eq!(op(-1, 255, "&"), "255");
    assert_eq!(op(1, 10, "<<"), "1024");
    assert_eq!(op(1024, 3, ">>"), "128");
    assert_eq!(op(-5, 1, ">>"), "-3");
}

#[test]
fn bad_shift_amounts_are_fatal() {
    let r = run("push:1 move:C:A push:-1 move:C:B >>");
    assert_eq!(r.halt, Some(Halt::Fatal { index: 4, error: RuntimeError::ShiftOutOfRange }));
    let r = run("push:1 move:C:A push:170141183460469231731687303715884105728 move:C:B <<");
    assert_eq!(r.halt, Some(Halt::Fatal { index: 4, error: RuntimeError::ShiftOutOfRange }));
}

#[test]
fn division_by_zero_is_fatal() {
    let r = run("push:1 move:C:A /");
    assert_eq!(r.halt, Some(Halt::Fatal { index: 2, error: RuntimeError::DivisionByZero }));
    let r = run("push:1 move:C:A %");
    assert_eq!(r.halt, Some(Halt::Fatal { index: 2, error: RuntimeError::DivisionByZero }));
}

#[test]
fn invalid_stack_is_fatal_when_used() {
    let r = run("push:1 printnum pop:D");
    assert_eq!(text(&r), "1");
    assert_eq!(r.halt, Some(Halt::Fatal { index: 2, error: RuntimeError::InvalidStack }));
    let r = run("move:A:Q");
    assert_eq!(r.halt, Some(Halt::Fatal { index: 0, error: RuntimeError::InvalidStack }));
}

#[test]
fn move_and_copy() {
    assert_eq!(text(&run("push:9 copy:C:A printnum move:A:C printnum")), "99");
    assert_eq!(text(&run("push:9 move:C:B move:B:C printnum")), "9");
    // copying from an empty stack leaves a zero on it
    assert_eq!(text(&run("copy:A:B move:A:C move:B:C printnum")), "00");
}

#[test]
fn print_pops_bytes_as_characters() {
    assert_eq!(text(&run("push:105 push:104 print")), "hi");
    let r = run("push:300 print");
    assert_eq!(r.halt, Some(Halt::Fatal { index: 1, error: RuntimeError::ByteOutOfRange }));
    let r = run("push:-1 print");
    assert_eq!(r.halt, Some(Halt::Fatal { index: 1, error: RuntimeError::ByteOutOfRange }));
}

#[test]
fn exit_stops_the_program() {
    let r = run("push:1 printnum exit push:2 printnum");
    assert_eq!(text(&r), "1");
    assert_eq!(r.halt, Some(Halt::Exit { index: 2 }));
}

#[test]
fn each_line_ends_with_a_clear() {
    assert_eq!(text(&run("push:1\nprintnum")), "");
    assert_eq!(text(&run("push:1 printnum\npush:2 printnum\n")), "12");
}

#[test]
fn comments_end_the_line() {
    assert_eq!(text(&run("push:1 //printnum\nprintnum")), "");
    assert_eq!(text(&run("push:1 printnum // push:2 printnum")), "1");
}

#[test]
fn unknown_and_empty_commands_are_skipped() {
    assert_eq!(text(&run("frobnicate  push:1   printnum")), "1");
}

#[test]
fn getnextin_reads_input_bytes() {
    assert_eq!(text(&run_with_input("getnextin getnextin printnum", b"AB")), "6665");
    assert_eq!(text(&run_with_input("getnextin printnum", b"")), "");
}

#[test]
fn loop_runs_counter_times() {
    let program = "push:3 move:C:A\nlabel:loop\npush:120 print\npush:1 move:C:B - move:C:A copy:A:C jump:loop\npush:100 print\n";
    let r = run(program);
    assert_eq!(text(&r), "xxxd");
    assert_eq!(r.halt, Some(Halt::End));
}

#[test]
fn jump_to_missing_label_ends_the_program() {
    let r = run("push:1 jump:nowhere push:2 printnum");
    assert_eq!(text(&r), "");
    assert_eq!(r.halt, Some(Halt::End));
}

#[test]
fn jump_needs_a_positive_value() {
    assert_eq!(text(&run("push:0 jump:end push:7 printnum label:end")), "7");
    assert_eq!(text(&run("push:-3 jump:end push:7 printnum label:end")), "7");
    assert_eq!(text(&run("push:2 jump:end push:7 printnum label:end push:8 printnum")), "8");
}

#[test]
fn duplicate_labels_resolve_to_the_first() {
    let program = "push:1 jump:x\nlabel:x push:1 printnum exit\nlabel:x push:2 printnum";
    assert_eq!(text(&run(program)), "1");
}

#[test]
fn step_budget_stops_an_endless_loop() {
    let r = run("label:a push:1 jump:a");
    assert_eq!(r.halt, None);
}

#[test]
fn file_round_trip() {
    let program = "createfilestream:f pop:C push:105 push:104 writefilestream pop:C openfilestream:f pop:C readfilestream readfilestream readfilestream printnum";
    assert_eq!(text(&run(program)), "-111051104");
}

#[test]
fn file_paths_can_come_from_stack_c() {
    // "f" popped from stack C names the file; the flag is then printed
    assert_eq!(text(&run("push:102 createfile printnum")), "1");
    assert_eq!(text(&run("push:102 openfilestream printnum")), "-1");
    assert_eq!(text(&run("createfile:d/e printnum openfilestream:d printnum")), "1-1");
    let r = run("push:1000 createfile");
    assert_eq!(r.halt, Some(Halt::Fatal { index: 1, error: RuntimeError::ByteOutOfRange }));
}

#[test]
fn reading_the_scratch_stream_at_the_start_gives_end_of_file() {
    assert_eq!(text(&run("readfilestream printnum")), "-1");
}

#[test]
fn writing_from_a_failed_open_keeps_the_old_stream() {
    let program = "createfilestream:g pop:C createfilestream:g/x pop:C push:65 writefilestream pop:C openfilestream:g pop:C readfilestream printnum";
    assert_eq!(text(&run(program)), "165");
}

#[test]
fn backends_in_the_same_state_give_the_same_run() {
    let program = "createfilestream:f pop:C push:104 writefilestream openfilestream:f readfilestream readfilestream printnum";
    let mut fs1 = VirtualFileSystem::new();
    let mut fs2 = VirtualFileSystem::new();
    let r1 = run_from_string(program.to_string(), &mut fs1, &vec![], 1000).ok().unwrap();
    let r2 = run_from_string(program.to_string(), &mut fs2, &vec![], 1000).ok().unwrap();
    assert_eq!(text(&r1), text(&r2));
    assert_eq!(text(&r1), "-1110411");
    assert_eq!(r1.halt, r2.halt);
}

#[test]
fn blank_lines_collapse() {
    let one = "push:2 move:C:A\nlabel:top\n\npush:1 move:C:B - move:C:A copy:A:C printnum copy:A:C jump:top";
    let many = "push:2 move:C:A\nlabel:top\n\n\n\n\npush:1 move:C:B - move:C:A copy:A:C printnum copy:A:C jump:top";
    assert_eq!(text(&run(one)), "10");
    assert_eq!(text(&run(many)), text(&run(one)));
    let mut a = tokenize(one).ok().unwrap();
    let mut b = tokenize(many).ok().unwrap();
    assert_eq!(b.len(), a.len() + 3);
    optimize(&mut a);
    optimize(&mut b);
    assert_eq!(a.len(), b.len());
    assert_eq!(parse(one).ok().unwrap().len(), parse(many).ok().unwrap().len());
}

#[test]
fn parse_errors() {
    let mut fs = VirtualFileSystem::new();
    match run_from_string("push:12x".to_string(), &mut fs, &vec![], 10) {
        Err(RunError::Parse(ParseError::InvalidInteger { command })) => assert_eq!(command, "push:12x"),
        _ => panic!("expected an invalid integer"),
    }
    match parse("printnum\npop") {
        Err(ParseError::MissingArgument { command }) => assert_eq!(command, "pop"),
        _ => panic!("expected a missing argument"),
    }
    assert!(matches!(parse("push"), Err(ParseError::MissingArgument { .. })));
    assert!(matches!(parse("move:A"), Err(ParseError::MissingArgument { .. })));
    assert!(matches!(parse("jump"), Err(ParseError::MissingArgument { .. })));
    // an error after a comment marker is never seen
    assert!(parse("//push:x").is_ok());
}

#[test]
fn parse_counts_instructions() {
    let t = tokenize("push:1 push:2\n\nprintnum").ok().unwrap();
    assert_eq!(t.len(), 6);
    let t = parse("push:1 push:2\n\nprintnum").ok().unwrap();
    assert_eq!(t.len(), 5);
    let t = parse("").ok().unwrap();
    assert_eq!(t.len(), 0);
    let t = tokenize("a\r\nb\r\n").ok().unwrap();
    assert_eq!(t.len(), 2);
}

#[test]
fn integer_literals() {
    let dec = |s: &str| Integer::parse_decimal(s).map(|v| v.to_decimal().iter().collect::<String>());
    assert_eq!(dec("1_000"), Some("1000".to_string()));
    assert_eq!(dec("+5"), Some("5".to_string()));
    assert_eq!(dec("-0"), Some("0".to_string()));
    assert_eq!(dec("007"), Some("7".to_string()));
    assert_eq!(dec("-+5"), None);
    assert_eq!(dec("_1"), None);
    assert_eq!(dec(""), None);
    assert_eq!(dec("-"), None);
    assert_eq!(dec("1e3"), None);
}

#[test]
fn integer_operations() {
    let v = |s: &str| Integer::parse_decimal(s).unwrap();
    let d = |i: Integer| i.to_decimal().iter().collect::<String>();
    assert_eq!(d(v("4294967296").add(&v("-1"))), "4294967295");
    assert_eq!(d(v("18446744073709551616").mul(&v("18446744073709551616"))), "340282366920938463463374607431768211456");
    assert_eq!(d(v("-9").sub(&v("1"))), "-10");
    assert_eq!(d(Integer::from_u8(200)), "200");
    assert_eq!(d(Integer::from_i8(-128)), "-128");
    assert_eq!(v("300").to_u8(), None);
    assert_eq!(v("255").to_u8(), Some(255));
    assert_eq!(v("-170141183460469231731687303715884105728").to_i128(), Some(i128::MIN));
    assert_eq!(v("170141183460469231731687303715884105728").to_i128(), None);
    assert_eq!(d(v("-1").shift_left(40)), "-1099511627776");
    assert_eq!(d(v("-1").shift_right(40)), "-1");
    assert_eq!(d(v("6").bit_xor(&v("3"))), "5");
}

#[test]
fn a_blocked_scratch_file_stops_the_start() {
    let mut fs = VirtualFileSystem::new();
    assert!(fs.create_file_stream("staqdump/x").is_ok());
    match run_from_string("push:1 printnum".to_string(), &mut fs, &vec![], 10) {
        Err(RunError::Start(e)) => assert_eq!(e, IoError::InvalidInput),
        _ => panic!("expected a start failure"),
    }
}

#[test]
fn the_scratch_file_is_removed_afterwards() {
    let mut fs = VirtualFileSystem::new();
    let r = run_from_string("createfile:kept push:1 move:C:A /".to_string(), &mut fs, &vec![], 10).ok().unwrap();
    assert_eq!(r.halt, Some(Halt::Fatal { index: 3, error: RuntimeError::DivisionByZero }));
    assert_eq!(fs.ls(""), Ok(vec!["kept".to_string()]));
}

#[test]
fn unknown_commands_are_listed() {
    let found = unknown_commands("push:1 frob printnum\nbar:1 // baz\n\nexit qux");
    assert_eq!(found, vec!["frob".to_string(), "bar:1".to_string(), "qux".to_string()]);
    assert_eq!(unknown_commands("push:1 printnum"), Vec::<String>::new());
}

#[test]
fn parse_resolves_jumps() {
    let t = parse("label:a\npush:1 jump:a").ok().unwrap();
    assert_eq!(t.len(), 5);
    assert!(matches!(t[3], TokenType::Jump { arg: 0 }));
    let t = parse("jump:a").ok().unwrap();
    assert_eq!(t.len(), 2);
    assert!(matches!(t[0], TokenType::Jump { arg: usize::MAX }));
    let t = tokenize("jump:a").ok().unwrap();
    assert!(matches!(t[0], TokenType::PreComputeJump { .. }));
}

#[test]
fn zero_shifts_left_by_any_amount() {
    assert_eq!(text(&run("push:0 move:C:A push:100000000000 move:C:B << printnum")), "0");
    let r = run("push:1 move:C:A push:100000000000 move:C:B <<");
    assert_eq!(r.halt, Some(Halt::Fatal { index: 4, error: RuntimeError::ShiftOutOfRange }));
}

#[test]
fn many_pops_of_empty_stacks_then_print() {
    for s in ["A", "B", "C"] {
        let mut program = String::new();
        for _ in 0..5 {
            program.push_str(&format!("pop:{} ", s));
        }
        program.push_str(&format!("move:{}:C printnum", s));
        let r = run(&program);
        assert_eq!(text(&r), "0");
        assert_eq!(r.halt, Some(Halt::End));
    }
}
