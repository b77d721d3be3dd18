use amazingbf::bfsc::args::{parse_args, Request};
use amazingbf::bfsc::ast::{
    BinOp, Expr, FnDef, LValue, Param, Program, ScalarType, Stmt, TypeAnn,
};
use amazingbf::bfsc::codegen::emit;
use amazingbf::bfsc::compile;
use amazingbf::bfsc::error::BfscError;
use amazingbf::bfsc::layout::MemMapBuilder;
use amazingbf::bfsc::typeck::check;
use amazingbf::driver::config::{CompileTarget, OptLevel};
use amazingbf::driver::pipeline::build_frontend;
use amazingbf::frontend::lexer::lex;
use amazingbf::frontend::parser::parse;
use amazingbf::interp::engine::{Event, Interpreter};
use amazingbf::interp::lower::lower_hir_to_bytecode;

/// The bytes that a Brainfuck program writes.
fn output(text: &str, input: &[u8]) -> Vec<u8> {
    let front = build_frontend(text).unwrap();
    let mut m = Interpreter::new(lower_hir_to_bytecode(&front.hir), 64);
    let mut output = Vec::new();
    let mut read = 0;
    loop {
        let mut byte = 0;
        match m.event() {
            Event::Halted => return output,
            Event::Put { byte: b, .. } => output.push(b),
            Event::Get { .. } => {
                byte = if read < input.len() { input[read] } else { 0 };
                read += 1;
            }
            Event::Quiet => {}
        }
        assert!(m.advance(byte));
    }
}

/// What a BFS program prints.
fn run(source: &str, input: &[u8]) -> String {
    let text = compile(source).unwrap();
    assert!(text.chars().all(|c| "><+-.,[]".contains(c)));
    String::from_utf8(output(&text, input)).unwrap()
}

fn failure(source: &str) -> String {
    compile(source).unwrap_err().describe()
}

#[test]
fn characters_and_numbers_are_printed() {
    assert_eq!(run("putchar(72); putchar(105);", b""), "Hi");
    assert_eq!(run("let x: u8 = 200; print(x);", b""), "200 ");
    assert_eq!(run("let x: u16 = 40000; print(x);", b""), "40000 ");
    assert_eq!(run("let x: u8 = 0; print(x);", b""), "0 ");
}

#[test]
fn arithmetic_follows_the_widths() {
    assert_eq!(run("let x: u8 = 250; let y: u8 = 10; print(x + y);", b""), "4 ");
    assert_eq!(run("let x: u16 = 250; let y: u16 = 10; print(x + y);", b""), "260 ");
    assert_eq!(run("let x: u8 = 17; print(x / 5); putchar(44); print(x % 5);", b""), "3 ,2 ");
    assert_eq!(run("let x: u16 = 300; print(x * 7);", b""), "2100 ");
    assert_eq!(run("let x: u8 = 5; print(x - 3);", b""), "2 ");
}

#[test]
fn conditions_and_loops_are_run() {
    assert_eq!(
        run(
            "let i: u8 = 3; while i > 0 { putchar(48 + i); i = i - 1; }",
            b""
        ),
        "321"
    );
    let source = "let x: u8 = 4; if x == 4 && !(x < 2) { putchar(89); } else { putchar(78); }";
    assert_eq!(run(source, b""), "Y");
    let source = "let x: u8 = 1; if x >= 2 || x != 1 { putchar(89); } else { putchar(78); }";
    assert_eq!(run(source, b""), "N");
}

#[test]
fn arrays_are_read_and_written() {
    let source = "let a: [u8; 5]; let i: u8 = 0; while i < 5 { a[i] = 65 + i; i = i + 1; } \
                  i = 5; while i > 0 { i = i - 1; putchar(a[i]); }";
    assert_eq!(run(source, b""), "EDCBA");
}

#[test]
fn numbers_are_read() {
    assert_eq!(run("let x: u8; scan(x); print(x + 1);", b"41\n"), "42 ");
}

#[test]
fn faults_are_told() {
    assert_eq!(failure("let x: u8 = 1 @ 2;"), "Lexer error: unexpected character '@' at byte 14");
    assert_eq!(failure("/* never"), "Lexer error: unterminated block comment at byte 0");
    assert_eq!(
        failure("print(x"),
        "Parse error: expected RParen, got Eof at byte 7"
    );
    assert_eq!(
        failure("let x: foo;"),
        "Parse error: expected type, got Ident(\"foo\") at byte 7"
    );
    assert!(matches!(compile("print(y);"), Err(BfscError::Type(_))));
    assert!(matches!(compile("let x: u8; let x: u8;"), Err(BfscError::Type(_))));
    assert_eq!(
        BfscError::Io("gone".to_string()).describe(),
        "I/O error: gone"
    );
    assert_eq!(
        BfscError::Compile("x".to_string()).describe(),
        "Compile error: x"
    );
}

fn words(ws: &[&str]) -> Vec<String> {
    let mut args = vec!["bfsc".to_string()];
    for w in ws {
        args.push(w.to_string());
    }
    args
}

const HOST: CompileTarget = CompileTarget::X86_64Linux;

fn refused(ws: &[&str]) -> String {
    match parse_args(&words(ws), HOST) {
        Ok(_) => panic!("expected a refusal"),
        Err(e) => e.describe(),
    }
}

#[test]
fn command_lines_are_read() {
    let asked = parse_args(
        &words(&["a.bfs", "-c", "-o", "out", "--target=x86_64-windows", "-O2", "-q"]),
        HOST,
    );
    let Ok(Request::Run(a)) = asked else {
        panic!("expected a run");
    };
    assert_eq!(a.input_path.as_deref(), Some("a.bfs"));
    assert_eq!((a.compile, a.target, a.opt_level, a.quiet), (
        true,
        CompileTarget::X86_64Windows,
        OptLevel::O2,
        true
    ));
    assert_eq!((a.executable(), a.log_level(), a.reads_stdin()), ("out".to_string(), 0, false));
    let Ok(Request::Run(a)) = parse_args(&words(&["--output=x.bf", "a", "-"]), HOST) else {
        panic!("expected a run");
    };
    assert_eq!(a.output_path.as_deref(), Some("x.bf"));
    assert!(a.reads_stdin());
    let Ok(Request::Run(a)) = parse_args(&words(&[]), HOST) else {
        panic!("expected a run");
    };
    assert_eq!((a.executable(), a.log_level(), a.opt_level), ("a.out".to_string(), 1, OptLevel::O3));
    assert!(matches!(parse_args(&words(&["-x", "-h"]), HOST), Err(_)));
    assert!(matches!(parse_args(&words(&["-c", "-h"]), HOST), Ok(Request::Help)));
    assert!(matches!(parse_args(&words(&["--version"]), HOST), Ok(Request::Version)));
}

#[test]
fn wrong_words_are_refused() {
    assert_eq!(refused(&["-o"]), "Parse error: missing argument for -o");
    assert_eq!(refused(&["--opt-level"]), "Parse error: missing argument for --opt-level");
    assert_eq!(
        refused(&["--target", "arm"]),
        "Parse error: invalid compile target `arm` (expected x86_64-linux or x86_64-windows)"
    );
    assert_eq!(
        refused(&["-O7"]),
        "Parse error: invalid opt level `7` (expected 0, 1, 2, or 3)"
    );
    assert_eq!(refused(&["-Oé"]), "Parse error: unknown flag: -Oé");
    assert_eq!(refused(&["a", "b"]), "Parse error: too many input files");
    assert_eq!(refused(&["--fast"]), "Parse error: unknown flag: --fast");
}

#[test]
fn compiled_text_is_brainfuck() {
    for source in [
        "",
        "let x: u8 = 1; if x > 0 { putchar(x); } else { print(x); }",
        "let a: [u8; 300]; let i: u16 = 2; a[i] = 7; while i > 0 { i = i - 1; print(a[i]); }",
        "let a: [u16; 3]; scan(a[1]); print(a[1] * a[2] / 3 % 4);",
    ] {
        let text = compile(source).unwrap();
        let tokens = lex(&text);
        assert_eq!(tokens.len(), text.len());
        assert!(parse(&tokens).is_ok());
    }
}

#[test]
fn emitted_programs_do_what_they_mean() {
    // Numbers of one byte and of two, with every operator.
    assert_eq!(run("let x: u16 = 65535; let y: u16 = 1; print(x + y);", b""), "0 ");
    assert_eq!(run("let x: u16 = 0; let y: u16 = 1; print(x - y);", b""), "65535 ");
    assert_eq!(run("let x: u8 = 3; print(0 - x);", b""), "253 ");
    assert_eq!(run("let x: u16 = 1000; let y: u16 = 7; print(x / y); print(x % y);", b""), "142 6 ");
    assert_eq!(run("let x: u16 = 256; let y: u16 = 255; print(x > y); print(x <= y);", b""), "1 0 ");
    assert_eq!(run("let x: u8 = 2; print(x == 2 && x != 3); print(!x);", b""), "1 0 ");
    assert_eq!(run("let x: u8 = 255; let y: u16 = 2; print(x * y);", b""), "510 ");
    // A value that is too wide for its variable keeps its low byte.
    assert_eq!(run("let x: u8 = 0; x = 300; print(x);", b""), "44 ");
    // Leading zeros are left out, others are not.
    assert_eq!(run("print(105); print(10); print(1005); print(10000);", b""), "105 10 1005 10000 ");
    // A signed number is printed as its bytes.
    assert_eq!(run("let x: i8 = 0; x = x - 1; print(x);", b""), "255 ");
}

#[test]
fn numbers_end_at_a_space_or_a_line() {
    let two = "let a: u8; let b: u16; scan(a); scan(b); print(a); print(b);";
    assert_eq!(run(two, b"12 3456\n"), "12 3456 ");
    assert_eq!(run(two, b"300\n70000 "), "44 4464 ");
    assert_eq!(run(two, b" 7\0"), "0 7 ");
    // Any other byte counts as a digit.
    assert_eq!(run(two, b"1: 0\n"), "20 0 ");
}

#[test]
fn bytes_are_read_as_they_come() {
    let var = || Expr::Var(String::from("c"));
    let target = || LValue::Var(String::from("c"));
    let next = Expr::BinOp(BinOp::Add, Box::new(var()), Box::new(Expr::Int(1)));
    let more = Expr::BinOp(BinOp::Ne, Box::new(var()), Box::new(Expr::Int(10)));
    let top = vec![
        Stmt::Let {
            name: String::from("c"),
            ty: TypeAnn::Scalar(ScalarType::U8),
            init: None,
        },
        Stmt::Getchar(target()),
        Stmt::While {
            cond: more,
            body: vec![Stmt::Putchar(next), Stmt::Getchar(target())],
        },
        Stmt::Setpixel {
            x: Expr::Int(1),
            y: Expr::Int(2),
            color: Expr::Int(300),
        },
    ];
    let (program, layout) = check(Program { fns: Vec::new(), top }).unwrap();
    let text = emit(&program, &layout).unwrap();
    assert_eq!(output(&text, b"HAL\n"), [b'I', b'B', b'M', 0xFE, 1, 2, 44]);
}

/// `fn bump(p: [u8; 3]) { p[0] = p[0] + 1; }` and a program that calls it.
fn bumping(top: Vec<Stmt>) -> String {
    let first = || Expr::Index(String::from("p"), Box::new(Expr::Int(0)));
    let bump = FnDef {
        name: String::from("bump"),
        params: vec![Param {
            name: String::from("p"),
            ty: TypeAnn::Array(ScalarType::U8, 3),
        }],
        ret_ty: None,
        body: vec![Stmt::Assign {
            lval: LValue::Index(String::from("p"), Box::new(Expr::Int(0))),
            expr: Expr::BinOp(BinOp::Add, Box::new(first()), Box::new(Expr::Int(1))),
        }],
    };
    let (program, layout) = check(Program { fns: vec![bump], top }).unwrap();
    let text = emit(&program, &layout).unwrap();
    String::from_utf8(output(&text, b"")).unwrap()
}

#[test]
fn functions_change_the_arrays_that_are_passed() {
    let array = |name: &str| Stmt::Let {
        name: String::from(name),
        ty: TypeAnn::Array(ScalarType::U8, 3),
        init: None,
    };
    let call = |name: &str| {
        Stmt::Call(String::from("bump"), vec![Expr::Var(String::from(name))])
    };
    let print = |name: &str| {
        Stmt::Print(Expr::Index(String::from(name), Box::new(Expr::Int(0))))
    };
    let top = vec![
        array("a"),
        array("b"),
        call("a"),
        call("a"),
        call("b"),
        print("a"),
        print("b"),
    ];
    assert_eq!(bumping(top), "2 1 ");
}

#[test]
fn wide_sums_carry_and_borrow_through_full_bytes() {
    assert_eq!(run("let x: u32 = 65535; let y: u32 = 1; print(x + y);", b""), "65536 ");
    assert_eq!(run("let x: u32 = 65536; let y: u32 = 1; print(x - y);", b""), "65535 ");
    assert_eq!(run("let x: u32 = 0; let y: u32 = 1; print(x - y);", b""), "4294967295 ");
}

#[test]
fn four_bytes_are_added_with_every_carry() {
    // 0x00FFFF + 1 in four cells: the carry crosses a byte that becomes full by it.
    let text = compile("let x: u32 = 65535; x = x + 1; if x == 65536 { putchar(89); }").unwrap();
    assert_eq!(output(&text, b""), b"Y");
}

#[test]
fn four_byte_numbers_are_compared_divided_and_read() {
    assert_eq!(run("let x: u32 = 100000; print(x / 30000); print(x % 30000);", b""), "3 10000 ");
    assert_eq!(run("let x: u32 = 3; let y: u32 = 70000; print(x * y);", b""), "210000 ");
    assert_eq!(run("let x: u32 = 70000; if x > 65536 && x != 4464 { putchar(89); }", b""), "Y");
    assert_eq!(run("let x: u32; scan(x); print(x);", b"123456\n"), "123456 ");
    assert_eq!(run("let x: u32 = 66000; let y: u16 = x; print(y);", b""), "464 ");
}

#[test]
fn four_byte_elements_keep_what_is_stored() {
    let source = "let a: [u32; 2]; a[1] = 70000; a[0] = a[1] + 1; print(a[0]); print(a[1]);";
    assert_eq!(run(source, b""), "70001 70000 ");
}

#[test]
fn elements_outside_an_array_are_nothing() {
    let source = "let a: [u8; 2]; let i: u8 = 2; a[0] = 7; a[1] = 8; a[i] = 9; \
                  print(a[0]); print(a[1]); print(a[i]);";
    assert_eq!(run(source, b""), "7 8 0 ");
}

#[test]
fn declarations_follow_each_other() {
    let mut b = MemMapBuilder::new();
    b.alloc_scalar("a".to_string(), ScalarType::U16);
    b.alloc_array("b".to_string(), ScalarType::U32, 3);
    b.alloc_array("c".to_string(), ScalarType::U8, 257);
    b.alloc_scalar("d".to_string(), ScalarType::U8);
    let m = b.finalize();
    let places: Vec<(u128, u128)> = m.vars.iter().map(|v| (v.1.base, v.1.width)).collect();
    assert_eq!(places, [(0, 2), (2, 12), (14, 2058), (2072, 1)]);
    assert_eq!(m.temp_base, 2073);
    assert_eq!(m.get("b").unwrap().base, 2);
    assert!(m.get("e").is_none());
}

#[test]
fn the_last_declaration_of_a_name_counts() {
    let mut b = MemMapBuilder::new();
    b.alloc_scalar("a".to_string(), ScalarType::U8);
    b.alloc_scalar("b".to_string(), ScalarType::U16);
    b.alloc_array("a".to_string(), ScalarType::U16, 3);
    let m = b.finalize();
    let a = m.get("a").unwrap();
    assert_eq!((a.base, a.width, a.array_len), (3, 6, Some(3)));
    assert_eq!(m.get("b").unwrap().base, 1);
    assert_eq!(m.temp_base, 9);
    assert_eq!(m.vars.len(), 2);
}

#[test]
fn bytes_are_read_into_variables_and_elements() {
    let source = "let c: u16; let a: [u8; 300]; let i: u16 = 299; getchar(c); getchar(a[i]); \
                  print(c); putchar(a[299]);";
    assert_eq!(run(source, b"Az"), "65 z");
}

#[test]
fn pixels_are_written_as_commands() {
    let text = compile("let x: u8 = 3; setpixel(x, x + 1, 7 * 9);").unwrap();
    assert!(output(&text, b"").ends_with(&[3, 4, 63]));
    assert!(failure("setpixel(1, 2);").contains("expected Comma, got RParen at byte 13"));
}

#[test]
fn input_words_are_names_without_a_bracket() {
    let source = "let getchar: u8 = 65; let setpixel: u8 = 1; getchar = getchar + setpixel; \
                  putchar(getchar);";
    assert_eq!(run(source, b""), "B");
}

#[test]
fn numbers_are_read_with_and_without_brackets() {
    let source = "let a: [u16; 2]; let x: u8; scan a[1]; scan(x); scan a[0]; print(a[0]); \
                  print(a[1]); print(x);";
    assert_eq!(run(source, b"300 7 41\n"), "41 300 7 ");
}

#[test]
fn array_elements_keep_what_is_stored() {
    let source = "let a: [u16; 4]; a[0] = 1000; a[3] = 65535; a[1] = a[0] + a[3]; \
                  print(a[0]); print(a[1]); print(a[2]); print(a[3]);";
    assert_eq!(run(source, b""), "1000 999 0 65535 ");
    assert_eq!(run("let a: [u8; 3]; a[2] = 300; print(a[2]); print(a[1]);", b""), "44 0 ");
}

#[test]
fn numbers_are_read_into_elements() {
    let source = "let a: [u16; 3]; let i: u8 = 2; scan(a[i]); scan(a[0]); print(a[0]); print(a[2]);";
    assert_eq!(run(source, b"1234 56\n"), "56 1234 ");
}

#[test]
fn bytes_of_long_arrays_lie_in_chunks() {
    let source = "let a: [u8; 300]; a[256] = 57; a[1] = 56; putchar(a[256]); putchar(a[1]);";
    assert_eq!(run(source, b""), "98");
}

#[test]
fn elements_in_chunks_are_read_back() {
    let source = "let a: [u8; 700]; let i: u16 = 699; a[i] = 65; a[443] = 66; a[187] = 67; \
                  a[255] = 69; a[256] = 70; a[i] = 324; putchar(a[699]); putchar(a[443]); \
                  putchar(a[187]); putchar(a[255]); putchar(a[256]); print(a[698]); print(a[0]);";
    assert_eq!(run(source, b""), "DBCEF0 0 ");
}

#[test]
fn elements_in_groups_are_read_back() {
    let source = "let a: [u8; 65540]; a[65539] = 7; a[3] = 9; print(a[65539]); print(a[3]);";
    assert_eq!(run(source, b""), "7 9 ");
}

#[test]
fn numbers_are_read_into_chunks() {
    let source = "let a: [u8; 600]; let i: u16 = 513; scan(a[i]); scan(a[0]); print(a[513] + 1); \
                  print(a[0]);";
    assert_eq!(run(source, b"77 5\n"), "78 5 ");
}

#[test]
fn long_arrays_are_searched_with_a_counter() {
    let source = "let a: [i8; 257]; a[256] = 57; putchar(a[256]);";
    assert_eq!(run(source, b""), "9");
}

#[test]
fn long_literals_are_cut_to_four_bytes() {
    assert_eq!(run("let x: u32 = 4294967299; print(x);", b""), "3 ");
}
