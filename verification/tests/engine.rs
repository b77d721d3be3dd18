use amazingbf::driver::pipeline::build_frontend;
use amazingbf::interp::bytecode::{InterpOp, InterpProgram};
use amazingbf::interp::engine::{mul_add_delta_u8, Event, Interpreter};
use amazingbf::interp::lower::lower_hir_to_bytecode;
use amazingbf::ir::hir::{HirInst, HirProgram};

/// The output of a machine that reads `input` and then zeros.
fn finish(m: &mut Interpreter, input: &[u8]) -> Vec<u8> {
    let mut output = Vec::new();
    let mut read = 0;
    loop {
        let mut byte = 0;
        match m.event() {
            Event::Halted => return output,
            Event::Put { byte: b, .. } => output.push(b),
            Event::Get { .. } => {
                byte = if read < input.len() { input[read] } else { 0 };
                read += 1;
            }
            Event::Quiet => {}
        }
        assert!(m.advance(byte));
    }
}

/// What a Brainfuck source writes, operator by operator.
fn by_operators(source: &str, input: &[u8]) -> Vec<u8> {
    let code: Vec<u8> = source.bytes().filter(|b| b"><+-.,[]".contains(b)).collect();
    let mut cells = vec![0u8; 60_000];
    let mut ptr = 30_000;
    let mut output = Vec::new();
    let mut read = 0;
    let mut pc = 0;
    while pc < code.len() {
        match code[pc] {
            b'>' => ptr += 1,
            b'<' => ptr -= 1,
            b'+' => cells[ptr] = cells[ptr].wrapping_add(1),
            b'-' => cells[ptr] = cells[ptr].wrapping_sub(1),
            b'.' => output.push(cells[ptr]),
            b',' => {
                cells[ptr] = if read < input.len() { input[read] } else { 0 };
                read += 1;
            }
            b'[' if cells[ptr] == 0 => {
                let mut depth = 1;
                while depth > 0 {
                    pc += 1;
                    match code[pc] {
                        b'[' => depth += 1,
                        b']' => depth -= 1,
                        _ => {}
                    }
                }
            }
            b']' if cells[ptr] != 0 => {
                let mut depth = 1;
                while depth > 0 {
                    pc -= 1;
                    match code[pc] {
                        b']' => depth += 1,
                        b'[' => depth -= 1,
                        _ => {}
                    }
                }
            }
            _ => {}
        }
        pc += 1;
    }
    output
}

fn by_bytecode(source: &str, input: &[u8]) -> Vec<u8> {
    let front = build_frontend(source).unwrap();
    let mut m = Interpreter::new(lower_hir_to_bytecode(&front.hir), 16);
    finish(&mut m, input)
}

const HELLO: &str = "++++++++[>++++[>++>+++>+++>+<<<<-]>+>+>->>+[<]<-]>>.>---.+++++++..+++.>>.\
<-.<.+++.------.--------.>>+.>++.";

const SQUARES: &str = "++++[>+++++<-]>[<+++++>-]+<+[>[>+>+<<-]++>>[<<+>>-]>>>[-]++>[-]+>>>+[[-]++++\
++>>>]<<<[[<++++++++<++>>-]+<.<[>----<-]<]<<[>>>>>[>>>[-]+++++++++<[>-<-]+++++++++>[-[<->-]+[<<<]\
<+>]<[-]>]<<<<-]<<<]";

#[test]
fn bytecode_does_what_the_source_says() {
    assert_eq!(by_bytecode(HELLO, b""), b"Hello World!\n");
    assert_eq!(by_operators(HELLO, b""), b"Hello World!\n");
    for (source, input) in [
        (",[.,]", b"echo".as_slice()),
        (">,[>,]<[.<]", b"reverse"),
        ("<<<+++[>+++<-]>.<<-.", b""),
        (",>,<[->[->+>+<<]>>[-<<+>>]<<<]>>.", b"\x07\x09"),
        ("+++[->+++[->+<]<]>>.[-]>+[>]<.", b""),
        ("-[------->+<]>-.", b""),
        ("+[-->-[>>+>-----<<]<--<---]>-.", b""),
        ("++>+++>++++>[-]<[<]>[.>]", b""),
    ] {
        assert_eq!(by_bytecode(source, input), by_operators(source, input), "{}", source);
    }
    assert_eq!(by_bytecode(SQUARES, b""), by_operators(SQUARES, b""));
}

#[test]
fn events_carry_the_place_of_the_data_pointer() {
    let front = build_frontend("<<,>>>+.").unwrap();
    let mut m = Interpreter::new(lower_hir_to_bytecode(&front.hir), 16);
    let mut events = Vec::new();
    loop {
        match m.event() {
            Event::Halted => break,
            Event::Quiet => {}
            e => events.push(e),
        }
        assert!(m.advance(9));
    }
    assert_eq!(events, vec![Event::Get { ptr: -2 }, Event::Put { ptr: 1, byte: 1 }]);
}

#[test]
fn every_operation_acts_on_the_tape() {
    let hir = HirProgram {
        insts: vec![
            HirInst::Add(3),
            HirInst::LinearMul(vec![(1, 1), (2, -1), (3, 5), (-1, 300)]),
            HirInst::PutByte,
            HirInst::Move(1),
            HirInst::PutByte,
            HirInst::Move(1),
            HirInst::PutByte,
            HirInst::Move(1),
            HirInst::PutByte,
            HirInst::Move(-4),
            HirInst::PutByte,
            HirInst::LinearMulWithSets {
                factors: vec![(5, 2)],
                sets: vec![2, 3],
            },
            HirInst::Move(1),
            HirInst::LinearMulWithSets {
                factors: vec![(1, 1)],
                sets: vec![1],
            },
            HirInst::Move(1),
            HirInst::PutByte,
            HirInst::Move(2),
            HirInst::Scan(1),
            HirInst::PutByte,
            HirInst::Move(-1),
            HirInst::PutByte,
            HirInst::Scan(-1),
            HirInst::Zero,
            HirInst::Add(7),
            HirInst::PutByte,
        ],
    };
    let mut m = Interpreter::new(lower_hir_to_bytecode(&hir), 1);
    let k = (3 * 300 % 256) as u8;
    assert_eq!(finish(&mut m, b""), vec![0, 3, 253, 15, k, 0, 0, 8, 7]);
}

#[test]
fn trips_are_counted() {
    // The outer loop writes and so keeps its ends; the inner one is a block.
    let front = build_frontend("+++[>++[>+>+<<-]<.-]").unwrap();
    let program = lower_hir_to_bytecode(&front.hir);
    let outer = program
        .ops
        .iter()
        .position(|op| matches!(op, InterpOp::LoopStart { .. }))
        .unwrap();
    let inner = program
        .ops
        .iter()
        .position(|op| matches!(op, InterpOp::LoopBlock(_)))
        .unwrap();
    let mut m = Interpreter::new(program, 16);
    assert!(m.profile().is_none());
    m.enable_profiling(3);
    assert_eq!(finish(&mut m, b""), vec![3, 2, 1]);
    let profile = m.profile().unwrap();
    assert_eq!(profile.trip_count(outer as u32), 2);
    assert_eq!(profile.trip_count(inner as u32), 6);
    assert_eq!(profile.hot_loops(), vec![(inner as u32, 6)]);
    assert_eq!(profile.threshold(), 3);
}

#[test]
fn cells_wrap_and_products_are_reduced() {
    assert_eq!(mul_add_delta_u8(2, 127), -2);
    assert_eq!(mul_add_delta_u8(200, -1), 56);
    assert_eq!(mul_add_delta_u8(255, i32::MIN), 0);
    assert_eq!(by_bytecode("-.", b""), vec![255]);
    let mut m = Interpreter::new(InterpProgram { ops: vec![] }, 0);
    assert_eq!(m.event(), Event::Quiet);
    assert!(m.advance(0));
    assert_eq!(m.event(), Event::Halted);
}
