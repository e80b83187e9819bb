use bf_compiler::machine::{RunOutcome, Status};
use bf_compiler::opt_vm::OptVM;
use bf_compiler::simple_vm::SimpleVM;
use bf_compiler::lower::compile_ast;
use bf_compiler::parser::parse;
use bf_compiler::pipeline::optimize;
use bf_compiler::{optimized_parse, simple_parse, CompiledInstr};

const STEPS: usize = 50_000_000;

const HELLO: &str = "++++++++[>++++[>++>+++>+++>+<<<<-]>+>+>->>+[<]<-]>>.>---.+++++++..+++.>>.<-.<.+++.------.--------.>>+.>++.";

fn run_optimized(source: &str, input: &[u8]) -> RunOutcome {
    let code = optimized_parse(source).unwrap();
    OptVM::new(code).run_with_input(&input.to_vec(), STEPS)
}

fn run_reference(source: &str, input: &[u8]) -> RunOutcome {
    let code = simple_parse(source).unwrap();
    SimpleVM::new(code).run_with_input(&input.to_vec(), STEPS)
}

/// Both back-ends write the same bytes, consume the same input and stop the same way.
fn assert_opt_is_basic(source: &str, input: &[u8]) -> RunOutcome {
    let opt = run_optimized(source, input);
    let simple = run_reference(source, input);
    assert_eq!(opt.output, simple.output);
    assert_eq!(opt.consumed, simple.consumed);
    assert_eq!(opt.status, simple.status);
    opt
}

#[test]
fn test_hello_world() {
    let r = assert_opt_is_basic(HELLO, b"");
    assert_eq!(r.output, b"Hello World!\n".to_vec());
    assert_eq!(r.status, Status::Finished);
}

#[test]
fn empty_program_writes_nothing() {
    let r = assert_opt_is_basic("", b"");
    assert!(r.output.is_empty());
    assert_eq!(r.status, Status::Finished);
    assert!(optimized_parse("").unwrap().is_empty());
}

#[test]
fn comments_only_write_nothing() {
    let r = assert_opt_is_basic("this text has no commands at all\nnone!", b"");
    assert!(r.output.is_empty());
    assert_eq!(r.status, Status::Finished);
}

#[test]
fn empty_loop_on_zero_cell_is_a_no_op() {
    let r = assert_opt_is_basic("[].", b"");
    assert_eq!(r.output, vec![0]);
    assert_eq!(r.status, Status::Finished);
}

#[test]
fn empty_loop_on_nonzero_cell_is_an_infinite_loop() {
    let code = optimized_parse("+[]").unwrap();
    assert!(code.contains(&CompiledInstr::InfiniteLoop));
    let r = OptVM::new(code).run_with_input(&Vec::new(), STEPS);
    assert_eq!(r.status, Status::InfiniteLoop);
    assert!(r.output.is_empty());
    let simple = SimpleVM::new(simple_parse("+[]").unwrap()).run_with_input(&Vec::new(), 1000);
    assert_eq!(simple.status, Status::StepLimit);
}

#[test]
fn increments_wrap_after_256() {
    let src = "+".repeat(256) + ".";
    let r = assert_opt_is_basic(&src, b"");
    assert_eq!(r.output, vec![0]);
    let src = "+".repeat(257) + ".";
    assert_eq!(assert_opt_is_basic(&src, b"").output, vec![1]);
    assert_eq!(assert_opt_is_basic("-.", b"").output, vec![255]);
}

#[test]
fn read_increment_write() {
    let r = assert_opt_is_basic(",+.", b"A");
    assert_eq!(r.output, b"B".to_vec());
    assert_eq!(r.consumed, 1);
}

#[test]
fn read_at_end_of_input_gives_zero() {
    let r = assert_opt_is_basic(",.", b"");
    assert_eq!(r.output, vec![0]);
    assert_eq!(r.consumed, 0);
}

#[test]
fn multiplication_loop() {
    let r = assert_opt_is_basic("+++++[>+++++<-]>.", b"");
    assert_eq!(r.output, vec![25]);
}

#[test]
fn echo_until_zero() {
    let r = assert_opt_is_basic(",[.,]", b"hi\n");
    assert_eq!(r.output, b"hi\n".to_vec());
    assert_eq!(r.consumed, 3);
    assert_eq!(r.status, Status::Finished);
}

#[test]
fn differential_fixtures() {
    let programs: [(&str, &[u8]); 10] = [
        ("++>+++[<+>-]<.", b""),
        ("+++[>+++[>++<-]<-]>>.", b""),
        (">+++++[<+++++>-]<[>++<-]>.", b""),
        (",[>+<-]>.", b"\x07"),
        ("++++[>++++<-]>[>+>++<<-]>.>.", b""),
        (",>,<[>+<-]>.", b"\x03\x04"),
        ("+++++++[>+++++++<-]>.<+++[>+<-]>.", b""),
        ("++[>+++[>+<-]<-]>>[<<+>>-]<<.", b""),
        (">>++++[<++++>-]<[<+>-]<.", b""),
        (">,[.>,]", b"ab"),
    ];
    for (src, input) in programs.iter() {
        assert_opt_is_basic(src, input);
    }
}

#[test]
fn scan_loop_finds_zero_cell() {
    let r = assert_opt_is_basic("+>+>+>+<<<[>]+++.<.", b"");
    assert_eq!(r.output, vec![3, 1]);
}

#[test]
fn one_shot_loop() {
    let r = assert_opt_is_basic("+++[>++++<[-]]>.", b"");
    assert_eq!(r.output, vec![4]);
}

#[test]
fn set_to_nonzero_in_loop_never_ends() {
    let code = optimized_parse("+[[-]+]").unwrap();
    let r = OptVM::new(code).run_with_input(&Vec::new(), 100_000);
    assert_eq!(r.status, Status::InfiniteLoop);
    assert!(r.output.is_empty());
}

#[test]
fn moving_left_of_the_tape_is_out_of_bounds() {
    let r = assert_opt_is_basic("<+.", b"");
    assert_eq!(r.status, Status::AccessOutOfBounds);
}

#[test]
fn lowered_jumps_frame_their_loops() {
    let code = optimized_parse(HELLO).unwrap();
    let mut backward = 0;
    for (i, instr) in code.iter().enumerate() {
        match instr {
            CompiledInstr::JumpIfZero { target_ip, .. } => {
                assert!(*target_ip > i && *target_ip <= code.len());
            }
            CompiledInstr::JumpIfNonzero { cond_dp_offset, target_ip } => {
                backward += 1;
                assert!(*target_ip < i);
                assert_eq!(
                    code[*target_ip],
                    CompiledInstr::JumpIfZero { cond_dp_offset: *cond_dp_offset, target_ip: i + 1 }
                );
            }
            _ => {}
        }
    }
    assert!(backward > 0);
}

#[test]
fn optimizing_twice_changes_nothing() {
    let programs = [HELLO, "+++++[>+++++<-]>.", ",[.,]", "+>+>+>+<<<[>]+++.<.", "++[>+++[>+<-]<-]>>."];
    for src in programs.iter() {
        let (once, settled) = optimize(parse(src).unwrap());
        assert!(settled);
        let first = compile_ast(&once);
        let (twice, again) = optimize(once);
        assert!(again);
        assert_eq!(compile_ast(&twice), first);
    }
}
