use bf_compiler::data_usage::{track_usage, DataUsage, DataUsageTracker};
use bf_compiler::ir::collapse_kinds;
use bf_compiler::const_loops::const_loop_remove;
use bf_compiler::lower::compile_ast;
use bf_compiler::simulate::{one_step_loops, run_simulation};
use bf_compiler::machine::{Event, Status};
use bf_compiler::opt_vm::OptVM;
use bf_compiler::parser::parse;
use bf_compiler::reference::Instr;
use bf_compiler::sim_state::{DataState, SimState};
use bf_compiler::{full_parse, simple_parse, CompiledInstr, DatamodKind, ParseError, StdIn, AST};

#[test]
fn unmatched_end_is_reported_with_its_code_point() {
    assert_eq!(full_parse("+]").unwrap_err(), ParseError::EndLoopWithoutStart { code_p: 1 });
    assert_eq!(full_parse("ab[]]").unwrap_err(), ParseError::EndLoopWithoutStart { code_p: 4 });
    assert!(simple_parse("]").is_err());
}

#[test]
fn unterminated_loop_reports_innermost_open_bracket() {
    assert_eq!(full_parse("[[]").unwrap_err(), ParseError::UnterminatedLoop { code_p: 0 });
    assert_eq!(full_parse("x[y[").unwrap_err(), ParseError::UnterminatedLoop { code_p: 3 });
    assert!(simple_parse("[").is_err());
}

#[test]
fn balanced_sources_parse() {
    assert!(full_parse("[[]][]").is_ok());
    assert!(simple_parse("[[]][]").is_ok());
    assert!(parse("a[b]c").is_ok());
}

#[test]
fn reference_parse_matches_brackets() {
    let code = simple_parse("+[>[-]<]").unwrap();
    assert_eq!(code.len(), 8);
    assert_eq!(code[1], Instr::LoopStart { code_p: 1, end_ip: 7 });
    assert_eq!(code[7], Instr::LoopEnd { code_p: 7, start_ip: 1 });
    assert_eq!(code[3], Instr::LoopStart { code_p: 3, end_ip: 5 });
    assert_eq!(code[5], Instr::LoopEnd { code_p: 5, start_ip: 3 });
    assert_eq!(code[0], Instr::IncByte { code_p: 0 });
}

#[test]
fn tree_parse_builds_plain_nodes() {
    let tree = parse("+[-<]").unwrap();
    assert_eq!(tree.len(), 2);
    match &tree[0] {
        AST::ModData { kind, dp_offset } => {
            assert_eq!(*kind, DatamodKind::AddData { amount: 1 });
            assert_eq!(*dp_offset, 0);
        }
        _ => panic!("expected a modification"),
    }
    match &tree[1] {
        AST::Loop { cond_dp_offset, elements, known_to_be_nontrivial } => {
            assert_eq!(*cond_dp_offset, 0);
            assert!(!*known_to_be_nontrivial);
            assert_eq!(elements.len(), 2);
        }
        _ => panic!("expected a loop"),
    }
}

#[test]
fn kinds_compose() {
    let add = |a| DatamodKind::AddData { amount: a };
    let set = |a| DatamodKind::SetData { amount: a };
    assert_eq!(collapse_kinds(add(200), add(100)), add(44));
    assert_eq!(collapse_kinds(set(5), add(3)), set(8));
    assert_eq!(collapse_kinds(add(5), set(3)), set(3));
    assert_eq!(collapse_kinds(set(250), add(10)), set(4));
}

#[test]
fn lowering_resolves_jumps() {
    let tree = vec![
        AST::Loop {
            cond_dp_offset: 0,
            elements: vec![AST::ModData { kind: DatamodKind::AddData { amount: 255 }, dp_offset: 0 }],
            known_to_be_nontrivial: false,
        },
        AST::ShiftDataPtr { amount: -3 },
        AST::IfNonZero { cond_dp_offset: 2, elements: vec![AST::WriteConst { out: 7 }] },
        AST::ShiftLoop { cond_dp_offset: 0, dp_shift: 2, known_to_be_nontrivial: false },
        AST::ShiftDataPtr { amount: 0 },
    ];
    let code = compile_ast(&tree);
    assert_eq!(
        code,
        vec![
            CompiledInstr::JumpIfZero { cond_dp_offset: 0, target_ip: 3 },
            CompiledInstr::AddData { amount: 255, dp_offset: 0 },
            CompiledInstr::JumpIfNonzero { cond_dp_offset: 0, target_ip: 0 },
            CompiledInstr::SubPtr { amount: 3 },
            CompiledInstr::JumpIfZero { cond_dp_offset: 2, target_ip: 6 },
            CompiledInstr::WriteConst { out: 7 },
            CompiledInstr::JumpIfZero { cond_dp_offset: 0, target_ip: 9 },
            CompiledInstr::AddPtr { amount: 2 },
            CompiledInstr::JumpIfNonzero { cond_dp_offset: 0, target_ip: 6 },
        ]
    );
}

#[test]
fn sim_state_tracks_cells_relative_to_pointer() {
    let mut s = SimState::new(DataState::Known(0));
    assert_eq!(s.get_data(5), DataState::Known(0));
    s.set_data(1, DataState::Known(9));
    s.shift_ptr(1);
    assert_eq!(s.get_data(0), DataState::Known(9));
    s.process_mod_data(DatamodKind::AddData { amount: 250 }, 0);
    assert_eq!(s.get_data(0), DataState::Known(3));
    s.process_combine_data(0, 2, 5);
    assert_eq!(s.get_data(2), DataState::Known(15));
    s.set_data(0, DataState::UnknownNonzero);
    s.process_combine_data(0, 2, 1);
    assert_eq!(s.get_data(2), DataState::Unknown);
    s.clear_knowledge();
    assert_eq!(s.get_data(-4), DataState::Unknown);
}

#[test]
fn merge_keeps_only_agreed_facts() {
    let mut s = SimState::new(DataState::Known(0));
    s.set_data(0, DataState::Known(1));
    s.set_data(1, DataState::Known(2));
    let (mut branch, marker) = s.make_branch();
    branch.set_data(1, DataState::Known(3));
    branch.set_data(2, DataState::Known(4));
    s.merge_divergent(branch, marker);
    assert_eq!(s.get_data(0), DataState::Known(1));
    assert_eq!(s.get_data(1), DataState::Unknown);
    assert_eq!(s.get_data(2), DataState::Unknown);
    assert_eq!(s.get_data(3), DataState::Known(0));
}

#[test]
fn merge_after_wipe_clears_everything() {
    let mut s = SimState::new(DataState::Known(0));
    s.set_data(0, DataState::Known(1));
    let (mut branch, marker) = s.make_branch();
    branch.clear_knowledge();
    s.merge_divergent(branch, marker);
    assert_eq!(s.get_data(0), DataState::Unknown);
}

#[test]
fn usage_tracker_records_shifted_offsets() {
    let mut t = DataUsageTracker::new();
    t.data_used(1);
    t.shift(2);
    t.data_used(-1);
    t.data_used(-1);
    t.shift(-2);
    match t.complete() {
        DataUsage::DataTracked { dp_shift, data_mods } => {
            assert_eq!(dp_shift, 0);
            assert_eq!(data_mods, vec![1]);
        }
        DataUsage::DpLost => panic!("pointer should be tracked"),
    }
    let mut lost = DataUsageTracker::new();
    lost.lose_dp();
    assert!(matches!(lost.complete(), DataUsage::DpLost));
}

#[test]
fn usage_of_loops() {
    let balanced = AST::Loop {
        cond_dp_offset: 0,
        elements: vec![
            AST::ShiftDataPtr { amount: 1 },
            AST::ModData { kind: DatamodKind::AddData { amount: 1 }, dp_offset: 0 },
            AST::ShiftDataPtr { amount: -1 },
        ],
        known_to_be_nontrivial: false,
    };
    match track_usage(&balanced) {
        DataUsage::DataTracked { dp_shift, mut data_mods } => {
            data_mods.sort();
            assert_eq!(dp_shift, 0);
            assert_eq!(data_mods, vec![0, 1]);
        }
        DataUsage::DpLost => panic!("balanced loop keeps the pointer"),
    }
    let drifting = AST::Loop {
        cond_dp_offset: 0,
        elements: vec![AST::ShiftDataPtr { amount: 1 }],
        known_to_be_nontrivial: false,
    };
    assert!(matches!(track_usage(&drifting), DataUsage::DpLost));
}

#[test]
fn stdin_buffers_lines_and_ends_with_zeroes() {
    let mut input = StdIn::new();
    assert_eq!(input.next_byte(), None);
    input.feed_line(b"hi\n");
    assert_eq!(input.next_byte(), Some(b'h'));
    assert_eq!(input.next_byte(), Some(b'i'));
    assert_eq!(input.next_byte(), Some(10));
    assert_eq!(input.next_byte(), None);
    input.feed_line(b"");
    assert_eq!(input.next_byte(), Some(0));
    assert_eq!(input.next_byte(), Some(0));
}

#[test]
fn step_interface_reports_reads_and_writes() {
    let mut vm = OptVM::new(full_parse(",.").unwrap());
    assert_eq!(vm.step(), Event::NeedInput);
    vm.provide_input(42);
    assert_eq!(vm.step(), Event::Output(42));
    assert_eq!(vm.step(), Event::Halted(Status::Finished));
}

#[test]
fn one_step_loop_becomes_a_branch_with_an_assertion() {
    let tree = vec![AST::Loop {
        cond_dp_offset: 0,
        elements: vec![
            AST::WriteByte { dp_offset: 1 },
            AST::ModData { kind: DatamodKind::SetData { amount: 0 }, dp_offset: 0 },
        ],
        known_to_be_nontrivial: false,
    }];
    let (out, count) = one_step_loops(tree);
    assert!(count >= 1);
    let expected = vec![AST::IfNonZero {
        cond_dp_offset: 0,
        elements: vec![
            AST::WriteByte { dp_offset: 1 },
            AST::ModData { kind: DatamodKind::SetData { amount: 0 }, dp_offset: 0 },
            AST::AssertEquals { dp_offset: 0, val: 0 },
        ],
    }];
    assert_eq!(compile_ast(&out), compile_ast(&expected));
}

#[test]
fn branches_on_an_unknown_cell_are_kept() {
    let tree = || {
        vec![
            AST::ReadByte { dp_offset: 0 },
            AST::IfNonZero { cond_dp_offset: 0, elements: vec![AST::WriteConst { out: 65 }] },
            AST::IfNonZero { cond_dp_offset: 0, elements: vec![AST::WriteConst { out: 66 }] },
        ]
    };
    let (out, count) = one_step_loops(tree());
    assert_eq!(count, 0);
    assert_eq!(compile_ast(&out), compile_ast(&tree()));
}

#[test]
fn loop_with_io_is_left_alone() {
    let tree = || {
        vec![AST::Loop {
            cond_dp_offset: 0,
            elements: vec![AST::ReadByte { dp_offset: 0 }],
            known_to_be_nontrivial: false,
        }]
    };
    let (out, count) = const_loop_remove(tree());
    assert_eq!(count, 0);
    assert_eq!(compile_ast(&out), compile_ast(&tree()));
}

#[test]
fn combine_with_both_cells_known_becomes_a_set() {
    let tree = vec![
        AST::ModData { kind: DatamodKind::SetData { amount: 3 }, dp_offset: 0 },
        AST::ModData { kind: DatamodKind::SetData { amount: 4 }, dp_offset: 1 },
        AST::CombineData { source_dp_offset: 0, target_dp_offset: 1, source_amt_mult: 5 },
    ];
    let (out, _) = run_simulation(tree);
    let code = compile_ast(&out);
    assert_eq!(code.last(), Some(&CompiledInstr::SetData { amount: 19, dp_offset: 1 }));
}
