use regex_dfa_core::program::{InitStates, Inst, Instructions, Program, TableInsts, VmInsts};

const NONE: usize = usize::MAX;

#[test]
fn init_states() {
    assert_eq!(InitStates::Anchored(3).state_at_pos(b"abc", 0), Some(3));
    assert_eq!(InitStates::Anchored(3).state_at_pos(b"abc", 1), None);
    assert_eq!(InitStates::Constant(2).state_at_pos(b"abc", 3), Some(2));
    assert_eq!(InitStates::Anchored(1).anchored(), Some(1));
    assert_eq!(InitStates::Constant(1).anchored(), None);
}

#[test]
fn vm_steps() {
    let mut byte_sets = vec![false; 256];
    byte_sets[b'x' as usize] = true;
    let mut branch_table = vec![u32::MAX; 256];
    branch_table[b'y' as usize] = 0;
    let vm = VmInsts {
        byte_sets,
        branch_table,
        insts: vec![Inst::Byte(b'a'), Inst::ByteSet(0), Inst::Acc(7), Inst::Branch(0)],
    };
    assert_eq!(vm.num_states(), 4);
    assert_eq!(vm.step(0, b"a"), (Some(1), None));
    assert_eq!(vm.step(0, b"b"), (None, None));
    assert_eq!(vm.step(1, b"x"), (Some(2), None));
    assert_eq!(vm.step(1, b"y"), (None, None));
    assert_eq!(vm.step(2, b"q"), (Some(3), Some(7)));
    assert_eq!(vm.step(3, b"y"), (Some(0), None));
    assert_eq!(vm.step(3, b"z"), (None, None));
    // Past the last instruction, or past a table, there is no transition.
    assert_eq!(vm.step(4, b"a"), (None, None));
    let last = VmInsts { byte_sets: vec![], branch_table: vec![], insts: vec![Inst::Acc(1)] };
    assert_eq!(last.step(0, b"a"), (None, Some(1)));
    let short = VmInsts { byte_sets: vec![true; 10], branch_table: vec![], insts: vec![Inst::ByteSet(0)] };
    assert_eq!(short.step(0, b"a"), (None, None));
}

#[test]
fn table_steps() {
    let mut table = vec![u32::MAX; 2 * 256];
    table[b'a' as usize] = 1;
    table[256 + b'b' as usize] = 0;
    table[256 + b'c' as usize] = 9;
    let t = TableInsts { table, accept: vec![NONE, 4] };
    assert_eq!(t.num_states(), 2);
    assert_eq!(t.step(0, b"a"), (Some(1), None));
    assert_eq!(t.step(0, b"b"), (None, None));
    assert_eq!(t.step(1, b"b"), (Some(0), Some(4)));
    assert_eq!(t.step(1, b"c"), (None, Some(4)));
    assert_eq!(t.step(2, b"a"), (None, None));
}

#[test]
fn end_of_input_checks() {
    let prog = Program {
        init: InitStates::Anchored(1),
        accept_at_eoi: vec![NONE, 5],
        instructions: TableInsts { table: vec![u32::MAX; 512], accept: vec![NONE, NONE] },
    };
    assert_eq!(prog.check_eoi(0), None);
    assert_eq!(prog.check_eoi(1), Some(5));
    assert_eq!(prog.check_eoi(2), None);
    assert_eq!(prog.check_empty_match_at_end(b""), Some((0, 0)));
    assert_eq!(prog.check_empty_match_at_end(b"a"), None);
    assert!(matches!(prog.init(), InitStates::Anchored(1)));
    let constant = Program { init: InitStates::Constant(1), ..prog.clone() };
    assert_eq!(constant.check_empty_match_at_end(b"abc"), Some((3, 3)));
    let other = Program { init: InitStates::Constant(0), ..prog };
    assert_eq!(other.check_empty_match_at_end(b"abc"), None);
}
