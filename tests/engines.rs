use regex_dfa_core::backtracking::BacktrackingEngine;
use regex_dfa_core::prefix::Prefix;
use regex_dfa_core::program::{InitStates, Inst, Instructions, Program, TableInsts, VmInsts};
use regex_dfa_core::threaded::ThreadedEngine;
use regex_dfa_core::Engine;

const NONE: usize = usize::MAX;

/// `ab`, then one more state that accepts at a following byte or at the end.
fn vm_ab(init: InitStates) -> Program<VmInsts> {
    Program {
        init,
        accept_at_eoi: vec![NONE, NONE, 0],
        instructions: VmInsts {
            byte_sets: vec![],
            branch_table: vec![],
            insts: vec![Inst::Byte(b'a'), Inst::Byte(b'b'), Inst::Acc(0)],
        },
    }
}

/// `ab` as a table: states 0 -a-> 1 -b-> 2, and state 2 accepts.
fn table_ab(init: InitStates) -> Program<TableInsts> {
    let mut table = vec![u32::MAX; 3 * 256];
    table[b'a' as usize] = 1;
    table[256 + b'b' as usize] = 2;
    Program {
        init,
        accept_at_eoi: vec![NONE, NONE, 0],
        instructions: TableInsts { table, accept: vec![NONE, NONE, 0] },
    }
}

/// `ab` that is accepted only at the end of the input.
fn vm_ab_at_end() -> Program<VmInsts> {
    Program {
        init: InitStates::Constant(0),
        accept_at_eoi: vec![NONE, NONE, 0],
        instructions: VmInsts {
            byte_sets: vec![],
            branch_table: vec![],
            insts: vec![Inst::Byte(b'a'), Inst::Byte(b'b'), Inst::Byte(0xff)],
        },
    }
}

fn both<I: Instructions>(prog: Program<I>, pref: Prefix, text: &str) -> (Option<(usize, usize)>, Option<(usize, usize)>) {
    let mut bt = BacktrackingEngine::new(prog.clone(), pref.duplicate());
    let mut th = ThreadedEngine::new(prog, pref);
    (bt.shortest_match(text), th.shortest_match(text))
}

#[test]
fn vm_program_matches_in_the_middle() {
    assert_eq!(both(vm_ab(InitStates::Constant(0)), Prefix::Empty, "xxabz"), (Some((2, 4)), Some((2, 4))));
    assert_eq!(both(vm_ab(InitStates::Constant(0)), Prefix::Byte(b'a'), "xxabz"), (Some((2, 4)), Some((2, 4))));
}

#[test]
fn vm_program_matches_at_the_end() {
    assert_eq!(both(vm_ab(InitStates::Constant(0)), Prefix::Empty, "xxab"), (Some((2, 4)), Some((2, 4))));
}

#[test]
fn vm_program_without_match() {
    assert_eq!(both(vm_ab(InitStates::Constant(0)), Prefix::Empty, "xxa"), (None, None));
    assert_eq!(both(vm_ab(InitStates::Constant(0)), Prefix::Empty, ""), (None, None));
}

#[test]
fn table_program_matches() {
    assert_eq!(both(table_ab(InitStates::Constant(0)), Prefix::Byte(b'a'), "cab"), (Some((1, 3)), Some((1, 3))));
    assert_eq!(both(table_ab(InitStates::Constant(0)), Prefix::Lit(b"ab".to_vec()), "ccabd"), (Some((2, 4)), Some((2, 4))));
    assert_eq!(both(table_ab(InitStates::Constant(0)), Prefix::Empty, "cba"), (None, None));
}

#[test]
fn anchored_programs_match_only_at_zero() {
    assert_eq!(both(table_ab(InitStates::Anchored(0)), Prefix::Empty, "abx"), (Some((0, 2)), Some((0, 2))));
    assert_eq!(both(table_ab(InitStates::Anchored(0)), Prefix::Empty, "xab"), (None, None));
    // The prefix plays no part.
    assert_eq!(both(table_ab(InitStates::Anchored(0)), Prefix::Byte(b'z'), "abx"), (Some((0, 2)), Some((0, 2))));
}

#[test]
fn end_of_input_acceptance() {
    assert_eq!(both(vm_ab_at_end(), Prefix::Empty, "xab"), (Some((1, 3)), Some((1, 3))));
    assert_eq!(both(vm_ab_at_end(), Prefix::Empty, "abx"), (None, None));
    assert_eq!(both(vm_ab_at_end(), Prefix::Empty, "ab"), (Some((0, 2)), Some((0, 2))));
}

#[test]
fn empty_program_never_matches() {
    let prog = Program {
        init: InitStates::Constant(0),
        accept_at_eoi: vec![],
        instructions: VmInsts { byte_sets: vec![], branch_table: vec![], insts: vec![] },
    };
    assert_eq!(both(prog, Prefix::Empty, "abc"), (None, None));
}

#[test]
fn threaded_falls_back_to_an_empty_match_at_the_end() {
    // One state, which dies on every byte and accepts at the end of the input.
    let prog = Program {
        init: InitStates::Constant(0),
        accept_at_eoi: vec![0],
        instructions: TableInsts { table: vec![u32::MAX; 256], accept: vec![NONE] },
    };
    let mut th = ThreadedEngine::new(prog.clone(), Prefix::Byte(b'q'));
    assert_eq!(th.shortest_match("abc"), Some((3, 3)));
    let mut bt = BacktrackingEngine::new(prog, Prefix::Byte(b'q'));
    assert_eq!(bt.shortest_match("abc"), None);
}

#[test]
fn lookback_is_applied() {
    // Accepts one byte after `ab`, looking back one byte.
    let mut table = vec![u32::MAX; 3 * 256];
    table[b'a' as usize] = 1;
    table[256 + b'b' as usize] = 2;
    let prog = Program {
        init: InitStates::Constant(0),
        accept_at_eoi: vec![NONE, NONE, 1],
        instructions: TableInsts { table, accept: vec![NONE, NONE, 1] },
    };
    // The backtracking engine moves the end back; the threaded engine moves the start.
    assert_eq!(both(prog.clone(), Prefix::Empty, "xabz"), (Some((1, 2)), Some((0, 3))));
    assert_eq!(both(prog, Prefix::Empty, "xab"), (Some((1, 2)), Some((1, 2))));
}

#[test]
fn engines_are_reusable_and_clonable() {
    let mut th = ThreadedEngine::new(vm_ab(InitStates::Constant(0)), Prefix::Empty);
    assert_eq!(th.shortest_match("ab"), Some((0, 2)));
    assert_eq!(th.shortest_match("zzab"), Some((2, 4)));
    let mut copy = th.clone_box();
    assert_eq!(copy.shortest_match("xab"), Some((1, 3)));
    let bt = BacktrackingEngine::new(vm_ab(InitStates::Constant(0)), Prefix::Empty);
    let mut bcopy = bt.clone_box();
    assert_eq!(bcopy.shortest_match("xab"), Some((1, 3)));
}

#[test]
fn duplicated_programs_step_alike() {
    let prog = table_ab(InitStates::Anchored(0));
    let copy = prog.duplicate_program();
    assert!(matches!(copy.init, InitStates::Anchored(0)));
    assert_eq!(copy.accept_at_eoi, prog.accept_at_eoi);
    assert_eq!(copy.step(0, b"a"), prog.step(0, b"a"));
    assert_eq!(copy.step(1, b"b"), (Some(2), None));
    let vm = vm_ab(InitStates::Constant(0)).instructions;
    assert_eq!(vm.duplicate(), vm);
}

#[test]
fn clones_are_independent() {
    let mut th = ThreadedEngine::new(vm_ab(InitStates::Constant(0)), Prefix::Byte(b'a'));
    let mut copy = th.clone_box();
    assert_eq!(copy.shortest_match("zzzab"), Some((3, 5)));
    assert_eq!(th.shortest_match("ab"), Some((0, 2)));
    assert_eq!(copy.shortest_match("ab"), Some((0, 2)));
    assert_eq!(th.shortest_match("zzzab"), Some((3, 5)));
}

#[test]
fn lookback_never_moves_the_end_before_the_start() {
    // Accepts one byte after `ab`, looking back five bytes.
    let mut table = vec![u32::MAX; 3 * 256];
    table[b'a' as usize] = 1;
    table[256 + b'b' as usize] = 2;
    let prog = Program {
        init: InitStates::Constant(0),
        accept_at_eoi: vec![NONE, NONE, 5],
        instructions: TableInsts { table, accept: vec![NONE, NONE, 5] },
    };
    assert_eq!(both(prog.clone(), Prefix::Empty, "xabz"), (Some((1, 1)), Some((0, 3))));
    assert_eq!(both(prog, Prefix::Empty, "xab"), (Some((1, 1)), Some((1, 1))));
}
