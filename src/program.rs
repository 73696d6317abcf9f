use vstd::prelude::*;

verus! {

/// Something that can report the shortest match of a pattern in a string.
pub trait RegexSearcher {
    fn shortest_match(&self, haystack: &str) -> Option<(usize, usize)>;
}

/// Where a program may start.
#[derive(Clone, Copy, Debug, PartialEq, Eq)]
pub enum InitStates {
    /// The given state is a valid start only at input position 0.
    Anchored(usize),
    /// The given state is a valid start at every input position.
    Constant(usize),
}

impl InitStates {
    pub open spec fn spec_state_at_pos(&self, pos: int) -> Option<usize> {
        match *self {
            InitStates::Anchored(s) => if pos == 0 { Some(s) } else { None },
            InitStates::Constant(s) => Some(s),
        }
    }

    pub open spec fn spec_anchored(&self) -> Option<usize> {
        match *self {
            InitStates::Anchored(s) => Some(s),
            InitStates::Constant(_) => None,
        }
    }

    /// Returns the starting state if we are at the given pos in the input.
    pub fn state_at_pos(&self, _input: &[u8], pos: usize) -> (r: Option<usize>)
        ensures
            r == self.spec_state_at_pos(pos as int),
    {
        match self {
            InitStates::Anchored(s) => if pos == 0 {
                Some(*s)
            } else {
                None
            },
            InitStates::Constant(s) => Some(*s),
        }
    }

    /// If we can start only at the beginning of the input, returns the start state.
    pub fn anchored(&self) -> (r: Option<usize>)
        ensures
            r == self.spec_anchored(),
    {
        match self {
            InitStates::Anchored(s) => Some(*s),
            InitStates::Constant(_) => None,
        }
    }
}

/// One instruction of a bytecode program.
#[derive(Clone, Copy, Debug, PartialEq, Eq)]
pub enum Inst {
    /// Consume the next byte if it equals this one.
    Byte(u8),
    /// Consume the next byte if it is in the 256-entry set starting at this offset.
    ByteSet(usize),
    /// Accept, with the given data, without consuming input.
    Acc(usize),
    /// Go to the state found in the 256-entry branch table starting at this offset.
    Branch(usize),
}

/// A next state, kept only when it is a valid state index.
pub open spec fn live_state(next: int, num_states: nat) -> Option<usize> {
    if 0 <= next < num_states {
        Some(next as usize)
    } else {
        None
    }
}

/// A value of a dense table, where `usize::MAX` means "no value".
pub open spec fn unless_max(v: usize) -> Option<usize> {
    if v != usize::MAX {
        Some(v)
    } else {
        None
    }
}

/// An automaton program that is executed one input byte at a time.
pub trait Instructions: Sized + Clone {
    /// The number of states.
    spec fn spec_num_states(&self) -> nat;

    /// The pair `(next_state, accept)` for a step in `state` on the byte `b`.
    spec fn spec_step(&self, state: int, b: u8) -> (Option<usize>, Option<usize>);

    /// A next state is always a valid state.
    proof fn lemma_step_in_range(&self, state: int, b: u8)
        ensures
            self.spec_step(state, b).0 matches Some(n) ==> n < self.spec_num_states(),
    ;

    /// Returns (next_state, accept), where
    ///   - next_state is the next state to try
    ///   - accept gives some data associated with the acceptance.
    fn step(&self, state: usize, input: &[u8]) -> (r: (Option<usize>, Option<usize>))
        requires
            input@.len() > 0,
        ensures
            r == self.spec_step(state as int, input@[0]),
    ;

    /// The number of states in this program.
    fn num_states(&self) -> (r: usize)
        ensures
            r == self.spec_num_states(),
    ;

    /// A copy that steps as this program does.
    fn duplicate(&self) -> (r: Self)
        ensures
            r.spec_num_states() == self.spec_num_states(),
            forall|state: int, b: u8| #[trigger] r.spec_step(state, b) == self.spec_step(state, b),
    ;
}

/// A program: instructions together with its start and its end-of-input acceptance.
#[derive(Clone, Debug)]
pub struct Program<Insts: Instructions> {
    pub init: InitStates,
    /// For each state, the data to accept with if the input ends there, or `usize::MAX`.
    pub accept_at_eoi: Vec<usize>,
    pub instructions: Insts,
}

impl<Insts: Instructions> Instructions for Program<Insts> {
    open spec fn spec_num_states(&self) -> nat {
        self.instructions.spec_num_states()
    }

    open spec fn spec_step(&self, state: int, b: u8) -> (Option<usize>, Option<usize>) {
        self.instructions.spec_step(state, b)
    }

    proof fn lemma_step_in_range(&self, state: int, b: u8) {
        self.instructions.lemma_step_in_range(state, b);
    }

    fn step(&self, state: usize, input: &[u8]) -> (r: (Option<usize>, Option<usize>)) {
        self.instructions.step(state, input)
    }

    fn num_states(&self) -> (r: usize) {
        self.instructions.num_states()
    }

    fn duplicate(&self) -> (r: Self) {
        self.duplicate_program()
    }
}

/// Two programs start alike, step alike and accept alike at the end of the input.
pub open spec fn same_program<Insts: Instructions>(p: Program<Insts>, q: Program<Insts>) -> bool {
    &&& p.init == q.init
    &&& p.accept_at_eoi@ == q.accept_at_eoi@
    &&& p.spec_num_states() == q.spec_num_states()
    &&& forall|state: int, b: u8| #[trigger] p.spec_step(state, b) == q.spec_step(state, b)
}

impl<Insts: Instructions> Program<Insts> {
    /// A copy of this program.
    pub fn duplicate_program(&self) -> (r: Self)
        ensures
            same_program(r, *self),
    {
        Program {
            init: self.init,
            accept_at_eoi: vstd::slice::slice_to_vec(self.accept_at_eoi.as_slice()),
            instructions: self.instructions.duplicate(),
        }
    }

    /// The data to accept with if the input ends in `state`.
    pub open spec fn spec_eoi(&self, state: int) -> Option<usize> {
        if 0 <= state < self.accept_at_eoi@.len() {
            unless_max(self.accept_at_eoi@[state])
        } else {
            None
        }
    }

    /// The empty match at the end of an input of length `len`, if there is one.
    pub open spec fn spec_empty_match_at_end(&self, len: int) -> Option<(usize, usize)> {
        match self.init.spec_state_at_pos(len) {
            Some(s) => if self.spec_eoi(s as int) is Some {
                Some((len as usize, len as usize))
            } else {
                None
            },
            None => None,
        }
    }

    /// If the program should accept at the end of input in state `state`, returns the data
    /// associated with the match.
    pub fn check_eoi(&self, state: usize) -> (r: Option<usize>)
        ensures
            r == self.spec_eoi(state as int),
    {
        if state < self.accept_at_eoi.len() && self.accept_at_eoi[state] != usize::MAX {
            Some(self.accept_at_eoi[state])
        } else {
            None
        }
    }

    /// If this program matches an empty match at the end of the input, returns it.
    pub fn check_empty_match_at_end(&self, input: &[u8]) -> (r: Option<(usize, usize)>)
        ensures
            r == self.spec_empty_match_at_end(input@.len() as int),
    {
        let pos = input.len();
        if let Some(state) = self.init.state_at_pos(input, pos) {
            if self.check_eoi(state).is_some() {
                return Some((pos, pos));
            }
        }
        None
    }

    /// The initial state when starting the program.
    pub fn init(&self) -> (r: &InitStates)
        ensures
            *r == self.init,
    {
        &self.init
    }
}

/// A bytecode program whose state is its instruction pointer.
#[derive(Clone, Debug, PartialEq)]
pub struct VmInsts {
    /// Byte sets, as 256-entry blocks.
    pub byte_sets: Vec<bool>,
    /// Branch tables, as 256-entry blocks; `u32::MAX` means "no transition".
    pub branch_table: Vec<u32>,
    pub insts: Vec<Inst>,
}

impl VmInsts {
    /// The next state that an instruction names, before the range check.
    pub open spec fn spec_target(&self, state: int, b: u8) -> Option<int> {
        match self.insts@[state] {
            Inst::Acc(_) => Some(state + 1),
            Inst::Byte(c) => if c == b {
                Some(state + 1)
            } else {
                None
            },
            Inst::ByteSet(idx) => {
                let k = idx + b;
                if k < self.byte_sets@.len() && self.byte_sets@[k] {
                    Some(state + 1)
                } else {
                    None
                }
            },
            Inst::Branch(idx) => {
                let k = idx + b;
                if k < self.branch_table@.len() && self.branch_table@[k] != u32::MAX {
                    Some(self.branch_table@[k] as int)
                } else {
                    None
                }
            },
        }
    }
}

impl Instructions for VmInsts {
    open spec fn spec_num_states(&self) -> nat {
        self.insts@.len()
    }

    open spec fn spec_step(&self, state: int, b: u8) -> (Option<usize>, Option<usize>) {
        if 0 <= state < self.insts@.len() {
            let next = match self.spec_target(state, b) {
                Some(n) => live_state(n, self.insts@.len()),
                None => None,
            };
            let acc = match self.insts@[state] {
                Inst::Acc(a) => Some(a),
                _ => None,
            };
            (next, acc)
        } else {
            (None, None)
        }
    }

    proof fn lemma_step_in_range(&self, state: int, b: u8) {
    }

    fn step(&self, state: usize, input: &[u8]) -> (r: (Option<usize>, Option<usize>)) {
        let n = self.insts.len();
        if state >= n {
            return (None, None);
        }
        let b = input[0] as usize;
        let target: Option<usize> = match self.insts[state] {
            Inst::Acc(_) => Some(state + 1),
            Inst::Byte(c) => if c == input[0] {
                Some(state + 1)
            } else {
                None
            },
            Inst::ByteSet(idx) => {
                if idx < self.byte_sets.len() && b < self.byte_sets.len() - idx
                    && self.byte_sets[idx + b] {
                    Some(state + 1)
                } else {
                    None
                }
            },
            Inst::Branch(idx) => {
                if idx < self.branch_table.len() && b < self.branch_table.len() - idx
                    && self.branch_table[idx + b] != u32::MAX {
                    Some(self.branch_table[idx + b] as usize)
                } else {
                    None
                }
            },
        };
        let next = match target {
            Some(t) => if t < n {
                Some(t)
            } else {
                None
            },
            None => None,
        };
        let acc = match self.insts[state] {
            Inst::Acc(a) => Some(a),
            _ => None,
        };
        (next, acc)
    }

    fn num_states(&self) -> (r: usize) {
        self.insts.len()
    }

    fn duplicate(&self) -> (r: Self) {
        VmInsts {
            byte_sets: vstd::slice::slice_to_vec(self.byte_sets.as_slice()),
            branch_table: vstd::slice::slice_to_vec(self.branch_table.as_slice()),
            insts: vstd::slice::slice_to_vec(self.insts.as_slice()),
        }
    }
}

/// A deterministic program implemented as a lookup table.
#[derive(Clone, Debug)]
pub struct TableInsts {
    /// A `256 x num_states`-long table; `u32::MAX` means "no transition".
    pub table: Vec<u32>,
    /// If `accept[st]` is not `usize::MAX`, then it gives some data to return if we match the
    /// input when we're in state `st`.
    pub accept: Vec<usize>,
}

impl Instructions for TableInsts {
    open spec fn spec_num_states(&self) -> nat {
        self.accept@.len()
    }

    open spec fn spec_step(&self, state: int, b: u8) -> (Option<usize>, Option<usize>) {
        if 0 <= state < self.accept@.len() {
            let k = state * 256 + b;
            let next = if (state + 1) * 256 <= self.table@.len() && self.table@[k] != u32::MAX {
                live_state(self.table@[k] as int, self.accept@.len())
            } else {
                None
            };
            (next, unless_max(self.accept@[state]))
        } else {
            (None, None)
        }
    }

    proof fn lemma_step_in_range(&self, state: int, b: u8) {
    }

    fn step(&self, state: usize, input: &[u8]) -> (r: (Option<usize>, Option<usize>)) {
        if state >= self.accept.len() {
            return (None, None);
        }
        let accept = if self.accept[state] != usize::MAX {
            Some(self.accept[state])
        } else {
            None
        };
        let next = if state < self.table.len() / 256 {
            let b = input[0] as usize;
            let t = self.table.len();
            assert(state * 256 + 256 <= t) by (nonlinear_arith)
                requires
                    state < t / 256,
            ;
            let cell = self.table[state * 256 + b];
            if cell != u32::MAX && (cell as usize) < self.accept.len() {
                Some(cell as usize)
            } else {
                None
            }
        } else {
            proof {
                let t = self.table@.len() as int;
                assert((state + 1) * 256 > t) by (nonlinear_arith)
                    requires
                        state >= t / 256,
                        t >= 0,
                ;
            }
            None
        };
        (next, accept)
    }

    fn num_states(&self) -> (r: usize) {
        self.accept.len()
    }

    fn duplicate(&self) -> (r: Self) {
        TableInsts {
            table: vstd::slice::slice_to_vec(self.table.as_slice()),
            accept: vstd::slice::slice_to_vec(self.accept.as_slice()),
        }
    }
}

} // verus!
