use vstd::prelude::*;
use crate::Engine;
use crate::prefix::{
    lemma_same_prefix_scans, lemma_search_step, same_prefix, scan_inv, scan_measure, spec_search, spec_start, Prefix, PrefixScanner,
    PrefixSearcher, ScanState,
};
use crate::program::{same_program, Instructions, Program};

verus! {

/// `pos - bytes_ago`, or 0 where that would be negative.
pub open spec fn back_from(pos: int, bytes_ago: usize) -> usize {
    if pos >= bytes_ago {
        (pos - bytes_ago) as usize
    } else {
        0
    }
}

/// The end `e` of a match that starts at `start`, moved no earlier than the start.
pub open spec fn end_not_before(start: usize, e: usize) -> usize {
    if e < start {
        start
    } else {
        e
    }
}

/// The end of the match of a single thread that runs from `state` at `pos`, if it accepts.
pub open spec fn run_from<Insts: Instructions>(prog: Program<Insts>, input: Seq<u8>, pos: int, state: int) -> Option<usize>
    decreases input.len() - pos,
{
    if pos >= input.len() {
        match prog.spec_eoi(state) {
            Some(b) => Some(back_from(input.len() as int, b)),
            None => None,
        }
    } else {
        let (next, acc) = prog.spec_step(state, input[pos]);
        match acc {
            Some(b) => Some(back_from(pos, b)),
            None => match next {
                Some(n) => run_from(prog, input, pos + 1, n as int),
                None => None,
            },
        }
    }
}

/// The match from the first candidate, from cursor `st` on, whose thread accepts.
pub open spec fn first_candidate_match<Insts: Instructions>(
    prog: Program<Insts>,
    prefix: Prefix,
    input: Seq<u8>,
    st: ScanState,
) -> Option<(usize, usize)>
    decreases scan_measure(prefix, input, st),
{
    let (c, st2) = spec_search(prefix, input, st);
    match c {
        None => None,
        Some(c) => match run_from(prog, input, c.end_pos as int, c.end_state as int) {
            Some(e) => Some((c.start_pos, end_not_before(c.start_pos, e))),
            None => if scan_measure(prefix, input, st2) < scan_measure(prefix, input, st) {
                first_candidate_match(prog, prefix, input, st2)
            } else {
                None
            },
        },
    }
}

/// What the backtracking engine reports for `input`.
pub open spec fn backtracking_match<Insts: Instructions>(
    prog: Program<Insts>,
    prefix: Prefix,
    input: Seq<u8>,
) -> Option<(usize, usize)> {
    if prog.spec_num_states() == 0 {
        None
    } else if prog.init.spec_anchored() is Some {
        match run_from(prog, input, 0, 0) {
            Some(e) => Some((0, e)),
            None => None,
        }
    } else {
        first_candidate_match(prog, prefix, input, spec_start(prefix, input))
    }
}

pub proof fn lemma_run_from_in_range<Insts: Instructions>(prog: Program<Insts>, input: Seq<u8>, pos: int, state: int)
    requires
        0 <= pos,
    ensures
        run_from(prog, input, pos, state) matches Some(e) ==> e <= input.len(),
    decreases input.len() - pos,
{
    if pos < input.len() {
        let (next, acc) = prog.spec_step(state, input[pos]);
        if acc is None {
            if let Some(n) = next {
                lemma_run_from_in_range(prog, input, pos + 1, n as int);
            }
        }
    }
}

pub proof fn lemma_first_candidate_in_range<Insts: Instructions>(
    prog: Program<Insts>,
    prefix: Prefix,
    input: Seq<u8>,
    st: ScanState,
)
    requires
        scan_inv(prefix, input, st),
    ensures
        first_candidate_match(prog, prefix, input, st) matches Some((a, b)) ==> a <= b <= input.len(),
    decreases scan_measure(prefix, input, st),
{
    lemma_search_step(prefix, input, st);
    let (c, st2) = spec_search(prefix, input, st);
    if let Some(c) = c {
        lemma_run_from_in_range(prog, input, c.end_pos as int, c.end_state as int);
        if scan_measure(prefix, input, st2) < scan_measure(prefix, input, st) {
            lemma_first_candidate_in_range(prog, prefix, input, st2);
        }
    }
}

proof fn lemma_run_from_same<Insts: Instructions>(p: Program<Insts>, q: Program<Insts>, input: Seq<u8>, pos: int, state: int)
    requires
        same_program(p, q),
    ensures
        run_from(p, input, pos, state) == run_from(q, input, pos, state),
    decreases input.len() - pos,
{
    if pos < input.len() {
        assert(p.spec_step(state, input[pos]) == q.spec_step(state, input[pos]));
        if let Some(n) = p.spec_step(state, input[pos]).0 {
            lemma_run_from_same(p, q, input, pos + 1, n as int);
        }
    }
}

proof fn lemma_first_candidate_same<Insts: Instructions>(
    p: Program<Insts>,
    q: Program<Insts>,
    x: Prefix,
    y: Prefix,
    input: Seq<u8>,
    st: ScanState,
)
    requires
        same_program(p, q),
        same_prefix(x, y),
    ensures
        first_candidate_match(p, x, input, st) == first_candidate_match(q, y, input, st),
    decreases scan_measure(x, input, st),
{
    lemma_same_prefix_scans(x, y, input, st, 0);
    let (c, st2) = spec_search(x, input, st);
    lemma_same_prefix_scans(x, y, input, st2, 0);
    if let Some(c) = c {
        lemma_run_from_same(p, q, input, c.end_pos as int, c.end_state as int);
        if scan_measure(x, input, st2) < scan_measure(x, input, st) {
            lemma_first_candidate_same(p, q, x, y, input, st2);
        }
    }
}

/// The backtracking engine reports the same for programs and prefixes with the same contents.
pub proof fn lemma_backtracking_same<Insts: Instructions>(
    p: Program<Insts>,
    q: Program<Insts>,
    x: Prefix,
    y: Prefix,
    input: Seq<u8>,
)
    requires
        same_program(p, q),
        same_prefix(x, y),
    ensures
        backtracking_match(p, x, input) == backtracking_match(q, y, input),
{
    lemma_run_from_same(p, q, input, 0, 0);
    lemma_same_prefix_scans(x, y, input, spec_start(x, input), 0);
    lemma_first_candidate_same(p, q, x, y, input, spec_start(x, input));
}

/// A matcher that tries the candidates of its prefix in order, one thread each.
#[derive(Debug)]
pub struct BacktrackingEngine<Insts: Instructions> {
    prog: Program<Insts>,
    prefix: Prefix,
}

impl<Insts: Instructions> BacktrackingEngine<Insts> {
    pub closed spec fn spec_prog(&self) -> Program<Insts> {
        self.prog
    }

    pub closed spec fn spec_prefix(&self) -> Prefix {
        self.prefix
    }

    pub fn new(prog: Program<Insts>, pref: Prefix) -> (r: BacktrackingEngine<Insts>)
        ensures
            r.spec_prog() == prog,
            r.spec_prefix() == pref,
    {
        BacktrackingEngine { prog, prefix: pref }
    }

    fn shortest_match_from(&self, input: &[u8], pos: usize, state: usize) -> (r: Option<usize>)
        ensures
            r == run_from(self.prog, input@, pos as int, state as int),
    {
        let len = input.len();
        let mut cur = state;
        let mut p = pos;
        while p < len
            invariant
                len == input@.len(),
                pos <= p,
                run_from(self.prog, input@, pos as int, state as int) == run_from(self.prog, input@, p as int, cur as int),
            decreases len - p,
        {
            let rest = vstd::slice::slice_subrange(input, p, len);
            assert(rest@[0] == input@[p as int]);
            let (next, acc) = self.prog.step(cur, rest);
            match acc {
                Some(bytes_ago) => {
                    // The lookback may reach past the start of the input.
                    return Some(p.saturating_sub(bytes_ago));
                },
                None => match next {
                    Some(n) => {
                        cur = n;
                    },
                    None => {
                        return None;
                    },
                },
            }
            p = p + 1;
        }
        match self.prog.check_eoi(cur) {
            Some(bytes_ago) => Some(len.saturating_sub(bytes_ago)),
            None => None,
        }
    }

    fn shortest_match_from_searcher(&self, input: &[u8], search: &mut PrefixScanner) -> (r: Option<(usize, usize)>)
        requires
            old(search).inv(),
            old(search).spec_input() == input@,
        ensures
            r == first_candidate_match(self.prog, old(search).spec_prefix(), input@, old(search).spec_state()),
    {
        let ghost prefix = search.spec_prefix();
        let ghost goal = first_candidate_match(self.prog, prefix, input@, search.spec_state());
        loop
            invariant
                search.inv(),
                search.spec_input() == input@,
                search.spec_prefix() == prefix,
                goal == first_candidate_match(self.prog, prefix, input@, search.spec_state()),
                goal == first_candidate_match(self.prog, old(search).spec_prefix(), input@, old(search).spec_state()),
            decreases scan_measure(prefix, input@, search.spec_state()),
        {
            let ghost st = search.spec_state();
            proof {
                search.lemma_scan_inv();
                lemma_search_step(prefix, input@, st);
            }
            let found = search.search();
            match found {
                None => {
                    return None;
                },
                Some(res) => {
                    if let Some(end) = self.shortest_match_from(input, res.end_pos, res.end_state) {
                        // A lookback moves the end no earlier than the start.
                        let end = if end < res.start_pos {
                            res.start_pos
                        } else {
                            end
                        };
                        return Some((res.start_pos, end));
                    }
                },
            }
        }
    }
}

impl<Insts: Instructions> Engine for BacktrackingEngine<Insts> {
    open spec fn spec_shortest_match(&self, text: Seq<u8>) -> Option<(usize, usize)> {
        backtracking_match(self.spec_prog(), self.spec_prefix(), text)
    }

    fn shortest_match(&mut self, s: &str) -> (r: Option<(usize, usize)>) {
        let input = s.as_bytes();
        proof {
            lemma_run_from_in_range(self.prog, input@, 0, 0);
        }
        if self.prog.num_states() == 0 {
            return None;
        } else if self.prog.init.anchored().is_some() {
            return match self.shortest_match_from(input, 0, 0) {
                Some(e) => Some((0, e)),
                None => None,
            };
        }
        let mut searcher = self.prefix.make_searcher(input);
        proof {
            searcher.lemma_scan_inv();
            lemma_first_candidate_in_range(self.prog, self.prefix, input@, searcher.spec_state());
        }
        self.shortest_match_from_searcher(input, &mut searcher)
    }

    fn clone_box(&self) -> (r: Box<Self>) {
        let r = BacktrackingEngine { prog: self.prog.duplicate_program(), prefix: self.prefix.duplicate() };
        proof {
            assert forall|t: Seq<u8>| #[trigger] r.spec_shortest_match(t) == self.spec_shortest_match(t) by {
                lemma_backtracking_same(r.prog, self.prog, r.prefix, self.prefix, t);
            }
        }
        Box::new(r)
    }
}

} // verus!
