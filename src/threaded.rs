use vstd::prelude::*;
use crate::Engine;
use crate::backtracking::{
    back_from, backtracking_match, end_not_before, first_candidate_match, lemma_first_candidate_in_range,
    lemma_run_from_in_range, run_from,
};
use crate::prefix::{
    lemma_same_prefix_scans, lemma_search_step, same_prefix, scan_inv, scan_measure, spec_search,
    spec_skip, spec_start, Prefix, PrefixScanner, PrefixSearcher, ScanState,
};
use crate::program::{same_program, InitStates, Instructions, Program};

verus! {

/// The state `s` has a thread in `ts`.
pub open spec fn has_state(ts: Seq<(usize, usize)>, s: usize) -> bool {
    exists|i: int| 0 <= i < ts.len() && #[trigger] ts[i].0 == s
}

/// `ts` with a thread in state `s` that started at `start`, unless `s` already has one.
pub open spec fn add_thread(ts: Seq<(usize, usize)>, s: usize, start: usize) -> Seq<(usize, usize)> {
    if has_state(ts, s) {
        ts
    } else {
        ts.push((s, start))
    }
}

/// The better of the match so far and a new one: the new one wins only with an earlier start.
pub open spec fn better(acc: Option<(usize, usize)>, cand: (usize, usize)) -> Option<(usize, usize)> {
    match acc {
        Some(a) => if cand.0 < a.0 {
            Some(cand)
        } else {
            acc
        },
        None => Some(cand),
    }
}

/// One thread `t` steps on the byte `b` at `pos`: the next generation and the best match after it.
pub open spec fn step_thread<Insts: Instructions>(
    prog: Program<Insts>,
    t: (usize, usize),
    b: u8,
    pos: int,
    next: Seq<(usize, usize)>,
    acc: Option<(usize, usize)>,
) -> (Seq<(usize, usize)>, Option<(usize, usize)>) {
    let (ns, a) = prog.spec_step(t.0 as int, b);
    let acc2 = match a {
        Some(bytes_ago) => better(acc, (back_from(t.1 as int, bytes_ago), pos as usize)),
        None => acc,
    };
    let next2 = match ns {
        Some(n) => add_thread(next, n, t.1),
        None => next,
    };
    (next2, acc2)
}

/// All threads of `cur`, in order, step on the byte `b` at `pos`.
pub open spec fn step_threads<Insts: Instructions>(
    prog: Program<Insts>,
    cur: Seq<(usize, usize)>,
    b: u8,
    pos: int,
    next: Seq<(usize, usize)>,
    acc: Option<(usize, usize)>,
) -> (Seq<(usize, usize)>, Option<(usize, usize)>)
    decreases cur.len(),
{
    if cur.len() == 0 {
        (next, acc)
    } else {
        let (n2, a2) = step_threads(prog, cur.drop_last(), b, pos, next, acc);
        step_thread(prog, cur.last(), b, pos, n2, a2)
    }
}

/// The first thread of `ts` started at or after `start`, or there is none.
pub open spec fn starts_after(ts: Seq<(usize, usize)>, start: usize) -> bool {
    ts.len() == 0 || ts[0].1 >= start
}

/// The match of the first thread of `ts` that accepts at the end of an input of length `len`.
pub open spec fn eoi_match<Insts: Instructions>(prog: Program<Insts>, ts: Seq<(usize, usize)>, len: int) -> Option<(usize, usize)>
    decreases ts.len(),
{
    if ts.len() == 0 {
        None
    } else {
        match prog.spec_eoi(ts[0].0 as int) {
            Some(b) => Some((ts[0].1, end_not_before(ts[0].1, back_from(len, b)))),
            None => eoi_match(prog, ts.drop_first(), len),
        }
    }
}

/// The result of the lockstep simulation from threads `cur` at `pos`, with best match `acc`
/// so far and prefix cursor `st`.
pub open spec fn threaded_from<Insts: Instructions>(
    prog: Program<Insts>,
    prefix: Prefix,
    input: Seq<u8>,
    st: ScanState,
    cur: Seq<(usize, usize)>,
    acc: Option<(usize, usize)>,
    pos: int,
) -> Option<(usize, usize)>
    decreases input.len() - pos,
{
    if pos < 0 || pos >= input.len() {
        eoi_match(prog, cur, input.len() as int)
    } else {
        let (next, acc2) = step_threads(prog, cur, input[pos], pos, Seq::empty(), acc);
        if acc2 matches Some(a) && starts_after(next, a.0) {
            acc2
        } else if next.len() == 0 {
            let st2 = spec_skip(prefix, input, st, pos + 1);
            let (c, st3) = spec_search(prefix, input, st2);
            match c {
                None => None,
                Some(c) => if pos < c.start_pos <= input.len() {
                    threaded_from(prog, prefix, input, st3, seq![(0usize, c.start_pos)], acc2, c.start_pos as int)
                } else {
                    None
                },
            }
        } else {
            threaded_from(prog, prefix, input, st, add_thread(next, 0, (pos + 1) as usize), acc2, pos + 1)
        }
    }
}

/// The single thread of an anchored program, from `state` at `pos`.
pub open spec fn anchored_from<Insts: Instructions>(prog: Program<Insts>, input: Seq<u8>, pos: int, state: int) -> Option<(usize, usize)>
    decreases input.len() - pos,
{
    if pos >= input.len() {
        match prog.spec_eoi(state) {
            Some(b) => Some((0, back_from(input.len() as int, b))),
            None => None,
        }
    } else {
        let (next, acc) = prog.spec_step(state, input[pos]);
        match acc {
            Some(_) => Some((0, pos as usize)),
            None => match next {
                Some(n) => anchored_from(prog, input, pos + 1, n as int),
                None => None,
            },
        }
    }
}

/// What the threaded engine reports for `input`.
pub open spec fn threaded_match<Insts: Instructions>(prog: Program<Insts>, prefix: Prefix, input: Seq<u8>) -> Option<(usize, usize)> {
    if prog.spec_num_states() == 0 {
        None
    } else {
        let r = if prog.init.spec_anchored() is Some {
            anchored_from(prog, input, 0, 0)
        } else {
            let (c, st) = spec_search(prefix, input, spec_start(prefix, input));
            match c {
                None => None,
                Some(c) => threaded_from(prog, prefix, input, st, seq![(0usize, c.start_pos)], None, c.start_pos as int),
            }
        };
        if r is None {
            prog.spec_empty_match_at_end(input.len() as int)
        } else {
            r
        }
    }
}

proof fn lemma_eoi_match_in_range<Insts: Instructions>(prog: Program<Insts>, ts: Seq<(usize, usize)>, len: int)
    requires
        forall|i: int| 0 <= i < ts.len() ==> (#[trigger] ts[i]).1 <= len,
    ensures
        eoi_match(prog, ts, len) matches Some((a, b)) ==> a <= b <= len,
    decreases ts.len(),
{
    if ts.len() > 0 && prog.spec_eoi(ts[0].0 as int) is None {
        assert forall|i: int| 0 <= i < ts.drop_first().len() implies (#[trigger] ts.drop_first()[i]).1 <= len by {
            assert(ts.drop_first()[i] == ts[i + 1]);
        }
        lemma_eoi_match_in_range(prog, ts.drop_first(), len);
    }
}

proof fn lemma_step_threads_in_range<Insts: Instructions>(
    prog: Program<Insts>,
    cur: Seq<(usize, usize)>,
    b: u8,
    pos: int,
    next: Seq<(usize, usize)>,
    acc: Option<(usize, usize)>,
)
    requires
        0 <= pos <= usize::MAX,
        forall|i: int| 0 <= i < cur.len() ==> (#[trigger] cur[i]).1 <= pos,
        forall|i: int| 0 <= i < next.len() ==> (#[trigger] next[i]).1 <= pos,
        acc matches Some(a) ==> a.0 <= a.1 <= pos,
    ensures
        forall|i: int| 0 <= i < step_threads(prog, cur, b, pos, next, acc).0.len()
            ==> (#[trigger] step_threads(prog, cur, b, pos, next, acc).0[i]).1 <= pos,
        step_threads(prog, cur, b, pos, next, acc).1 matches Some(a) ==> a.0 <= a.1 <= pos,
    decreases cur.len(),
{
    if cur.len() > 0 {
        let init = cur.drop_last();
        assert forall|i: int| 0 <= i < init.len() implies (#[trigger] init[i]).1 <= pos by {
            assert(init[i] == cur[i]);
        }
        lemma_step_threads_in_range(prog, init, b, pos, next, acc);
        let (n2, a2) = step_threads(prog, init, b, pos, next, acc);
        let t = cur.last();
        assert(t == cur[cur.len() - 1]);
        let (n3, a3) = step_thread(prog, t, b, pos, n2, a2);
        assert forall|i: int| 0 <= i < n3.len() implies (#[trigger] n3[i]).1 <= pos by {
            if i < n2.len() {
                assert(n3[i] == n2[i]);
            }
        }
    }
}

proof fn lemma_threaded_from_in_range<Insts: Instructions>(
    prog: Program<Insts>,
    prefix: Prefix,
    input: Seq<u8>,
    st: ScanState,
    cur: Seq<(usize, usize)>,
    acc: Option<(usize, usize)>,
    pos: int,
)
    requires
        0 <= pos <= input.len(),
        input.len() < usize::MAX,
        forall|i: int| 0 <= i < cur.len() ==> (#[trigger] cur[i]).1 <= pos,
        acc matches Some(a) ==> a.0 <= a.1 <= pos,
    ensures
        threaded_from(prog, prefix, input, st, cur, acc, pos) matches Some((a, b)) ==> a <= b <= input.len(),
    decreases input.len() - pos,
{
    if pos >= input.len() {
        lemma_eoi_match_in_range(prog, cur, input.len() as int);
    } else {
        lemma_step_threads_in_range(prog, cur, input[pos], pos, Seq::empty(), acc);
        let (next, acc2) = step_threads(prog, cur, input[pos], pos, Seq::empty(), acc);
        if acc2 matches Some(a) && starts_after(next, a.0) {
        } else if next.len() == 0 {
            let st2 = spec_skip(prefix, input, st, pos + 1);
            let (c, st3) = spec_search(prefix, input, st2);
            if let Some(c) = c {
                if pos < c.start_pos <= input.len() {
                    let one = seq![(0usize, c.start_pos)];
                    assert forall|i: int| 0 <= i < one.len() implies (#[trigger] one[i]).1 <= c.start_pos by {}
                    lemma_threaded_from_in_range(prog, prefix, input, st3, one, acc2, c.start_pos as int);
                }
            }
        } else {
            let more = add_thread(next, 0, (pos + 1) as usize);
            assert forall|i: int| 0 <= i < more.len() implies (#[trigger] more[i]).1 <= pos + 1 by {
                if i < next.len() {
                    assert(more[i] == next[i]);
                }
            }
            lemma_threaded_from_in_range(prog, prefix, input, st, more, acc2, pos + 1);
        }
    }
}

proof fn lemma_anchored_from_in_range<Insts: Instructions>(prog: Program<Insts>, input: Seq<u8>, pos: int, state: int)
    requires
        0 <= pos,
        input.len() < usize::MAX,
    ensures
        anchored_from(prog, input, pos, state) matches Some((a, b)) ==> a == 0 && b <= input.len(),
    decreases input.len() - pos,
{
    if pos < input.len() {
        let (next, acc) = prog.spec_step(state, input[pos]);
        if acc is None {
            if let Some(n) = next {
                lemma_anchored_from_in_range(prog, input, pos + 1, n as int);
            }
        }
    }
}

proof fn lemma_step_threads_same<Insts: Instructions>(
    p: Program<Insts>,
    q: Program<Insts>,
    cur: Seq<(usize, usize)>,
    b: u8,
    pos: int,
    next: Seq<(usize, usize)>,
    acc: Option<(usize, usize)>,
)
    requires
        same_program(p, q),
    ensures
        step_threads(p, cur, b, pos, next, acc) == step_threads(q, cur, b, pos, next, acc),
    decreases cur.len(),
{
    if cur.len() > 0 {
        lemma_step_threads_same(p, q, cur.drop_last(), b, pos, next, acc);
        assert(p.spec_step(cur.last().0 as int, b) == q.spec_step(cur.last().0 as int, b));
    }
}

proof fn lemma_eoi_match_same<Insts: Instructions>(p: Program<Insts>, q: Program<Insts>, ts: Seq<(usize, usize)>, len: int)
    requires
        same_program(p, q),
    ensures
        eoi_match(p, ts, len) == eoi_match(q, ts, len),
    decreases ts.len(),
{
    if ts.len() > 0 {
        lemma_eoi_match_same(p, q, ts.drop_first(), len);
    }
}

proof fn lemma_threaded_from_same<Insts: Instructions>(
    p: Program<Insts>,
    q: Program<Insts>,
    x: Prefix,
    y: Prefix,
    input: Seq<u8>,
    st: ScanState,
    cur: Seq<(usize, usize)>,
    acc: Option<(usize, usize)>,
    pos: int,
)
    requires
        same_program(p, q),
        same_prefix(x, y),
    ensures
        threaded_from(p, x, input, st, cur, acc, pos) == threaded_from(q, y, input, st, cur, acc, pos),
    decreases input.len() - pos,
{
    if pos < 0 || pos >= input.len() {
        lemma_eoi_match_same(p, q, cur, input.len() as int);
    } else {
        lemma_step_threads_same(p, q, cur, input[pos], pos, Seq::empty(), acc);
        let (next, acc2) = step_threads(p, cur, input[pos], pos, Seq::empty(), acc);
        if acc2 matches Some(a) && starts_after(next, a.0) {
        } else if next.len() == 0 {
            let st2 = spec_skip(x, input, st, pos + 1);
            lemma_same_prefix_scans(x, y, input, st, pos + 1);
            lemma_same_prefix_scans(x, y, input, st2, 0);
            let (c, st3) = spec_search(x, input, st2);
            if let Some(c) = c {
                if pos < c.start_pos <= input.len() {
                    lemma_threaded_from_same(p, q, x, y, input, st3, seq![(0usize, c.start_pos)], acc2, c.start_pos as int);
                }
            }
        } else {
            lemma_threaded_from_same(p, q, x, y, input, st, add_thread(next, 0, (pos + 1) as usize), acc2, pos + 1);
        }
    }
}

proof fn lemma_anchored_from_same<Insts: Instructions>(p: Program<Insts>, q: Program<Insts>, input: Seq<u8>, pos: int, state: int)
    requires
        same_program(p, q),
    ensures
        anchored_from(p, input, pos, state) == anchored_from(q, input, pos, state),
    decreases input.len() - pos,
{
    if pos < input.len() {
        assert(p.spec_step(state, input[pos]) == q.spec_step(state, input[pos]));
        if let Some(n) = p.spec_step(state, input[pos]).0 {
            lemma_anchored_from_same(p, q, input, pos + 1, n as int);
        }
    }
}

/// The threaded engine reports the same for programs and prefixes with the same contents.
pub proof fn lemma_threaded_same<Insts: Instructions>(p: Program<Insts>, q: Program<Insts>, x: Prefix, y: Prefix, input: Seq<u8>)
    requires
        same_program(p, q),
        same_prefix(x, y),
    ensures
        threaded_match(p, x, input) == threaded_match(q, y, input),
{
    lemma_anchored_from_same(p, q, input, 0, 0);
    let st0 = spec_start(x, input);
    lemma_same_prefix_scans(x, y, input, st0, 0);
    let (c, st) = spec_search(x, input, st0);
    if let Some(c) = c {
        lemma_threaded_from_same(p, q, x, y, input, st, seq![(0usize, c.start_pos)], None, c.start_pos as int);
    }
}

#[derive(Clone, Copy, Debug, PartialEq, Eq)]
struct Thread {
    state: usize,
    start_idx: usize,
}

/// One generation of threads, at most one per state.
#[derive(Debug)]
struct Threads {
    threads: Vec<Thread>,
    /// For each state, whether a thread from `done` on is in it.
    states: Vec<u8>,
}

/// What adding a thread in `state` that started at `start` does: it is appended and marked
/// present unless the state is marked present already, and then nothing changes.
spec fn added(before: Threads, after: Threads, state: usize, start: usize) -> bool {
    if before.states@[state as int] == 0 {
        &&& after.threads@ == before.threads@.push(Thread { state, start_idx: start })
        &&& after.states@ == before.states@.update(state as int, 1)
    } else {
        &&& after.threads@ == before.threads@
        &&& after.states@ == before.states@
    }
}

impl Threads {
    spec fn view(&self) -> Seq<(usize, usize)> {
        self.threads@.map_values(|t: Thread| (t.state, t.start_idx))
    }

    /// The threads have distinct states below `n`, and the presence table marks the states
    /// of the threads from `done` on.
    spec fn wf_from(&self, n: nat, done: int) -> bool {
        &&& self.states@.len() == n
        &&& 0 <= done <= self.threads@.len()
        &&& forall|s: int| 0 <= s < n ==> #[trigger] self.states@[s] <= 1
        &&& forall|i: int| 0 <= i < self.threads@.len() ==> (#[trigger] self.threads@[i]).state < n
        &&& forall|i: int, j: int|
            #![trigger self.threads@[i], self.threads@[j]]
            0 <= i < j < self.threads@.len() ==> self.threads@[i].state != self.threads@[j].state
        &&& forall|s: int|
            0 <= s < n ==> (#[trigger] self.states@[s] != 0 <==> exists|i: int|
                done <= i < self.threads@.len() && #[trigger] self.threads@[i].state == s)
    }

    fn with_capacity(n: usize) -> (r: Threads)
        ensures
            r.wf_from(n as nat, 0),
            r.view().len() == 0,
    {
        let mut states: Vec<u8> = Vec::new();
        while states.len() < n
            invariant
                states@.len() <= n,
                forall|s: int| 0 <= s < states@.len() ==> #[trigger] states@[s] == 0,
            decreases n - states@.len(),
        {
            states.push(0);
        }
        Threads { threads: Vec::with_capacity(n), states }
    }

    fn add(&mut self, state: usize, start_idx: usize)
        requires
            old(self).wf_from(old(self).states@.len(), 0),
            state < old(self).states@.len(),
        ensures
            final(self).wf_from(old(self).states@.len(), 0),
            final(self).view() == add_thread(old(self).view(), state, start_idx),
            added(*old(self), *final(self), state, start_idx),
    {
        let ghost n = self.states@.len();
        proof {
            if has_state(self.view(), state) {
                let i = choose|i: int| 0 <= i < self.view().len() && #[trigger] self.view()[i].0 == state;
                assert(self.threads@[i].state == state);
            }
        }
        if self.states[state] == 0 {
            proof {
                assert forall|i: int| 0 <= i < self.view().len() implies #[trigger] self.view()[i].0 != state by {
                    assert(self.threads@[i].state == self.view()[i].0);
                }
            }
            self.states.set(state, 1);
            self.threads.push(Thread { state, start_idx });
            proof {
                assert(self.view() =~= old(self).view().push((state, start_idx)));
                assert forall|s: int| 0 <= s < n implies (#[trigger] self.states@[s] != 0 <==> exists|i: int|
                    0 <= i < self.threads@.len() && #[trigger] self.threads@[i].state == s) by {
                    if s == state {
                        assert(self.threads@[self.threads@.len() - 1].state == s);
                    } else if self.states@[s] != 0 {
                        let i = choose|i: int| 0 <= i < old(self).threads@.len() && #[trigger] old(self).threads@[i].state == s;
                        assert(self.threads@[i].state == s);
                    } else {
                        if exists|i: int| 0 <= i < self.threads@.len() && #[trigger] self.threads@[i].state == s {
                            let i = choose|i: int| 0 <= i < self.threads@.len() && #[trigger] self.threads@[i].state == s;
                            assert(i < old(self).threads@.len());
                            assert(old(self).threads@[i].state == s);
                        }
                    }
                }
            }
        } else {
            proof {
                let i = choose|i: int| 0 <= i < self.threads@.len() && #[trigger] self.threads@[i].state == state;
                assert(self.view()[i].0 == state);
            }
        }
    }

    fn starts_after(&self, start_idx: usize) -> (r: bool)
        ensures
            r == starts_after(self.view(), start_idx),
    {
        self.threads.len() == 0 || self.threads[0].start_idx >= start_idx
    }
}

/// The current and the next generation of threads.
#[derive(Debug)]
struct ProgThreads {
    cur: Threads,
    next: Threads,
}

impl ProgThreads {
    /// Both generations are valid for `n` states and the next one is empty.
    spec fn ready(&self, n: nat) -> bool {
        &&& self.cur.wf_from(n, 0)
        &&& self.next.wf_from(n, 0)
        &&& self.next.view().len() == 0
    }

    fn with_capacity(n: usize) -> (r: ProgThreads)
        ensures
            r.ready(n as nat),
            r.cur.view().len() == 0,
    {
        ProgThreads { cur: Threads::with_capacity(n), next: Threads::with_capacity(n) }
    }

    /// Makes the next generation current, and empties the next one.
    fn swap(&mut self)
        requires
            old(self).cur.wf_from(old(self).cur.states@.len(), old(self).cur.threads@.len() as int),
            old(self).next.wf_from(old(self).cur.states@.len(), 0),
        ensures
            final(self).ready(old(self).cur.states@.len()),
            final(self).cur == old(self).next,
    {
        std::mem::swap(&mut self.cur, &mut self.next);
        self.next.threads.clear();
        proof {
            let n = self.next.states@.len();
            assert forall|s: int| 0 <= s < n implies #[trigger] self.next.states@[s] == 0 by {
                if self.next.states@[s] != 0 {
                    let i = choose|i: int| old(self).cur.threads@.len() <= i < old(self).cur.threads@.len()
                        && #[trigger] old(self).cur.threads@[i].state == s;
                }
            }
            assert(self.next.view() =~= Seq::<(usize, usize)>::empty());
        }
    }

    /// Empties both generations.
    fn clear(&mut self)
        requires
            old(self).cur.states@.len() == old(self).next.states@.len(),
        ensures
            final(self).ready(old(self).cur.states@.len()),
            final(self).cur.view().len() == 0,
    {
        let ghost n = self.cur.states@.len();
        self.cur.threads.clear();
        self.next.threads.clear();
        let mut i: usize = 0;
        while i < self.cur.states.len()
            invariant
                self.cur.states@.len() == n,
                self.cur.threads@.len() == 0,
                self.next.states@.len() == n,
                self.next.threads@.len() == 0,
                forall|s: int| 0 <= s < i ==> #[trigger] self.cur.states@[s] == 0,
            decreases n - i,
        {
            self.cur.states.set(i, 0);
            i = i + 1;
        }
        let mut i: usize = 0;
        while i < self.next.states.len()
            invariant
                self.next.states@.len() == n,
                self.next.threads@.len() == 0,
                self.cur.states@.len() == n,
                self.cur.threads@.len() == 0,
                forall|s: int| 0 <= s < n ==> #[trigger] self.cur.states@[s] == 0,
                forall|s: int| 0 <= s < i ==> #[trigger] self.next.states@[s] == 0,
            decreases n - i,
        {
            self.next.states.set(i, 0);
            i = i + 1;
        }
        proof {
            assert(self.cur.view() =~= Seq::<(usize, usize)>::empty());
            assert(self.next.view() =~= Seq::<(usize, usize)>::empty());
        }
    }
}

/// A matcher that runs all live threads of its program in lockstep.
#[derive(Debug)]
pub struct ThreadedEngine<Insts: Instructions> {
    prog: Program<Insts>,
    /// Scratch space, reused from one search to the next.
    threads: ProgThreads,
    prefix: Prefix,
}

impl<Insts: Instructions> ThreadedEngine<Insts> {
    pub closed spec fn spec_prog(&self) -> Program<Insts> {
        self.prog
    }

    pub closed spec fn spec_prefix(&self) -> Prefix {
        self.prefix
    }

    pub fn new(prog: Program<Insts>, pref: Prefix) -> (r: ThreadedEngine<Insts>)
        ensures
            r.spec_prog() == prog,
            r.spec_prefix() == pref,
    {
        let len = prog.num_states();
        ThreadedEngine { prog, threads: ProgThreads::with_capacity(len), prefix: pref }
    }

    /// Steps thread `i` of the current generation on the byte at `pos`.
    fn advance_thread(
        prog: &Program<Insts>,
        threads: &mut ProgThreads,
        acc: &mut Option<(usize, usize)>,
        i: usize,
        input: &[u8],
        pos: usize,
    )
        requires
            old(threads).cur.states@.len() == prog.spec_num_states(),
            old(threads).cur.wf_from(prog.spec_num_states(), i as int),
            old(threads).next.wf_from(prog.spec_num_states(), 0),
            i < old(threads).cur.threads@.len(),
            pos < input@.len(),
        ensures
            final(threads).cur.view() == old(threads).cur.view(),
            final(threads).cur.states@.len() == prog.spec_num_states(),
            final(threads).cur.wf_from(prog.spec_num_states(), i + 1),
            final(threads).next.wf_from(prog.spec_num_states(), 0),
            final(threads).cur.threads@ == old(threads).cur.threads@,
            final(threads).cur.states@ == old(threads).cur.states@.update(old(threads).cur.threads@[i as int].state as int, 0),
            match prog.spec_step(old(threads).cur.threads@[i as int].state as int, input@[pos as int]).0 {
                Some(m) => added(old(threads).next, final(threads).next, m, old(threads).cur.threads@[i as int].start_idx),
                None => final(threads).next.threads@ == old(threads).next.threads@
                    && final(threads).next.states@ == old(threads).next.states@,
            },
            (final(threads).next.view(), *final(acc)) == step_thread(
                *prog,
                old(threads).cur.view()[i as int],
                input@[pos as int],
                pos as int,
                old(threads).next.view(),
                *old(acc),
            ),
    {
        let ghost n = prog.spec_num_states();
        let state = threads.cur.threads[i].state;
        let start_idx = threads.cur.threads[i].start_idx;
        threads.cur.states.set(state, 0);
        proof {
            let cur = threads.cur;
            assert forall|s: int| 0 <= s < n implies (#[trigger] cur.states@[s] != 0 <==> exists|j: int|
                i + 1 <= j < cur.threads@.len() && #[trigger] cur.threads@[j].state == s) by {
                if s != state && cur.states@[s] != 0 {
                    let j = choose|j: int| i <= j < cur.threads@.len() && #[trigger] old(threads).cur.threads@[j].state == s;
                    assert(j != i);
                }
                if exists|j: int| i + 1 <= j < cur.threads@.len() && #[trigger] cur.threads@[j].state == s {
                    let j = choose|j: int| i + 1 <= j < cur.threads@.len() && #[trigger] cur.threads@[j].state == s;
                    assert(cur.threads@[i as int].state != cur.threads@[j].state);
                }
            }
        }
        let rest = vstd::slice::slice_subrange(input, pos, input.len());
        assert(rest@[0] == input@[pos as int]);
        let (next_state, accept) = prog.step(state, rest);
        proof {
            prog.lemma_step_in_range(state as int, input@[pos as int]);
        }
        if let Some(bytes_ago) = accept {
            // The lookback may reach past the start of the input.
            let acc_idx = start_idx.saturating_sub(bytes_ago);
            let better = match acc {
                Some(a) => acc_idx < a.0,
                None => true,
            };
            if better {
                *acc = Some((acc_idx, pos));
            }
        }
        if let Some(next_state) = next_state {
            threads.next.add(next_state, start_idx);
        }
    }

    /// Runs the lockstep simulation, seeded from the candidates of `skip`.
    fn shortest_match_(
        prog: &Program<Insts>,
        threads: &mut ProgThreads,
        s: &[u8],
        skip: &mut PrefixScanner,
    ) -> (r: Option<(usize, usize)>)
        requires
            prog.spec_num_states() > 0,
            old(threads).cur.states@.len() == prog.spec_num_states(),
            old(threads).next.states@.len() == prog.spec_num_states(),
            old(skip).inv(),
            old(skip).spec_input() == s@,
        ensures
            r == ({
                let (c, st) = spec_search(old(skip).spec_prefix(), s@, old(skip).spec_state());
                match c {
                    None => None,
                    Some(c) => threaded_from(
                        *prog,
                        old(skip).spec_prefix(),
                        s@,
                        st,
                        seq![(0usize, c.start_pos)],
                        None,
                        c.start_pos as int,
                    ),
                }
            }),
    {
        let ghost n = prog.spec_num_states();
        let ghost prefix = skip.spec_prefix();
        let len = s.len();
        let mut acc: Option<(usize, usize)> = None;
        proof {
            skip.lemma_scan_inv();
            lemma_search_step(prefix, s@, skip.spec_state());
        }
        let mut pos = match skip.search() {
            // Always start at the beginning of the prefix: new threads may be needed while
            // matching it.
            Some(x) => x.start_pos,
            None => return None,
        };
        threads.clear();
        threads.cur.add(0, pos);
        proof {
            assert(threads.cur.view() =~= seq![(0usize, pos)]);
        }
        let ghost goal = threaded_from(*prog, prefix, s@, skip.spec_state(), threads.cur.view(), acc, pos as int);
        while pos < len
            invariant
                goal == ({
                    let (c, st) = spec_search(old(skip).spec_prefix(), s@, old(skip).spec_state());
                    match c {
                        None => None,
                        Some(c) => threaded_from(
                            *prog,
                            old(skip).spec_prefix(),
                            s@,
                            st,
                            seq![(0usize, c.start_pos)],
                            None,
                            c.start_pos as int,
                        ),
                    }
                }),
                n == prog.spec_num_states(),
                n > 0,
                len == s@.len(),
                pos <= len,
                skip.inv(),
                skip.spec_input() == s@,
                skip.spec_prefix() == prefix,
                threads.ready(n),
                goal == threaded_from(*prog, prefix, s@, skip.spec_state(), threads.cur.view(), acc, pos as int),
            decreases len - pos,
        {
            let ghost cur0 = threads.cur.view();
            let ghost acc0 = acc;
            let mut i: usize = 0;
            while i < threads.cur.threads.len()
                invariant
                    n == prog.spec_num_states(),
                    pos < len,
                    len == s@.len(),
                    0 <= i <= threads.cur.threads@.len(),
                    threads.cur.view() == cur0,
                    threads.cur.states@.len() == n,
                    threads.cur.wf_from(n, i as int),
                    threads.next.wf_from(n, 0),
                    (threads.next.view(), acc) == step_threads(
                        *prog,
                        cur0.take(i as int),
                        s@[pos as int],
                        pos as int,
                        Seq::empty(),
                        acc0,
                    ),
                decreases threads.cur.threads@.len() - i,
            {
                proof {
                    assert(cur0.take(i + 1).drop_last() =~= cur0.take(i as int));
                    assert(cur0.take(i + 1).last() == cur0[i as int]);
                }
                Self::advance_thread(prog, threads, &mut acc, i, s, pos);
                i = i + 1;
            }
            proof {
                assert(cur0.take(i as int) =~= cur0);
            }
            threads.swap();

            // A thread accepted and no live thread started at or before it: stop early.
            if let Some(a) = acc {
                if threads.cur.starts_after(a.0) {
                    return acc;
                }
            }

            // Out of threads: skip ahead to the next candidate, but always advance by at
            // least one byte.
            pos = pos + 1;
            if threads.cur.threads.len() == 0 {
                skip.skip_to(pos);
                proof {
                    skip.lemma_scan_inv();
                    lemma_search_step(prefix, s@, skip.spec_state());
                }
                if let Some(search_result) = skip.search() {
                    pos = search_result.start_pos;
                    threads.cur.add(0, pos);
                    proof {
                        assert(threads.cur.view() =~= seq![(0usize, pos)]);
                    }
                } else {
                    return None;
                }
            } else {
                threads.cur.add(0, pos);
            }
        }
        proof {
            let v = threads.cur.view();
            assert(v.subrange(0, v.len() as int) =~= v);
        }
        let ghost result = goal;
        let mut i: usize = 0;
        while i < threads.cur.threads.len()
            invariant
                result == ({
                    let (c, st) = spec_search(old(skip).spec_prefix(), s@, old(skip).spec_state());
                    match c {
                        None => None,
                        Some(c) => threaded_from(
                            *prog,
                            old(skip).spec_prefix(),
                            s@,
                            st,
                            seq![(0usize, c.start_pos)],
                            None,
                            c.start_pos as int,
                        ),
                    }
                }),
                len == s@.len(),
                pos >= len,
                threads.cur.wf_from(n, 0),
                0 <= i <= threads.cur.threads@.len(),
                result == eoi_match(*prog, threads.cur.view().subrange(i as int, threads.cur.view().len() as int), len as int),
            decreases threads.cur.threads@.len() - i,
        {
            let th = threads.cur.threads[i];
            proof {
                let v = threads.cur.view();
                assert(v.subrange(i as int, v.len() as int).drop_first() =~= v.subrange(i + 1, v.len() as int));
                assert(v.subrange(i as int, v.len() as int)[0] == (th.state, th.start_idx));
            }
            if let Some(bytes_ago) = prog.check_eoi(th.state) {
                // A lookback moves the end no earlier than the start.
                let end = len.saturating_sub(bytes_ago);
                let end = if end < th.start_idx {
                    th.start_idx
                } else {
                    end
                };
                return Some((th.start_idx, end));
            }
            i = i + 1;
        }
        None
    }

    /// Runs the single thread of an anchored program from the start of the input.
    fn anchored_match(prog: &Program<Insts>, input: &[u8]) -> (r: Option<(usize, usize)>)
        ensures
            r == anchored_from(*prog, input@, 0, 0),
    {
        let len = input.len();
        let mut state: usize = 0;
        let mut pos: usize = 0;
        while pos < len
            invariant
                len == input@.len(),
                anchored_from(*prog, input@, 0, 0) == anchored_from(*prog, input@, pos as int, state as int),
            decreases len - pos,
        {
            let rest = vstd::slice::slice_subrange(input, pos, len);
            assert(rest@[0] == input@[pos as int]);
            let (next, acc) = prog.step(state, rest);
            if acc.is_some() {
                return Some((0, pos));
            }
            match next {
                Some(n) => {
                    state = n;
                },
                None => {
                    return None;
                },
            }
            pos = pos + 1;
        }
        match prog.check_eoi(state) {
            Some(bytes_ago) => Some((0, len.saturating_sub(bytes_ago))),
            None => None,
        }
    }
}

impl<Insts: Instructions> Engine for ThreadedEngine<Insts> {
    open spec fn spec_shortest_match(&self, text: Seq<u8>) -> Option<(usize, usize)> {
        threaded_match(self.spec_prog(), self.spec_prefix(), text)
    }

    fn shortest_match(&mut self, s: &str) -> (r: Option<(usize, usize)>) {
        let n = self.prog.num_states();
        if n == 0 {
            return None;
        }
        let s = s.as_bytes();
        let ret = if self.prog.init.anchored().is_some() {
            proof {
                lemma_anchored_from_in_range(self.prog, s@, 0, 0);
            }
            Self::anchored_match(&self.prog, s)
        } else {
            if self.threads.cur.states.len() != n || self.threads.next.states.len() != n {
                self.threads = ProgThreads::with_capacity(n);
            }
            let mut searcher = self.prefix.make_searcher(s);
            proof {
                searcher.lemma_scan_inv();
                lemma_search_step(self.prefix, s@, searcher.spec_state());
                let (c, st) = spec_search(self.prefix, s@, searcher.spec_state());
                if let Some(c) = c {
                    let one = seq![(0usize, c.start_pos)];
                    assert forall|i: int| 0 <= i < one.len() implies (#[trigger] one[i]).1 <= c.start_pos by {}
                    lemma_threaded_from_in_range(self.prog, self.prefix, s@, st, one, None, c.start_pos as int);
                }
            }
            Self::shortest_match_(&self.prog, &mut self.threads, s, &mut searcher)
        };
        if ret.is_none() {
            self.prog.check_empty_match_at_end(s)
        } else {
            ret
        }
    }

    fn clone_box(&self) -> (r: Box<Self>) {
        let prog = self.prog.duplicate_program();
        let n = prog.num_states();
        let r = ThreadedEngine { prog, threads: ProgThreads::with_capacity(n), prefix: self.prefix.duplicate() };
        proof {
            assert forall|t: Seq<u8>| #[trigger] r.spec_shortest_match(t) == self.spec_shortest_match(t) by {
                lemma_threaded_same(r.prog, self.prog, r.prefix, self.prefix, t);
            }
        }
        Box::new(r)
    }
}

/// No step of `prog` accepts: it accepts only at the end of the input.
pub open spec fn accepts_only_at_end<Insts: Instructions>(prog: Program<Insts>) -> bool {
    forall|s: int, b: u8| (#[trigger] prog.spec_step(s, b)).1 is None
}

/// No step of `prog` accepts with a lookback.
pub open spec fn no_step_lookback<Insts: Instructions>(prog: Program<Insts>) -> bool {
    forall|s: int, b: u8| (#[trigger] prog.spec_step(s, b)).1 matches Some(x) ==> x == 0
}

/// The state that a single thread from `state` at `pos` is in at the end of the input, if it
/// lives that long.
pub open spec fn state_at_end<Insts: Instructions>(prog: Program<Insts>, input: Seq<u8>, pos: int, state: int) -> Option<int>
    decreases input.len() - pos,
{
    if pos >= input.len() {
        Some(state)
    } else {
        match prog.spec_step(state, input[pos]).0 {
            Some(n) => state_at_end(prog, input, pos + 1, n as int),
            None => None,
        }
    }
}

/// A program that accepts only at the end of the input matches from a thread exactly when the
/// thread lives to the end of the input, in a state that accepts there; in both engines.
pub proof fn lemma_end_of_input_acceptance<Insts: Instructions>(prog: Program<Insts>, input: Seq<u8>, pos: int, state: int)
    requires
        accepts_only_at_end(prog),
    ensures
        run_from(prog, input, pos, state) == match state_at_end(prog, input, pos, state) {
            Some(f) => match prog.spec_eoi(f) {
                Some(b) => Some(back_from(input.len() as int, b)),
                None => None,
            },
            None => None,
        },
        anchored_from(prog, input, pos, state) == match state_at_end(prog, input, pos, state) {
            Some(f) => match prog.spec_eoi(f) {
                Some(b) => Some((0usize, back_from(input.len() as int, b))),
                None => None,
            },
            None => None,
        },
    decreases input.len() - pos,
{
    if pos < input.len() {
        assert(prog.spec_step(state, input[pos]).1 is None);
        if let Some(n) = prog.spec_step(state, input[pos]).0 {
            lemma_end_of_input_acceptance(prog, input, pos + 1, n as int);
        }
    }
}

/// Every end-of-input acceptance of `prog` has no lookback.
pub open spec fn no_end_lookback<Insts: Instructions>(prog: Program<Insts>) -> bool {
    forall|s: int| (#[trigger] prog.spec_eoi(s)) matches Some(b) ==> b == 0
}

proof fn lemma_step_threads_keep_best<Insts: Instructions>(
    prog: Program<Insts>,
    cur: Seq<(usize, usize)>,
    b: u8,
    pos: int,
    next: Seq<(usize, usize)>,
    acc: Option<(usize, usize)>,
)
    requires
        accepts_only_at_end(prog),
    ensures
        step_threads(prog, cur, b, pos, next, acc).1 == acc,
    decreases cur.len(),
{
    if cur.len() > 0 {
        lemma_step_threads_keep_best(prog, cur.drop_last(), b, pos, next, acc);
        assert(prog.spec_step(cur.last().0 as int, b).1 is None);
    }
}

proof fn lemma_eoi_match_at_end<Insts: Instructions>(prog: Program<Insts>, ts: Seq<(usize, usize)>, len: int)
    requires
        no_end_lookback(prog),
        0 <= len <= usize::MAX,
    ensures
        eoi_match(prog, ts, len) matches Some((_, e)) ==> e >= len,
    decreases ts.len(),
{
    if ts.len() > 0 {
        assert(prog.spec_eoi(ts[0].0 as int) matches Some(b) ==> b == 0);
        lemma_eoi_match_at_end(prog, ts.drop_first(), len);
    }
}

proof fn lemma_threaded_from_at_end<Insts: Instructions>(
    prog: Program<Insts>,
    prefix: Prefix,
    input: Seq<u8>,
    st: ScanState,
    cur: Seq<(usize, usize)>,
    pos: int,
)
    requires
        accepts_only_at_end(prog),
        no_end_lookback(prog),
        input.len() < usize::MAX,
    ensures
        threaded_from(prog, prefix, input, st, cur, None, pos) matches Some((_, e)) ==> e >= input.len(),
    decreases input.len() - pos,
{
    if pos < 0 || pos >= input.len() {
        lemma_eoi_match_at_end(prog, cur, input.len() as int);
    } else {
        lemma_step_threads_keep_best(prog, cur, input[pos], pos, Seq::empty(), None);
        let (next, acc2) = step_threads(prog, cur, input[pos], pos, Seq::empty(), None);
        if next.len() == 0 {
            let (c, st3) = spec_search(prefix, input, spec_skip(prefix, input, st, pos + 1));
            if let Some(c) = c {
                if pos < c.start_pos <= input.len() {
                    lemma_threaded_from_at_end(prog, prefix, input, st3, seq![(0usize, c.start_pos)], c.start_pos as int);
                }
            }
        } else {
            lemma_threaded_from_at_end(prog, prefix, input, st, add_thread(next, 0, (pos + 1) as usize), pos + 1);
        }
    }
}

proof fn lemma_first_candidate_at_end<Insts: Instructions>(prog: Program<Insts>, prefix: Prefix, input: Seq<u8>, st: ScanState)
    requires
        input.len() < usize::MAX,
        accepts_only_at_end(prog),
        no_end_lookback(prog),
    ensures
        first_candidate_match(prog, prefix, input, st) matches Some((_, e)) ==> e >= input.len(),
    decreases scan_measure(prefix, input, st),
{
    let (c, st2) = spec_search(prefix, input, st);
    if let Some(c) = c {
        lemma_end_of_input_acceptance(prog, input, c.end_pos as int, c.end_state as int);
        if let Some(f) = state_at_end(prog, input, c.end_pos as int, c.end_state as int) {
            assert(prog.spec_eoi(f) matches Some(b) ==> b == 0);
        }
        if scan_measure(prefix, input, st2) < scan_measure(prefix, input, st) {
            lemma_first_candidate_at_end(prog, prefix, input, st2);
        }
    }
}

/// A program that accepts only at the end of the input, with no lookback there, has every
/// match that either engine reports end exactly at the end of the input. (The scan cursor
/// that `make_searcher` starts with is valid.)
pub proof fn lemma_end_only_matches_reach_the_end<Insts: Instructions>(prog: Program<Insts>, prefix: Prefix, text: Seq<u8>)
    requires
        accepts_only_at_end(prog),
        no_end_lookback(prog),
        scan_inv(prefix, text, spec_start(prefix, text)),
    ensures
        backtracking_match(prog, prefix, text) matches Some((_, e)) ==> e == text.len(),
        threaded_match(prog, prefix, text) matches Some((_, e)) ==> e == text.len(),
{
    lemma_end_of_input_acceptance(prog, text, 0, 0);
    if let Some(f) = state_at_end(prog, text, 0, 0) {
        assert(prog.spec_eoi(f) matches Some(b) ==> b == 0);
    }
    lemma_run_from_in_range(prog, text, 0, 0);
    lemma_anchored_from_in_range(prog, text, 0, 0);
    lemma_first_candidate_at_end(prog, prefix, text, spec_start(prefix, text));
    lemma_first_candidate_in_range(prog, prefix, text, spec_start(prefix, text));
    lemma_search_step(prefix, text, spec_start(prefix, text));
    let (c, st) = spec_search(prefix, text, spec_start(prefix, text));
    if let Some(c) = c {
        lemma_threaded_from_at_end(prog, prefix, text, st, seq![(0usize, c.start_pos)], c.start_pos as int);
        let one = seq![(0usize, c.start_pos)];
        assert forall|i: int| 0 <= i < one.len() implies (#[trigger] one[i]).1 <= c.start_pos by {}
        lemma_threaded_from_in_range(prog, prefix, text, st, one, None, c.start_pos as int);
    }
}

proof fn lemma_single_thread_agree<Insts: Instructions>(prog: Program<Insts>, input: Seq<u8>, pos: int, state: int)
    requires
        no_step_lookback(prog),
        0 <= pos,
        input.len() < usize::MAX,
    ensures
        anchored_from(prog, input, pos, state) == match run_from(prog, input, pos, state) {
            Some(e) => Some((0usize, e)),
            None => None,
        },
    decreases input.len() - pos,
{
    if pos < input.len() {
        let (next, acc) = prog.spec_step(state, input[pos]);
        if acc is None {
            if let Some(n) = next {
                lemma_single_thread_agree(prog, input, pos + 1, n as int);
            }
        }
    }
}

/// An anchored program never reads its prefix: each engine reports the same with any two
/// prefixes, and every match that it reports starts at 0.
pub proof fn lemma_anchored_ignores_prefix<Insts: Instructions>(prog: Program<Insts>, p1: Prefix, p2: Prefix, text: Seq<u8>)
    requires
        prog.init.spec_anchored() is Some,
        text.len() < usize::MAX,
    ensures
        backtracking_match(prog, p1, text) == backtracking_match(prog, p2, text),
        threaded_match(prog, p1, text) == threaded_match(prog, p2, text),
        backtracking_match(prog, p1, text) matches Some((a, _)) ==> a == 0,
        threaded_match(prog, p1, text) matches Some((a, _)) ==> a == 0,
{
    lemma_anchored_from_in_range(prog, text, 0, 0);
}

/// Both engines report the same for an anchored program that starts in state 0 and whose
/// steps accept with no lookback, whatever their prefixes.
pub proof fn lemma_engines_agree_when_anchored<Insts: Instructions>(prog: Program<Insts>, p1: Prefix, p2: Prefix, text: Seq<u8>)
    requires
        prog.init == InitStates::Anchored(0),
        no_step_lookback(prog),
        text.len() < usize::MAX,
    ensures
        backtracking_match(prog, p1, text) == threaded_match(prog, p2, text),
{
    lemma_single_thread_agree(prog, text, 0, 0);
}

} // verus!
