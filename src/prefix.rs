use vstd::prelude::*;
use aho_corasick::{AcAutomaton, Automaton, FullAcAutomaton};
use memmem::{Searcher, TwoWaySearcher};

verus! {

#[verifier::external_type_specification]
#[verifier::external_body]
#[verifier::reject_recursive_types(P)]
pub struct ExFullAcAutomaton<P>(FullAcAutomaton<P>);

/// The patterns of a multi-pattern automaton, in the order in which they were added.
pub uninterp spec fn ac_patterns(ac: FullAcAutomaton<Vec<u8>>) -> Seq<Seq<u8>>;

/// The overlapping matches `(start, end, pattern index)` that a multi-pattern automaton
/// over `pats` reports in `text`, in the order in which it reports them.
pub uninterp spec fn overlapping_matches(pats: Seq<Seq<u8>>, text: Seq<u8>) -> Seq<(usize, usize, usize)>;

/// `pat` occurs in `text` at offset `i`.
pub open spec fn occurs_at(text: Seq<u8>, pat: Seq<u8>, i: int) -> bool {
    0 <= i && i + pat.len() <= text.len() && text.subrange(i, i + pat.len()) == pat
}

/// The byte `c` is in the 256-entry set `bs`.
pub open spec fn in_set(bs: Seq<bool>, c: u8) -> bool {
    (c as int) < bs.len() && bs[c as int]
}

/// The first `i` in `from..to` with `p(i)`.
pub open spec fn first_from(p: spec_fn(int) -> bool, from: int, to: int) -> Option<int>
    decreases to - from,
{
    if from >= to {
        None
    } else if p(from) {
        Some(from)
    } else {
        first_from(p, from + 1, to)
    }
}

/// The offsets of `input` that hold the byte `b`.
pub open spec fn byte_at(input: Seq<u8>, b: u8) -> spec_fn(int) -> bool {
    |i: int| input[i] == b
}

/// The offsets of `input` that hold a byte of the set `bs`.
pub open spec fn set_byte_at(input: Seq<u8>, bs: Seq<bool>) -> spec_fn(int) -> bool {
    |i: int| in_set(bs, input[i])
}

/// The offsets of `input` at which `lit` occurs.
pub open spec fn lit_at(input: Seq<u8>, lit: Seq<u8>) -> spec_fn(int) -> bool {
    |i: int| occurs_at(input, lit, i)
}

/// The end of the maximal run of bytes of `bs` that starts at `pos`.
pub open spec fn run_end(bs: Seq<bool>, input: Seq<u8>, pos: int) -> int
    decreases input.len() - pos,
{
    if pos >= input.len() || !in_set(bs, input[pos]) {
        pos
    } else {
        run_end(bs, input, pos + 1)
    }
}

/// The occurrence `m`, as `(start, end, pattern index)`, is a true occurrence of a pattern.
pub open spec fn true_occurrence(pats: Seq<Seq<u8>>, text: Seq<u8>, m: (usize, usize, usize)) -> bool {
    &&& (m.2 as int) < pats.len()
    &&& m.1 == m.0 + pats[m.2 as int].len()
    &&& occurs_at(text, pats[m.2 as int], m.0 as int)
}

/// The match data, in order of reporting, are true and complete occurrences of `pats`.
pub open spec fn reports_overlapping(
    pats: Seq<Seq<u8>>,
    text: Seq<u8>,
    found: Seq<(usize, usize, usize)>,
) -> bool {
    &&& forall|k: int| 0 <= k < found.len() ==> true_occurrence(pats, text, #[trigger] found[k])
    &&& forall|k: int, l: int|
        #![trigger found[k], found[l]]
        0 <= k < l < found.len() ==> found[k].1 <= found[l].1
    &&& forall|p: int, s: int|
        0 <= p < pats.len() && pats[p].len() > 0 && #[trigger] occurs_at(text, pats[p], s)
            ==> exists|k: int|
            0 <= k < found.len() && #[trigger] found[k] == (s as usize, (s + pats[p].len()) as usize, p as usize)
}

/// Relies on memchr::memchr: the index of the first occurrence of a byte.
#[verifier::external_body]
fn find_byte(b: u8, hay: &[u8]) -> (r: Option<usize>)
    ensures
        match r {
            Some(i) => i < hay@.len() && hay@[i as int] == b && forall|j: int|
                0 <= j < i ==> hay@[j] != b,
            None => forall|j: int| 0 <= j < hay@.len() ==> hay@[j] != b,
        },
{
    memchr::memchr(b, hay)
}

/// Relies on memmem::TwoWaySearcher::search_in: the start of the first occurrence of the
/// needle (0 for an empty needle).
#[verifier::external_body]
fn find_lit(needle: &[u8], hay: &[u8]) -> (r: Option<usize>)
    ensures
        match r {
            Some(i) => occurs_at(hay@, needle@, i as int) && forall|j: int|
                0 <= j < i ==> !occurs_at(hay@, needle@, j),
            None => forall|j: int| !occurs_at(hay@, needle@, j),
        },
{
    TwoWaySearcher::new(needle).search_in(hay)
}

/// Relies on aho_corasick's AcAutomaton::new and FullAcAutomaton::new: the automaton
/// keeps its patterns in the order given.
#[verifier::external_body]
fn build_ac(pats: Vec<Vec<u8>>) -> (r: FullAcAutomaton<Vec<u8>>)
    ensures
        ac_patterns(r) == pats@.map_values(|p: Vec<u8>| p@),
{
    FullAcAutomaton::new(AcAutomaton::new(pats))
}

/// Relies on the derived `Clone` of aho_corasick's FullAcAutomaton: the copy has the same
/// patterns, in the same order.
#[verifier::external_body]
fn clone_ac(ac: &FullAcAutomaton<Vec<u8>>) -> (r: FullAcAutomaton<Vec<u8>>)
    ensures
        ac_patterns(r) == ac_patterns(*ac),
{
    ac.clone()
}

/// Relies on aho_corasick's Automaton::find_overlapping: every occurrence of every
/// non-empty pattern, in order of its end, as `(start, end, pattern index)`.
#[verifier::external_body]
fn ac_find_overlapping(ac: &FullAcAutomaton<Vec<u8>>, text: &[u8]) -> (r: Vec<(usize, usize, usize)>)
    ensures
        r@ == overlapping_matches(ac_patterns(*ac), text@),
        reports_overlapping(ac_patterns(*ac), text@, r@),
{
    ac.find_overlapping(text).map(|m| (m.start, m.end, m.pati)).collect()
}

/// A precomputed scanner for the places where a match can begin; `duplicate` copies it.
#[derive(Debug)]
pub enum Prefix {
    /// Every offset is a candidate.
    Empty,
    /// Offsets of bytes in a 256-entry set.
    ByteSet(Vec<bool>),
    /// Offsets of one byte.
    Byte(u8),
    /// Offsets of a literal.
    Lit(Vec<u8>),
    /// Several literals, each with the state to resume from after it.
    Ac(FullAcAutomaton<Vec<u8>>, Vec<usize>),
    /// The maximal run of bytes of a 256-entry set at the cursor.
    LoopWhile(Vec<bool>),
}

/// Two prefixes are of one kind and hold the same bytes, literals and resume states.
pub open spec fn same_prefix(x: Prefix, y: Prefix) -> bool {
    match x {
        Prefix::Empty => y is Empty,
        Prefix::Byte(a) => y == Prefix::Byte(a),
        Prefix::ByteSet(a) => y matches Prefix::ByteSet(b) && a@ == b@,
        Prefix::Lit(a) => y matches Prefix::Lit(b) && a@ == b@,
        Prefix::LoopWhile(a) => y matches Prefix::LoopWhile(b) && a@ == b@,
        Prefix::Ac(a, s) => y matches Prefix::Ac(b, t) && ac_patterns(a) == ac_patterns(b) && s@ == t@,
    }
}

/// One candidate region where a match may begin.
#[derive(Clone, Copy, Debug, PartialEq, Eq)]
pub struct PrefixResult {
    pub start_pos: usize,
    pub end_pos: usize,
    pub end_state: usize,
}

/// The cursor of a scan: the next offset, and for several literals all their occurrences
/// in the input, of which those from index `next` on that start at or after `pos` are
/// still to be reported.
pub struct ScanState {
    pub pos: int,
    pub next: int,
    pub found: Seq<(usize, usize, usize)>,
}

/// A zero-width candidate at `i` that resumes from the start state.
pub open spec fn candidate_at(i: int) -> PrefixResult {
    PrefixResult { start_pos: i as usize, end_pos: i as usize, end_state: 0 }
}

/// The state to resume from after literal `p`.
pub open spec fn resume_state(states: Seq<usize>, p: int) -> usize {
    if 0 <= p < states.len() {
        states[p]
    } else {
        0
    }
}

/// A zero-width candidate at the first offset in `from..to` with `p`, and the cursor past it.
pub open spec fn scan_first(st: ScanState, p: spec_fn(int) -> bool, to: int) -> (Option<PrefixResult>, ScanState) {
    match first_from(p, st.pos, to) {
        Some(i) => (Some(candidate_at(i)), ScanState { pos: i + 1, ..st }),
        None => (None, st),
    }
}

/// The indices of occurrences in `found` that start at or after `pos`.
pub open spec fn starts_from(found: Seq<(usize, usize, usize)>, pos: int) -> spec_fn(int) -> bool {
    |k: int| found[k].0 >= pos
}

/// The indices of occurrences in `found` that start after `pos`.
pub open spec fn starts_after(found: Seq<(usize, usize, usize)>, pos: int) -> spec_fn(int) -> bool {
    |k: int| found[k].0 > pos
}

/// The occurrences in `found` are in order of their starts.
pub open spec fn sorted_by_start(found: Seq<(usize, usize, usize)>) -> bool {
    forall|k: int, l: int| #![trigger found[k], found[l]] 0 <= k < l < found.len() ==> found[k].0 <= found[l].0
}

/// `sorted` with `m` inserted after every occurrence that starts no later than it.
pub open spec fn insert_by_start(sorted: Seq<(usize, usize, usize)>, m: (usize, usize, usize)) -> Seq<(usize, usize, usize)> {
    let i = match first_from(starts_after(sorted, m.0 as int), 0, sorted.len() as int) {
        Some(i) => i,
        None => sorted.len() as int,
    };
    sorted.insert(i, m)
}

/// The occurrences of `found` in order of their starts; those with one start keep their order.
pub open spec fn sort_by_start(found: Seq<(usize, usize, usize)>) -> Seq<(usize, usize, usize)>
    decreases found.len(),
{
    if found.len() == 0 {
        found
    } else {
        insert_by_start(sort_by_start(found.drop_last()), found.last())
    }
}

/// What one search over `input` reports from cursor `st`, and the cursor after it.
pub open spec fn spec_search(prefix: Prefix, input: Seq<u8>, st: ScanState) -> (Option<PrefixResult>, ScanState) {
    let len = input.len() as int;
    match prefix {
        Prefix::Ac(_, states) => match first_from(starts_from(st.found, st.pos), st.next, st.found.len() as int) {
            Some(k) => {
                let m = st.found[k];
                (
                    Some(PrefixResult { start_pos: m.0, end_pos: m.1, end_state: resume_state(states@, m.2 as int) }),
                    ScanState { next: k + 1, ..st },
                )
            },
            None => (None, st),
        },
        _ => if st.pos > len {
            (None, st)
        } else {
            match prefix {
                Prefix::Empty => (Some(candidate_at(st.pos)), ScanState { pos: st.pos + 1, ..st }),
                Prefix::Byte(b) => scan_first(st, byte_at(input, b), len),
                Prefix::ByteSet(bs) => scan_first(st, set_byte_at(input, bs@), len),
                Prefix::Lit(l) => scan_first(st, lit_at(input, l@), len + 1),
                Prefix::LoopWhile(bs) => {
                    let e = run_end(bs@, input, st.pos);
                    (
                        Some(PrefixResult { start_pos: st.pos as usize, end_pos: e as usize, end_state: 0 }),
                        ScanState { pos: e + 1, ..st },
                    )
                },
                _ => (None, st),
            }
        },
    }
}

/// The cursor after a skip to `pos`.
pub open spec fn spec_skip(prefix: Prefix, input: Seq<u8>, st: ScanState, pos: int) -> ScanState {
    match prefix {
        Prefix::Ac(_, _) => ScanState {
            pos,
            next: match first_from(starts_from(st.found, pos), 0, st.found.len() as int) {
                Some(k) => k,
                None => st.found.len() as int,
            },
            ..st
        },
        _ => ScanState { pos, ..st },
    }
}

/// The cursor of a new scan.
pub open spec fn spec_start(prefix: Prefix, input: Seq<u8>) -> ScanState {
    let found = match prefix {
        Prefix::Ac(ac, _) => sort_by_start(overlapping_matches(ac_patterns(ac), input)),
        _ => Seq::empty(),
    };
    ScanState { pos: 0, next: 0, found }
}

/// What is left to scan; each reported candidate makes it smaller.
pub open spec fn scan_measure(prefix: Prefix, input: Seq<u8>, st: ScanState) -> nat {
    match prefix {
        Prefix::Ac(_, _) => if 0 <= st.next <= st.found.len() {
            (st.found.len() - st.next) as nat
        } else {
            0
        },
        _ => if st.pos <= input.len() + 1 {
            (input.len() + 1 - st.pos) as nat
        } else {
            0
        },
    }
}

/// Something that yields candidate match starts in order.
pub trait PrefixSearcher {
    /// The prefix and the input of the scan.
    spec fn spec_prefix(&self) -> Prefix;

    spec fn spec_input(&self) -> Seq<u8>;

    /// The cursor of the scan.
    spec fn spec_state(&self) -> ScanState;

    spec fn inv(&self) -> bool;

    /// A valid searcher has a valid cursor.
    proof fn lemma_scan_inv(&self)
        requires
            self.inv(),
        ensures
            scan_inv(self.spec_prefix(), self.spec_input(), self.spec_state()),
    ;

    /// Moves the cursor to `pos`, dropping all pending lookahead.
    fn skip_to(&mut self, pos: usize)
        requires
            old(self).inv(),
        ensures
            final(self).inv(),
            final(self).spec_prefix() == old(self).spec_prefix(),
            final(self).spec_input() == old(self).spec_input(),
            final(self).spec_state() == spec_skip(
                old(self).spec_prefix(),
                old(self).spec_input(),
                old(self).spec_state(),
                pos as int,
            ),
    ;

    /// Reports the next candidate, if there is one.
    fn search(&mut self) -> (r: Option<PrefixResult>)
        requires
            old(self).inv(),
        ensures
            final(self).inv(),
            final(self).spec_prefix() == old(self).spec_prefix(),
            final(self).spec_input() == old(self).spec_input(),
            (r, final(self).spec_state()) == spec_search(
                old(self).spec_prefix(),
                old(self).spec_input(),
                old(self).spec_state(),
            ),
    ;
}

/// A scan of one input with a borrowed prefix.
pub struct PrefixScanner<'a> {
    prefix: &'a Prefix,
    input: &'a [u8],
    pos: usize,
    next: usize,
    found: Vec<(usize, usize, usize)>,
}

impl<'a> PrefixSearcher for PrefixScanner<'a> {
    closed spec fn spec_prefix(&self) -> Prefix {
        *self.prefix
    }

    closed spec fn spec_input(&self) -> Seq<u8> {
        self.input@
    }

    closed spec fn spec_state(&self) -> ScanState {
        ScanState { pos: self.pos as int, next: self.next as int, found: self.found@ }
    }

    closed spec fn inv(&self) -> bool {
        &&& scan_inv(*self.prefix, self.input@, self.spec_state())
    }

    proof fn lemma_scan_inv(&self) {
    }

    fn skip_to(&mut self, pos: usize) {
        self.pos = pos;
        let prefix = self.prefix;
        match prefix {
            Prefix::Ac(_, _) => {
                // The occurrences come in order of their starts: find the first that starts
                // at or after `pos`.
                let ghost found = self.found@;
                let ghost p = starts_from(found, pos as int);
                let mut lo: usize = 0;
                let mut hi: usize = self.found.len();
                while lo < hi
                    invariant
                        found == self.found@,
                        p == starts_from(found, pos as int),
                        0 <= lo <= hi <= found.len(),
                        forall|k: int, l: int|
                            #![trigger found[k], found[l]]
                            0 <= k < l < found.len() ==> found[k].0 <= found[l].0,
                        forall|k: int| 0 <= k < lo ==> !#[trigger] p(k),
                        forall|k: int| hi <= k < found.len() ==> #[trigger] p(k),
                    decreases hi - lo,
                {
                    let mid = lo + (hi - lo) / 2;
                    if self.found[mid].0 < pos {
                        proof {
                            assert forall|k: int| 0 <= k < mid + 1 implies !#[trigger] p(k) by {
                                if k < mid {
                                    assert(found[k].0 <= found[mid as int].0);
                                }
                            }
                        }
                        lo = mid + 1;
                    } else {
                        hi = mid;
                    }
                }
                proof {
                    if lo < found.len() {
                        lemma_first_from(p, 0, found.len() as int, Some(lo as int));
                    } else {
                        lemma_first_from(p, 0, found.len() as int, None);
                    }
                }
                self.next = lo;
            },
            _ => {},
        }
    }

    fn search(&mut self) -> (r: Option<PrefixResult>) {
        let len = self.input.len();
        let prefix = self.prefix;
        match prefix {
            Prefix::Ac(_, states) => {
                let ghost found = self.found@;
                let ghost p = starts_from(found, self.pos as int);
                let mut k: usize = self.next;
                while k < self.found.len()
                    invariant
                        found == self.found@,
                        p == starts_from(found, self.pos as int),
                        old(self).next <= k <= found.len(),
                        *self == *old(self),
                        scan_inv(*self.prefix, self.input@, self.spec_state()),
                        prefix == self.prefix,
                        *prefix matches Prefix::Ac(_, s2) && s2 == *states,
                        forall|j: int| old(self).next <= j < k ==> !#[trigger] p(j),
                    decreases found.len() - k,
                {
                    let m = self.found[k];
                    assert(found[k as int] == m);
                    if m.0 >= self.pos {
                        proof {
                            assert(p(k as int));
                            lemma_first_from(p, old(self).next as int, found.len() as int, Some(k as int));
                        }
                        self.next = k + 1;
                        let end_state = if m.2 < states.len() {
                            states[m.2]
                        } else {
                            0
                        };
                        return Some(PrefixResult { start_pos: m.0, end_pos: m.1, end_state });
                    }
                    k = k + 1;
                }
                proof {
                    lemma_first_from(p, old(self).next as int, found.len() as int, None);
                }
                return None;
            },
            _ => {
                if self.pos > len {
                    return None;
                }
                let pos = self.pos;
                let res = match prefix {
                    Prefix::Empty => {
                        self.pos = pos + 1;
                        Some(PrefixResult { start_pos: pos, end_pos: pos, end_state: 0 })
                    },
                    Prefix::Byte(b) => {
                        let rest = vstd::slice::slice_subrange(self.input, pos, len);
                        let r = find_byte(*b, rest);
                        let ghost input = self.input@;
                        let ghost p = byte_at(input, *b);
                        match r {
                            Some(off) => {
                                proof {
                                    assert forall|j: int| pos <= j < pos + off implies !#[trigger] p(j) by {
                                        assert(rest@[j - pos] == input[j]);
                                    }
                                    lemma_first_from(p, pos as int, len as int, Some(pos + off));
                                }
                                self.pos = pos + off + 1;
                                Some(PrefixResult { start_pos: pos + off, end_pos: pos + off, end_state: 0 })
                            },
                            None => {
                                proof {
                                    assert forall|j: int| pos <= j < len implies !#[trigger] p(j) by {
                                        assert(rest@[j - pos] == input[j]);
                                    }
                                    lemma_first_from(p, pos as int, len as int, None);
                                }
                                None
                            },
                        }
                    },
                    Prefix::ByteSet(bs) => {
                        match first_in_set(bs, self.input, pos) {
                            Some(i) => {
                                self.pos = i + 1;
                                Some(PrefixResult { start_pos: i, end_pos: i, end_state: 0 })
                            },
                            None => None,
                        }
                    },
                    Prefix::Lit(l) => {
                        let rest = vstd::slice::slice_subrange(self.input, pos, len);
                        let r = find_lit(l.as_slice(), rest);
                        let ghost input = self.input@;
                        let ghost p = lit_at(input, l@);
                        proof {
                            assert forall|j: int| pos <= j implies occurs_at(rest@, l@, j - pos) == #[trigger] p(j) by {
                                if j + l@.len() <= len {
                                    assert(rest@.subrange(j - pos, j - pos + l@.len()) =~= input.subrange(j, j + l@.len()));
                                }
                            }
                        }
                        match r {
                            Some(off) => {
                                proof {
                                    assert(p(pos + off));
                                    assert forall|j: int| pos <= j < pos + off implies !#[trigger] p(j) by {
                                        assert(!occurs_at(rest@, l@, j - pos));
                                    }
                                    lemma_first_from(p, pos as int, len + 1, Some(pos + off));
                                }
                                self.pos = pos + off + 1;
                                Some(PrefixResult { start_pos: pos + off, end_pos: pos + off, end_state: 0 })
                            },
                            None => {
                                proof {
                                    assert forall|j: int| pos <= j < len + 1 implies !#[trigger] p(j) by {
                                        assert(!occurs_at(rest@, l@, j - pos));
                                    }
                                    lemma_first_from(p, pos as int, len + 1, None);
                                }
                                None
                            },
                        }
                    },
                    Prefix::LoopWhile(bs) => {
                        let e = run_end_in_set(bs, self.input, pos);
                        self.pos = e + 1;
                        Some(PrefixResult { start_pos: pos, end_pos: e, end_state: 0 })
                    },
                    _ => None,
                };
                res
            },
        }
    }
}

/// The first offset from `pos` on whose byte is in the set `bs`.
fn first_in_set(bs: &Vec<bool>, input: &[u8], pos: usize) -> (r: Option<usize>)
    requires
        pos <= input@.len(),
    ensures
        first_from(set_byte_at(input@, bs@), pos as int, input@.len() as int) == match r {
            Some(i) => Some(i as int),
            None => None::<int>,
        },
        r matches Some(i) ==> pos <= i < input@.len(),
{
    let ghost p = set_byte_at(input@, bs@);
    let len = input.len();
    let mut i: usize = pos;
    while i < len
        invariant
            pos <= i <= len,
            len == input@.len(),
            p == set_byte_at(input@, bs@),
            forall|j: int| pos <= j < i ==> !#[trigger] p(j),
        decreases len - i,
    {
        let c = input[i] as usize;
        if c < bs.len() && bs[c] {
            proof {
                assert(in_set(bs@, input@[i as int]));
                assert(p(i as int));
                lemma_first_from(p, pos as int, len as int, Some(i as int));
            }
            return Some(i);
        }
        i = i + 1;
    }
    proof {
        lemma_first_from(p, pos as int, len as int, None);
    }
    None
}

/// The end of the maximal run of bytes of the set `bs` that starts at `pos`.
fn run_end_in_set(bs: &Vec<bool>, input: &[u8], pos: usize) -> (r: usize)
    requires
        pos <= input@.len(),
    ensures
        r == run_end(bs@, input@, pos as int),
        pos <= r <= input@.len(),
{
    let len = input.len();
    let mut e: usize = pos;
    while e < len && (input[e] as usize) < bs.len() && bs[input[e] as usize]
        invariant
            pos <= e <= len,
            len == input@.len(),
            run_end(bs@, input@, pos as int) == run_end(bs@, input@, e as int),
        decreases len - e,
    {
        e = e + 1;
    }
    e
}

/// Prefixes of one kind with the same contents scan alike.
pub proof fn lemma_same_prefix_scans(x: Prefix, y: Prefix, input: Seq<u8>, st: ScanState, pos: int)
    requires
        same_prefix(x, y),
    ensures
        spec_search(x, input, st) == spec_search(y, input, st),
        spec_skip(x, input, st, pos) == spec_skip(y, input, st, pos),
        spec_start(x, input) == spec_start(y, input),
        scan_measure(x, input, st) == scan_measure(y, input, st),
{
}

impl Prefix {
    /// A copy of this prefix.
    pub fn duplicate(&self) -> (r: Prefix)
        ensures
            same_prefix(r, *self),
    {
        match self {
            Prefix::Empty => Prefix::Empty,
            Prefix::Byte(b) => Prefix::Byte(*b),
            Prefix::ByteSet(bs) => Prefix::ByteSet(vstd::slice::slice_to_vec(bs.as_slice())),
            Prefix::Lit(l) => Prefix::Lit(vstd::slice::slice_to_vec(l.as_slice())),
            Prefix::LoopWhile(bs) => Prefix::LoopWhile(vstd::slice::slice_to_vec(bs.as_slice())),
            Prefix::Ac(ac, states) => Prefix::Ac(clone_ac(ac), vstd::slice::slice_to_vec(states.as_slice())),
        }
    }

    /// Builds the prefix for a set of literals, each with the state to resume from after it.
    /// Empty literals are left out.
    pub fn from_strings(strs: Vec<(Vec<u8>, usize)>) -> (r: Prefix)
        ensures
            chosen_prefix(r, kept_literals(strs@)),
    {
        let mut lits: Vec<Vec<u8>> = Vec::new();
        let mut states: Vec<usize> = Vec::new();
        let mut short = false;
        let mut i: usize = 0;
        while i < strs.len()
            invariant
                i <= strs@.len(),
                lits@.len() == states@.len() == kept_literals(strs@.take(i as int)).len(),
                forall|k: int| 0 <= k < lits@.len() ==> #[trigger] lits@[k]@ == kept_literals(strs@.take(i as int))[k].0,
                forall|k: int| 0 <= k < lits@.len() ==> #[trigger] states@[k] == kept_literals(strs@.take(i as int))[k].1,
                forall|k: int| 0 <= k < lits@.len() ==> #[trigger] lits@[k]@.len() > 0,
                short == exists|k: int| 0 <= k < lits@.len() && #[trigger] lits@[k]@.len() == 1,
            decreases strs@.len() - i,
        {
            proof {
                assert(strs@.take(i + 1).drop_last() =~= strs@.take(i as int));
                assert(strs@.take(i + 1).last() == strs@[i as int]);
            }
            let ghost before = kept_literals(strs@.take(i as int));
            let ghost after = kept_literals(strs@.take(i + 1));
            let lit = &strs[i].0;
            let ghost old_lits = lits@;
            let ghost old_states = states@;
            if lit.len() > 0 {
                if lit.len() == 1 {
                    short = true;
                }
                lits.push(vstd::slice::slice_to_vec(lit.as_slice()));
                states.push(strs[i].1);
                proof {
                    if short {
                        assert(lits@[lits@.len() - 1]@.len() == 1 || exists|k: int|
                            0 <= k < old_lits.len() && #[trigger] old_lits[k]@.len() == 1);
                        if lits@[lits@.len() - 1]@.len() != 1 {
                            let k = choose|k: int| 0 <= k < old_lits.len() && #[trigger] old_lits[k]@.len() == 1;
                            assert(lits@[k] == old_lits[k]);
                        }
                    } else {
                        assert forall|k: int| 0 <= k < lits@.len() implies #[trigger] lits@[k]@.len() != 1 by {
                            if k < lits@.len() - 1 {
                                assert(lits@[k] == old_lits[k]);
                            }
                        }
                    }
                }
            }
            proof {
                if strs@[i as int].0@.len() > 0 {
                    assert(after == before.push((strs@[i as int].0@, strs@[i as int].1)));
                    assert forall|k: int| 0 <= k < lits@.len() implies #[trigger] lits@[k]@ == after[k].0
                        && lits@[k]@.len() > 0 by {
                        if k < lits@.len() - 1 {
                            assert(lits@[k] == old_lits[k]);
                        }
                    }
                    assert forall|k: int| 0 <= k < lits@.len() implies #[trigger] states@[k] == after[k].1 by {
                        if k < lits@.len() - 1 {
                            assert(states@[k] == old_states[k]);
                        }
                    }
                } else {
                    assert(after == before);
                }
            }
            i = i + 1;
        }
        proof {
            assert(strs@.take(strs@.len() as int) =~= strs@);
        }
        let ghost kept = kept_literals(strs@);
        assert(lits@.len() == kept.len());
        if lits.len() == 0 {
            Prefix::Empty
        } else if lits.len() == 1 {
            assert(lits@[0]@ == kept[0].0);
            if lits[0].len() == 1 {
                Prefix::Byte(lits[0][0])
            } else {
                Prefix::Lit(lits.pop().unwrap())
            }
        } else if short {
            proof {
                let k = choose|k: int| 0 <= k < lits@.len() && #[trigger] lits@[k]@.len() == 1;
                assert(kept[k].0.len() == 1);
            }
            let mut bs: Vec<bool> = Vec::new();
            while bs.len() < 256
                invariant
                    bs@.len() <= 256,
                    forall|c: int| 0 <= c < bs@.len() ==> !#[trigger] bs@[c],
                decreases 256 - bs@.len(),
            {
                bs.push(false);
            }
            let mut j: usize = 0;
            while j < lits.len()
                invariant
                    j <= lits@.len(),
                    bs@.len() == 256,
                    lits@.len() == kept.len(),
                    forall|k: int| 0 <= k < lits@.len() ==> #[trigger] lits@[k]@ == kept[k].0,
                    forall|k: int| 0 <= k < lits@.len() ==> #[trigger] lits@[k]@.len() > 0,
                    forall|c: u8| #[trigger] bs@[c as int] == exists|k: int| 0 <= k < j && #[trigger] kept[k].0[0] == c,
                decreases lits@.len() - j,
            {
                let b = lits[j][0];
                bs.set(b as usize, true);
                proof {
                    assert forall|c: u8| #[trigger] bs@[c as int] == exists|k: int| 0 <= k < j + 1 && #[trigger] kept[k].0[0] == c by {
                        if c == b {
                            assert(kept[j as int].0[0] == c);
                        } else if bs@[c as int] {
                            let k = choose|k: int| 0 <= k < j && #[trigger] kept[k].0[0] == c;
                            assert(0 <= k < j + 1 && kept[k].0[0] == c);
                        } else {
                            if exists|k: int| 0 <= k < j + 1 && #[trigger] kept[k].0[0] == c {
                                let k = choose|k: int| 0 <= k < j + 1 && #[trigger] kept[k].0[0] == c;
                                assert(k != j);
                            }
                        }
                    }
                }
                j = j + 1;
            }
            Prefix::ByteSet(bs)
        } else {
            assert forall|k: int| 0 <= k < kept.len() implies #[trigger] kept[k].0.len() != 1 by {
                assert(lits@[k]@ == kept[k].0);
            }
            let ghost pats = lits@;
            let ac = build_ac(lits);
            proof {
                assert(pats.map_values(|p: Vec<u8>| p@) =~= kept.map_values(|p: (Seq<u8>, usize)| p.0));
                assert(states@ =~= kept.map_values(|p: (Seq<u8>, usize)| p.1));
            }
            Prefix::Ac(ac, states)
        }
    }
    /// Starts a scan of `input`.
    pub fn make_searcher<'a>(&'a self, input: &'a [u8]) -> (r: PrefixScanner<'a>)
        requires
            input@.len() < usize::MAX,
        ensures
            r.inv(),
            r.spec_prefix() == *self,
            r.spec_input() == input@,
            r.spec_state() == spec_start(*self, input@),
    {
        let found = match self {
            Prefix::Ac(ac, _) => {
                let all = ac_find_overlapping(ac, input);
                proof {
                    lemma_sort_by_start(ac_patterns(*ac), input@, all@);
                }
                sort_occurrences(&all)
            },
            _ => Vec::new(),
        };
        PrefixScanner { prefix: self, input, pos: 0, next: 0, found }
    }
}

/// The non-empty literals of `strs`, in order, with their resume states.
pub open spec fn kept_literals(strs: Seq<(Vec<u8>, usize)>) -> Seq<(Seq<u8>, usize)>
    decreases strs.len(),
{
    if strs.len() == 0 {
        Seq::empty()
    } else {
        let rest = kept_literals(strs.drop_last());
        if strs.last().0@.len() > 0 {
            rest.push((strs.last().0@, strs.last().1))
        } else {
            rest
        }
    }
}

/// The prefix that a set of non-empty literals calls for.
pub open spec fn chosen_prefix(r: Prefix, lits: Seq<(Seq<u8>, usize)>) -> bool {
    if lits.len() == 0 {
        r is Empty
    } else if lits.len() == 1 {
        if lits[0].0.len() == 1 {
            r == Prefix::Byte(lits[0].0[0])
        } else {
            r matches Prefix::Lit(l) && l@ == lits[0].0
        }
    } else if exists|k: int| 0 <= k < lits.len() && #[trigger] lits[k].0.len() == 1 {
        r matches Prefix::ByteSet(bs) && bs@.len() == 256 && forall|c: u8|
            #[trigger] bs@[c as int] == exists|k: int| 0 <= k < lits.len() && #[trigger] lits[k].0[0] == c
    } else {
        r matches Prefix::Ac(ac, states) && ac_patterns(ac) == lits.map_values(|p: (Seq<u8>, usize)| p.0)
            && states@ == lits.map_values(|p: (Seq<u8>, usize)| p.1)
    }
}

/// What a scan keeps true of its cursor.
pub open spec fn scan_inv(prefix: Prefix, input: Seq<u8>, st: ScanState) -> bool {
    &&& input.len() < usize::MAX
    &&& 0 <= st.pos
    &&& 0 <= st.next <= st.found.len()
    &&& prefix matches Prefix::Ac(ac, _) ==> {
        &&& forall|k: int| 0 <= k < st.found.len() ==> true_occurrence(ac_patterns(ac), input, #[trigger] st.found[k])
        &&& sorted_by_start(st.found)
    }
}

proof fn lemma_first_from_in_range(p: spec_fn(int) -> bool, from: int, to: int)
    ensures
        first_from(p, from, to) matches Some(i) ==> from <= i < to && p(i),
    decreases to - from,
{
    if from < to && !p(from) {
        lemma_first_from_in_range(p, from + 1, to);
    }
}

proof fn lemma_run_end_in_range(bs: Seq<bool>, input: Seq<u8>, pos: int)
    requires
        pos <= input.len(),
    ensures
        pos <= run_end(bs, input, pos) <= input.len(),
    decreases input.len() - pos,
{
    if pos < input.len() && in_set(bs, input[pos]) {
        lemma_run_end_in_range(bs, input, pos + 1);
    }
}

/// A search keeps the cursor valid, and a candidate that it reports starts no later than
/// it ends and no earlier than the cursor.
pub proof fn lemma_search_step(prefix: Prefix, input: Seq<u8>, st: ScanState)
    requires
        scan_inv(prefix, input, st),
    ensures
        scan_inv(prefix, input, spec_search(prefix, input, st).1),
        spec_search(prefix, input, st).0 matches Some(r) ==> {
            &&& r.start_pos <= r.end_pos <= input.len()
            &&& st.pos <= r.start_pos
            &&& !(prefix is Ac) ==> r.start_pos < spec_search(prefix, input, st).1.pos
            &&& scan_measure(prefix, input, spec_search(prefix, input, st).1) < scan_measure(prefix, input, st)
        },
{
    let len = input.len() as int;
    match prefix {
        Prefix::Ac(_, _) => lemma_first_from_in_range(starts_from(st.found, st.pos), st.next, st.found.len() as int),
        Prefix::Byte(b) => lemma_first_from_in_range(byte_at(input, b), st.pos, len),
        Prefix::ByteSet(bs) => lemma_first_from_in_range(set_byte_at(input, bs@), st.pos, len),
        Prefix::Lit(l) => lemma_first_from_in_range(lit_at(input, l@), st.pos, len + 1),
        Prefix::LoopWhile(bs) => {
            if st.pos <= len {
                lemma_run_end_in_range(bs@, input, st.pos);
            }
        },
        Prefix::Empty => {},
    }
}

/// Two searches in a row report candidates in order of their starts, and each candidate
/// ends at or after its start, for every kind of prefix.
pub proof fn lemma_search_in_order(prefix: Prefix, input: Seq<u8>, st: ScanState)
    requires
        scan_inv(prefix, input, st),
    ensures
        spec_search(prefix, input, st).0 matches Some(r1) ==> {
            let st2 = spec_search(prefix, input, st).1;
            &&& r1.start_pos <= r1.end_pos
            &&& scan_inv(prefix, input, st2)
            &&& spec_search(prefix, input, st2).0 matches Some(r2) ==> r1.start_pos <= r2.start_pos
        },
{
    lemma_search_step(prefix, input, st);
    let st2 = spec_search(prefix, input, st).1;
    lemma_search_step(prefix, input, st2);
    if let Prefix::Ac(ac, _) = prefix {
        let len1 = st.found.len() as int;
        lemma_first_from_in_range(starts_from(st.found, st.pos), st.next, len1);
        lemma_first_from_in_range(starts_from(st2.found, st2.pos), st2.next, len1);
        if let Some(k1) = first_from(starts_from(st.found, st.pos), st.next, len1) {
            if let Some(k2) = first_from(starts_from(st2.found, st2.pos), st2.next, len1) {
                assert(st.found[k1].0 <= st.found[k2].0);
            }
        }
    }
}

proof fn lemma_first_from_facts(p: spec_fn(int) -> bool, from: int, to: int)
    ensures
        match first_from(p, from, to) {
            Some(i) => from <= i < to && p(i) && forall|j: int| from <= j < i ==> !#[trigger] p(j),
            None => forall|j: int| from <= j < to ==> !#[trigger] p(j),
        },
    decreases to - from,
{
    if from < to && !p(from) {
        lemma_first_from_facts(p, from + 1, to);
    }
}

/// Sorting true occurrences by start gives true occurrences, in order of their starts.
proof fn lemma_sort_by_start(pats: Seq<Seq<u8>>, text: Seq<u8>, found: Seq<(usize, usize, usize)>)
    requires
        forall|k: int| 0 <= k < found.len() ==> true_occurrence(pats, text, #[trigger] found[k]),
    ensures
        sort_by_start(found).len() == found.len(),
        sorted_by_start(sort_by_start(found)),
        forall|k: int| 0 <= k < found.len() ==> true_occurrence(pats, text, #[trigger] sort_by_start(found)[k]),
    decreases found.len(),
{
    if found.len() > 0 {
        let rest = found.drop_last();
        assert forall|k: int| 0 <= k < rest.len() implies true_occurrence(pats, text, #[trigger] rest[k]) by {
            assert(rest[k] == found[k]);
        }
        lemma_sort_by_start(pats, text, rest);
        let t = sort_by_start(rest);
        let m = found.last();
        assert(true_occurrence(pats, text, found[found.len() - 1]));
        let p = starts_after(t, m.0 as int);
        lemma_first_from_facts(p, 0, t.len() as int);
        let i = match first_from(p, 0, t.len() as int) {
            Some(i) => i,
            None => t.len() as int,
        };
        let r = t.insert(i, m);
        assert(r == sort_by_start(found));
        assert forall|j: int| 0 <= j < i implies (#[trigger] t[j]).0 <= m.0 by {
            assert(!p(j));
        }
        assert(i < t.len() ==> t[i].0 > m.0) by {
            if i < t.len() {
                assert(p(i));
            }
        }
        assert forall|k: int, l: int| #![trigger r[k], r[l]] 0 <= k < l < r.len() implies r[k].0 <= r[l].0 by {
            if l < i {
                assert(t[k].0 <= t[l].0);
            } else if l == i {
                assert(t[k].0 <= m.0);
            } else if k < i {
                if k < l - 1 {
                    assert(t[k].0 <= t[l - 1].0);
                }
            } else if k == i {
                if i < l - 1 {
                    assert(t[i].0 <= t[l - 1].0);
                }
            } else {
                assert(t[k - 1].0 <= t[l - 1].0);
            }
        }
        assert forall|k: int| 0 <= k < r.len() implies true_occurrence(pats, text, #[trigger] r[k]) by {
            if k < i {
                assert(r[k] == t[k]);
            } else if k > i {
                assert(r[k] == t[k - 1]);
            }
        }
    }
}

/// The occurrences of `found` in order of their starts; those with one start keep their order.
fn sort_occurrences(found: &Vec<(usize, usize, usize)>) -> (r: Vec<(usize, usize, usize)>)
    ensures
        r@ == sort_by_start(found@),
{
    let mut out: Vec<(usize, usize, usize)> = Vec::new();
    let mut i: usize = 0;
    while i < found.len()
        invariant
            i <= found@.len(),
            out@ == sort_by_start(found@.take(i as int)),
        decreases found@.len() - i,
    {
        proof {
            assert(found@.take(i + 1).drop_last() =~= found@.take(i as int));
            assert(found@.take(i + 1).last() == found@[i as int]);
        }
        let m = found[i];
        let ghost p = starts_after(out@, m.0 as int);
        let mut j: usize = 0;
        while j < out.len() && out[j].0 <= m.0
            invariant
                j <= out@.len(),
                p == starts_after(out@, m.0 as int),
                forall|k: int| 0 <= k < j ==> !#[trigger] p(k),
            decreases out@.len() - j,
        {
            j = j + 1;
        }
        proof {
            if j < out@.len() {
                assert(p(j as int));
                lemma_first_from(p, 0, out@.len() as int, Some(j as int));
            } else {
                lemma_first_from(p, 0, out@.len() as int, None);
            }
        }
        out.insert(j, m);
        i = i + 1;
    }
    proof {
        assert(found@.take(found@.len() as int) =~= found@);
    }
    out
}

proof fn lemma_first_from(p: spec_fn(int) -> bool, from: int, to: int, r: Option<int>)
    requires
        match r {
            Some(i) => from <= i < to && p(i) && forall|j: int| from <= j < i ==> !#[trigger] p(j),
            None => forall|j: int| from <= j < to ==> !#[trigger] p(j),
        },
    ensures
        first_from(p, from, to) == r,
    decreases to - from,
{
    if from < to {
        if !p(from) {
            lemma_first_from(p, from + 1, to, r);
        }
    }
}

} // verus!
