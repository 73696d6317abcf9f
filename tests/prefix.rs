use regex_dfa_core::prefix::{Prefix, PrefixResult, PrefixSearcher};

fn search(pref: Prefix, input: &str) -> Vec<PrefixResult> {
    let mut searcher = pref.make_searcher(input.as_bytes());
    let mut out = Vec::new();
    while let Some(r) = searcher.search() {
        out.push(r);
    }
    out
}

fn result(pos: usize) -> PrefixResult {
    PrefixResult { start_pos: pos, end_pos: pos, end_state: 0 }
}

fn results(posns: Vec<usize>) -> Vec<PrefixResult> {
    posns.into_iter().map(result).collect()
}

fn pair_results(posns: Vec<(usize, usize)>) -> Vec<PrefixResult> {
    posns
        .into_iter()
        .map(|(s, e)| PrefixResult { start_pos: s, end_pos: e, end_state: 0 })
        .collect()
}

fn byte_table(s: &str) -> Vec<bool> {
    let mut bytes = vec![false; 256];
    for &b in s.as_bytes().iter() {
        bytes[b as usize] = true;
    }
    bytes
}

fn pref(strs: Vec<&str>) -> Prefix {
    let pairs: Vec<(Vec<u8>, usize)> = strs
        .into_iter()
        .enumerate()
        .map(|(i, s)| (s.as_bytes().to_vec(), i))
        .collect();
    Prefix::from_strings(pairs)
}

#[test]
fn test_empty_search() {
    assert_eq!(search(Prefix::Empty, "blah"), results(vec![0, 1, 2, 3, 4]));
    assert_eq!(search(Prefix::Empty, ""), results(vec![0]));
}

#[test]
fn test_byte_search() {
    assert_eq!(search(Prefix::Byte(b'a'), "abracadabra"), results(vec![0, 3, 5, 7, 10]));
    assert_eq!(search(Prefix::Byte(b'a'), "abracadabr"), results(vec![0, 3, 5, 7]));
    assert_eq!(search(Prefix::Byte(b'a'), ""), vec![]);
}

#[test]
fn test_str_search() {
    fn lit_pref(s: &str) -> Prefix {
        Prefix::Lit(s.as_bytes().to_vec())
    }
    assert_eq!(search(lit_pref("aa"), "baa baa black sheep aa"), results(vec![1, 5, 20]));
    assert_eq!(search(lit_pref("aa"), "aaa baaa black sheep"), results(vec![0, 1, 5, 6]));
    assert_eq!(search(lit_pref("aa"), ""), vec![]);
}

#[test]
fn test_byteset_search() {
    fn bs_pref(s: &str) -> Prefix {
        Prefix::ByteSet(byte_table(s))
    }
    assert_eq!(search(bs_pref("aeiou"), "quick brown"), results(vec![1, 2, 8]));
    assert_eq!(search(bs_pref("aeiou"), "aabaa"), results(vec![0, 1, 3, 4]));
    assert_eq!(search(bs_pref("aeiou"), ""), vec![]);
}

#[test]
fn test_loop_search() {
    fn loop_pref(s: &str) -> Prefix {
        Prefix::LoopWhile(byte_table(s))
    }
    assert_eq!(search(loop_pref("aeiou"), "quick"), pair_results(vec![(0, 0), (1, 3), (4, 4), (5, 5)]));
    assert_eq!(search(loop_pref("aeiou"), "aabaa"), pair_results(vec![(0, 2), (3, 5)]));
    assert_eq!(search(loop_pref("aeiou"), ""), pair_results(vec![(0, 0)]));
}

#[test]
fn test_ac_search() {
    fn ac_pref(strs: Vec<&str>) -> Prefix {
        let p = pref(strs);
        assert!(matches!(p, Prefix::Ac(_, _)));
        p
    }

    assert_eq!(
        search(ac_pref(vec!["baa", "aa"]), "baa aaa black sheep"),
        vec![
            PrefixResult { start_pos: 0, end_pos: 3, end_state: 0 },
            PrefixResult { start_pos: 1, end_pos: 3, end_state: 1 },
            PrefixResult { start_pos: 4, end_pos: 6, end_state: 1 },
            PrefixResult { start_pos: 5, end_pos: 7, end_state: 1 },
        ]
    );
    assert_eq!(search(ac_pref(vec!["baa", "aa"]), ""), vec![]);
}

#[test]
fn test_prefix_choice() {
    assert!(matches!(pref(vec![]), Prefix::Empty));
    assert!(matches!(pref(vec![""]), Prefix::Empty));
    assert!(matches!(pref(vec!["a"]), Prefix::Byte(_)));
    assert!(matches!(pref(vec!["", "a", ""]), Prefix::Byte(_)));
    assert!(matches!(pref(vec!["abc"]), Prefix::Lit(_)));
    assert!(matches!(pref(vec!["abc", ""]), Prefix::Lit(_)));
    assert!(matches!(pref(vec!["a", "b", "c"]), Prefix::ByteSet(_)));
    assert!(matches!(pref(vec!["a", "b", "", "c"]), Prefix::ByteSet(_)));
    assert!(matches!(pref(vec!["a", "baa", "", "c"]), Prefix::ByteSet(_)));
    assert!(matches!(pref(vec!["ab", "baa", "", "cb"]), Prefix::Ac(_, _)));
}

#[test]
fn prefix_choice_keeps_the_literal_bytes() {
    assert!(matches!(pref(vec!["", "q"]), Prefix::Byte(b'q')));
    match pref(vec!["xyz"]) {
        Prefix::Lit(l) => assert_eq!(l, b"xyz".to_vec()),
        _ => panic!("expected a literal prefix"),
    }
    match pref(vec!["a", "baa", "c"]) {
        Prefix::ByteSet(bs) => {
            assert_eq!(bs.len(), 256);
            for c in 0..256usize {
                let expected = c == b'a' as usize || c == b'b' as usize || c == b'c' as usize;
                assert_eq!(bs[c], expected);
            }
        },
        _ => panic!("expected a byte set prefix"),
    }
}

#[test]
fn ac_search_resumes_after_skip() {
    let p = pref(vec!["baa", "aa"]);
    let input = b"baa aaa black sheep";
    let mut searcher = p.make_searcher(input);
    searcher.skip_to(4);
    assert_eq!(searcher.search(), Some(PrefixResult { start_pos: 4, end_pos: 6, end_state: 1 }));
    assert_eq!(searcher.search(), Some(PrefixResult { start_pos: 5, end_pos: 7, end_state: 1 }));
    assert_eq!(searcher.search(), None);
    searcher.skip_to(100);
    assert_eq!(searcher.search(), None);
}

#[test]
fn simple_search_resumes_after_skip() {
    let p = Prefix::Byte(b'a');
    let mut searcher = p.make_searcher(b"abracadabra");
    searcher.skip_to(6);
    assert_eq!(searcher.search(), Some(result(7)));
    searcher.skip_to(0);
    assert_eq!(searcher.search(), Some(result(0)));
    searcher.skip_to(12);
    assert_eq!(searcher.search(), None);
}

#[test]
fn search_starts_never_decrease() {
    let inputs = ["aabaa", "", "quick brown", "baa aaa black sheep", "abcabcab"];
    for input in inputs.iter() {
        let prefixes = vec![
            Prefix::Empty,
            Prefix::Byte(b'a'),
            Prefix::ByteSet(byte_table("aeiou")),
            Prefix::Lit(b"ab".to_vec()),
            Prefix::LoopWhile(byte_table("ab")),
            pref(vec!["ab", "ca"]),
        ];
        for p in prefixes.into_iter() {
            let rs = search(p, input);
            for r in rs.iter() {
                assert!(r.start_pos <= r.end_pos);
                assert!(r.end_pos <= input.len());
            }
            for w in rs.windows(2) {
                assert!(w[0].start_pos <= w[1].start_pos);
            }
        }
    }
}

#[test]
fn lit_search_of_a_long_literal() {
    assert_eq!(search(Prefix::Lit(b"abcd".to_vec()), "abc"), vec![]);
    assert_eq!(search(Prefix::Lit(b"abc".to_vec()), "xxabc"), results(vec![2]));
}

#[test]
fn ac_search_skips_back_to_the_start() {
    let p = pref(vec!["baa", "aa"]);
    let mut searcher = p.make_searcher(b"baa aaa black sheep");
    assert_eq!(searcher.search(), Some(PrefixResult { start_pos: 0, end_pos: 3, end_state: 0 }));
    assert_eq!(searcher.search(), Some(PrefixResult { start_pos: 1, end_pos: 3, end_state: 1 }));
    searcher.skip_to(1);
    assert_eq!(searcher.search(), Some(PrefixResult { start_pos: 1, end_pos: 3, end_state: 1 }));
    searcher.skip_to(0);
    assert_eq!(searcher.search(), Some(PrefixResult { start_pos: 0, end_pos: 3, end_state: 0 }));
    searcher.skip_to(5);
    assert_eq!(searcher.search(), Some(PrefixResult { start_pos: 5, end_pos: 7, end_state: 1 }));
    assert_eq!(searcher.search(), None);
}

#[test]
fn duplicated_prefixes_search_alike() {
    let prefixes = vec![
        Prefix::Empty,
        Prefix::Byte(b'a'),
        Prefix::ByteSet(byte_table("aeiou")),
        Prefix::Lit(b"aa".to_vec()),
        Prefix::LoopWhile(byte_table("ab")),
        pref(vec!["baa", "aa"]),
    ];
    for p in prefixes.into_iter() {
        let copy = p.duplicate();
        let text = "baa aaa black sheep";
        let a = search(p, text);
        assert_eq!(search(copy, text), a);
    }
}

#[test]
fn ac_search_reports_in_order_of_start() {
    let p = pref(vec!["abcd", "bc"]);
    assert!(matches!(p, Prefix::Ac(_, _)));
    assert_eq!(
        search(p, "abcd"),
        vec![
            PrefixResult { start_pos: 0, end_pos: 4, end_state: 0 },
            PrefixResult { start_pos: 1, end_pos: 3, end_state: 1 },
        ]
    );
    let p = pref(vec!["abcd", "bc"]);
    let mut searcher = p.make_searcher(b"abcdabcd");
    searcher.skip_to(1);
    assert_eq!(searcher.search(), Some(PrefixResult { start_pos: 1, end_pos: 3, end_state: 1 }));
    assert_eq!(searcher.search(), Some(PrefixResult { start_pos: 4, end_pos: 8, end_state: 0 }));
    assert_eq!(searcher.search(), Some(PrefixResult { start_pos: 5, end_pos: 7, end_state: 1 }));
    assert_eq!(searcher.search(), None);
}
