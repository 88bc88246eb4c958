use syracuse::align::{needleman_wunsch, smith_waterman};
use syracuse::config::{Config, UNIT};
use syracuse::entry::Entry;
use syracuse::rank::{blended_score, rank, Candidate, IndexOptions};
use syracuse::select::{resolve, Disambiguation, KeyCode, KeyEvent, State};

fn params(threshold_half_units: bool) -> Config {
    Config {
        match_score: 2,
        mismatch_penalty: -1,
        gap_penalty: -1,
        sw_nw_ratio: UNIT / 2,
        search_threshold: if threshold_half_units { UNIT / 2 } else { 0 },
    }
}

fn catalog() -> Vec<Entry> {
    vec![
        Entry::new("MATH-201".to_string(), vec!["ANALYSIS".to_string()], true),
        Entry::new("PHYS-101".to_string(), vec![], true),
    ]
}

fn press(code: KeyCode) -> KeyEvent {
    KeyEvent { code, press: true }
}

fn names(cat: &[Entry], r: &[Candidate]) -> Vec<String> {
    r.iter().map(|c| cat[c.index].name.clone()).collect()
}

#[test]
fn smith_waterman_self_alignment_is_one() {
    let c = params(false);
    for s in ["A", "MATH-201", "analysis", "ÉTÉ"] {
        assert_eq!(smith_waterman(s, s, &c), UNIT);
    }
    let c1 = Config { match_score: 7, mismatch_penalty: -3, gap_penalty: 0, ..c };
    assert_eq!(smith_waterman("PHYS-101", "PHYS-101", &c1), UNIT);
}

#[test]
fn needleman_wunsch_self_alignment_is_one() {
    let c = params(false);
    for s in ["A", "MATH-201", "analysis"] {
        assert_eq!(needleman_wunsch(s, s, &c), UNIT);
    }
    let c1 = Config { match_score: 5, mismatch_penalty: -2, gap_penalty: -4, ..c };
    assert_eq!(needleman_wunsch("PHYS-101", "PHYS-101", &c1), UNIT);
}

#[test]
fn empty_inputs_score_zero() {
    let c = params(false);
    assert_eq!(smith_waterman("", "MATH-201", &c), 0);
    assert_eq!(smith_waterman("", "", &c), 0);
    assert_eq!(smith_waterman("MATH-201", "", &c), 0);
    assert_eq!(needleman_wunsch("", "", &c), 0);
}

#[test]
fn scores_stay_in_range() {
    let c = params(false);
    let words = ["", "Z", "ZZZZZ", "MATH-201", "MATH201", "ANALYSIS", "PHYS-101", "aaaaaaaaaaaa"];
    for a in words {
        for b in words {
            let s = smith_waterman(a, b, &c);
            let n = needleman_wunsch(a, b, &c);
            assert!(0 <= s && s <= UNIT, "{a} {b} {s}");
            assert!(-UNIT <= n && n <= UNIT, "{a} {b} {n}");
        }
    }
    assert_eq!(needleman_wunsch("MATH-201", "ZZZZZ", &c), -UNIT);
}

/// `num / den` over `UNIT`, rounded up.
fn ratio_up(num: i64, den: i64) -> i64 {
    (num * UNIT + den - 1) / den
}

#[test]
fn exact_scores_of_near_match() {
    let c = params(false);
    // raw local score 13 against a best of 14: tri(13) / tri(14) = 91 / 105
    assert_eq!(smith_waterman("MATH-201", "MATH201", &c), ratio_up(91, 105));
    assert_eq!(ratio_up(91, 105), 91 * UNIT / 105 + 1);
    // raw global score 13 against a best of 16: tri(13) / tri(16) = 91 / 136
    assert_eq!(needleman_wunsch("MATH-201", "MATH201", &c), ratio_up(91, 136));
    assert_eq!(
        blended_score("MATH-201", "MATH201", &c),
        (UNIT / 2) * ratio_up(91, 105) + (UNIT / 2) * ratio_up(91, 136)
    );
    // a single shared character, raw 2 against a best of 14: tri(2) / tri(14) = 3 / 105
    assert_eq!(smith_waterman("ABCDEFG", "HIJKLMA", &c), ratio_up(3, 105));
    // negative global score: raw -8 against a worst of 8: -tri(8) / tri(8)
    assert_eq!(needleman_wunsch("MATH-201", "ZZZZZ", &c), -UNIT);
}

#[test]
fn score_signs_follow_raw_scores() {
    let c = Config { match_score: 1, ..params(false) };
    // a small raw score still gives a positive local score
    let a = format!("A{}", "B".repeat(400));
    let b = format!("A{}", "C".repeat(400));
    let s = smith_waterman(&a, &b, &c);
    assert!(s > 0 && s < UNIT / 1000);
    assert_eq!(smith_waterman("ABC", "XYZ", &c), 0);
    assert!(smith_waterman("ABC", "XYC", &c) > 0);
    assert!(needleman_wunsch("ABC", "XYZ", &c) < 0);
    assert!(needleman_wunsch("ABCD", "ABCD", &c) > 0);
    let z = Config { mismatch_penalty: 0, gap_penalty: 0, ..c };
    assert_eq!(needleman_wunsch("AB", "XY", &z), 0);
}

#[test]
fn ranking_of_near_match_keeps_only_it() {
    let cat = catalog();
    let r = rank(&cat, "MATH201", IndexOptions::All, &params(true));
    assert_eq!(names(&cat, &r), vec!["MATH-201".to_string()]);
}

#[test]
fn unmatched_query_resolves_to_none() {
    let cat = catalog();
    let c = params(true);
    let r = rank(&cat, "ZZZZZ", IndexOptions::All, &c);
    assert!(r.is_empty());
    let mut d = Disambiguation::new(vec![]);
    assert_eq!(d.state, State::Empty);
    d.start();
    assert_eq!(d.state, State::Cancelled);
    assert_eq!(resolve(&cat, "ZZZZZ", IndexOptions::All, &c, &vec![]), None);
    assert_eq!(resolve(&cat, "ZZZZZ", IndexOptions::All, &c, &vec![press(KeyCode::Enter)]), None);
}

#[test]
fn ranking_is_deterministic() {
    let cat = catalog();
    let c = params(false);
    for q in ["MATH201", "PHYS", "ANAL", "ZZZZZ", ""] {
        assert_eq!(rank(&cat, q, IndexOptions::All, &c), rank(&cat, q, IndexOptions::All, &c));
    }
}

#[test]
fn ranking_sorts_best_first_and_breaks_ties_by_position() {
    let cat = vec![
        Entry::new("PHYS-101".to_string(), vec![], true),
        Entry::new("MATH-201".to_string(), vec![], true),
        Entry::new("MATH-201".to_string(), vec![], true),
    ];
    let c = Config { search_threshold: -UNIT, ..params(false) };
    let r = rank(&cat, "MATH201", IndexOptions::All, &c);
    let idx: Vec<usize> = r.iter().map(|x| x.index).collect();
    assert_eq!(idx, vec![1, 2, 0]);
    assert_eq!(r[0].score, r[1].score);
    assert!(r[1].score > r[2].score);
}

#[test]
fn ranking_keeps_at_most_three_above_threshold() {
    let cat: Vec<Entry> = ["MATH-201", "MATH-202", "MATH-203", "MATH-204", "MATH-205"]
        .iter()
        .map(|n| Entry::new(n.to_string(), vec![], true))
        .collect();
    let c = Config { search_threshold: -UNIT, ..params(false) };
    let r = rank(&cat, "MATH-204", IndexOptions::All, &c);
    assert_eq!(r.len(), 3);
    assert_eq!(r[0].index, 3);
    let c2 = params(true);
    for q in ["MATH", "MATH-2", "M", "PHYS"] {
        let r = rank(&cat, q, IndexOptions::All, &c2);
        assert!(r.len() <= 3);
        for x in &r {
            assert!(x.score as i128 >= (c2.search_threshold as i128) * (UNIT as i128));
        }
    }
}

#[test]
fn best_alias_counts_for_the_entry() {
    let cat = catalog();
    let r = rank(&cat, "ANALYSIS", IndexOptions::All, &params(true));
    assert_eq!(names(&cat, &r), vec!["MATH-201".to_string()]);
    assert_eq!(r[0].score, UNIT * UNIT);
}

#[test]
fn index_filter_is_respected() {
    let cat = vec![
        Entry::new("MATH-201".to_string(), vec![], true),
        Entry::new("MATH-202".to_string(), vec![], false),
        Entry::new("MATH-203".to_string(), vec![], true),
    ];
    let c = Config { search_threshold: -UNIT, ..params(false) };
    let idx = |f| -> Vec<usize> {
        let mut v: Vec<usize> = rank(&cat, "MATH-20", f, &c).iter().map(|x| x.index).collect();
        v.sort();
        v
    };
    assert_eq!(idx(IndexOptions::Indexed), vec![0, 2]);
    assert_eq!(idx(IndexOptions::Unindexed), vec![1]);
    assert_eq!(idx(IndexOptions::All), vec![0, 1, 2]);
}

#[test]
fn multi_select_keys() {
    let run = |keys: Vec<KeyEvent>| {
        let mut d = Disambiguation::new(vec![10, 20, 30]);
        assert_eq!(d.state, State::MultiSelect);
        d.run(&keys);
        d.outcome()
    };
    assert_eq!(run(vec![press(KeyCode::Char('2'))]), Some(20));
    assert_eq!(run(vec![press(KeyCode::Enter)]), Some(10));
    assert_eq!(run(vec![press(KeyCode::Char('q'))]), None);
    let mut d = Disambiguation::new(vec![10, 20, 30]);
    d.run(&vec![press(KeyCode::Char('q'))]);
    assert_eq!(d.state, State::Cancelled);
    // out-of-range digits, other keys and releases are ignored
    let mut d = Disambiguation::new(vec![10, 20, 30]);
    d.run(&vec![
        press(KeyCode::Char('0')),
        press(KeyCode::Char('4')),
        press(KeyCode::Char('y')),
        press(KeyCode::Other),
        KeyEvent { code: KeyCode::Char('1'), press: false },
    ]);
    assert_eq!(d.state, State::MultiSelect);
    d.run(&vec![press(KeyCode::Char('3')), press(KeyCode::Char('1'))]);
    assert_eq!(d.state, State::Resolved(30));
}

#[test]
fn single_confirm_keys() {
    let run = |keys: Vec<KeyEvent>| {
        let mut d = Disambiguation::new(vec![7]);
        assert_eq!(d.state, State::SingleConfirm);
        d.run(&keys);
        d.state
    };
    assert_eq!(run(vec![press(KeyCode::Char('n'))]), State::Cancelled);
    assert_eq!(run(vec![press(KeyCode::Char('y'))]), State::Resolved(7));
    assert_eq!(run(vec![press(KeyCode::Enter)]), State::Resolved(7));
    assert_eq!(run(vec![press(KeyCode::Esc)]), State::Cancelled);
    assert_eq!(run(vec![press(KeyCode::Char('N'))]), State::Cancelled);
    assert_eq!(run(vec![press(KeyCode::Char('Q'))]), State::Cancelled);
    assert_eq!(run(vec![press(KeyCode::Char('1')), press(KeyCode::Char('Y'))]), State::SingleConfirm);
}

#[test]
fn resolve_runs_ranking_then_keys() {
    let cat = catalog();
    let c = params(true);
    assert_eq!(resolve(&cat, "MATH201", IndexOptions::All, &c, &vec![press(KeyCode::Char('y'))]), Some(0));
    assert_eq!(resolve(&cat, "MATH201", IndexOptions::All, &c, &vec![press(KeyCode::Char('n'))]), None);
    assert_eq!(resolve(&cat, "MATH201", IndexOptions::Unindexed, &c, &vec![press(KeyCode::Char('y'))]), None);
    let low = Config { search_threshold: -UNIT, ..c };
    assert_eq!(resolve(&cat, "PHYS-101", IndexOptions::All, &low, &vec![press(KeyCode::Char('1'))]), Some(1));
    assert_eq!(resolve(&cat, "PHYS-101", IndexOptions::All, &low, &vec![press(KeyCode::Char('2'))]), Some(0));
}
