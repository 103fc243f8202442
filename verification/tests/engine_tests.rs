use grep_lite::engine::{print_ctx, run_engine, ContextEngine, OutputRecord};
use grep_lite::matcher::{MatchMode, Matcher};
use grep_lite::window::{ContextWindow, Line};

fn matcher(pattern: &str, mode: MatchMode) -> Matcher {
    Matcher::new(pattern.to_string(), mode).unwrap()
}

fn run(pattern: &str, mode: MatchMode, n: usize, lines: &[&str]) -> Vec<String> {
    let texts: Vec<String> = lines.iter().map(|s| s.to_string()).collect();
    let out = run_engine(matcher(pattern, mode), n, texts);
    render(&out)
}

fn render(out: &[OutputRecord]) -> Vec<String> {
    out.iter()
        .map(|r| match r {
            OutputRecord::Separator => "---".to_string(),
            OutputRecord::MatchedLine { index, text } => format!("{}:{}", index, text),
        })
        .collect()
}

#[test]
fn scenario_two_groups_with_separator() {
    // Matches at 0, 3 and 9 with context 2: the first two groups merge,
    // the third is separated because lines in between were never printed.
    let lines = ["A", "x", "x", "B", "x", "x", "x", "x", "x", "C"];
    let got = run("[ABC]", MatchMode::Regex, 2, &lines);
    let want = vec![
        "0:A".to_string(),
        "1:x".to_string(),
        "2:x".to_string(),
        "3:B".to_string(),
        "4:x".to_string(),
        "5:x".to_string(),
        "---".to_string(),
        "7:x".to_string(),
        "8:x".to_string(),
        "9:C".to_string(),
    ];
    assert_eq!(got, want);
}

#[test]
fn zero_context_prints_only_matches_without_separators() {
    let lines = ["hit one", "miss", "miss", "miss", "hit two", "miss", "hit three"];
    let got = run("hit", MatchMode::Literal, 0, &lines);
    let want = vec!["0:hit one".to_string(), "4:hit two".to_string(), "6:hit three".to_string()];
    assert_eq!(got, want);
}

#[test]
fn full_window_emits_entire_input_without_separators() {
    let lines = ["a", "b", "needle", "c", "d"];
    let got = run("needle", MatchMode::Literal, 100, &lines);
    let want = vec![
        "0:a".to_string(),
        "1:b".to_string(),
        "2:needle".to_string(),
        "3:c".to_string(),
        "4:d".to_string(),
    ];
    assert_eq!(got, want);
}

#[test]
fn rerun_yields_identical_output() {
    let lines = ["m", "x", "x", "x", "x", "m", "x"];
    let first = run("m", MatchMode::Literal, 1, &lines);
    let second = run("m", MatchMode::Literal, 1, &lines);
    assert_eq!(first, second);
}

#[test]
fn no_match_produces_no_output() {
    let lines = ["a", "b", "c"];
    let got = run("zzz", MatchMode::Literal, 3, &lines);
    assert!(got.is_empty());
}

#[test]
fn empty_input_produces_no_output() {
    let got = run("x", MatchMode::Literal, 2, &[]);
    assert!(got.is_empty());
}

#[test]
fn match_at_first_line_has_no_leading_context() {
    let lines = ["m", "x", "x", "x"];
    let got = run("m", MatchMode::Literal, 2, &lines);
    let want = vec!["0:m".to_string(), "1:x".to_string(), "2:x".to_string()];
    assert_eq!(got, want);
}

#[test]
fn match_at_last_line_flushes_partial_trailing_context() {
    let lines = ["x", "x", "x", "m"];
    let got = run("m", MatchMode::Literal, 2, &lines);
    let want = vec!["1:x".to_string(), "2:x".to_string(), "3:m".to_string()];
    assert_eq!(got, want);
}

#[test]
fn matches_at_window_boundary_still_merge() {
    // Context 1: matches at 0 and 3 are 2n + 1 apart, every line between
    // them is printed, so no separator appears.
    let lines = ["m", "x", "x", "m"];
    let got = run("m", MatchMode::Literal, 1, &lines);
    let want =
        vec!["0:m".to_string(), "1:x".to_string(), "2:x".to_string(), "3:m".to_string()];
    assert_eq!(got, want);
}

#[test]
fn matches_past_window_boundary_get_one_separator() {
    // Context 1: matches at 0 and 4 leave line 2 unprinted, so exactly one
    // separator stands between the groups.
    let lines = ["m", "x", "x", "x", "m"];
    let got = run("m", MatchMode::Literal, 1, &lines);
    let want = vec![
        "0:m".to_string(),
        "1:x".to_string(),
        "---".to_string(),
        "3:x".to_string(),
        "4:m".to_string(),
    ];
    assert_eq!(got, want);
}

#[test]
fn adjacent_matches_share_context_without_duplicates() {
    let lines = ["x", "m", "m", "x", "x"];
    let got = run("m", MatchMode::Literal, 1, &lines);
    let want = vec![
        "0:x".to_string(),
        "1:m".to_string(),
        "2:m".to_string(),
        "3:x".to_string(),
    ];
    assert_eq!(got, want);
}

#[test]
fn literal_matcher_finds_substring() {
    let m = matcher("ell", MatchMode::Literal);
    assert!(m.test("hello"));
    assert!(!m.test("world"));
}

#[test]
fn literal_empty_pattern_matches_every_line() {
    let m = matcher("", MatchMode::Literal);
    assert!(m.test(""));
    assert!(m.test("anything"));
}

#[test]
fn regex_matcher_applies_pattern_semantics() {
    let m = matcher("^pic.ure$", MatchMode::Regex);
    assert!(m.test("picture"));
    assert!(!m.test("pictures"));
    assert!(!m.test("pic.ure extended"));
}

#[test]
fn regex_bad_pattern_is_rejected_at_construction() {
    let r = Matcher::new("(".to_string(), MatchMode::Regex);
    assert!(r.is_err());
}

#[test]
fn literal_mode_never_fails_even_on_regex_metacharacters() {
    let m = matcher("(", MatchMode::Literal);
    assert!(m.test("open ( paren"));
    assert!(!m.test("no paren"));
}

#[test]
fn window_drains_in_insertion_order() {
    let mut w = ContextWindow::new(3);
    assert!(!w.push(Line::new(0, "first".to_string())));
    assert!(!w.push(Line::new(1, "second".to_string())));
    let mut out: Vec<OutputRecord> = Vec::new();
    print_ctx(&mut w, &mut out);
    assert_eq!(render(&out), vec!["0:first".to_string(), "1:second".to_string()]);
    assert_eq!(w.len(), 0);
}

#[test]
fn full_window_evicts_oldest_line() {
    let mut w = ContextWindow::new(2);
    assert!(!w.push(Line::new(0, "a".to_string())));
    assert!(!w.push(Line::new(1, "b".to_string())));
    assert!(w.push(Line::new(2, "c".to_string())));
    let mut out: Vec<OutputRecord> = Vec::new();
    print_ctx(&mut w, &mut out);
    assert_eq!(render(&out), vec!["1:b".to_string(), "2:c".to_string()]);
}

#[test]
fn zero_capacity_window_drops_every_line() {
    let mut w = ContextWindow::new(0);
    assert!(w.push(Line::new(0, "a".to_string())));
    assert_eq!(w.len(), 0);
}

#[test]
fn streaming_engine_matches_batch_run() {
    let lines = ["m", "x", "x", "x", "m", "x"];
    let batch = run("m", MatchMode::Literal, 1, &lines);
    let mut engine = ContextEngine::new(matcher("m", MatchMode::Literal), 1);
    let mut out: Vec<OutputRecord> = Vec::new();
    for (i, text) in lines.iter().enumerate() {
        engine.process_line(Line::new(i, text.to_string()), &mut out);
    }
    engine.finish(&mut out);
    assert_eq!(render(&out), batch);
}
