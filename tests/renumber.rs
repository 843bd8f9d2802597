use renumber::matcher::{build_matcher, classify, scan, Class, PatternError};
use renumber::names::{name_extension, name_text, new_name};
use renumber::numbering::{action_for, assign_numbers, keeps, Action, Numbering, Outcome};
use renumber::text::{decimal_string, has_placeholder, matcher_source, new_stem, parse_number};

fn bytes(s: &str) -> Vec<u8> {
    s.as_bytes().to_vec()
}

fn chars(s: &str) -> Vec<char> {
    s.chars().collect()
}

fn names(list: &[&str]) -> Vec<Vec<u8>> {
    list.iter().map(|s| bytes(s)).collect()
}

fn matcher(pattern: &str) -> renumber::matcher::Matcher {
    match build_matcher(pattern) {
        Ok(m) => m,
        Err(_) => panic!("pattern should compile"),
    }
}

#[test]
fn placeholder_is_found() {
    assert!(has_placeholder("file-{}"));
    assert!(has_placeholder("{}"));
    assert!(!has_placeholder("file-"));
    assert!(!has_placeholder("{ }"));
    assert!(!has_placeholder(""));
}

#[test]
fn matcher_source_substitutes_or_appends() {
    assert_eq!(matcher_source("file-{}"), "^file-(\\d+).*$");
    assert_eq!(matcher_source("img"), "^img(\\d+).*$");
    assert_eq!(matcher_source(""), "^(\\d+).*$");
    assert_eq!(matcher_source("a{}b{}"), "^a(\\d+)b(\\d+).*$");
}

#[test]
fn stems_carry_the_number() {
    assert_eq!(new_stem("file-{}", 12), "file-12");
    assert_eq!(new_stem("img", 3), "img3");
    assert_eq!(new_stem("", 7), "7");
    assert_eq!(new_stem("a{}b{}", 5), "a5b5");
}

#[test]
fn decimals() {
    assert_eq!(decimal_string(0), "0");
    assert_eq!(decimal_string(9), "9");
    assert_eq!(decimal_string(10), "10");
    assert_eq!(decimal_string(1234), "1234");
    assert_eq!(decimal_string(usize::MAX), usize::MAX.to_string());
}

#[test]
fn numbers_parse_as_usize_does() {
    assert_eq!(parse_number(&chars("42")), Some(42));
    assert_eq!(parse_number(&chars("0005")), Some(5));
    assert_eq!(parse_number(&chars("+7")), Some(7));
    assert_eq!(parse_number(&chars("")), None);
    assert_eq!(parse_number(&chars("+")), None);
    assert_eq!(parse_number(&chars("4a")), None);
    assert_eq!(parse_number(&chars("-1")), None);
    let max = usize::MAX.to_string();
    assert_eq!(parse_number(&chars(&max)), Some(usize::MAX));
    let over = format!("{}0", max);
    assert_eq!(parse_number(&chars(&over)), None);
}

#[test]
fn extension_is_the_last_suffix() {
    assert_eq!(name_extension(&bytes("report.final.csv")), Some(bytes("csv")));
    assert_eq!(name_extension(&bytes("a.txt")), Some(bytes("txt")));
    assert_eq!(name_extension(&bytes("a.")), Some(bytes("")));
    assert_eq!(name_extension(&bytes(".bashrc")), None);
    assert_eq!(name_extension(&bytes("noext")), None);
    assert_eq!(name_extension(&bytes("..")), None);
}

#[test]
fn extension_preserved_on_rename() {
    assert_eq!(new_name("out-{}", 1, &bytes("report.final.csv")), "out-1.csv");
}

#[test]
fn new_names_without_extension_or_text() {
    assert_eq!(new_name("", 1, &bytes("a.txt")), "1.txt");
    assert_eq!(new_name("x", 2, &bytes("README")), "x2");
    assert_eq!(new_name("x", 3, &bytes(".hidden")), "x3");
    assert_eq!(new_name("p-{}", 4, &vec![0xff, b'.', b't', b'x', b't']), "p-4.txt");
    assert_eq!(new_name("p-{}", 5, &vec![b'a', b'.', 0xff]), "p-5");
}

#[test]
fn name_text_needs_utf8() {
    assert_eq!(name_text(&bytes("a.txt")), Some("a.txt".to_string()));
    assert_eq!(name_text(&vec![0xff, 0xfe]), None);
}

#[test]
fn invalid_pattern_is_refused() {
    assert!(matches!(build_matcher("("), Err(PatternError::Invalid(_))));
    assert!(build_matcher("file-{}").is_ok());
}

#[test]
fn classify_names() {
    let m = matcher("file-{}");
    assert_eq!(classify(&m, &bytes("file-3.txt")), Class::Conforming(Some(3)));
    assert_eq!(classify(&m, &bytes("file-10")), Class::Conforming(Some(10)));
    assert_eq!(classify(&m, &bytes("other.txt")), Class::Pending);
    assert_eq!(classify(&m, &bytes("file-.txt")), Class::Pending);
    assert_eq!(classify(&m, &vec![0xff, b'1']), Class::Pending);
    let huge = format!("file-{}0", usize::MAX);
    assert_eq!(classify(&m, &bytes(&huge)), Class::Conforming(None));
}

#[test]
fn empty_pattern_numbers_in_order() {
    let m = matcher("");
    let s = scan(&m, names(&["b.txt", "a.txt"]));
    assert!(s.used.is_empty());
    assert!(s.skipped.is_empty());
    assert_eq!(s.pending, names(&["a.txt", "b.txt"]));
    let mut state = Numbering::new(s.used, s.pending.len());
    let mut out = Vec::new();
    for old in &s.pending {
        let n = state.offer();
        out.push(new_name("", n, old));
        assert!(state.can_settle());
        state.settle(Outcome::Renamed);
    }
    assert_eq!(out, vec!["1.txt".to_string(), "2.txt".to_string()]);
}

#[test]
fn gaps_are_filled_lowest_first() {
    assert_eq!(assign_numbers(&vec![1, 3], &vec![true, true]), vec![2, 4]);
    let m = matcher("f-{}");
    let s = scan(&m, names(&["f-3.txt", "y", "f-1.txt", "x"]));
    assert_eq!(s.skipped, names(&["f-3.txt", "f-1.txt"]));
    assert_eq!(s.pending, names(&["x", "y"]));
    let mut used = s.used.clone();
    used.sort();
    assert_eq!(used, vec![1, 3]);
    assert_eq!(assign_numbers(&s.used, &vec![true, true]), vec![2, 4]);
}

#[test]
fn declined_number_is_reused() {
    assert_eq!(assign_numbers(&vec![], &vec![false, true]), vec![1, 1]);
    let mut state = Numbering::new(vec![1], 2);
    assert_eq!(state.offer(), 2);
    state.settle(Outcome::Declined);
    assert_eq!(state.offer(), 2);
    state.settle(Outcome::Failed);
    assert_eq!(state.offer(), 2);
    state.settle(Outcome::Renamed);
    assert_eq!(state.offer(), 3);
}

#[test]
fn kept_numbers_are_unique() {
    let used = vec![2, 5, 6];
    let taken = vec![true, false, true, true, true, false, true];
    let offers = assign_numbers(&used, &taken);
    assert_eq!(offers, vec![1, 3, 3, 4, 7, 8, 8]);
    let mut kept: Vec<usize> = offers
        .iter()
        .zip(taken.iter())
        .filter(|(_, t)| **t)
        .map(|(n, _)| *n)
        .collect();
    kept.extend(used.iter());
    let len = kept.len();
    kept.sort();
    kept.dedup();
    assert_eq!(kept.len(), len);
}

#[test]
fn second_run_renames_nothing() {
    let pattern = "out-{}";
    let m = matcher(pattern);
    let first = scan(&m, names(&["b.csv", "out-2.csv", "a.txt"]));
    let assigned = assign_numbers(&first.used, &vec![true; first.pending.len()]);
    let mut after: Vec<Vec<u8>> = first.skipped.clone();
    for (old, n) in first.pending.iter().zip(assigned.iter()) {
        after.push(new_name(pattern, *n, old).into_bytes());
    }
    assert_eq!(after, names(&["out-2.csv", "out-1.txt", "out-3.csv"]));
    let second = scan(&m, after.clone());
    assert!(second.pending.is_empty());
    assert_eq!(second.skipped, after);
}

#[test]
fn dry_run_only_previews() {
    assert_eq!(action_for(true, false), Action::Preview);
    assert_eq!(action_for(true, true), Action::Preview);
    assert_eq!(action_for(false, true), Action::Rename);
    assert_eq!(action_for(false, false), Action::Ask);
    assert!(keeps(Outcome::Previewed));
    assert!(keeps(Outcome::Renamed));
    assert!(!keeps(Outcome::Declined));
    assert!(!keeps(Outcome::Failed));
}

#[test]
fn settle_needs_an_offer() {
    let mut state = Numbering::new(vec![1, 2], 1);
    assert!(!state.can_settle());
    assert_eq!(state.offer(), 3);
    assert!(state.can_settle());
    state.settle(Outcome::Previewed);
    assert!(!state.can_settle());
}

#[test]
fn scan_keeps_unreadable_and_numberless_names_apart() {
    let m = matcher("{}x");
    let huge = format!("{}0x", usize::MAX);
    let s = scan(&m, vec![vec![0xff, b'1'], bytes("7x.txt"), bytes(&huge), bytes("b")]);
    assert_eq!(s.used, vec![7]);
    assert_eq!(s.skipped, vec![bytes("7x.txt"), bytes(&huge)]);
    assert_eq!(s.pending, vec![bytes("b"), vec![0xff, b'1']]);
}
