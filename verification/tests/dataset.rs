use compare_sets::compare::{compare, print_results, CompareError, Flags};
use compare_sets::dataset::Dataset;

fn load(text: &str) -> Dataset {
    let lines: Vec<String> = text.lines().map(|l| l.to_string()).collect();
    Dataset::from_lines(&lines)
}

fn members(d: &Dataset) -> Vec<String> {
    let mut v: Vec<String> = d.records().clone();
    v.sort();
    v
}

#[test]
fn blank_and_duplicate_lines_collapse() {
    let d = load("a\n\na\nb\n");
    assert_eq!(d.len(), 2);
    assert!(d.contains("a"));
    assert!(d.contains("b"));
    assert!(!d.contains(""));
    assert_eq!(members(&d), vec!["a", "b"]);
}

#[test]
fn lines_are_trimmed_before_they_are_compared() {
    let d = load("  a\na  \r\n\t\n b c \n");
    assert_eq!(d.len(), 2);
    assert_eq!(members(&d), vec!["a", "b c"]);
    assert!(!d.contains(" a"));
}

#[test]
fn new_dataset_is_empty() {
    let d = Dataset::new();
    assert_eq!(d.len(), 0);
    assert!(d.is_empty());
    assert!(!d.contains("a"));
    assert!(load("\n \n").is_empty());
    assert!(!load("a").is_empty());
}

#[test]
fn with_line_takes_a_record_once() {
    let d = Dataset::new().with_line(" x ").with_line("y").with_line("x").with_line("   ");
    assert_eq!(d.len(), 2);
    assert_eq!(members(&d), vec!["x", "y"]);
}

#[test]
fn five_sets_of_two_datasets() {
    let a = load("1\n2\n3\n4\n");
    let b = load("3\n4\n5\n");
    assert_eq!(members(&a.union(&b)), vec!["1", "2", "3", "4", "5"]);
    assert_eq!(members(&a.intersection(&b)), vec!["3", "4"]);
    assert_eq!(members(&a.symmetric_difference(&b)), vec!["1", "2", "5"]);
    assert_eq!(members(&a.difference(&b)), vec!["1", "2"]);
    assert_eq!(members(&b.difference(&a)), vec!["5"]);
}

#[test]
fn union_size_is_sum_less_intersection() {
    let a = load("a\nb\nc\nd\ne\n");
    let b = load("d\ne\nf\n");
    let u = a.union(&b);
    let i = a.intersection(&b);
    assert_eq!(u.len(), 6);
    assert_eq!(i.len(), 2);
    assert_eq!(u.len(), a.len() + b.len() - i.len());
}

#[test]
fn intersection_and_symmetric_difference_split_the_union() {
    let a = load("a\nb\nc\nd\ne\n");
    let b = load("d\ne\nf\n");
    let i = a.intersection(&b);
    let s = a.symmetric_difference(&b);
    assert!(i.intersection(&s).is_empty());
    assert_eq!(members(&i.union(&s)), members(&a.union(&b)));
}

#[test]
fn differences_split_the_symmetric_difference() {
    let a = load("a\nb\nc\nd\ne\n");
    let b = load("d\ne\nf\n");
    let left = a.difference(&b);
    let right = b.difference(&a);
    let s = a.symmetric_difference(&b);
    assert!(left.intersection(&right).is_empty());
    assert_eq!(members(&left.union(&right)), members(&s));
    assert_eq!(s.len(), left.len() + right.len());
}

#[test]
fn identical_inputs_have_no_difference() {
    let a = load("10.0.0.1\nhost\nother\n");
    let b = load("other\n10.0.0.1\nhost\nhost\n");
    let c = compare(&a, &b).unwrap();
    assert_eq!(members(&c.union), members(&a));
    assert_eq!(members(&c.intersection), members(&a));
    assert_eq!(members(&c.union), members(&b));
    assert!(c.symmetric.is_empty());
    assert!(c.missing.is_empty());
    assert!(c.added.is_empty());
    assert_eq!(c.delta, 0);
}

#[test]
fn empty_second_dataset_is_an_error() {
    let a = load("a\nb\n");
    let b = load("\n   \n\t\n");
    assert_eq!(b.len(), 0);
    assert_eq!(compare(&a, &b).unwrap_err(), CompareError::EmptyDataset);
}

#[test]
fn empty_first_dataset_is_an_error() {
    let a = load("");
    let b = load("a\n");
    assert_eq!(compare(&a, &b).unwrap_err(), CompareError::EmptyDataset);
    assert_eq!(compare(&a, &a).unwrap_err(), CompareError::EmptyDataset);
}

#[test]
fn compare_gives_the_five_sets_and_the_delta() {
    let a = load("1\n2\n3\n4\n");
    let b = load("3\n4\n5\n");
    let c = compare(&a, &b).unwrap();
    assert_eq!(members(&c.union), vec!["1", "2", "3", "4", "5"]);
    assert_eq!(members(&c.intersection), vec!["3", "4"]);
    assert_eq!(members(&c.symmetric), vec!["1", "2", "5"]);
    assert_eq!(members(&c.missing), vec!["1", "2"]);
    assert_eq!(members(&c.added), vec!["5"]);
    assert_eq!(c.delta, -1);
    let d = compare(&b, &a).unwrap();
    assert_eq!(d.delta, 1);
    assert_eq!(members(&d.missing), vec!["5"]);
    assert_eq!(members(&d.added), vec!["1", "2"]);
}

#[test]
fn result_block_lists_records_only_when_asked() {
    let d = load("beta\n10.0.0.2\nAlpha\n10.0.0.1\n");
    let refs: Vec<&String> = d.records().iter().collect();
    let quiet = print_results("Total", &refs, false);
    assert_eq!(quiet.header, "Total");
    assert_eq!(quiet.count, 4);
    assert!(quiet.records.is_empty());
    let full = print_results("Total", &refs, true);
    assert_eq!(full.header, "Total");
    assert_eq!(full.count, 4);
    let listed: Vec<&str> = full.records.iter().map(|s| s.as_str()).collect();
    assert_eq!(listed, vec!["10.0.0.1", "10.0.0.2", "Alpha", "beta"]);
}

#[test]
fn all_flag_shows_every_list() {
    let none = Flags { difference: false, symmetric: false, common: false, union: false, all: false };
    assert!(!none.shows_difference());
    assert!(!none.shows_symmetric());
    assert!(!none.shows_common());
    assert!(!none.shows_union());
    let all = Flags { all: true, ..none };
    assert!(all.shows_difference());
    assert!(all.shows_symmetric());
    assert!(all.shows_common());
    assert!(all.shows_union());
    let one = Flags { common: true, ..none };
    assert!(one.shows_common());
    assert!(!one.shows_union());
    assert!(!one.shows_difference());
    assert!(!one.shows_symmetric());
    assert!(Flags { difference: true, ..none }.shows_difference());
    assert!(Flags { symmetric: true, ..none }.shows_symmetric());
    assert!(Flags { union: true, ..none }.shows_union());
}

#[test]
fn sorted_records_are_in_code_point_order() {
    let d = load("beta\n10.0.0.2\nAlpha\n9.0.0.1\nbeta\n");
    let sorted: Vec<&str> = d.sorted_records().iter().map(|s| s.as_str()).collect();
    assert_eq!(sorted, vec!["10.0.0.2", "9.0.0.1", "Alpha", "beta"]);
    assert!(Dataset::new().sorted_records().is_empty());
}

#[test]
fn display_of_a_dataset_does_not_depend_on_line_order() {
    let one = load("1.2.3.4\n01.2.3.4\nhost\n0.0.0.9\n");
    let two = load("host\n0.0.0.9\n01.2.3.4\n1.2.3.4\n");
    let a = print_results("Set", &one.sorted_records(), true);
    let b = print_results("Set", &two.sorted_records(), true);
    let listed: Vec<&str> = a.records.iter().map(|s| s.as_str()).collect();
    assert_eq!(listed, vec!["0.0.0.9", "01.2.3.4", "1.2.3.4", "host"]);
    assert_eq!(a.records, b.records);
}
