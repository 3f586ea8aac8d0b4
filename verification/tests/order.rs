use compare_sets::order::{sort_by_text, sort_target_vector, RecordKey};

fn order(input: &[&str]) -> Vec<String> {
    let owned: Vec<String> = input.iter().map(|s| s.to_string()).collect();
    let refs: Vec<&String> = owned.iter().collect();
    sort_target_vector(&refs).into_iter().cloned().collect()
}

#[test]
fn ips_by_number_then_text_by_code_point() {
    assert_eq!(
        order(&["10.0.0.2", "10.0.0.1", "alpha", "Zebra"]),
        vec!["10.0.0.1", "10.0.0.2", "Zebra", "alpha"]
    );
}

#[test]
fn ips_go_by_number_not_by_text() {
    assert_eq!(
        order(&["10.0.0.1", "9.0.0.1", "100.0.0.1", "9.0.0.10", "9.0.0.2"]),
        vec!["9.0.0.1", "9.0.0.2", "9.0.0.10", "10.0.0.1", "100.0.0.1"]
    );
}

#[test]
fn ips_precede_everything_else() {
    let out = order(&["zeta", "255.255.255.255", "0", "1.2.3", "0.0.0.0", "!bang", "1.2.3.4.5"]);
    assert_eq!(out, vec!["0.0.0.0", "255.255.255.255", "!bang", "0", "1.2.3", "1.2.3.4.5", "zeta"]);
}

#[test]
fn equal_numbers_keep_their_order() {
    assert_eq!(order(&["1.2.3.4", "01.2.3.4", "0.0.0.0"]), vec!["0.0.0.0", "1.2.3.4", "01.2.3.4"]);
    assert_eq!(order(&["01.2.3.4", "1.2.3.4", "0.0.0.0"]), vec!["0.0.0.0", "01.2.3.4", "1.2.3.4"]);
}

#[test]
fn ordering_twice_is_ordering_once() {
    let inputs: [&[&str]; 4] = [
        &["10.0.0.2", "10.0.0.1", "alpha", "Zebra"],
        &["b", "a", "1.1.1.1", "01.1.1.1", "1.01.1.1", "c", "0.0.0.0"],
        &[],
        &["x"],
    ];
    for input in inputs {
        let once = order(input);
        let refs: Vec<&str> = once.iter().map(|s| s.as_str()).collect();
        assert_eq!(order(&refs), once);
    }
}

#[test]
fn ordering_loses_and_adds_nothing() {
    let input = ["b", "10.0.0.1", "a", "b", "10.0.0.1", "3.3.3.3"];
    let out = order(&input);
    assert_eq!(out, vec!["3.3.3.3", "10.0.0.1", "10.0.0.1", "a", "b", "b"]);
    assert_eq!(out.len(), input.len());
}

#[test]
fn ordering_nothing_gives_nothing() {
    assert_eq!(order(&[]), Vec::<String>::new());
}

#[test]
fn ordering_hands_back_the_same_strings() {
    let a = "b".to_string();
    let b = "1.1.1.1".to_string();
    let refs = vec![&a, &b];
    let out = sort_target_vector(&refs);
    assert!(std::ptr::eq(out[0], &b));
    assert!(std::ptr::eq(out[1], &a));
}

#[test]
fn record_key_orders_records() {
    let ip_low = RecordKey::of("1.1.1.1");
    let ip_high = RecordKey::of("2.0.0.0");
    let text_low = RecordKey::of("Zebra");
    let text_high = RecordKey::of("alpha");
    assert!(ip_low.is_ip());
    assert!(!text_low.is_ip());
    assert!(ip_low.precedes(&ip_high));
    assert!(!ip_high.precedes(&ip_low));
    assert!(!ip_low.precedes(&ip_low));
    assert!(ip_high.precedes(&text_low));
    assert!(!text_low.precedes(&ip_high));
    assert!(text_low.precedes(&text_high));
    assert!(!text_high.precedes(&text_low));
    assert!(!RecordKey::of("1.2.3.4").precedes(&RecordKey::of("01.2.3.4")));
    assert!(!RecordKey::of("01.2.3.4").precedes(&RecordKey::of("1.2.3.4")));
}

#[test]
fn text_order_ignores_the_shape_of_records() {
    let owned: Vec<String> =
        ["b", "10.0.0.1", "a", "9.0.0.1", "B", "a"].iter().map(|s| s.to_string()).collect();
    let refs: Vec<&String> = owned.iter().collect();
    let out = sort_by_text(&refs);
    let sorted: Vec<&str> = out.iter().map(|s| s.as_str()).collect();
    assert_eq!(sorted, vec!["10.0.0.1", "9.0.0.1", "B", "a", "a", "b"]);
    let mut expected = refs.clone();
    expected.sort();
    assert_eq!(out, expected);
    assert!(sort_by_text(&[]).is_empty());
}
