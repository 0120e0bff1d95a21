use rcmd::RollCommand;

#[test]
fn formats_two_sixes() {
    let res = RollCommand::new(2, 6).result(|_| 6);
    assert_eq!(res.to_string(), "6, 6 (12)");
}

#[test]
fn formats_empty_result() {
    let res = RollCommand::new(0, 6).result(|_| 6);
    assert_eq!(res.values(), &[] as &[u32]);
    assert_eq!(res.total(), 0);
    assert_eq!(res.to_string(), " (0)");
}

#[test]
fn formats_one_two_three() {
    let vals = [1u32, 2, 3];
    let i = std::cell::Cell::new(0usize);
    let res = RollCommand::new(3, 6).result(|_| {
        let k = i.get();
        i.set(k + 1);
        vals[k]
    });
    assert_eq!(res.to_string(), "1, 2, 3 (6)");
}

#[test]
fn formats_single_value() {
    let res = RollCommand::new(1, 20).result(|range| range);
    assert_eq!(res.to_string(), "20 (20)");
}

#[test]
fn formats_multi_digit_values() {
    let res = RollCommand::new(2, 100).result(|range| range);
    assert_eq!(res.to_string(), "100, 100 (200)");
}

#[test]
fn total_sums_in_order_independent_values() {
    let res = RollCommand::new(4, 10).result(|_| 7);
    assert_eq!(res.total(), 28);
}

#[test]
fn iter_walks_values_in_roll_order() {
    let vals = [4u32, 1, 9];
    let i = std::cell::Cell::new(0usize);
    let res = RollCommand::new(3, 10).result(|_| {
        let k = i.get();
        i.set(k + 1);
        vals[k]
    });
    let collected: Vec<u32> = res.iter().copied().collect();
    assert_eq!(collected, vec![4, 1, 9]);
}

#[test]
fn values_returns_every_roll() {
    let res = RollCommand::new(3, 9).result(|range| range - 1);
    assert_eq!(res.values(), &[8, 8, 8]);
}
