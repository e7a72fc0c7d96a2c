use auction_averages::accumulator::AvgSum;
use auction_averages::EmptyAggregateError;

#[test]
fn truncating_average() {
    let acc = AvgSum { sum: 7, count: 2 };
    assert_eq!(acc.get_average(), Ok(3));
}

#[test]
fn truncation_is_toward_zero() {
    let acc = AvgSum { sum: -7, count: 2 };
    assert_eq!(acc.get_average(), Ok(-3));
}

#[test]
fn exact_average() {
    let acc = AvgSum { sum: 90, count: 3 };
    assert_eq!(acc.get_average(), Ok(30));
}

#[test]
fn empty_accumulator_errors() {
    let acc = AvgSum { sum: 0, count: 0 };
    assert_eq!(acc.get_average(), Err(EmptyAggregateError));
}

#[test]
fn update_adds_pairwise() {
    let acc = AvgSum { sum: 10, count: 2 }.update(5, 1);
    assert_eq!(acc.sum, 15);
    assert_eq!(acc.count, 3);
}

#[test]
fn merge_is_commutative() {
    let left = AvgSum { sum: 0, count: 0 }.update(7, 2).update(11, 3);
    let right = AvgSum { sum: 0, count: 0 }.update(11, 3).update(7, 2);
    assert_eq!(left.sum, right.sum);
    assert_eq!(left.count, right.count);
}

#[test]
fn merge_is_associative() {
    let grouped_left = AvgSum { sum: 1, count: 1 }.update(2, 3).update(4, 5);
    let partial = AvgSum { sum: 2, count: 3 }.update(4, 5);
    let grouped_right = AvgSum { sum: 1, count: 1 }.update(partial.sum, partial.count);
    assert_eq!(grouped_left.sum, grouped_right.sum);
    assert_eq!(grouped_left.count, grouped_right.count);
}
