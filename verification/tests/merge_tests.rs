use std::cmp::Ordering;

use rod::crdt::{LexicalCmp, MergeOutcome};
use rod::graph::{Field, Value};
use rod::ulid::Ulid;
use rod::FUTURE_UPDATE_THRESHOLD_MS;

fn value_eq(a: &Value, b: &Value) -> bool {
    match (a, b) {
        (Value::Empty, Value::Empty) => true,
        (Value::Bool(x), Value::Bool(y)) => x == y,
        (Value::Int(x), Value::Int(y)) => x == y,
        (Value::Float(x), Value::Float(y)) => x == y,
        (Value::Text(x), Value::Text(y)) => x == y,
        (Value::Binary(x), Value::Binary(y)) => x == y,
        (Value::Link(x), Value::Link(y)) => x == y,
        _ => false,
    }
}

fn every_kind() -> Vec<Value> {
    vec![
        Value::Empty,
        Value::Bool(true),
        Value::Bool(false),
        Value::Int(-7),
        Value::Float(1.5f64.to_bits()),
        Value::Float(f64::NAN.to_bits()),
        Value::Text(String::from("hello")),
        Value::Binary(vec![0u8, 255u8, 3u8]),
        Value::Link(Ulid(42)),
    ]
}

#[test]
fn merge_is_idempotent_for_every_kind() {
    for v in every_kind() {
        for ts in [0u64, 100, u64::MAX] {
            let mut f = Field::new_at(v.clone(), ts);
            let copy = f.clone();
            let outcome = f.merge_with(&copy, 1_000);
            assert_eq!(outcome, MergeOutcome::Unchanged);
            assert_eq!(f.state(), ts);
            assert!(value_eq(f.value(), &v));
        }
    }
}

#[test]
fn equal_timestamp_integer_tiebreak() {
    // Existing name@100 = 5; incoming name@100 = 7: 7 lexically dominates.
    let mut existing = Field::new_at(Value::Int(5), 100);
    let incoming = Field::new_at(Value::Int(7), 100);
    let outcome = existing.merge_with(&incoming, 1_000);
    assert_eq!(outcome, MergeOutcome::Updated);
    assert!(value_eq(existing.value(), &Value::Int(7)));
    assert_eq!(existing.state(), 100);
}

#[test]
fn equal_timestamp_true_dominates_false() {
    // flag@50 = false; incoming true@50: result true@50.
    let mut existing = Field::new_at(Value::Bool(false), 50);
    let incoming = Field::new_at(Value::Bool(true), 50);
    assert_eq!(existing.merge_with(&incoming, 1_000), MergeOutcome::Updated);
    assert!(value_eq(existing.value(), &Value::Bool(true)));
    assert_eq!(existing.state(), 50);

    // The reverse: existing true, incoming false stays true@50.
    let mut existing = Field::new_at(Value::Bool(true), 50);
    let incoming = Field::new_at(Value::Bool(false), 50);
    assert_eq!(existing.merge_with(&incoming, 1_000), MergeOutcome::Unchanged);
    assert!(value_eq(existing.value(), &Value::Bool(true)));
    assert_eq!(existing.state(), 50);
}

#[test]
fn equal_timestamp_result_is_side_independent() {
    let apple = Value::Text(String::from("apple"));
    let banana = Value::Text(String::from("banana"));

    let mut left = Field::new_at(apple.clone(), 9);
    left.merge_with(&Field::new_at(banana.clone(), 9), 100);
    let mut right = Field::new_at(banana.clone(), 9);
    right.merge_with(&Field::new_at(apple.clone(), 9), 100);

    // The lexically higher value survives, whichever side held it.
    assert!(value_eq(left.value(), right.value()));
    assert!(value_eq(left.value(), &banana));
    assert_eq!(left.state(), 9);
    assert_eq!(right.state(), 9);
}

#[test]
fn older_update_never_changes_the_field() {
    let mut existing = Field::new_at(Value::Int(1), 100);
    let incoming = Field::new_at(Value::Int(9), 99);
    assert_eq!(existing.merge_with(&incoming, 1_000), MergeOutcome::Unchanged);
    assert!(value_eq(existing.value(), &Value::Int(1)));
    assert_eq!(existing.state(), 100);
}

#[test]
fn newer_update_within_clock_is_adopted_wholesale() {
    let mut existing = Field::new_at(Value::Int(1), 100);
    let incoming = Field::new_at(Value::Int(9), 500);
    assert_eq!(existing.merge_with(&incoming, 500), MergeOutcome::Updated);
    assert!(value_eq(existing.value(), &Value::Int(9)));
    assert_eq!(existing.state(), 500);
}

#[test]
fn future_threshold_boundary() {
    let now: u64 = 1_000_000;

    // Exactly at "now": accepted.
    let mut f = Field::new_at(Value::Int(1), 0);
    assert_eq!(
        f.merge_with(&Field::new_at(Value::Int(2), now), now),
        MergeOutcome::Updated
    );
    assert_eq!(f.state(), now);

    // Exactly at the edge of the grace window: deferred, not discarded
    // (the comparison is strict).
    let mut f = Field::new_at(Value::Int(1), 0);
    let edge = now + FUTURE_UPDATE_THRESHOLD_MS;
    assert_eq!(
        f.merge_with(&Field::new_at(Value::Int(2), edge), now),
        MergeOutcome::Deferred
    );
    assert!(value_eq(f.value(), &Value::Int(1)));
    assert_eq!(f.state(), 0);

    // One past the edge: discarded.
    let mut f = Field::new_at(Value::Int(1), 0);
    assert_eq!(
        f.merge_with(&Field::new_at(Value::Int(2), edge + 1), now),
        MergeOutcome::Discarded
    );
    assert!(value_eq(f.value(), &Value::Int(1)));
    assert_eq!(f.state(), 0);

    // Just ahead of "now": deferred.
    let mut f = Field::new_at(Value::Int(1), 0);
    assert_eq!(
        f.merge_with(&Field::new_at(Value::Int(2), now + 1), now),
        MergeOutcome::Deferred
    );
    assert_eq!(f.state(), 0);
}

#[test]
fn higher_rank_dominates_ties_across_variants() {
    // Variants rank Empty < Bool < Int < Float < Text < Binary < Link;
    // the higher-ranked value survives a tie.
    let mut existing = Field::new_at(Value::Empty, 10);
    assert_eq!(
        existing.merge_with(&Field::new_at(Value::Int(5), 10), 100),
        MergeOutcome::Updated
    );
    assert!(value_eq(existing.value(), &Value::Int(5)));

    let mut existing = Field::new_at(Value::Int(5), 10);
    assert_eq!(
        existing.merge_with(&Field::new_at(Value::Empty, 10), 100),
        MergeOutcome::Unchanged
    );
    assert!(value_eq(existing.value(), &Value::Int(5)));
}

#[test]
fn nan_sorts_as_the_lowest_float() {
    let nan = Value::Float(f64::NAN.to_bits());
    let one = Value::Float(1.0f64.to_bits());

    // An ordinary float displaces a not-a-number on a tie...
    let mut f = Field::new_at(nan.clone(), 10);
    assert_eq!(f.merge_with(&Field::new_at(one.clone(), 10), 100), MergeOutcome::Updated);
    assert!(value_eq(f.value(), &one));

    // ...and an incoming not-a-number never displaces one.
    let mut f = Field::new_at(one.clone(), 10);
    assert_eq!(f.merge_with(&Field::new_at(nan.clone(), 10), 100), MergeOutcome::Unchanged);
    assert!(value_eq(f.value(), &one));
}

#[test]
fn floats_order_numerically() {
    // The comparison reads `Greater` when the other side stands higher.
    let neg = Value::Float((-1.5f64).to_bits());
    let pos = Value::Float(2.0f64.to_bits());
    assert_eq!(neg.lexical_cmp(&pos), Ordering::Greater);
    assert_eq!(pos.lexical_cmp(&neg), Ordering::Less);
    assert_eq!(
        Value::Float(0.5f64.to_bits()).lexical_cmp(&Value::Float(0.5f64.to_bits())),
        Ordering::Equal
    );
}

#[test]
fn lexical_order_within_and_across_variants() {
    // `Greater` marks the other side as dominant.
    assert_eq!(Value::Int(3).lexical_cmp(&Value::Int(5)), Ordering::Greater);
    assert_eq!(Value::Int(5).lexical_cmp(&Value::Int(3)), Ordering::Less);
    assert_eq!(
        Value::Text(String::from("a")).lexical_cmp(&Value::Text(String::from("ab"))),
        Ordering::Greater
    );
    assert_eq!(
        Value::Binary(vec![1, 2]).lexical_cmp(&Value::Binary(vec![1, 1, 9])),
        Ordering::Less
    );
    assert_eq!(Value::Link(Ulid(1)).lexical_cmp(&Value::Link(Ulid(2))), Ordering::Greater);
    // Cross-variant: rank order Empty < Bool < Int < Float < Text < Binary < Link.
    assert_eq!(Value::Empty.lexical_cmp(&Value::Bool(false)), Ordering::Greater);
    assert_eq!(
        Value::Link(Ulid(0)).lexical_cmp(&Value::Text(String::from("z"))),
        Ordering::Less
    );
}

#[test]
fn strings_order_by_code_point() {
    // U+00E9 stands above every ASCII letter, so it dominates a tie.
    let accented = Value::Text(String::from("é"));
    let plain = Value::Text(String::from("z"));
    assert_eq!(plain.lexical_cmp(&accented), Ordering::Greater);
    assert_eq!(accented.lexical_cmp(&plain), Ordering::Less);

    let mut f = Field::new_at(plain.clone(), 4);
    assert_eq!(f.merge_with(&Field::new_at(accented.clone(), 4), 100), MergeOutcome::Updated);
    assert!(value_eq(f.value(), &accented));
}

#[test]
fn distinct_timestamps_merge_order_independently() {
    let base = Field::new_at(Value::Int(0), 10);
    let a = Field::new_at(Value::Int(1), 20);
    let b = Field::new_at(Value::Int(2), 30);

    let mut first = base.clone();
    first.merge_with(&a, 100);
    first.merge_with(&b, 100);

    let mut second = base.clone();
    second.merge_with(&b, 100);
    second.merge_with(&a, 100);

    assert!(value_eq(first.value(), second.value()));
    assert_eq!(first.state(), second.state());
    assert!(value_eq(first.value(), &Value::Int(2)));
    assert_eq!(first.state(), 30);
}
