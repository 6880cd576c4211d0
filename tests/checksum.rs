use book_checksum::book::{
    BookSide, FeedConfig, Field, Level3Data, Order, OrderEvent, ValidationError, ValidationResult,
};
use book_checksum::checksum::{checksum_string, compare_checksum, validate};
use book_checksum::decimal::{canonicalize, pow10_u64, Decimal};
use book_checksum::levels::select_levels;
use book_checksum::text::int_to_text;

fn dec(t: &str) -> Decimal {
    Decimal::parse(t).unwrap()
}

fn order(id: &str, price: &str, qty: &str) -> Order {
    Order {
        event: Some(OrderEvent::Add),
        order_id: id.to_string(),
        limit_price: dec(price),
        order_qty: dec(qty),
        timestamp: None,
    }
}

fn config(levels: u32) -> FeedConfig {
    FeedConfig {
        price_shift: 1,
        qty_shift: 8,
        tolerance_digits: 3,
        levels_per_side: levels,
        ask_excluded_levels: vec![],
        bid_excluded_levels: vec![],
    }
}

fn book(asks: Vec<Order>, bids: Vec<Order>, checksum: u32) -> Level3Data {
    Level3Data { symbol: "BTC/USD".to_string(), bids, asks, checksum }
}

fn scenario_side() -> Vec<Order> {
    vec![
        order("a", "100.1", "0.00000001"),
        order("b", "100.1", "0.00000002"),
        order("c", "100.2", "0.00000003"),
    ]
}

/// Asks at 101, 102, ... with one order per level.
fn ladder(levels: u32) -> Vec<Order> {
    (0..levels)
        .map(|i| order(&format!("o{}", i), &format!("{}", 101 + i), "1.5"))
        .collect()
}

#[test]
fn scenario_two_levels_valid() {
    let expected = crc32fast::hash(b"100111001210023");
    let snap = book(scenario_side(), vec![], expected);
    match validate(&snap, &config(2)) {
        ValidationResult::Valid { computed, checksum_string } => {
            assert_eq!(checksum_string, "100111001210023");
            assert_eq!(computed, expected);
        }
        other => panic!("unexpected {:?}", other),
    }
}

#[test]
fn scenario_levels_assigned() {
    assert_eq!(select_levels(&scenario_side(), 2), vec![1, 1, 2]);
    assert_eq!(select_levels(&scenario_side(), 1), vec![1, 1]);
    assert_eq!(select_levels(&scenario_side(), 0), Vec::<u32>::new());
}

#[test]
fn scenario_mismatch_reports_both_checksums() {
    let right = crc32fast::hash(b"100111001210023");
    let snap = book(scenario_side(), vec![], right.wrapping_add(1));
    match validate(&snap, &config(2)) {
        ValidationResult::Mismatch { computed, expected, checksum_string } => {
            assert_eq!(computed, right);
            assert_eq!(expected, right.wrapping_add(1));
            assert_eq!(checksum_string, "100111001210023");
        }
        other => panic!("unexpected {:?}", other),
    }
}

#[test]
fn asks_come_before_bids() {
    let bids = vec![order("x", "99.9", "2"), order("y", "99.8", "0.5")];
    let snap = book(scenario_side(), bids, 0);
    assert_eq!(
        checksum_string(&snap, &config(10)).unwrap(),
        "10011100121002399920000000099850000000"
    );
}

#[test]
fn empty_side_contributes_nothing() {
    let only_asks = book(scenario_side(), vec![], 0);
    assert_eq!(checksum_string(&only_asks, &config(2)).unwrap(), "100111001210023");
    let bids = vec![order("x", "99.9", "2")];
    let only_bids = book(vec![], bids, 0);
    assert_eq!(checksum_string(&only_bids, &config(2)).unwrap(), "999200000000");
    let empty = book(vec![], vec![], crc32fast::hash(b""));
    match validate(&empty, &config(10)) {
        ValidationResult::Valid { checksum_string, .. } => assert_eq!(checksum_string, ""),
        other => panic!("unexpected {:?}", other),
    }
}

#[test]
fn excluded_ask_levels_drop_exactly_those() {
    let bids = vec![order("x", "99.9", "2")];
    let plain = config(12);
    let mut quirk = config(12);
    quirk.ask_excluded_levels = vec![10, 11];
    let snap = book(ladder(13), bids, 0);
    let without = checksum_string(&snap, &plain).unwrap();
    let with = checksum_string(&snap, &quirk).unwrap();
    let piece = |level: u32| format!("{}0{}", 100 + level, 150000000);
    let mut expect_without = String::new();
    let mut expect_with = String::new();
    for level in 1..=12 {
        expect_without.push_str(&piece(level));
        if level != 10 && level != 11 {
            expect_with.push_str(&piece(level));
        }
    }
    expect_without.push_str("999200000000");
    expect_with.push_str("999200000000");
    assert_eq!(without, expect_without);
    assert_eq!(with, expect_with);
}

#[test]
fn excluded_levels_are_still_canonicalized() {
    let mut quirk = config(3);
    quirk.ask_excluded_levels = vec![2];
    let asks = vec![order("a", "100.1", "1"), order("b", "100.15", "1")];
    let snap = book(asks, vec![], 0);
    assert_eq!(
        checksum_string(&snap, &quirk),
        Err(ValidationError::PrecisionError { side: BookSide::Ask, index: 1, field: Field::Price })
    );
}

#[test]
fn unrepresentable_price_is_precision_error() {
    let asks = vec![order("a", "100.1", "1"), order("b", "100.15", "1")];
    let snap = book(asks, vec![], 0);
    match validate(&snap, &config(10)) {
        ValidationResult::Failed(e) => assert_eq!(
            e,
            ValidationError::PrecisionError { side: BookSide::Ask, index: 1, field: Field::Price }
        ),
        other => panic!("unexpected {:?}", other),
    }
}

#[test]
fn unrepresentable_bid_quantity_is_precision_error() {
    let bids = vec![order("x", "99.9", "0.000000015")];
    let snap = book(vec![], bids, 0);
    assert_eq!(
        checksum_string(&snap, &config(10)),
        Err(ValidationError::PrecisionError { side: BookSide::Bid, index: 0, field: Field::Quantity })
    );
}

#[test]
fn levels_beyond_bound_are_not_checked() {
    let mut asks = scenario_side();
    asks.push(order("d", "100.35", "1"));
    let snap = book(asks, vec![], 0);
    assert_eq!(checksum_string(&snap, &config(2)).unwrap(), "100111001210023");
}

#[test]
fn asks_out_of_order_are_malformed() {
    let asks = vec![order("a", "100.2", "1"), order("b", "100.1", "1")];
    let snap = book(asks, vec![], 0);
    assert_eq!(
        checksum_string(&snap, &config(10)),
        Err(ValidationError::MalformedInput { side: BookSide::Ask, index: 1 })
    );
}

#[test]
fn bids_out_of_order_are_malformed() {
    let bids = vec![order("x", "99.8", "1"), order("y", "99.9", "1")];
    let snap = book(vec![], bids, 0);
    match validate(&snap, &config(10)) {
        ValidationResult::Failed(e) => {
            assert_eq!(e, ValidationError::MalformedInput { side: BookSide::Bid, index: 1 })
        }
        other => panic!("unexpected {:?}", other),
    }
}

#[test]
fn scale_out_of_range_is_malformed() {
    let mut o = order("a", "1", "1");
    o.order_qty = Decimal { mantissa: 1, scale: 19 };
    let snap = book(vec![o], vec![], 0);
    assert_eq!(
        checksum_string(&snap, &config(10)),
        Err(ValidationError::MalformedInput { side: BookSide::Ask, index: 0 })
    );
}

#[test]
fn truncation_is_idempotent() {
    let side = vec![
        order("a", "100.1", "1"),
        order("b", "100.1", "1"),
        order("c", "100.2", "1"),
        order("d", "100.3", "1"),
        order("e", "100.3", "1"),
        order("f", "100.4", "1"),
    ];
    let first = select_levels(&side, 4);
    let kept: Vec<Order> = side[..first.len()].to_vec();
    assert_eq!(select_levels(&kept, 2), select_levels(&side, 2));
    assert_eq!(select_levels(&side, 2), vec![1, 1, 2]);
}

#[test]
fn reordering_within_level_keeps_levels_and_order() {
    let side = vec![order("a", "100.1", "1"), order("b", "100.1", "2"), order("c", "100.2", "3")];
    let swapped = vec![order("b", "100.1", "2"), order("a", "100.1", "1"), order("c", "100.2", "3")];
    assert_eq!(select_levels(&side, 2), select_levels(&swapped, 2));
    let s1 = checksum_string(&book(side, vec![], 0), &config(2)).unwrap();
    let s2 = checksum_string(&book(swapped, vec![], 0), &config(2)).unwrap();
    assert_eq!(s1, "100110000000010012000000001002300000000");
    assert_eq!(s2, "100120000000010011000000001002300000000");
}

#[test]
fn equal_prices_at_other_scales_share_a_level() {
    let side = vec![order("a", "100.1", "1"), order("b", "100.10", "1"), order("c", "100.2", "1")];
    assert_eq!(select_levels(&side, 5), vec![1, 1, 2]);
}

#[test]
fn canonical_round_trip() {
    assert_eq!(canonicalize(dec("100.1"), 1, 3), Some(1001));
    assert_eq!(canonicalize(dec("0.00000001"), 8, 3), Some(1));
    assert_eq!(canonicalize(dec("-2.5"), 3, 3), Some(-2500));
    assert_eq!(canonicalize(dec("0"), 30, 3), Some(0));
    assert_eq!(canonicalize(dec("1"), 19, 3), None);
    assert_eq!(canonicalize(dec("100.1004"), 1, 3), None);
    assert_eq!(canonicalize(dec("100.10004"), 1, 3), Some(1001));
    assert_eq!(canonicalize(dec("0.15"), 1, 0), Some(2));
    assert_eq!(canonicalize(dec("-0.15"), 1, 0), Some(-2));
    assert_eq!(canonicalize(dec("0.14"), 1, 0), Some(1));
    assert_eq!(canonicalize(dec("0.14"), 1, 1), None);
    assert_eq!(canonicalize(dec("0.10"), 1, 5), Some(1));
    let back = Decimal { mantissa: 1001, scale: 1 };
    assert!(back.same_value(&dec("100.1")));
}

#[test]
fn decimal_parse_forms() {
    assert_eq!(Decimal::parse("100.25"), Some(Decimal { mantissa: 10025, scale: 2 }));
    assert_eq!(Decimal::parse("-0.5"), Some(Decimal { mantissa: -5, scale: 1 }));
    assert_eq!(Decimal::parse("42"), Some(Decimal { mantissa: 42, scale: 0 }));
    assert_eq!(
        Decimal::parse("-9223372036854775808"),
        Some(Decimal { mantissa: i64::MIN, scale: 0 })
    );
    assert_eq!(Decimal::parse("9223372036854775808"), None);
    assert_eq!(Decimal::parse("0.0000000000000000001"), None);
    assert_eq!(Decimal::parse(""), None);
    assert_eq!(Decimal::parse("-"), None);
    assert_eq!(Decimal::parse("1."), None);
    assert_eq!(Decimal::parse(".5"), None);
    assert_eq!(Decimal::parse("1e-8"), None);
    assert_eq!(Decimal::parse("1.2.3"), None);
}

#[test]
fn decimal_comparisons() {
    assert!(dec("100.1").value_le(&dec("100.10")));
    assert!(dec("100.10").value_le(&dec("100.1")));
    assert!(dec("-1").value_le(&dec("0.5")));
    assert!(!dec("0.5").value_le(&dec("-1")));
    assert_eq!(Decimal::new(5, 19), None);
    assert_eq!(Decimal::new(5, 18), Some(Decimal { mantissa: 5, scale: 18 }));
}

#[test]
fn integer_text() {
    assert_eq!(int_to_text(0), "0");
    assert_eq!(int_to_text(1002), "1002");
    assert_eq!(int_to_text(-37), "-37");
    assert_eq!(int_to_text(i64::MIN), "-9223372036854775808");
    assert_eq!(pow10_u64(18), 1_000_000_000_000_000_000);
}

#[test]
fn compare_checksum_outcomes() {
    match compare_checksum(7, 7, "ab".to_string()) {
        ValidationResult::Valid { computed, checksum_string } => {
            assert_eq!(computed, 7);
            assert_eq!(checksum_string, "ab");
        }
        other => panic!("unexpected {:?}", other),
    }
    match compare_checksum(7, 8, "ab".to_string()) {
        ValidationResult::Mismatch { computed, expected, .. } => {
            assert_eq!((computed, expected), (7, 8));
        }
        other => panic!("unexpected {:?}", other),
    }
}

#[test]
fn computed_checksum_is_the_crc_of_the_string() {
    let snap = book(scenario_side(), vec![], 0);
    match validate(&snap, &config(2)) {
        ValidationResult::Mismatch { computed, .. } => {
            assert_eq!(computed, crc32fast::hash(b"100111001210023"));
        }
        other => panic!("unexpected {:?}", other),
    }
}
