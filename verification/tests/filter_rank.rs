use solmarket::dataset::Dataset;
use solmarket::filter::filter_and_rank;
use solmarket::item::{Item, Price};
use solmarket::money::Money;

fn listing(url_id: u64, unit_micros: u64, loc: u64) -> Item {
    Item::Complete {
        url_id,
        price_per_package: Money { micros: 1_000_000 },
        price_per_base_unit: Price::Known(Money { micros: unit_micros }),
        quantity_available: 0,
        minimum_order_quantity: 0,
        location_code: loc,
    }
}

#[test]
fn range_filter_orders_by_base_unit_price() {
    let mut d = Dataset::empty();
    d.insert(1, listing(1, 300_000, 10115));
    d.insert(2, listing(2, 250_000, 80331));
    d.insert(3, listing(3, 400_000, 10999));
    let ranges: Vec<(u64, u64)> = vec![(10000, 19999)];
    let out = filter_and_rank(&d, &ranges);
    assert_eq!(out.len(), 2);
    assert_eq!(out[0], listing(1, 300_000, 10115));
    assert_eq!(out[1], listing(3, 400_000, 10999));
}

#[test]
fn record_in_overlapping_ranges_appears_once() {
    let mut d = Dataset::empty();
    d.insert(1, listing(1, 300_000, 10115));
    let ranges: Vec<(u64, u64)> = vec![(10000, 19999), (10100, 10200)];
    let out = filter_and_rank(&d, &ranges);
    assert_eq!(out.len(), 1);
}

#[test]
fn records_without_usable_price_sort_last() {
    let mut d = Dataset::empty();
    d.insert(1, listing(1, 900_000, 10115));
    d.insert(
        2,
        Item::Complete {
            url_id: 2,
            price_per_package: Money { micros: 1_000_000 },
            price_per_base_unit: Price::Unknown,
            quantity_available: 0,
            minimum_order_quantity: 0,
            location_code: 10116,
        },
    );
    d.insert(3, Item::Unresolved);
    d.insert(4, listing(4, 100_000, 10117));
    let ranges: Vec<(u64, u64)> = vec![(0, 99999)];
    let out = filter_and_rank(&d, &ranges);
    assert_eq!(out.len(), 4);
    assert_eq!(out[0], listing(4, 100_000, 10117));
    assert_eq!(out[1], listing(1, 900_000, 10115));
    // The two records without a parsed price close the list, after every
    // record with a real price.
    assert!(matches!(
        out[2],
        Item::Unresolved | Item::Complete { price_per_base_unit: Price::Unknown, .. }
    ));
    assert!(matches!(
        out[3],
        Item::Unresolved | Item::Complete { price_per_base_unit: Price::Unknown, .. }
    ));
}

#[test]
fn placeholder_counts_as_location_zero() {
    let mut d = Dataset::empty();
    d.insert(1, Item::Unresolved);
    let hit: Vec<(u64, u64)> = vec![(0, 10)];
    let miss: Vec<(u64, u64)> = vec![(10000, 19999)];
    assert_eq!(filter_and_rank(&d, &hit).len(), 1);
    assert_eq!(filter_and_rank(&d, &miss).len(), 0);
}

#[test]
fn empty_ranges_select_nothing() {
    let mut d = Dataset::empty();
    d.insert(1, listing(1, 300_000, 10115));
    let ranges: Vec<(u64, u64)> = Vec::new();
    assert_eq!(filter_and_rank(&d, &ranges).len(), 0);
}
