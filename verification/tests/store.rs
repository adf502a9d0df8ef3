use solmarket::codec::{decode_dataset, parse_dataset, render_dataset};
use solmarket::crawl::{apply_crawl, new_identifiers, MergePolicy};
use solmarket::dataset::Dataset;
use solmarket::item::{Item, Price};
use solmarket::money::Money;

fn complete(url_id: u64, pkg: u64, unit: Option<u64>, loc: u64) -> Item {
    Item::Complete {
        url_id,
        price_per_package: Money { micros: pkg },
        price_per_base_unit: match unit {
            Some(m) => Price::Known(Money { micros: m }),
            None => Price::Unknown,
        },
        quantity_available: 0,
        minimum_order_quantity: 0,
        location_code: loc,
    }
}

#[test]
fn insert_get_contains_len() {
    let mut d = Dataset::empty();
    assert_eq!(d.len(), 0);
    d.insert(7, complete(7, 1_000_000, Some(300_000), 10115));
    d.insert(9, Item::Unresolved);
    assert_eq!(d.len(), 2);
    assert!(d.contains(7));
    assert!(d.contains(9));
    assert!(!d.contains(8));
    assert_eq!(d.get(7), Some(complete(7, 1_000_000, Some(300_000), 10115)));
    assert_eq!(d.get(9), Some(Item::Unresolved));
    assert_eq!(d.get(8), None);
}

#[test]
fn insert_replaces_existing_key() {
    let mut d = Dataset::empty();
    d.insert(7, Item::Unresolved);
    d.insert(7, complete(7, 5_000_000, None, 80331));
    assert_eq!(d.len(), 1);
    assert_eq!(d.get(7), Some(complete(7, 5_000_000, None, 80331)));
}

#[test]
fn placeholder_renders_compactly() {
    let mut d = Dataset::empty();
    d.insert(5, Item::Unresolved);
    assert_eq!(render_dataset(&d), "5 u;");
}

#[test]
fn save_then_load_keeps_every_record() {
    let mut d = Dataset::empty();
    d.insert(1, complete(1, 1_234_500_000, Some(300_000), 10115));
    d.insert(2, complete(2, 99_000_000, None, 80331));
    d.insert(3, Item::Unresolved);
    let text = render_dataset(&d);
    let back = parse_dataset(&text).expect("rendered text must parse");
    assert_eq!(back.len(), 3);
    assert_eq!(back.get(1), d.get(1));
    assert_eq!(back.get(2), d.get(2));
    assert_eq!(back.get(3), d.get(3));
    // A second round trip reproduces the persisted text byte for byte.
    assert_eq!(render_dataset(&back), text);
}

#[test]
fn load_of_missing_or_corrupt_state_is_empty() {
    assert_eq!(decode_dataset("").len(), 0);
    assert_eq!(decode_dataset("not a dataset").len(), 0);
    assert_eq!(decode_dataset("12 c broken").len(), 0);
}

#[test]
fn incremental_pull_fetches_only_new_identifiers() {
    let mut existing = Dataset::empty();
    let stored = complete(101, 42_000_000, Some(250_000), 10115);
    existing.insert(101, stored);
    let found: Vec<u64> = vec![101, 102];
    let new_ids = new_identifiers(&existing, &found);
    assert_eq!(new_ids, vec![102]);

    let mut fresh = Dataset::empty();
    fresh.insert(102, complete(102, 10_000_000, Some(400_000), 10999));
    let merged = apply_crawl(&existing, &fresh, MergePolicy::Merge);
    assert_eq!(merged.len(), 2);
    // The previously stored record is untouched by the merge.
    assert_eq!(merged.get(101), Some(stored));
    assert_eq!(merged.get(102), fresh.get(102));
}

#[test]
fn merge_never_removes_replace_can() {
    let mut existing = Dataset::empty();
    existing.insert(1, Item::Unresolved);
    existing.insert(2, Item::Unresolved);
    let mut fresh = Dataset::empty();
    fresh.insert(2, complete(2, 1_000_000, None, 10115));

    let merged = apply_crawl(&existing, &fresh, MergePolicy::Merge);
    assert!(merged.contains(1));
    assert!(merged.contains(2));
    assert_eq!(merged.get(2), fresh.get(2));

    let replaced = apply_crawl(&existing, &fresh, MergePolicy::Replace);
    assert!(!replaced.contains(1));
    assert!(replaced.contains(2));
    assert_eq!(replaced.len(), 1);
}

#[test]
fn round_trip_keeps_extreme_values() {
    let mut d = Dataset::empty();
    d.insert(0, complete(u64::MAX, u64::MAX, Some(0), 99999));
    d.insert(u64::MAX, complete(0, 0, None, 0));
    let text = render_dataset(&d);
    let back = parse_dataset(&text).expect("rendered text must parse");
    assert_eq!(back.get(0), d.get(0));
    assert_eq!(back.get(u64::MAX), d.get(u64::MAX));
    assert_eq!(back.len(), 2);
}

#[test]
fn trailing_garbage_makes_the_text_corrupt() {
    let mut d = Dataset::empty();
    d.insert(5, Item::Unresolved);
    let mut text = render_dataset(&d);
    text.push_str(" trailing");
    assert!(parse_dataset(&text).is_none());
}
