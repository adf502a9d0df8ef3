use solmarket::extract::{extract_identifiers, extract_item, record_for};
use solmarket::item::{Item, Price};
use solmarket::money::Money;

fn detail_page(with_location: bool) -> String {
    let location = if with_location {
        "<div id=\"location\">D-10115 Berlin</div>"
    } else {
        ""
    };
    format!(
        "<html><body>\
         <table class=\"table-product\"><tr><td>Artikel 555</td><td>anders</td></tr></table>\
         <span class=\"priceDecoAlpha\">ab: 1.234,50  EUR  / Stk</span>\
         <span class=\"priceDecoBeta\">0,30  EUR  / Wp</span>\
         {location}\
         </body></html>"
    )
}

#[test]
fn listing_page_yields_identifiers_in_order() {
    let html = "<html><body>\
        <div class=\"articlebox-new\"><a href=\"/de/anzeige/101\">one</a></div>\
        <div class=\"articlebox-new\"><p>sponsored, no link</p></div>\
        <div class=\"articlebox-new\"><a href=\"https://www.secondsol.com/de/anzeige/102\">two</a></div>\
        <div class=\"other\"><a href=\"/de/anzeige/999\">ignored</a></div>\
        </body></html>";
    let ids = extract_identifiers(html);
    assert_eq!(ids, vec![101, 102]);
}

#[test]
fn listing_page_without_entries_is_empty() {
    assert_eq!(extract_identifiers("<html><body><p>nothing</p></body></html>"), Vec::<u64>::new());
}

#[test]
fn detail_page_builds_a_complete_record() {
    let item = extract_item(&detail_page(true)).expect("all four fields are present");
    assert_eq!(
        item,
        Item::Complete {
            url_id: 555,
            price_per_package: Money { micros: 1_234_500_000 },
            price_per_base_unit: Price::Known(Money { micros: 300_000 }),
            quantity_available: 0,
            minimum_order_quantity: 0,
            location_code: 10115,
        }
    );
    assert_eq!(item.url(), "https://www.secondsol.com/de/anzeige/555");
    assert_eq!(item.location(), 10115);
}

#[test]
fn detail_page_missing_location_yields_no_record() {
    assert_eq!(extract_item(&detail_page(false)), None);
    // The orchestrator stores the placeholder for that identifier instead.
    let stored = record_for(Some(&detail_page(false)));
    assert_eq!(stored, Item::Unresolved);
    assert_eq!(stored.url(), "");
    assert_eq!(stored.location(), 0);
}

#[test]
fn unparsable_package_price_yields_no_record() {
    let html = detail_page(true).replace("ab: 1.234,50  EUR  / Stk", "Preis auf Anfrage");
    assert_eq!(extract_item(&html), None);
}

#[test]
fn unparsable_base_unit_price_is_tolerated_as_unknown() {
    let html = detail_page(true).replace("0,30  EUR  / Wp", "auf Anfrage");
    let item = extract_item(&html).expect("only the tolerant field is unreadable");
    match item {
        Item::Complete { price_per_base_unit, .. } => {
            assert_eq!(price_per_base_unit, Price::Unknown);
        },
        Item::Unresolved => panic!("expected a complete record"),
    }
}

#[test]
fn failed_fetch_stores_the_placeholder() {
    assert_eq!(record_for(None), Item::Unresolved);
}
