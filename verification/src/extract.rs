use vstd::prelude::*;

use crate::item::{Item, Price};
use crate::normalize::{
    parse_base_unit_price, parse_package_price, spec_base_unit_price, spec_money_of,
    spec_package_price,
};
use crate::numbers::{
    extract_identifier, extract_postal_code, spec_extract_identifier, spec_extract_postal_code,
};

verus! {

/// For each listing entry in the markup — the elements matching `entry_sel`,
/// in document order — the `attr` value of its first descendant matching
/// `link_sel`, if any. A function of the four texts alone.
pub uninterp spec fn listing_links_of(
    markup: Seq<char>,
    entry_sel: Seq<char>,
    link_sel: Seq<char>,
    attr: Seq<char>,
) -> Seq<Option<Seq<char>>>;

/// Relies on scraper's `Html::parse_document`, `Selector::parse`,
/// `Html::select`, `ElementRef::select` and `ElementRef::attr`: selects the
/// entry elements of a listing page and hands out each one's first link
/// target. Parsing and selection are deterministic in the given texts.
#[verifier::external_body]
fn select_entry_links(markup: &str, entry_sel: &str, link_sel: &str, attr: &str) -> (r: Vec<
    Option<String>,
>)
    ensures
        r.deep_view() == listing_links_of(markup@, entry_sel@, link_sel@, attr@),
{
    let doc = scraper::Html::parse_document(markup);
    let (Ok(es), Ok(ls)) = (scraper::Selector::parse(entry_sel), scraper::Selector::parse(link_sel))
    else {
        return Vec::new();
    };
    doc.select(&es).map(
        |e| e.select(&ls).next().and_then(|a| a.attr(attr)).map(|s| s.to_owned()),
    ).collect()
}

/// The concatenated text of the first element matching `sel`, if any.
/// A function of the two texts alone.
pub uninterp spec fn first_text_of(markup: Seq<char>, sel: Seq<char>) -> Option<Seq<char>>;

/// Relies on scraper's `Html::parse_document`, `Selector::parse`,
/// `Html::select` and `ElementRef::text`: the text of the first element the
/// selector matches. Parsing and selection are deterministic in the given
/// texts.
#[verifier::external_body]
fn select_first_text(markup: &str, sel: &str) -> (r: Option<String>)
    ensures
        r.deep_view() == first_text_of(markup@, sel@),
{
    let doc = scraper::Html::parse_document(markup);
    let Ok(s) = scraper::Selector::parse(sel) else {
        return None;
    };
    doc.select(&s).next().map(|e| e.text().collect::<String>())
}

/// The concatenated text of the first element matching `inner` inside the
/// first element matching `outer`, if both exist. A function of the three
/// texts alone.
pub uninterp spec fn first_nested_text_of(
    markup: Seq<char>,
    outer: Seq<char>,
    inner: Seq<char>,
) -> Option<Seq<char>>;

/// Relies on scraper's `Html::parse_document`, `Selector::parse`,
/// `Html::select`, `ElementRef::select` and `ElementRef::text`: the text of
/// the first `inner` match within the first `outer` match. Parsing and
/// selection are deterministic in the given texts.
#[verifier::external_body]
fn select_first_nested_text(markup: &str, outer: &str, inner: &str) -> (r: Option<String>)
    ensures
        r.deep_view() == first_nested_text_of(markup@, outer@, inner@),
{
    let doc = scraper::Html::parse_document(markup);
    let (Ok(os), Ok(ns)) = (scraper::Selector::parse(outer), scraper::Selector::parse(inner))
    else {
        return None;
    };
    doc.select(&os).next().and_then(|o| o.select(&ns).next()).map(
        |e| e.text().collect::<String>(),
    )
}

/// The identifiers read from a listing page's links, in discovery order:
/// entries without a link, and links without a readable number, are skipped.
pub open spec fn ids_of_links(links: Seq<Option<Seq<char>>>) -> Seq<u64>
    decreases links.len(),
{
    if links.len() == 0 {
        Seq::empty()
    } else {
        let rest = ids_of_links(links.drop_last());
        match links.last() {
            Option::None => rest,
            Option::Some(url) => match spec_extract_identifier(url) {
                Ok(id) => rest.push(id),
                Err(_) => rest,
            },
        }
    }
}

/// Reads one listing page: every listing entry's first link, turned into an
/// identifier; entries without a usable link contribute nothing.
pub fn extract_identifiers(markup: &str) -> (r: Vec<u64>)
    ensures
        r@ == ids_of_links(listing_links_of(markup@, ".articlebox-new"@, "a"@, "href"@)),
{
    let links = select_entry_links(markup, ".articlebox-new", "a", "href");
    let ghost all = links.deep_view();
    let n = links.len();
    let mut r: Vec<u64> = Vec::new();
    let mut i: usize = 0;
    proof {
        assert(all.take(0) =~= Seq::<Option<Seq<char>>>::empty());
    }
    while i < n
        invariant
            i <= n,
            n == links@.len(),
            all == links.deep_view(),
            all.len() == n,
            forall|j: int| 0 <= j < n ==> all[j] == (#[trigger] links@[j]).deep_view(),
            r@ == ids_of_links(all.take(i as int)),
        decreases n - i,
    {
        proof {
            assert(all.take(i + 1).drop_last() =~= all.take(i as int));
            assert(all.take(i + 1).last() == all[i as int]);
        }
        match &links[i] {
            Some(url) => {
                match extract_identifier(url.as_str()) {
                    Ok(id) => {
                        r.push(id);
                    },
                    Err(_) => {},
                }
            },
            None => {},
        }
        i += 1;
    }
    proof {
        assert(all.take(n as int) =~= all);
    }
    r
}

/// The record a detail page describes. All four structural fields — the
/// identifier cell, both price decorations, and the location — must be
/// present, the identifier and location readable and the per-package price
/// parsable, or no record is produced at all; only the per-base-unit price
/// tolerates unparsable text, as an unknown price.
pub open spec fn spec_extract_item(markup: Seq<char>) -> Option<Item> {
    let cell = first_nested_text_of(markup, "table.table-product"@, "td"@);
    let pkg = first_text_of(markup, "span.priceDecoAlpha"@);
    let unit = first_text_of(markup, "span.priceDecoBeta"@);
    let loc = first_text_of(markup, "#location"@);
    if cell is None || pkg is None || unit is None || loc is None {
        None
    } else {
        let idr = spec_extract_identifier(cell->0);
        let pkgm = spec_money_of(spec_package_price(pkg->0));
        let locr = spec_extract_postal_code(loc->0);
        if idr is Err || pkgm is None || locr is Err {
            None
        } else {
            Some(
                Item::Complete {
                    url_id: idr->Ok_0,
                    price_per_package: pkgm->0,
                    price_per_base_unit: match spec_money_of(spec_base_unit_price(unit->0)) {
                        Option::Some(m) => Price::Known(m),
                        Option::None => Price::Unknown,
                    },
                    quantity_available: 0,
                    minimum_order_quantity: 0,
                    location_code: locr->Ok_0,
                },
            )
        }
    }
}

/// Reads one detail page into a record, or into nothing when any mandatory
/// part is missing or unreadable — never into a partial record.
pub fn extract_item(markup: &str) -> (r: Option<Item>)
    ensures
        r == spec_extract_item(markup@),
        r is Some ==> r->0.wf(),
{
    let cell = select_first_nested_text(markup, "table.table-product", "td");
    let pkg = select_first_text(markup, "span.priceDecoAlpha");
    let unit = select_first_text(markup, "span.priceDecoBeta");
    let loc = select_first_text(markup, "#location");
    let (cell, pkg, unit, loc) = match (cell, pkg, unit, loc) {
        (Some(c), Some(p), Some(u), Some(l)) => (c, p, u, l),
        _ => {
            return None;
        },
    };
    let url_id = match extract_identifier(cell.as_str()) {
        Ok(id) => id,
        Err(_) => {
            return None;
        },
    };
    let price_per_package = match parse_package_price(pkg.as_str()) {
        Ok(m) => m,
        Err(_) => {
            return None;
        },
    };
    let location_code = match extract_postal_code(loc.as_str()) {
        Ok(z) => z,
        Err(_) => {
            return None;
        },
    };
    let price_per_base_unit = match parse_base_unit_price(unit.as_str()) {
        Ok(m) => Price::Known(m),
        Err(_) => Price::Unknown,
    };
    Some(
        Item::Complete {
            url_id,
            price_per_package,
            price_per_base_unit,
            quantity_available: 0,
            minimum_order_quantity: 0,
            location_code,
        },
    )
}

/// The record stored for one discovered identifier: what its detail page
/// describes, or the placeholder when the page could not be fetched or does
/// not describe a complete record.
pub fn record_for(markup: Option<&str>) -> (r: Item)
    ensures
        r.wf(),
        match markup {
            Option::None => r == Item::Unresolved,
            Option::Some(m) => r == match spec_extract_item(m@) {
                Option::Some(item) => item,
                Option::None => Item::Unresolved,
            },
        },
{
    match markup {
        Some(m) => match extract_item(m) {
            Some(item) => item,
            None => Item::Unresolved,
        },
        None => Item::Unresolved,
    }
}

} // verus!
