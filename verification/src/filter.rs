use vstd::prelude::*;

use crate::dataset::Dataset;
use crate::item::Item;

verus! {

/// Whether a location code falls inside any of the inclusive region ranges.
pub open spec fn in_ranges(loc: u64, ranges: Seq<(u64, u64)>) -> bool {
    exists|k: int| 0 <= k < ranges.len() && (#[trigger] ranges[k]).0 <= loc && loc <= ranges[k].1
}

/// The records whose location falls within any of the ranges, in entry order.
pub open spec fn matching_items(es: Seq<(u64, Item)>, ranges: Seq<(u64, u64)>) -> Seq<Item> {
    es.filter(|e: (u64, Item)| in_ranges(e.1.spec_location(), ranges)).map_values(
        |e: (u64, Item)| e.1,
    )
}

/// Ascending rank order: known per-base-unit prices first, unusable prices
/// last.
pub open spec fn sorted_by_rank(s: Seq<Item>) -> bool {
    forall|a: int, b: int| 0 <= a < b < s.len() ==> s[a].rank_key() <= s[b].rank_key()
}

/// Whether the record carries a usable per-base-unit price.
pub open spec fn has_known_price(item: Item) -> bool {
    item.rank_key() <= u64::MAX
}

/// In the rank order, a record without a usable price never precedes one
/// with a parsed price: everything after such a record is also priceless.
pub proof fn lemma_priceless_rank_last(s: Seq<Item>, a: int, b: int)
    requires
        sorted_by_rank(s),
        0 <= a < b < s.len(),
        !has_known_price(s[a]),
    ensures
        !has_known_price(s[b]),
{
}

fn matches_ranges(loc: u64, ranges: &Vec<(u64, u64)>) -> (r: bool)
    ensures
        r == in_ranges(loc, ranges@),
{
    let n = ranges.len();
    let mut k: usize = 0;
    while k < n
        invariant
            k <= n,
            n == ranges@.len(),
            forall|j: int| 0 <= j < k ==> !((#[trigger] ranges@[j]).0 <= loc && loc <= ranges@[j].1),
        decreases n - k,
    {
        let (lo, hi) = ranges[k];
        if lo <= loc && loc <= hi {
            return true;
        }
        k += 1;
    }
    false
}

/// Sorts records ascending by rank key, keeping the collection's contents.
fn sort_items(v: &mut Vec<Item>)
    ensures
        final(v)@.to_multiset() == old(v)@.to_multiset(),
        final(v)@.len() == old(v)@.len(),
        sorted_by_rank(final(v)@),
{
    let n = v.len();
    let mut i: usize = 1;
    if n == 0 {
        return ;
    }
    while i < n
        invariant
            1 <= i <= n,
            n == v@.len(),
            v@.to_multiset() == old(v)@.to_multiset(),
            forall|a: int, b: int| 0 <= a < b < i ==> v@[a].rank_key() <= v@[b].rank_key(),
        decreases n - i,
    {
        let ghost before = v@;
        let item = v.remove(i);
        proof {
            before.to_multiset_ensures();
            assert(before.remove(i as int).to_multiset() =~= before.to_multiset().remove(item));
        }
        let mut j: usize = 0;
        while j < i && v[j].ranks_no_later_than(&item)
            invariant
                j <= i < n,
                v@.len() == n - 1,
                forall|a: int| 0 <= a < j ==> v@[a].rank_key() <= item.rank_key(),
                forall|a: int, b: int|
                    0 <= a < b < i ==> v@[a].rank_key() <= v@[b].rank_key(),
                v@ == before.remove(i as int),
            decreases i - j,
        {
            j += 1;
        }
        let ghost mid = v@;
        v.insert(j, item);
        proof {
            v@.to_multiset_ensures();
            mid.to_multiset_ensures();
            before.to_multiset_ensures();
            assert(v@.remove(j as int) =~= mid);
            assert(v@[j as int] == item);
            assert(v@.remove(j as int).to_multiset() =~= v@.to_multiset().remove(item));
            assert(v@.to_multiset().contains(item)) by {
                assert(v@.contains(item));
            }
            assert(v@.to_multiset() =~= mid.to_multiset().insert(item));
            assert(mid.to_multiset().insert(item) =~= before.to_multiset().remove(item).insert(
                item,
            ));
            assert(before.to_multiset().contains(item)) by {
                assert(before[i as int] == item);
                assert(before.contains(item));
            }
            assert(before.to_multiset().remove(item).insert(item) =~= before.to_multiset());
            assert forall|a: int, b: int|
                0 <= a < b < i + 1 implies v@[a].rank_key() <= v@[b].rank_key() by {
                if b < j {
                    assert(v@[a] == mid[a] && v@[b] == mid[b]);
                } else if a < j && b == j {
                    assert(v@[a] == mid[a]);
                } else if a < j && b > j {
                    assert(v@[a] == mid[a] && v@[b] == mid[b - 1]);
                    if b - 1 >= j {
                        assert(item.rank_key() <= mid[j as int].rank_key());
                        assert(mid[j as int].rank_key() <= mid[b - 1].rank_key() || j == b - 1);
                    }
                } else if a == j {
                    assert(v@[b] == mid[b - 1]);
                    assert(item.rank_key() <= mid[j as int].rank_key() || j >= i);
                    if j < i {
                        assert(mid[j as int].rank_key() <= mid[b - 1].rank_key() || j == b - 1);
                    }
                } else {
                    assert(v@[a] == mid[a - 1] && v@[b] == mid[b - 1]);
                }
            }
        }
        i += 1;
    }
}

/// Selects every record whose location code lies in one of the inclusive
/// ranges — each record once, however many ranges it matches — and returns
/// them ordered ascending by per-base-unit price, records without a usable
/// price last.
pub fn filter_and_rank(d: &Dataset, ranges: &Vec<(u64, u64)>) -> (r: Vec<Item>)
    ensures
        r@.to_multiset() == matching_items(d.entries@, ranges@).to_multiset(),
        sorted_by_rank(r@),
{
    let n = d.entries.len();
    let mut out: Vec<Item> = Vec::new();
    let mut i: usize = 0;
    proof {
        reveal(Seq::filter);
        assert(d.entries@.take(0) =~= Seq::<(u64, Item)>::empty());
    }
    while i < n
        invariant
            i <= n,
            n == d.entries@.len(),
            out@ == matching_items(d.entries@.take(i as int), ranges@),
        decreases n - i,
    {
        let entry = d.entries[i];
        let loc = entry.1.location();
        let matched = matches_ranges(loc, ranges);
        proof {
            reveal(Seq::filter);
            let pre = d.entries@.take(i as int);
            let ext = d.entries@.take(i + 1);
            assert(ext.drop_last() =~= pre);
            assert(ext.last() == entry);
            let pred = |e: (u64, Item)| in_ranges(e.1.spec_location(), ranges@);
            if pred(entry) {
                assert(ext.filter(pred) == pre.filter(pred).push(entry));
                assert(ext.filter(pred).map_values(|e: (u64, Item)| e.1) =~= pre.filter(
                    pred,
                ).map_values(|e: (u64, Item)| e.1).push(entry.1));
            } else {
                assert(ext.filter(pred) == pre.filter(pred));
            }
        }
        if matched {
            out.push(entry.1);
        }
        i += 1;
    }
    proof {
        assert(d.entries@.take(n as int) =~= d.entries@);
    }
    sort_items(&mut out);
    out
}

} // verus!
