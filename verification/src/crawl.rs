use vstd::prelude::*;

use crate::dataset::{map_of, Dataset};
use crate::item::Item;

verus! {

/// How a crawl's fresh records enter the stored dataset.
#[derive(Clone, Copy, Debug, PartialEq, Eq, Structural)]
pub enum MergePolicy {
    /// Full mode: the fresh records replace the store wholesale; identifiers
    /// no longer listed drop out.
    Replace,
    /// Incremental mode: the fresh records join the store; previously stored
    /// identifiers are never removed.
    Merge,
}

/// The identifiers among `found` that the dataset does not hold yet, in
/// discovery order; duplicates among `found` are kept for the caller.
pub fn new_identifiers(existing: &Dataset, found: &Vec<u64>) -> (r: Vec<u64>)
    ensures
        r@ == found@.filter(|id: u64| !existing@.contains_key(id)),
{
    let n = found.len();
    let mut r: Vec<u64> = Vec::new();
    let mut i: usize = 0;
    let ghost pred = |id: u64| !existing@.contains_key(id);
    proof {
        reveal(Seq::filter);
        assert(found@.take(0) =~= Seq::<u64>::empty());
    }
    while i < n
        invariant
            i <= n,
            n == found@.len(),
            pred == (|id: u64| !existing@.contains_key(id)),
            r@ == found@.take(i as int).filter(pred),
        decreases n - i,
    {
        let id = found[i];
        proof {
            reveal(Seq::filter);
            assert(found@.take(i + 1).drop_last() =~= found@.take(i as int));
            assert(found@.take(i + 1).last() == id);
        }
        if !existing.contains(id) {
            r.push(id);
        }
        i += 1;
    }
    proof {
        assert(found@.take(n as int) =~= found@);
    }
    r
}

/// An identical in-memory copy of a dataset.
fn copy_dataset(d: &Dataset) -> (r: Dataset)
    ensures
        r.entries@ == d.entries@,
        r@ == d@,
{
    let n = d.entries.len();
    let mut entries: Vec<(u64, Item)> = Vec::new();
    let mut i: usize = 0;
    while i < n
        invariant
            i <= n,
            n == d.entries@.len(),
            entries@ == d.entries@.take(i as int),
        decreases n - i,
    {
        entries.push(d.entries[i]);
        proof {
            assert(d.entries@.take(i + 1) =~= d.entries@.take(i as int).push(
                d.entries@[i as int],
            ));
        }
        i += 1;
    }
    proof {
        assert(d.entries@.take(n as int) =~= d.entries@);
    }
    Dataset { entries }
}

/// Builds the dataset that a finished crawl leaves behind. Under `Replace`
/// the fresh records stand alone; under `Merge` they join the existing store,
/// which keeps every identifier it already had.
pub fn apply_crawl(existing: &Dataset, fresh: &Dataset, policy: MergePolicy) -> (r: Dataset)
    requires
        existing.wf(),
        fresh.wf(),
    ensures
        r.wf(),
        policy is Replace ==> r@ == fresh@,
        policy is Merge ==> r@ == existing@.union_prefer_right(fresh@),
        policy is Merge ==> forall|k: u64|
            existing@.contains_key(k) ==> #[trigger] r@.contains_key(k),
{
    match policy {
        MergePolicy::Replace => copy_dataset(fresh),
        MergePolicy::Merge => {
            let mut r = copy_dataset(existing);
            let n = fresh.entries.len();
            let mut i: usize = 0;
            proof {
                assert(fresh.entries@.take(0) =~= Seq::<(u64, Item)>::empty());
                assert(r@ =~= existing@.union_prefer_right(map_of(fresh.entries@.take(0))));
            }
            while i < n
                invariant
                    i <= n,
                    n == fresh.entries@.len(),
                    fresh.wf(),
                    r.wf(),
                    r@ == existing@.union_prefer_right(map_of(fresh.entries@.take(i as int))),
                decreases n - i,
            {
                let (id, item) = fresh.entries[i];
                r.insert(id, item);
                proof {
                    let pre = fresh.entries@.take(i as int);
                    let ext = fresh.entries@.take(i + 1);
                    assert(ext.drop_last() =~= pre);
                    assert(ext.last() == (id, item));
                    assert(map_of(ext) == map_of(pre).insert(id, item));
                    assert(existing@.union_prefer_right(map_of(pre).insert(id, item))
                        =~= existing@.union_prefer_right(map_of(pre)).insert(id, item));
                }
                i += 1;
            }
            proof {
                assert(fresh.entries@.take(n as int) =~= fresh.entries@);
            }
            r
        },
    }
}

} // verus!
