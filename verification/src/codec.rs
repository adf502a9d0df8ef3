use vstd::prelude::*;

use crate::dataset::{keys_unique, map_of, Dataset};
use crate::item::{Item, Price};
use crate::money::Money;
use crate::numbers::{
    dec_digits, digits_to_u64, digits_val, exec_is_digit, is_digit, run_end_from, u64_digits,
};

verus! {

// The persisted text format: one record per entry, written back to back.
// An entry is the key identifier, a space, and either `u;` for a placeholder
// or `c` followed by the six record fields — the page identifier, the
// per-package price in millionths, the per-base-unit price in millionths or
// `x` when unknown, the two reserved counts, and the location code — each
// preceded by one space, closed by `;`.
/// Rendering of a per-base-unit price.
pub open spec fn render_price(p: Price) -> Seq<char> {
    match p {
        Price::Known(m) => dec_digits(m.micros as nat),
        Price::Unknown => seq!['x'],
    }
}

/// Rendering of one keyed record.
pub open spec fn render_entry(id: u64, item: Item) -> Seq<char> {
    match item {
        Item::Unresolved => dec_digits(id as nat) + " u;"@,
        Item::Complete {
            url_id,
            price_per_package,
            price_per_base_unit,
            quantity_available,
            minimum_order_quantity,
            location_code,
        } => dec_digits(id as nat) + " c "@ + dec_digits(url_id as nat) + seq![' '] + dec_digits(
            price_per_package.micros as nat,
        ) + seq![' '] + render_price(price_per_base_unit) + seq![' '] + dec_digits(
            quantity_available as nat,
        ) + seq![' '] + dec_digits(minimum_order_quantity as nat) + seq![' '] + dec_digits(
            location_code as nat,
        ) + seq![';'],
    }
}

/// Rendering of a whole dataset, entry after entry.
pub open spec fn render_entries(es: Seq<(u64, Item)>) -> Seq<char>
    decreases es.len(),
{
    if es.len() == 0 {
        Seq::empty()
    } else {
        render_entries(es.drop_last()) + render_entry(es.last().0, es.last().1)
    }
}

/// The number starting at `pos`: value of the digit run there, and the
/// position after it; nothing if no digit starts there or the value does not
/// fit a machine word.
pub open spec fn spec_num(s: Seq<char>, pos: int) -> Option<(u64, int)>
    recommends
        0 <= pos <= s.len(),
{
    let ke = run_end_from(s, pos);
    if ke == pos {
        None
    } else if digits_val(s.subrange(pos, ke)) > u64::MAX {
        None
    } else {
        Some((digits_val(s.subrange(pos, ke)) as u64, ke))
    }
}

pub open spec fn tag_at(s: Seq<char>, pos: int, c: char) -> bool {
    0 <= pos < s.len() && s[pos] == c
}

/// The per-base-unit price starting at `pos`: the unknown marker or a number.
pub open spec fn spec_price(s: Seq<char>, pos: int) -> Option<(Price, int)> {
    if tag_at(s, pos, 'x') {
        Some((Price::Unknown, pos + 1))
    } else {
        match spec_num(s, pos) {
            Option::None => None,
            Option::Some((v, p)) => Some((Price::Known(Money { micros: v }), p)),
        }
    }
}

/// The record entry starting at `pos`: its key, its item, and the position
/// after the closing mark; nothing if the text there is not a well-formed
/// entry.
pub open spec fn spec_parse_entry(s: Seq<char>, pos: int) -> Option<(u64, Item, int)> {
    match spec_num(s, pos) {
        Option::None => None,
        Option::Some((id, p1)) => if !tag_at(s, p1, ' ') {
            None
        } else if tag_at(s, p1 + 1, 'u') {
            if tag_at(s, p1 + 2, ';') {
                Some((id, Item::Unresolved, p1 + 3))
            } else {
                None
            }
        } else if tag_at(s, p1 + 1, 'c') && tag_at(s, p1 + 2, ' ') {
            match spec_num(s, p1 + 3) {
                Option::None => None,
                Option::Some((url_id, p2)) => if !tag_at(s, p2, ' ') {
                    None
                } else {
                    match spec_num(s, p2 + 1) {
                        Option::None => None,
                        Option::Some((pkg, p3)) => if !tag_at(s, p3, ' ') {
                            None
                        } else {
                            match spec_price(s, p3 + 1) {
                                Option::None => None,
                                Option::Some((price, p4)) => if !tag_at(s, p4, ' ') {
                                    None
                                } else {
                                    match spec_num(s, p4 + 1) {
                                        Option::None => None,
                                        Option::Some((qty, p5)) => if !tag_at(s, p5, ' ') {
                                            None
                                        } else {
                                            match spec_num(s, p5 + 1) {
                                                Option::None => None,
                                                Option::Some((mnq, p6)) => if !tag_at(
                                                    s,
                                                    p6,
                                                    ' ',
                                                ) {
                                                    None
                                                } else {
                                                    match spec_num(s, p6 + 1) {
                                                        Option::None => None,
                                                        Option::Some((loc, p7)) => if loc
                                                            < 100000 && tag_at(s, p7, ';') {
                                                            Some(
                                                                (
                                                                    id,
                                                                    Item::Complete {
                                                                        url_id,
                                                                        price_per_package: Money {
                                                                            micros: pkg,
                                                                        },
                                                                        price_per_base_unit: price,
                                                                        quantity_available: qty,
                                                                        minimum_order_quantity: mnq,
                                                                        location_code: loc,
                                                                    },
                                                                    p7 + 1,
                                                                ),
                                                            )
                                                        } else {
                                                            None
                                                        },
                                                    }
                                                },
                                            }
                                        },
                                    }
                                },
                            }
                        },
                    }
                },
            }
        } else {
            None
        },
    }
}

/// The entries of the whole text from `pos` on; nothing on any malformed
/// entry or trailing text.
pub open spec fn spec_parse_entries(s: Seq<char>, pos: int) -> Option<Seq<(u64, Item)>>
    decreases s.len() - pos,
    when 0 <= pos <= s.len()
{
    if pos == s.len() {
        Some(Seq::empty())
    } else {
        match spec_parse_entry(s, pos) {
            Option::None => None,
            Option::Some((id, item, p2)) => if pos < p2 <= s.len() {
                match spec_parse_entries(s, p2) {
                    Option::None => None,
                    Option::Some(rest) => Some(seq![(id, item)] + rest),
                }
            } else {
                None
            },
        }
    }
}

fn append_digits(out: &mut String, n: u64)
    ensures
        final(out)@ == old(out)@ + dec_digits(n as nat),
{
    let d = u64_digits(n);
    out.append(d.as_str());
}

#[verifier::rlimit(50)]
fn append_entry(out: &mut String, id: u64, item: &Item)
    ensures
        final(out)@ == old(out)@ + render_entry(id, *item),
{
    append_digits(out, id);
    match item {
        Item::Unresolved => {
            out.append(" u;");
        },
        Item::Complete {
            url_id,
            price_per_package,
            price_per_base_unit,
            quantity_available,
            minimum_order_quantity,
            location_code,
        } => {
            out.append(" c ");
            append_digits(out, *url_id);
            out.append(" ");
            append_digits(out, price_per_package.micros);
            out.append(" ");
            match price_per_base_unit {
                Price::Known(m) => append_digits(out, m.micros),
                Price::Unknown => out.append("x"),
            }
            out.append(" ");
            append_digits(out, *quantity_available);
            out.append(" ");
            append_digits(out, *minimum_order_quantity);
            out.append(" ");
            append_digits(out, *location_code);
            out.append(";");
        },
    }
    proof {
        reveal_strlit(" u;");
        reveal_strlit(" c ");
        reveal_strlit(" ");
        reveal_strlit("x");
        reveal_strlit(";");
        assert((" ")@ =~= seq![' ']);
        assert((";")@ =~= seq![';']);
        assert(("x")@ =~= seq!['x']);
        assert(final(out)@ =~= old(out)@ + render_entry(id, *item));
    }
}

/// Serializes a dataset into the persisted text form.
pub fn render_dataset(d: &Dataset) -> (r: String)
    ensures
        r@ == render_entries(d.entries@),
{
    let n = d.entries.len();
    let mut out = String::new();
    let mut i: usize = 0;
    proof {
        assert(render_entries(d.entries@.take(0)) =~= Seq::<char>::empty());
        assert(out@ =~= Seq::<char>::empty());
    }
    while i < n
        invariant
            i <= n,
            n == d.entries@.len(),
            out@ == render_entries(d.entries@.take(i as int)),
        decreases n - i,
    {
        let (id, item) = d.entries[i];
        append_entry(&mut out, id, &item);
        proof {
            assert(d.entries@.take(i + 1).drop_last() =~= d.entries@.take(i as int));
            assert(d.entries@.take(i + 1).last() == (id, item));
        }
        i += 1;
    }
    proof {
        assert(d.entries@.take(n as int) =~= d.entries@);
    }
    out
}

fn parse_num(s: &Vec<char>, pos: usize) -> (r: Option<(u64, usize)>)
    requires
        pos <= s@.len(),
    ensures
        ({
            let m = spec_num(s@, pos as int);
            &&& (r is Some <==> m is Some)
            &&& r is Some ==> (r->0).0 == (m->0).0 && (r->0).1 as int == (m->0).1 && pos < (r->0).1
                <= s@.len()
        }),
{
    let n = s.len();
    let mut k: usize = pos;
    while k < n && exec_is_digit(s[k])
        invariant
            pos <= k <= n,
            n == s@.len(),
            run_end_from(s@, pos as int) == run_end_from(s@, k as int),
            forall|j: int| pos <= j < k ==> is_digit(s@[j]),
        decreases n - k,
    {
        k += 1;
    }
    if k == pos {
        return None;
    }
    match digits_to_u64(s, pos, k) {
        Some(v) => Some((v, k)),
        None => None,
    }
}

fn parse_price(s: &Vec<char>, pos: usize) -> (r: Option<(Price, usize)>)
    requires
        pos <= s@.len(),
    ensures
        ({
            let m = spec_price(s@, pos as int);
            &&& (r is Some <==> m is Some)
            &&& r is Some ==> (r->0).0 == (m->0).0 && (r->0).1 as int == (m->0).1 && pos < (r->0).1
                <= s@.len()
        }),
{
    if pos < s.len() && s[pos] == 'x' {
        return Some((Price::Unknown, pos + 1));
    }
    match parse_num(s, pos) {
        Some((v, p)) => Some((Price::Known(Money { micros: v }), p)),
        None => None,
    }
}

fn expect_tag(s: &Vec<char>, pos: usize, c: char) -> (r: bool)
    ensures
        r == tag_at(s@, pos as int, c),
{
    pos < s.len() && s[pos] == c
}

fn parse_entry(s: &Vec<char>, pos: usize) -> (r: Option<(u64, Item, usize)>)
    requires
        pos <= s@.len(),
    ensures
        ({
            let m = spec_parse_entry(s@, pos as int);
            &&& (r is Some <==> m is Some)
            &&& r is Some ==> (r->0).0 == (m->0).0 && (r->0).1 == (m->0).1 && (r->0).2 as int == (m->0).2
                && pos < (r->0).2 <= s@.len() && (r->0).1.wf()
        }),
{
    let n = s.len();
    let (id, p1) = match parse_num(s, pos) {
        Some(x) => x,
        None => {
            return None;
        },
    };
    if !expect_tag(s, p1, ' ') {
        return None;
    }
    if expect_tag(s, p1 + 1, 'u') {
        if expect_tag(s, p1 + 2, ';') {
            return Some((id, Item::Unresolved, p1 + 3));
        } else {
            return None;
        }
    }
    if !(expect_tag(s, p1 + 1, 'c') && expect_tag(s, p1 + 2, ' ')) {
        return None;
    }
    let (url_id, p2) = match parse_num(s, p1 + 3) {
        Some(x) => x,
        None => {
            return None;
        },
    };
    if !expect_tag(s, p2, ' ') {
        return None;
    }
    let (pkg, p3) = match parse_num(s, p2 + 1) {
        Some(x) => x,
        None => {
            return None;
        },
    };
    if !expect_tag(s, p3, ' ') {
        return None;
    }
    let (price, p4) = match parse_price(s, p3 + 1) {
        Some(x) => x,
        None => {
            return None;
        },
    };
    if !expect_tag(s, p4, ' ') {
        return None;
    }
    let (qty, p5) = match parse_num(s, p4 + 1) {
        Some(x) => x,
        None => {
            return None;
        },
    };
    if !expect_tag(s, p5, ' ') {
        return None;
    }
    let (mnq, p6) = match parse_num(s, p5 + 1) {
        Some(x) => x,
        None => {
            return None;
        },
    };
    if !expect_tag(s, p6, ' ') {
        return None;
    }
    let (loc, p7) = match parse_num(s, p6 + 1) {
        Some(x) => x,
        None => {
            return None;
        },
    };
    if !(loc < 100000 && expect_tag(s, p7, ';')) {
        return None;
    }
    Some(
        (
            id,
            Item::Complete {
                url_id,
                price_per_package: Money { micros: pkg },
                price_per_base_unit: price,
                quantity_available: qty,
                minimum_order_quantity: mnq,
                location_code: loc,
            },
            p7 + 1,
        ),
    )
}

/// Deserializes persisted text. Returns the dataset it holds, or nothing
/// when the text is not a well-formed rendering; when the text carries the
/// same key twice, the later record wins, as the map semantics say.
pub fn parse_dataset(text: &str) -> (r: Option<Dataset>)
    ensures
        ({
            let m = spec_parse_entries(text@, 0);
            &&& (r is Some <==> m is Some)
            &&& m is Some ==> r->0.wf() && r->0@ == map_of(m->0)
            &&& m is Some && keys_unique(m->0) ==> r->0.entries@ == m->0
        }),
{
    let s = crate::numbers::chars_of(text);
    let n = s.len();
    let mut built = Dataset::empty();
    let ghost full = spec_parse_entries(s@, 0);
    let ghost es_done: Seq<(u64, Item)> = Seq::empty();
    let mut pos: usize = 0;
    proof {
        assert(map_of(es_done) =~= Map::<u64, Item>::empty());
        assert(es_done + spec_parse_entries(s@, 0)->0 =~= spec_parse_entries(s@, 0)->0);
    }
    while pos < n
        invariant
            pos <= n,
            n == s@.len(),
            s@ == text@,
            full == spec_parse_entries(s@, 0),
            built.wf(),
            built@ == map_of(es_done),
            ({
                match spec_parse_entries(s@, pos as int) {
                    Option::None => full is None,
                    Option::Some(rest) => full is Some && full->0 == es_done + rest,
                }
            }),
            (full is Some && keys_unique(full->0)) ==> built.entries@ == es_done,
        decreases n - pos,
    {
        let (id, item, p2) = match parse_entry(&s, pos) {
            Some(x) => x,
            None => {
                return None;
            },
        };
        proof {
            let rest = spec_parse_entries(s@, pos as int)->0;
            let tail = spec_parse_entries(s@, p2 as int);
            assert(spec_parse_entries(s@, pos as int) is Some ==> tail is Some && rest == seq![
                (id, item),
            ] + tail->0);
            if tail is Some {
                assert(es_done + (seq![(id, item)] + tail->0) =~= (es_done.push((id, item)))
                    + tail->0);
            }
            if full is Some && keys_unique(full->0) {
                assert(spec_parse_entries(s@, pos as int) is Some);
                let fullseq = full->0;
                assert(fullseq == es_done + (seq![(id, item)] + tail->0));
                assert(fullseq[es_done.len() as int] == (id, item));
                assert forall|t: int| 0 <= t < es_done.len() implies (#[trigger] es_done[t]).0
                    != id by {
                    assert(fullseq[t] == es_done[t]);
                    assert(fullseq[t].0 != fullseq[es_done.len() as int].0);
                }
                crate::dataset::lemma_map_of_contains(es_done, id);
                assert(!built@.contains_key(id));
            }
        }
        built.insert(id, item);
        proof {
            assert(map_of(es_done.push((id, item))) == map_of(es_done).insert(id, item)) by {
                assert(es_done.push((id, item)).drop_last() =~= es_done);
            }
            es_done = es_done.push((id, item));
        }
        pos = p2;
    }
    proof {
        assert(spec_parse_entries(s@, pos as int) == Some(Seq::<(u64, Item)>::empty()));
        assert(full is Some);
        assert(full->0 =~= es_done + Seq::<(u64, Item)>::empty());
        assert(full->0 =~= es_done);
    }
    Some(built)
}

proof fn lemma_run_end_stops(s: Seq<char>, i: int, k: int)
    requires
        0 <= i <= k <= s.len(),
        forall|j: int| i <= j < k ==> is_digit(s[j]),
        k == s.len() || !is_digit(s[k]),
    ensures
        run_end_from(s, i) == k,
    decreases k - i,
{
    if i < k {
        lemma_run_end_stops(s, i + 1, k);
    }
}

/// A rendered number surrounded as the format puts it parses back to itself.
proof fn lemma_num_at(s: Seq<char>, pos: int, v: u64)
    requires
        0 <= pos,
        pos + dec_digits(v as nat).len() <= s.len(),
        s.subrange(pos, pos + dec_digits(v as nat).len()) == dec_digits(v as nat),
        pos + dec_digits(v as nat).len() == s.len() || !is_digit(
            s[pos + dec_digits(v as nat).len()],
        ),
    ensures
        spec_num(s, pos) == Some((v, pos + dec_digits(v as nat).len())),
{
    let d = dec_digits(v as nat);
    crate::numbers::lemma_dec_digits_wf(v as nat);
    crate::numbers::lemma_digits_val_of_dec_digits(v as nat);
    assert forall|j: int| pos <= j < pos + d.len() implies is_digit(s[j]) by {
        assert(s[j] == s.subrange(pos, pos + d.len())[j - pos]);
    }
    lemma_run_end_stops(s, pos, pos + d.len());
    assert(digits_val(s.subrange(pos, pos + d.len())) == v as nat);
}

/// A rendered entry within surrounding text parses back to exactly that
/// entry, ending right after it.
#[verifier::rlimit(100)]
proof fn lemma_parse_entry_of_render(s: Seq<char>, pos: int, id: u64, item: Item)
    requires
        item.wf(),
        0 <= pos,
        pos + render_entry(id, item).len() <= s.len(),
        s.subrange(pos, pos + render_entry(id, item).len()) == render_entry(id, item),
    ensures
        spec_parse_entry(s, pos) == Some((id, item, pos + render_entry(id, item).len())),
{
    reveal_strlit(" u;");
    reveal_strlit(" c ");
    let r = render_entry(id, item);
    let ll = r.len() as int;
    assert forall|t: int| 0 <= t < ll implies s[pos + t] == r[t] by {
        assert(s.subrange(pos, pos + ll)[t] == r[t]);
    }
    let d0 = dec_digits(id as nat);
    crate::numbers::lemma_dec_digits_wf(id as nat);
    match item {
        Item::Unresolved => {
            assert((" u;")@.len() == 3);
            assert(r.len() == d0.len() as int + 3);
            assert(s.subrange(pos, pos + d0.len()) =~= d0);
            assert(r[d0.len() as int] == ' ' && r[d0.len() as int + 1] == 'u' && r[d0.len() as int + 2] == ';');
            assert(!is_digit(' '));
            lemma_num_at(s, pos, id);
        },
        Item::Complete {
            url_id,
            price_per_package,
            price_per_base_unit,
            quantity_available,
            minimum_order_quantity,
            location_code,
        } => {
            let d1 = dec_digits(url_id as nat);
            let d2 = dec_digits(price_per_package.micros as nat);
            let dp = render_price(price_per_base_unit);
            let d3 = dec_digits(quantity_available as nat);
            let d4 = dec_digits(minimum_order_quantity as nat);
            let d5 = dec_digits(location_code as nat);
            crate::numbers::lemma_dec_digits_wf(url_id as nat);
            crate::numbers::lemma_dec_digits_wf(price_per_package.micros as nat);
            crate::numbers::lemma_dec_digits_wf(quantity_available as nat);
            crate::numbers::lemma_dec_digits_wf(minimum_order_quantity as nat);
            crate::numbers::lemma_dec_digits_wf(location_code as nat);
            assert((" c ")@.len() == 3);
            let a0 = d0 + " c "@;
            let a1 = a0 + d1;
            let a2 = a1 + seq![' '];
            let a3 = a2 + d2;
            let a4 = a3 + seq![' '];
            let a5 = a4 + dp;
            let a6 = a5 + seq![' '];
            let a7 = a6 + d3;
            let a8 = a7 + seq![' '];
            let a9 = a8 + d4;
            let a10 = a9 + seq![' '];
            let a11 = a10 + d5;
            assert(r == a11 + seq![';']);
            let o1 = d0.len() as int + 3;
            let o2 = o1 + d1.len() as int + 1;
            let o3 = o2 + d2.len() as int + 1;
            let o4 = o3 + dp.len() as int + 1;
            let o5 = o4 + d3.len() as int + 1;
            let o6 = o5 + d4.len() as int + 1;
            assert(r.len() == o6 + d5.len() as int + 1);
            assert(r.subrange(0, a11.len() as int) =~= a11);
            assert(a11.subrange(0, a10.len() as int) =~= a10);
            assert(r.subrange(0, a10.len() as int) =~= a10);
            assert(a10.subrange(0, a9.len() as int) =~= a9);
            assert(r.subrange(0, a9.len() as int) =~= a9);
            assert(a9.subrange(0, a8.len() as int) =~= a8);
            assert(r.subrange(0, a8.len() as int) =~= a8);
            assert(a8.subrange(0, a7.len() as int) =~= a7);
            assert(r.subrange(0, a7.len() as int) =~= a7);
            assert(a7.subrange(0, a6.len() as int) =~= a6);
            assert(r.subrange(0, a6.len() as int) =~= a6);
            assert(a6.subrange(0, a5.len() as int) =~= a5);
            assert(r.subrange(0, a5.len() as int) =~= a5);
            assert(a5.subrange(0, a4.len() as int) =~= a4);
            assert(r.subrange(0, a4.len() as int) =~= a4);
            assert(a4.subrange(0, a3.len() as int) =~= a3);
            assert(r.subrange(0, a3.len() as int) =~= a3);
            assert(a3.subrange(0, a2.len() as int) =~= a2);
            assert(r.subrange(0, a2.len() as int) =~= a2);
            assert(a2.subrange(0, a1.len() as int) =~= a1);
            assert(r.subrange(0, a1.len() as int) =~= a1);
            assert(a1.subrange(0, a0.len() as int) =~= a0);
            assert(r.subrange(0, a0.len() as int) =~= a0);
            assert forall|t: int| 0 <= t < ll implies s[pos + t] == r[t] by {
                assert(s.subrange(pos, pos + ll)[t] == r[t]);
            }
            assert(r[d0.len() as int] == a0[d0.len() as int]);
            assert(r[d0.len() as int] == ' ' && r[d0.len() as int + 1] == 'c' && r[d0.len()
                as int + 2] == ' ');
            assert(r[o1 + d1.len() as int] == a2[o1 + d1.len() as int]);
            assert(r[o1 + d1.len() as int] == ' ');
            assert(r[o2 + d2.len() as int] == a4[o2 + d2.len() as int]);
            assert(r[o2 + d2.len() as int] == ' ');
            assert(r[o3 + dp.len() as int] == a6[o3 + dp.len() as int]);
            assert(r[o3 + dp.len() as int] == ' ');
            assert(r[o4 + d3.len() as int] == a8[o4 + d3.len() as int]);
            assert(r[o4 + d3.len() as int] == ' ');
            assert(r[o5 + d4.len() as int] == a10[o5 + d4.len() as int]);
            assert(r[o5 + d4.len() as int] == ' ');
            assert(r[o6 + d5.len() as int] == ';');
            assert(s.subrange(pos, pos + d0.len()) =~= d0) by {
                assert forall|t: int| 0 <= t < d0.len() implies s[pos + t] == d0[t] by {
                    assert(r[t] == a0[t]);
                }
            }
            lemma_num_at(s, pos, id);
            assert(spec_num(s, pos) == Some((id, pos + d0.len())));
            assert(s[pos + d0.len() + 1] == 'c');
            assert(s.subrange(pos + o1, pos + o1 + d1.len()) =~= d1) by {
                assert forall|t: int| 0 <= t < d1.len() implies s[pos + o1 + t] == d1[t] by {
                    assert(r.subrange(0, a1.len() as int)[o1 + t] == a1[o1 + t]);
                    assert(r[o1 + t] == a1[o1 + t]);
                }
            }
            lemma_num_at(s, pos + o1, url_id);
            assert(s.subrange(pos + o2, pos + o2 + d2.len()) =~= d2) by {
                assert forall|t: int| 0 <= t < d2.len() implies s[pos + o2 + t] == d2[t] by {
                    assert(r.subrange(0, a3.len() as int)[o2 + t] == a3[o2 + t]);
                    assert(r[o2 + t] == a3[o2 + t]);
                }
            }
            lemma_num_at(s, pos + o2, price_per_package.micros);
            match price_per_base_unit {
                Price::Known(m) => {
                    crate::numbers::lemma_dec_digits_wf(m.micros as nat);
                    assert(s.subrange(pos + o3, pos + o3 + dp.len()) =~= dp) by {
                assert forall|t: int| 0 <= t < dp.len() implies s[pos + o3 + t] == dp[t] by {
                    assert(r.subrange(0, a5.len() as int)[o3 + t] == a5[o3 + t]);
                    assert(r[o3 + t] == a5[o3 + t]);
                }
            }
                    lemma_num_at(s, pos + o3, m.micros);
                    assert(is_digit(s[pos + o3]));
                    assert(!tag_at(s, pos + o3, 'x'));
                    assert(spec_price(s, pos + o3) == Some(
                        (Price::Known(m), pos + o3 + dp.len()),
                    ));
                },
                Price::Unknown => {
                    assert(r[o3 as int] == a5[o3 as int]);
                    assert(r[o3 as int] == 'x');
                    assert(tag_at(s, pos + o3, 'x'));
                    assert(spec_price(s, pos + o3) == Some((Price::Unknown, pos + o3 + 1)));
                },
            }
            assert(s.subrange(pos + o4, pos + o4 + d3.len()) =~= d3) by {
                assert forall|t: int| 0 <= t < d3.len() implies s[pos + o4 + t] == d3[t] by {
                    assert(r.subrange(0, a7.len() as int)[o4 + t] == a7[o4 + t]);
                    assert(r[o4 + t] == a7[o4 + t]);
                }
            }
            lemma_num_at(s, pos + o4, quantity_available);
            assert(s.subrange(pos + o5, pos + o5 + d4.len()) =~= d4) by {
                assert forall|t: int| 0 <= t < d4.len() implies s[pos + o5 + t] == d4[t] by {
                    assert(r.subrange(0, a9.len() as int)[o5 + t] == a9[o5 + t]);
                    assert(r[o5 + t] == a9[o5 + t]);
                }
            }
            lemma_num_at(s, pos + o5, minimum_order_quantity);
            assert(s.subrange(pos + o6, pos + o6 + d5.len()) =~= d5) by {
                assert forall|t: int| 0 <= t < d5.len() implies s[pos + o6 + t] == d5[t] by {
                    assert(r.subrange(0, a11.len() as int)[o6 + t] == a11[o6 + t]);
                    assert(r[o6 + t] == a11[o6 + t]);
                }
            }
            lemma_num_at(s, pos + o6, location_code);
            assert(tag_at(s, pos + o6 + d5.len(), ';'));
        },
    }
}

/// Rendering builds up from the front as well as from the back.
proof fn lemma_render_entries_first(es: Seq<(u64, Item)>)
    requires
        es.len() > 0,
    ensures
        render_entries(es) == render_entry(es[0].0, es[0].1) + render_entries(es.drop_first()),
    decreases es.len(),
{
    if es.len() == 1 {
        assert(es.drop_last() =~= Seq::<(u64, Item)>::empty());
        assert(es.drop_first() =~= Seq::<(u64, Item)>::empty());
        assert(es.last() == es[0]);
        assert(render_entries(es) =~= render_entry(es[0].0, es[0].1) + render_entries(
            es.drop_first(),
        ));
    } else {
        let dl = es.drop_last();
        lemma_render_entries_first(dl);
        assert(dl[0] == es[0]);
        assert(es.drop_first().drop_last() =~= dl.drop_first());
        assert(es.drop_first().last() == es.last());
        assert(es.drop_first().len() > 0);
        assert(render_entries(es.drop_first()) == render_entries(dl.drop_first()) + render_entry(
            es.last().0,
            es.last().1,
        ));
        assert((render_entry(es[0].0, es[0].1) + render_entries(dl.drop_first())) + render_entry(
            es.last().0,
            es.last().1,
        ) =~= render_entry(es[0].0, es[0].1) + (render_entries(dl.drop_first()) + render_entry(
            es.last().0,
            es.last().1,
        )));
    }
}

/// The rendering of a well-formed entry list parses back to exactly that
/// list.
proof fn lemma_parse_render_entries(s: Seq<char>, pos: int, es: Seq<(u64, Item)>)
    requires
        0 <= pos <= s.len(),
        s.subrange(pos, s.len() as int) == render_entries(es),
        forall|i: int| 0 <= i < es.len() ==> (#[trigger] es[i]).1.wf(),
    ensures
        spec_parse_entries(s, pos) == Some(es),
    decreases es.len(),
{
    if es.len() == 0 {
        assert(render_entries(es).len() == 0);
        assert(pos == s.len());
        assert(spec_parse_entries(s, pos) == Some(Seq::<(u64, Item)>::empty()));
        assert(Seq::<(u64, Item)>::empty() =~= es);
    } else {
        lemma_render_entries_first(es);
        let e0 = render_entry(es[0].0, es[0].1);
        let rest = es.drop_first();
        assert(render_entries(es) == e0 + render_entries(rest));
        assert(render_entries(es).len() == e0.len() + render_entries(rest).len());
        assert(s.subrange(pos, s.len() as int).len() == s.len() - pos);
        assert(s.subrange(pos, s.len() as int).len() == render_entries(es).len());
        assert(s.len() - pos == e0.len() + render_entries(rest).len());
        assert forall|t: int| 0 <= t < s.len() - pos implies s[pos + t] == render_entries(es)[t] by {
            assert(s.subrange(pos, s.len() as int)[t] == render_entries(es)[t]);
        }
        assert(s.subrange(pos, pos + e0.len()) =~= e0);
        lemma_parse_entry_of_render(s, pos, es[0].0, es[0].1);
        let p2 = pos + e0.len();
        assert(s.subrange(p2, s.len() as int) =~= render_entries(rest)) by {
            assert forall|t: int| 0 <= t < s.len() - p2 implies s[p2 + t] == render_entries(
                rest,
            )[t] by {
                assert(s[pos + (e0.len() + t)] == render_entries(es)[e0.len() as int + t]);
                assert(render_entries(es)[e0.len() as int + t] == render_entries(rest)[t]);
            }
        }
        assert forall|i: int| 0 <= i < rest.len() implies (#[trigger] rest[i]).1.wf() by {
            assert(rest[i] == es[i + 1]);
        }
        lemma_parse_render_entries(s, p2, rest);
        assert(e0.len() > 0) by {
            crate::numbers::lemma_dec_digits_wf(es[0].0 as nat);
        }
        assert(spec_parse_entries(s, pos) == Some(seq![(es[0].0, es[0].1)] + rest));
        assert(seq![(es[0].0, es[0].1)] + rest =~= es);
    }
}

/// Loads persisted text under the store's policy: a text that is not a
/// well-formed rendering counts as no prior state and yields the empty
/// dataset, never an error.
pub fn decode_dataset(text: &str) -> (r: Dataset)
    ensures
        r.wf(),
        match spec_parse_entries(text@, 0) {
            Option::Some(es) => r@ == map_of(es),
            Option::None => r@ == Map::<u64, Item>::empty(),
        },
{
    match parse_dataset(text) {
        Some(d) => d,
        None => Dataset::empty(),
    }
}

/// Round trip of the store: rendering a well-formed dataset and parsing the
/// text back yields exactly the entries that were written, and so the same
/// key/value mapping.
pub proof fn lemma_render_parse_roundtrip(d: Dataset)
    requires
        d.wf(),
    ensures
        spec_parse_entries(render_entries(d.entries@), 0) == Some(d.entries@),
        ({
            let back = spec_parse_entries(render_entries(d.entries@), 0);
            map_of(back->0) == d@
        }),
{
    let s = render_entries(d.entries@);
    assert(s.subrange(0, s.len() as int) =~= s);
    lemma_parse_render_entries(s, 0, d.entries@);
}

} // verus!
