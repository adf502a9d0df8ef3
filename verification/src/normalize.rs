use vstd::prelude::*;

use crate::money::{Money, MONEY_SCALE};
use crate::numbers::{chars_of, digits_val, exec_is_digit, is_digit, pow10, run_end_from, ValueError};

verus! {

pub open spec fn is_space(c: char) -> bool {
    c == ' ' || c == '\t' || c == '\n' || c == '\r'
}

/// `s` with trailing whitespace removed.
pub open spec fn spec_trim_end(s: Seq<char>) -> Seq<char>
    decreases s.len(),
{
    if s.len() == 0 {
        s
    } else if is_space(s.last()) {
        spec_trim_end(s.drop_last())
    } else {
        s
    }
}

/// Index of the first non-space character at or after `i`.
pub open spec fn space_end(s: Seq<char>, i: int) -> int
    decreases s.len() - i,
    when 0 <= i <= s.len()
{
    if i >= s.len() {
        i
    } else if is_space(s[i]) {
        space_end(s, i + 1)
    } else {
        i
    }
}

/// `s` with leading and trailing whitespace removed.
pub open spec fn spec_trim(s: Seq<char>) -> Seq<char> {
    let t = spec_trim_end(s);
    t.subrange(space_end(t, 0), t.len() as int)
}

/// `s` stripped of the first listed prefix that matches, if any.
pub open spec fn spec_strip_prefix(s: Seq<char>, pats: Seq<Seq<char>>) -> Seq<char>
    decreases pats.len(),
{
    if pats.len() == 0 {
        s
    } else if pats[0].len() <= s.len() && s.take(pats[0].len() as int) == pats[0] {
        s.skip(pats[0].len() as int)
    } else {
        spec_strip_prefix(s, pats.drop_first())
    }
}

/// `s` stripped of the first listed suffix that matches, if any.
pub open spec fn spec_strip_suffix(s: Seq<char>, pats: Seq<Seq<char>>) -> Seq<char>
    decreases pats.len(),
{
    if pats.len() == 0 {
        s
    } else if pats[0].len() <= s.len() && s.skip(s.len() - pats[0].len()) == pats[0] {
        s.take(s.len() - pats[0].len())
    } else {
        spec_strip_suffix(s, pats.drop_first())
    }
}

/// Separator cleanup: optionally drop thousands separators (`.`), and turn
/// the decimal comma into a decimal point.
pub open spec fn spec_clean(s: Seq<char>, remove_thousands: bool) -> Seq<char>
    decreases s.len(),
{
    if s.len() == 0 {
        Seq::empty()
    } else {
        let rest = spec_clean(s.drop_last(), remove_thousands);
        let c = s.last();
        if remove_thousands && c == '.' {
            rest
        } else if c == ',' {
            rest.push('.')
        } else {
            rest.push(c)
        }
    }
}

/// Value, in millionths, of a cleaned decimal numeral: a non-empty digit
/// string, optionally followed by a decimal point and at most six fraction
/// digits. `None` when the text is not such a numeral.
pub open spec fn spec_decimal_value(s: Seq<char>) -> Option<nat> {
    let k = run_end_from(s, 0);
    if k == 0 {
        None
    } else if k == s.len() {
        Some(digits_val(s) * (MONEY_SCALE as nat))
    } else if s[k] == '.' && run_end_from(s, k + 1) == s.len() && s.len() - (k + 1) <= 6 {
        Some(
            digits_val(s.take(k)) * (MONEY_SCALE as nat) + digits_val(s.skip(k + 1)) * pow10(
                (6 - (s.len() - (k + 1))) as nat,
            ),
        )
    } else {
        None
    }
}

/// The full money normalization: trim, strip one recognized prefix and one
/// recognized suffix, clean the separators, and read the decimal numeral.
pub open spec fn spec_parse_money(
    s: Seq<char>,
    prefixes: Seq<Seq<char>>,
    suffixes: Seq<Seq<char>>,
    remove_thousands: bool,
) -> Option<nat> {
    spec_decimal_value(
        spec_clean(
            spec_strip_suffix(spec_strip_prefix(spec_trim(s), prefixes), suffixes),
            remove_thousands,
        ),
    )
}

/// Recognized decoration around a per-package price: an optional
/// "starting at" marker and the currency-and-unit tails seen in the wild.
pub open spec fn package_price_prefixes() -> Seq<Seq<char>> {
    seq!["ab: "@]
}

pub open spec fn package_price_suffixes() -> Seq<Seq<char>> {
    seq!["  EUR  / Stk"@, "  EUR/Stk"@, "  CHF  / Stk"@]
}

/// Recognized currency-and-unit tails of a per-base-unit price.
pub open spec fn base_unit_price_suffixes() -> Seq<Seq<char>> {
    seq!["  EUR  / Wp"@, "  EUR / Wp"@, "  CHF  / Wp"@]
}

pub open spec fn spec_package_price(s: Seq<char>) -> Option<nat> {
    spec_parse_money(s, package_price_prefixes(), package_price_suffixes(), true)
}

pub open spec fn spec_base_unit_price(s: Seq<char>) -> Option<nat> {
    spec_parse_money(s, Seq::empty(), base_unit_price_suffixes(), false)
}

/// A normalized value as a monetary amount, if it fits a machine word.
pub open spec fn spec_money_of(m: Option<nat>) -> Option<Money> {
    match m {
        Option::None => None,
        Option::Some(v) => if v <= u64::MAX {
            Some(Money { micros: v as u64 })
        } else {
            None
        },
    }
}

/// Normalizes the raw text of a per-package price, which may carry a
/// "starting at" marker, a currency-and-unit tail, and thousands separators.
pub fn parse_package_price(raw: &str) -> (r: Result<Money, ValueError>)
    ensures
        r == match spec_money_of(spec_package_price(raw@)) {
            Option::Some(m) => Ok::<Money, ValueError>(m),
            Option::None => Err::<Money, ValueError>(ValueError::MalformedValue),
        },
{
    let prefixes: Vec<&str> = vec!["ab: "];
    let suffixes: Vec<&str> = vec!["  EUR  / Stk", "  EUR/Stk", "  CHF  / Stk"];
    proof {
        assert(prefixes.deep_view() =~= package_price_prefixes());
        assert(suffixes.deep_view() =~= package_price_suffixes());
    }
    parse_money(raw, &prefixes, &suffixes, true)
}

/// Normalizes the raw text of a per-base-unit price, which may carry a
/// currency-and-unit tail but no thousands separators.
pub fn parse_base_unit_price(raw: &str) -> (r: Result<Money, ValueError>)
    ensures
        r == match spec_money_of(spec_base_unit_price(raw@)) {
            Option::Some(m) => Ok::<Money, ValueError>(m),
            Option::None => Err::<Money, ValueError>(ValueError::MalformedValue),
        },
{
    let prefixes: Vec<&str> = Vec::new();
    let suffixes: Vec<&str> = vec!["  EUR  / Wp", "  EUR / Wp", "  CHF  / Wp"];
    proof {
        assert(prefixes.deep_view() =~= Seq::<Seq<char>>::empty());
        assert(suffixes.deep_view() =~= base_unit_price_suffixes());
    }
    parse_money(raw, &prefixes, &suffixes, false)
}

fn exec_is_space(c: char) -> (r: bool)
    ensures
        r == is_space(c),
{
    c == ' ' || c == '\t' || c == '\n' || c == '\r'
}

/// Whether `pat` occurs in `s` starting at `b`.
fn seq_eq_at(s: &Vec<char>, b: usize, pat: &Vec<char>) -> (r: bool)
    requires
        b + pat@.len() <= s@.len(),
    ensures
        r == (s@.subrange(b as int, b + pat@.len()) == pat@),
{
    let sn = s.len();
    let n = pat.len();
    let mut t: usize = 0;
    while t < n
        invariant
            t <= n,
            n == pat@.len(),
            sn == s@.len(),
            b + n <= s@.len(),
            forall|u: int| 0 <= u < t ==> s@[b + u] == pat@[u],
        decreases n - t,
    {
        if s[b + t] != pat[t] {
            proof {
                assert(s@.subrange(b as int, b + pat@.len())[t as int] != pat@[t as int]);
            }
            return false;
        }
        t += 1;
    }
    proof {
        assert(s@.subrange(b as int, b + pat@.len()) =~= pat@);
    }
    true
}

fn strip_prefix_exec(s: &Vec<char>, b: usize, e: usize, pats: &Vec<&str>) -> (r: usize)
    requires
        b <= e <= s@.len(),
    ensures
        b <= r <= e,
        s@.subrange(r as int, e as int) == spec_strip_prefix(
            s@.subrange(b as int, e as int),
            pats.deep_view(),
        ),
{
    let ghost big = s@.subrange(b as int, e as int);
    let n = pats.len();
    let mut p: usize = 0;
    assert(pats.deep_view().skip(0) =~= pats.deep_view());
    while p < n
        invariant
            p <= n,
            n == pats@.len(),
            b <= e <= s@.len(),
            big == s@.subrange(b as int, e as int),
            spec_strip_prefix(big, pats.deep_view()) == spec_strip_prefix(
                big,
                pats.deep_view().skip(p as int),
            ),
        decreases n - p,
    {
        let pat = chars_of(pats[p]);
        proof {
            assert(pats.deep_view().skip(p as int)[0] == pats.deep_view()[p as int]);
            assert(pats.deep_view()[p as int] == pats@[p as int]@);
        }
        if pat.len() <= e - b && seq_eq_at(s, b, &pat) {
            proof {
                assert(big.take(pat@.len() as int) =~= s@.subrange(b as int, b + pat@.len()));
                assert(big.skip(pat@.len() as int) =~= s@.subrange(b + pat@.len(), e as int));
            }
            return b + pat.len();
        }
        proof {
            if pat@.len() <= big.len() {
                assert(big.take(pat@.len() as int) =~= s@.subrange(b as int, b + pat@.len()));
            }
            assert(pats.deep_view().skip(p as int).drop_first() =~= pats.deep_view().skip(
                p + 1 as int,
            ));
        }
        p += 1;
    }
    b
}

fn strip_suffix_exec(s: &Vec<char>, b: usize, e: usize, pats: &Vec<&str>) -> (r: usize)
    requires
        b <= e <= s@.len(),
    ensures
        b <= r <= e,
        s@.subrange(b as int, r as int) == spec_strip_suffix(
            s@.subrange(b as int, e as int),
            pats.deep_view(),
        ),
{
    let ghost big = s@.subrange(b as int, e as int);
    let n = pats.len();
    let mut p: usize = 0;
    assert(pats.deep_view().skip(0) =~= pats.deep_view());
    while p < n
        invariant
            p <= n,
            n == pats@.len(),
            b <= e <= s@.len(),
            big == s@.subrange(b as int, e as int),
            spec_strip_suffix(big, pats.deep_view()) == spec_strip_suffix(
                big,
                pats.deep_view().skip(p as int),
            ),
        decreases n - p,
    {
        let pat = chars_of(pats[p]);
        proof {
            assert(pats.deep_view().skip(p as int)[0] == pats.deep_view()[p as int]);
            assert(pats.deep_view()[p as int] == pats@[p as int]@);
        }
        if pat.len() <= e - b && seq_eq_at(s, e - pat.len(), &pat) {
            proof {
                assert(big.skip(big.len() - pat@.len()) =~= s@.subrange(
                    e - pat@.len(),
                    e as int,
                ));
                assert(big.take(big.len() - pat@.len()) =~= s@.subrange(
                    b as int,
                    e - pat@.len(),
                ));
            }
            return e - pat.len();
        }
        proof {
            if pat@.len() <= big.len() {
                assert(big.skip(big.len() - pat@.len()) =~= s@.subrange(
                    e - pat@.len(),
                    e as int,
                ));
            }
            assert(pats.deep_view().skip(p as int).drop_first() =~= pats.deep_view().skip(
                p + 1 as int,
            ));
        }
        p += 1;
    }
    e
}

fn clean_exec(s: &Vec<char>, b: usize, e: usize, remove_thousands: bool) -> (r: Vec<char>)
    requires
        b <= e <= s@.len(),
    ensures
        r@ == spec_clean(s@.subrange(b as int, e as int), remove_thousands),
{
    let ghost big = s@.subrange(b as int, e as int);
    let mut r: Vec<char> = Vec::new();
    let mut i: usize = b;
    assert(big.take(0) =~= Seq::<char>::empty());
    while i < e
        invariant
            b <= i <= e <= s@.len(),
            big == s@.subrange(b as int, e as int),
            r@ == spec_clean(big.take(i - b), remove_thousands),
        decreases e - i,
    {
        let c = s[i];
        proof {
            assert(big.take(i - b + 1).drop_last() =~= big.take(i - b));
            assert(big.take(i - b + 1).last() == big[i - b]);
            assert(big[i - b] == s@[i as int]);
        }
        if remove_thousands && c == '.' {
        } else if c == ',' {
            r.push('.');
        } else {
            r.push(c);
        }
        i += 1;
    }
    assert(big.take(e - b) =~= big);
    r
}

fn pow10_exec(k: usize) -> (r: u64)
    requires
        k <= 6,
    ensures
        r as nat == pow10(k as nat),
        1 <= r <= 1000000,
{
    proof {
        reveal_with_fuel(pow10, 8);
    }
    match k {
        0 => 1,
        1 => 10,
        2 => 100,
        3 => 1000,
        4 => 10000,
        5 => 100000,
        _ => 1000000,
    }
}

/// Product of two powers of ten.
proof fn lemma_pow10_add(a: nat, b: nat)
    ensures
        pow10(a) * pow10(b) == pow10(a + b),
    decreases a,
{
    if a == 0 {
        assert(pow10(0) == 1);
    } else {
        lemma_pow10_add((a - 1) as nat, b);
        assert(pow10(a) == 10 * pow10((a - 1) as nat));
        assert(pow10(a + b) == 10 * pow10((a + b - 1) as nat));
        assert(pow10(a) * pow10(b) == 10 * (pow10((a - 1) as nat) * pow10(b)))
            by (nonlinear_arith)
            requires
                pow10(a) == 10 * pow10((a - 1) as nat),
        ;
    }
}

/// Reads a cleaned decimal numeral into millionths, rejecting text that is
/// not a numeral and values that do not fit a machine word.
fn decimal_value(c: &Vec<char>) -> (r: Result<Money, ValueError>)
    ensures
        ({
            let m = spec_decimal_value(c@);
            match m {
                Option::None => r == Err::<Money, ValueError>(ValueError::MalformedValue),
                Option::Some(v) => if v <= u64::MAX {
                    r == Ok::<Money, ValueError>(Money { micros: v as u64 })
                } else {
                    r == Err::<Money, ValueError>(ValueError::MalformedValue)
                },
            }
        }),
{
    let n = c.len();
    let mut k: usize = 0;
    while k < n && exec_is_digit(c[k])
        invariant
            k <= n,
            n == c@.len(),
            run_end_from(c@, 0) == run_end_from(c@, k as int),
            forall|j: int| 0 <= j < k ==> is_digit(c@[j]),
        decreases n - k,
    {
        k += 1;
    }
    if k == 0 {
        return Err(ValueError::MalformedValue);
    }
    let int_val = match crate::numbers::digits_to_u64(c, 0, k) {
        Some(v) => v,
        None => {
            proof {
                let m = spec_decimal_value(c@);
                if m is Some {
                    let dv = digits_val(c@.take(k as int));
                    assert(dv * (MONEY_SCALE as nat) >= dv * 1) by (nonlinear_arith)
                        requires
                            MONEY_SCALE >= 1,
                    ;
                    if k < n {
                        assert(m->0 >= dv * (MONEY_SCALE as nat));
                    } else {
                        assert(c@.take(k as int) =~= c@);
                    }
                }
            }
            return Err(ValueError::MalformedValue);
        },
    };
    if k == n {
        assert(c@.take(k as int) =~= c@);
        if int_val <= u64::MAX / MONEY_SCALE {
            assert(int_val as nat * (MONEY_SCALE as nat) <= u64::MAX) by (nonlinear_arith)
                requires
                    int_val <= u64::MAX / MONEY_SCALE,
                    MONEY_SCALE == 1000000,
            ;
            return Ok(Money { micros: int_val * MONEY_SCALE });
        } else {
            assert(int_val as nat * (MONEY_SCALE as nat) > u64::MAX) by (nonlinear_arith)
                requires
                    int_val > u64::MAX / MONEY_SCALE,
                    MONEY_SCALE == 1000000,
            ;
            return Err(ValueError::MalformedValue);
        }
    }
    if c[k] != '.' {
        return Err(ValueError::MalformedValue);
    }
    let mut t: usize = k + 1;
    while t < n && exec_is_digit(c[t])
        invariant
            k + 1 <= t <= n,
            n == c@.len(),
            run_end_from(c@, k as int + 1) == run_end_from(c@, t as int),
            forall|j: int| k + 1 <= j < t ==> is_digit(c@[j]),
        decreases n - t,
    {
        t += 1;
    }
    if t < n {
        return Err(ValueError::MalformedValue);
    }
    let flen = n - (k + 1);
    if flen > 6 {
        return Err(ValueError::MalformedValue);
    }
    let frac_val = match crate::numbers::digits_to_u64(c, k + 1, n) {
        Some(v) => v,
        None => {
            proof {
                crate::numbers::lemma_digits_val_bound(c@.subrange(k + 1, n as int));
                reveal_with_fuel(pow10, 8);
                assert(pow10((n - (k + 1)) as nat) <= pow10(6)) by {
                    lemma_pow10_add((n - (k + 1)) as nat, (6 - (n - (k + 1))) as nat);
                    assert(pow10((n - (k + 1)) as nat) * pow10((6 - (n - (k + 1))) as nat)
                        == pow10(6));
                    assert(pow10((n - (k + 1)) as nat) * pow10((6 - (n - (k + 1))) as nat)
                        >= pow10((n - (k + 1)) as nat) * 1) by (nonlinear_arith)
                        requires
                            pow10((6 - (n - (k + 1))) as nat) >= 1,
                    ;
                }
                assert(false);
            }
            return Err(ValueError::MalformedValue);
        },
    };
    proof {
        crate::numbers::lemma_digits_val_bound(c@.subrange(k + 1, n as int));
        assert(c@.skip(k + 1) =~= c@.subrange(k + 1, n as int));
    }
    let scale = pow10_exec(6 - flen);
    let ghost fd = digits_val(c@.skip(k + 1));
    proof {
        lemma_pow10_add(flen as nat, (6 - flen) as nat);
        assert(fd * pow10((6 - flen) as nat) + pow10((6 - flen) as nat) <= pow10(6))
            by (nonlinear_arith)
            requires
                fd < pow10(flen as nat),
                pow10(flen as nat) * pow10((6 - flen) as nat) == pow10(6),
                pow10((6 - flen) as nat) >= 1,
        ;
        reveal_with_fuel(pow10, 8);
    }
    let frac_scaled = frac_val * scale;
    assert(frac_scaled as nat == fd * pow10((6 - flen) as nat));
    assert(frac_scaled < 1000000);
    if int_val > (u64::MAX - frac_scaled) / MONEY_SCALE {
        assert(int_val as nat * (MONEY_SCALE as nat) + frac_scaled as nat > u64::MAX)
            by (nonlinear_arith)
            requires
                int_val > (u64::MAX - frac_scaled) / (MONEY_SCALE as int),
                MONEY_SCALE == 1000000,
                frac_scaled < 1000000,
        ;
        return Err(ValueError::MalformedValue);
    }
    assert(int_val as nat * (MONEY_SCALE as nat) + frac_scaled as nat <= u64::MAX)
        by (nonlinear_arith)
        requires
            int_val <= (u64::MAX - frac_scaled) / (MONEY_SCALE as int),
            MONEY_SCALE == 1000000,
            frac_scaled < 1000000,
    ;
    Ok(Money { micros: int_val * MONEY_SCALE + frac_scaled })
}

/// Normalizes a raw price text into a monetary value: trims whitespace,
/// strips one recognized prefix and one recognized suffix, cleans the
/// separators, and reads the remaining decimal numeral.
pub fn parse_money(
    raw: &str,
    prefixes: &Vec<&str>,
    suffixes: &Vec<&str>,
    remove_thousands: bool,
) -> (r: Result<Money, ValueError>)
    ensures
        ({
            let m = spec_parse_money(
                raw@,
                prefixes.deep_view(),
                suffixes.deep_view(),
                remove_thousands,
            );
            match m {
                Option::None => r == Err::<Money, ValueError>(ValueError::MalformedValue),
                Option::Some(v) => if v <= u64::MAX {
                    r == Ok::<Money, ValueError>(Money { micros: v as u64 })
                } else {
                    r == Err::<Money, ValueError>(ValueError::MalformedValue)
                },
            }
        }),
{
    let s = chars_of(raw);
    let n = s.len();
    let mut e: usize = n;
    assert(s@.take(n as int) =~= s@);
    while e > 0 && exec_is_space(s[e - 1])
        invariant
            e <= n,
            n == s@.len(),
            spec_trim_end(s@) == spec_trim_end(s@.take(e as int)),
        decreases e,
    {
        proof {
            assert(s@.take(e as int).drop_last() =~= s@.take(e - 1));
            assert(s@.take(e as int).last() == s@[e - 1]);
        }
        e -= 1;
    }
    proof {
        if e > 0 {
            assert(!is_space(s@.take(e as int).last()));
        }
        assert(spec_trim_end(s@) == s@.take(e as int));
    }
    let mut b: usize = 0;
    while b < e && exec_is_space(s[b])
        invariant
            b <= e <= n,
            n == s@.len(),
            spec_trim_end(s@) == s@.take(e as int),
            space_end(s@.take(e as int), 0) == space_end(s@.take(e as int), b as int),
        decreases e - b,
    {
        b += 1;
    }
    proof {
        assert(space_end(s@.take(e as int), b as int) == b);
        assert(s@.take(e as int).subrange(b as int, e as int) =~= s@.subrange(b as int, e as int));
        assert(s@.subrange(b as int, e as int) == spec_trim(s@));
    }
    let b2 = strip_prefix_exec(&s, b, e, prefixes);
    let e2 = strip_suffix_exec(&s, b2, e, suffixes);
    let cleaned = clean_exec(&s, b2, e2, remove_thousands);
    decimal_value(&cleaned)
}

/// Characters a bare numeral may hold after trimming: digits and the two
/// separator characters.
pub open spec fn numeral_char(c: char) -> bool {
    is_digit(c) || c == ',' || c == '.'
}

pub open spec fn numeral_text(s: Seq<char>) -> bool {
    forall|i: int| 0 <= i < s.len() ==> numeral_char(s[i])
}

pub open spec fn is_suffix_of(t: Seq<char>, s: Seq<char>) -> bool {
    t.len() <= s.len() && s.skip(s.len() - t.len()) == t
}

proof fn lemma_trim_id(x: Seq<char>)
    requires
        x.len() > 0,
        !is_space(x[0]),
        !is_space(x.last()),
    ensures
        spec_trim(x) == x,
{
    assert(spec_trim_end(x) == x);
    assert(space_end(x, 0) == 0);
    assert(x.subrange(0, x.len() as int) =~= x);
}

proof fn lemma_strip_prefix_noop(x: Seq<char>, pats: Seq<Seq<char>>)
    requires
        x.len() > 0,
        numeral_char(x[0]),
        forall|k: int|
            0 <= k < pats.len() ==> (#[trigger] pats[k]).len() > 0 && !numeral_char(pats[k][0]),
    ensures
        spec_strip_prefix(x, pats) == x,
    decreases pats.len(),
{
    if pats.len() > 0 {
        if pats[0].len() <= x.len() && x.take(pats[0].len() as int) == pats[0] {
            assert(x.take(pats[0].len() as int)[0] == x[0]);
            assert(false);
        }
        assert forall|k: int|
            0 <= k < pats.drop_first().len() implies (#[trigger] pats.drop_first()[k]).len() > 0
            && !numeral_char(pats.drop_first()[k][0]) by {
            assert(pats.drop_first()[k] == pats[k + 1]);
        }
        lemma_strip_prefix_noop(x, pats.drop_first());
    }
}

proof fn lemma_strip_suffix_exact(core: Seq<char>, pats: Seq<Seq<char>>, i: int)
    requires
        core.len() > 0,
        numeral_text(core),
        0 <= i < pats.len(),
        forall|k: int|
            0 <= k < pats.len() ==> (#[trigger] pats[k]).len() > 0 && !numeral_char(pats[k][0]),
        forall|k: int| 0 <= k < pats.len() && k != i ==> !is_suffix_of(#[trigger] pats[k], pats[i]),
    ensures
        spec_strip_suffix(core + pats[i], pats) == core,
    decreases i,
{
    let x = core + pats[i];
    let p0 = pats[0];
    if i == 0 {
        assert(x.skip(x.len() - p0.len()) =~= p0);
        assert(x.take(x.len() - p0.len()) =~= core);
    } else {
        if p0.len() <= x.len() && x.skip(x.len() - p0.len()) == p0 {
            if p0.len() <= pats[i].len() {
                assert(pats[i].skip(pats[i].len() - p0.len()) =~= p0) by {
                    assert forall|t: int| 0 <= t < p0.len() implies pats[i][pats[i].len()
                        - p0.len() + t] == p0[t] by {
                        assert(x.skip(x.len() - p0.len())[t] == p0[t]);
                        assert(x[x.len() - p0.len() + t] == pats[i][pats[i].len() - p0.len() + t]);
                    }
                }
                assert(is_suffix_of(p0, pats[i]));
                assert(false);
            } else {
                let off = x.len() - p0.len();
                assert(0 <= off < core.len());
                assert(x.skip(off)[0] == p0[0]);
                assert(x[off] == core[off]);
                assert(numeral_char(core[off]));
                assert(false);
            }
        }
        assert forall|k: int|
            0 <= k < pats.drop_first().len() implies (#[trigger] pats.drop_first()[k]).len() > 0
            && !numeral_char(pats.drop_first()[k][0]) by {
            assert(pats.drop_first()[k] == pats[k + 1]);
        }
        assert forall|k: int|
            0 <= k < pats.drop_first().len() && k != i - 1 implies !is_suffix_of(
            #[trigger] pats.drop_first()[k],
            pats.drop_first()[i - 1],
        ) by {
            assert(pats.drop_first()[k] == pats[k + 1]);
            assert(pats.drop_first()[i - 1] == pats[i]);
        }
        assert(pats.drop_first()[i - 1] == pats[i]);
        lemma_strip_suffix_exact(core, pats.drop_first(), i - 1);
    }
}

/// Which recognized suffix dresses a bare numeral does not matter: stripping
/// removes exactly the suffix, so every variant normalizes to the value of
/// the bare numeral.
pub proof fn lemma_parse_money_suffix_irrelevant(
    core: Seq<char>,
    prefixes: Seq<Seq<char>>,
    suffixes: Seq<Seq<char>>,
    remove_thousands: bool,
    i: int,
    j: int,
)
    requires
        core.len() > 0,
        numeral_text(core),
        0 <= i < suffixes.len(),
        0 <= j < suffixes.len(),
        forall|k: int|
            0 <= k < prefixes.len() ==> (#[trigger] prefixes[k]).len() > 0 && !numeral_char(
                prefixes[k][0],
            ),
        forall|k: int|
            0 <= k < suffixes.len() ==> (#[trigger] suffixes[k]).len() > 0 && !numeral_char(
                suffixes[k][0],
            ) && !is_space(suffixes[k].last()),
        forall|k: int, l: int|
            0 <= k < suffixes.len() && 0 <= l < suffixes.len() && k != l ==> !is_suffix_of(
                #[trigger] suffixes[k],
                #[trigger] suffixes[l],
            ),
    ensures
        spec_parse_money(core + suffixes[i], prefixes, suffixes, remove_thousands)
            == spec_parse_money(core + suffixes[j], prefixes, suffixes, remove_thousands),
{
    let xi = core + suffixes[i];
    let xj = core + suffixes[j];
    assert(xi[0] == core[0] && xj[0] == core[0]);
    assert(numeral_char(core[0]));
    assert(xi.last() == suffixes[i].last() && xj.last() == suffixes[j].last());
    lemma_trim_id(xi);
    lemma_trim_id(xj);
    lemma_strip_prefix_noop(xi, prefixes);
    lemma_strip_prefix_noop(xj, prefixes);
    lemma_strip_suffix_exact(core, suffixes, i);
    lemma_strip_suffix_exact(core, suffixes, j);
}

/// Any recognized per-package suffix variant yields the same value on a bare
/// numeral: the strip rules remove exactly the variant that dressed it.
pub proof fn lemma_package_price_suffix_irrelevant(core: Seq<char>, i: int, j: int)
    requires
        core.len() > 0,
        numeral_text(core),
        0 <= i < 3,
        0 <= j < 3,
    ensures
        spec_package_price(core + package_price_suffixes()[i]) == spec_package_price(
            core + package_price_suffixes()[j],
        ),
{
    reveal_strlit("ab: ");
    reveal_strlit("  EUR  / Stk");
    reveal_strlit("  EUR/Stk");
    reveal_strlit("  CHF  / Stk");
    let pre = package_price_prefixes();
    let sfx = package_price_suffixes();
    let a = ("  EUR  / Stk")@;
    let b = ("  EUR/Stk")@;
    let c = ("  CHF  / Stk")@;
    assert(pre.len() == 1 && pre[0] == ("ab: ")@);
    assert(("ab: ")@.len() == 4 && ("ab: ")@[0] == 'a');
    assert forall|k: int| 0 <= k < pre.len() implies (#[trigger] pre[k]).len() > 0 && !numeral_char(
        pre[k][0],
    ) by {
        assert(pre[k] == ("ab: ")@);
    }
    assert(sfx.len() == 3 && sfx[0] == a && sfx[1] == b && sfx[2] == c);
    assert(a.len() == 12 && b.len() == 9 && c.len() == 12);
    assert(a[0] == ' ' && b[0] == ' ' && c[0] == ' ');
    assert(a.last() == 'k' && b.last() == 'k' && c.last() == 'k');
    assert(!is_suffix_of(b, a)) by {
        if is_suffix_of(b, a) {
            assert(a.skip(3)[0] == b[0]);
            assert(a[3] == 'U');
        }
    }
    assert(!is_suffix_of(b, c)) by {
        if is_suffix_of(b, c) {
            assert(c.skip(3)[0] == b[0]);
            assert(c[3] == 'H');
        }
    }
    assert(!is_suffix_of(a, c)) by {
        if is_suffix_of(a, c) {
            assert(c.skip(0)[2] == a[2]);
            assert(c[2] == 'C' && a[2] == 'E');
        }
    }
    assert(!is_suffix_of(c, a)) by {
        if is_suffix_of(c, a) {
            assert(a.skip(0)[2] == c[2]);
            assert(c[2] == 'C' && a[2] == 'E');
        }
    }
    assert(!is_suffix_of(a, b) && !is_suffix_of(c, b));
    assert forall|k: int, l: int|
        0 <= k < sfx.len() && 0 <= l < sfx.len() && k != l implies !is_suffix_of(
        #[trigger] sfx[k],
        #[trigger] sfx[l],
    ) by {
    }
    lemma_parse_money_suffix_irrelevant(core, pre, sfx, true, i, j);
}

/// Any recognized per-base-unit suffix variant yields the same value on a
/// bare numeral.
pub proof fn lemma_base_unit_price_suffix_irrelevant(core: Seq<char>, i: int, j: int)
    requires
        core.len() > 0,
        numeral_text(core),
        0 <= i < 3,
        0 <= j < 3,
    ensures
        spec_base_unit_price(core + base_unit_price_suffixes()[i]) == spec_base_unit_price(
            core + base_unit_price_suffixes()[j],
        ),
{
    reveal_strlit("  EUR  / Wp");
    reveal_strlit("  EUR / Wp");
    reveal_strlit("  CHF  / Wp");
    let sfx = base_unit_price_suffixes();
    let a = ("  EUR  / Wp")@;
    let b = ("  EUR / Wp")@;
    let c = ("  CHF  / Wp")@;
    assert(sfx.len() == 3 && sfx[0] == a && sfx[1] == b && sfx[2] == c);
    assert(a.len() == 11 && b.len() == 10 && c.len() == 11);
    assert(a[0] == ' ' && b[0] == ' ' && c[0] == ' ');
    assert(a.last() == 'p' && b.last() == 'p' && c.last() == 'p');
    assert(!is_suffix_of(b, a)) by {
        if is_suffix_of(b, a) {
            assert(a.skip(1)[1] == b[1]);
            assert(a[2] == 'E' && b[1] == ' ');
        }
    }
    assert(!is_suffix_of(b, c)) by {
        if is_suffix_of(b, c) {
            assert(c.skip(1)[1] == b[1]);
            assert(c[2] == 'C' && b[1] == ' ');
        }
    }
    assert(!is_suffix_of(a, c)) by {
        if is_suffix_of(a, c) {
            assert(c.skip(0)[2] == a[2]);
            assert(c[2] == 'C' && a[2] == 'E');
        }
    }
    assert(!is_suffix_of(c, a)) by {
        if is_suffix_of(c, a) {
            assert(a.skip(0)[2] == c[2]);
            assert(c[2] == 'C' && a[2] == 'E');
        }
    }
    assert(!is_suffix_of(a, b) && !is_suffix_of(c, b));
    assert forall|k: int, l: int|
        0 <= k < sfx.len() && 0 <= l < sfx.len() && k != l implies !is_suffix_of(
        #[trigger] sfx[k],
        #[trigger] sfx[l],
    ) by {
    }
    lemma_parse_money_suffix_irrelevant(core, Seq::empty(), sfx, false, i, j);
}

} // verus!
