use vstd::prelude::*;

verus! {

/// Errors of the value normalizer.
#[derive(Clone, Copy, Debug, PartialEq, Eq, Structural)]
pub enum ValueError {
    /// The text holds no value of the requested shape.
    NotFound,
    /// The text holds a candidate value that is not a number this library
    /// can represent.
    MalformedValue,
}

pub open spec fn is_digit(c: char) -> bool {
    '0' <= c && c <= '9'
}

/// Numeric value of one decimal digit character.
pub open spec fn digit_val(c: char) -> nat {
    (c as nat - '0' as nat) as nat
}

/// The decimal digit character for a value below ten.
pub open spec fn digit_char(d: nat) -> char {
    if d == 0 {
        '0'
    } else if d == 1 {
        '1'
    } else if d == 2 {
        '2'
    } else if d == 3 {
        '3'
    } else if d == 4 {
        '4'
    } else if d == 5 {
        '5'
    } else if d == 6 {
        '6'
    } else if d == 7 {
        '7'
    } else if d == 8 {
        '8'
    } else {
        '9'
    }
}

/// Decimal rendering of a natural number, most significant digit first,
/// without leading zeros (except for zero itself).
pub open spec fn dec_digits(n: nat) -> Seq<char>
    decreases n,
{
    if n < 10 {
        seq![digit_char(n)]
    } else {
        dec_digits(n / 10).push(digit_char(n % 10))
    }
}

/// Value of a sequence of decimal digit characters, most significant first.
pub open spec fn digits_val(s: Seq<char>) -> nat
    decreases s.len(),
{
    if s.len() == 0 {
        0
    } else {
        digits_val(s.drop_last()) * 10 + digit_val(s.last())
    }
}

pub proof fn lemma_dec_digits_wf(n: nat)
    ensures
        dec_digits(n).len() >= 1,
        forall|i: int| 0 <= i < dec_digits(n).len() ==> is_digit(#[trigger] dec_digits(n)[i]),
    decreases n,
{
    if n >= 10 {
        lemma_dec_digits_wf(n / 10);
        assert forall|i: int| 0 <= i < dec_digits(n).len() implies is_digit(
            #[trigger] dec_digits(n)[i],
        ) by {
            if i < dec_digits(n / 10).len() {
                assert(dec_digits(n)[i] == dec_digits(n / 10)[i]);
            }
        }
    }
}

/// The digit characters and their values invert each other.
pub proof fn lemma_digit_char_val(d: nat)
    requires
        d < 10,
    ensures
        is_digit(digit_char(d)),
        digit_val(digit_char(d)) == d,
{
}

/// Parsing inverts rendering: the digit string of `n` has value `n`.
pub proof fn lemma_digits_val_of_dec_digits(n: nat)
    ensures
        digits_val(dec_digits(n)) == n,
    decreases n,
{
    if n < 10 {
        lemma_digit_char_val(n);
        assert(dec_digits(n) =~= seq![digit_char(n)]);
        assert(dec_digits(n).drop_last() =~= Seq::<char>::empty());
        assert(dec_digits(n).last() == digit_char(n));
        assert(digits_val(Seq::<char>::empty()) == 0);
        assert(digits_val(dec_digits(n)) == 0 * 10 + digit_val(digit_char(n)));
    } else {
        lemma_digits_val_of_dec_digits(n / 10);
        lemma_digit_char_val(n % 10);
        assert(dec_digits(n) == dec_digits(n / 10).push(digit_char(n % 10)));
        assert(dec_digits(n).drop_last() =~= dec_digits(n / 10));
        assert(dec_digits(n).last() == digit_char(n % 10));
        assert(dec_digits(n).len() > 0);
        assert(digits_val(dec_digits(n)) == digits_val(dec_digits(n / 10)) * 10 + digit_val(
            digit_char(n % 10),
        ));
        assert((n / 10) * 10 + n % 10 == n);
    }
}

pub proof fn lemma_digits_val_take_step(s: Seq<char>, i: int)
    requires
        0 <= i < s.len(),
    ensures
        digits_val(s.take(i + 1)) == digits_val(s.take(i)) * 10 + digit_val(s[i]),
{
    assert(s.take(i + 1).drop_last() =~= s.take(i));
    assert(s.take(i + 1).last() == s[i]);
}

/// A prefix of a digit string never has a larger value than the whole.
pub proof fn lemma_digits_val_take_le(s: Seq<char>, i: int)
    requires
        0 <= i <= s.len(),
    ensures
        digits_val(s.take(i)) <= digits_val(s),
    decreases s.len() - i,
{
    if i == s.len() {
        assert(s.take(i) =~= s);
    } else {
        lemma_digits_val_take_step(s, i);
        lemma_digits_val_take_le(s, i + 1);
    }
}

pub open spec fn pow10(k: nat) -> nat
    decreases k,
{
    if k == 0 {
        1
    } else {
        10 * pow10((k - 1) as nat)
    }
}

/// A digit string of length `k` has value below `10^k`.
pub proof fn lemma_digits_val_bound(s: Seq<char>)
    requires
        forall|i: int| 0 <= i < s.len() ==> is_digit(s[i]),
    ensures
        digits_val(s) < pow10(s.len()),
    decreases s.len(),
{
    if s.len() > 0 {
        assert forall|i: int| 0 <= i < s.drop_last().len() implies is_digit(s.drop_last()[i]) by {
            assert(s.drop_last()[i] == s[i]);
        }
        lemma_digits_val_bound(s.drop_last());
        assert(is_digit(s.last()));
        assert(digit_val(s.last()) <= 9);
        assert(digits_val(s.drop_last()) * 10 + 9 < pow10(s.len())) by (nonlinear_arith)
            requires
                digits_val(s.drop_last()) < pow10((s.len() - 1) as nat),
                pow10(s.len()) == 10 * pow10((s.len() - 1) as nat),
        ;
    }
}

/// Index of the first decimal digit at or after `i`, or `s.len()` if none.
pub open spec fn run_start_from(s: Seq<char>, i: int) -> int
    decreases s.len() - i,
    when 0 <= i <= s.len()
{
    if i >= s.len() {
        s.len() as int
    } else if is_digit(s[i]) {
        i
    } else {
        run_start_from(s, i + 1)
    }
}

/// End (exclusive) of the digit run that starts at `i`.
pub open spec fn run_end_from(s: Seq<char>, i: int) -> int
    decreases s.len() - i,
    when 0 <= i <= s.len()
{
    if i >= s.len() {
        i
    } else if !is_digit(s[i]) {
        i
    } else {
        run_end_from(s, i + 1)
    }
}

/// What `extract_identifier` returns: the value of the first maximal digit
/// run, `NotFound` without any digit, `MalformedValue` when the run does not
/// fit a machine word.
pub open spec fn spec_extract_identifier(s: Seq<char>) -> Result<u64, ValueError> {
    let st = run_start_from(s, 0);
    let en = run_end_from(s, st);
    if st == s.len() {
        Err(ValueError::NotFound)
    } else if digits_val(s.subrange(st, en)) <= u64::MAX {
        Ok(digits_val(s.subrange(st, en)) as u64)
    } else {
        Err(ValueError::MalformedValue)
    }
}

/// A maximal run of exactly five digits starts at `i`.
pub open spec fn zip_at(s: Seq<char>, i: int) -> bool {
    &&& 0 <= i
    &&& i + 5 <= s.len()
    &&& (forall|j: int| i <= j < i + 5 ==> is_digit(s[j]))
    &&& (i == 0 || !is_digit(s[i - 1]))
    &&& (i + 5 == s.len() || !is_digit(s[i + 5]))
}

/// Start of the first maximal five-digit run at or after `i`, or `s.len()`.
pub open spec fn zip_scan(s: Seq<char>, i: int) -> int
    decreases s.len() - i,
    when 0 <= i <= s.len()
{
    if i + 5 > s.len() {
        s.len() as int
    } else if zip_at(s, i) {
        i
    } else {
        zip_scan(s, i + 1)
    }
}

/// What `extract_postal_code` returns: the value of the first maximal run of
/// exactly five digits, or `NotFound`.
pub open spec fn spec_extract_postal_code(s: Seq<char>) -> Result<u64, ValueError> {
    let z = zip_scan(s, 0);
    if z == s.len() {
        Err(ValueError::NotFound)
    } else {
        Ok(digits_val(s.subrange(z, z + 5)) as u64)
    }
}

/// The characters of `s`, as a vector.
pub fn chars_of(s: &str) -> (r: Vec<char>)
    ensures
        r@ == s@,
{
    let n = s.unicode_len();
    let mut r: Vec<char> = Vec::new();
    let mut i: usize = 0;
    while i < n
        invariant
            n == s@.len(),
            i <= n,
            r@ == s@.take(i as int),
        decreases n - i,
    {
        r.push(s.get_char(i));
        assert(s@.take(i + 1) =~= s@.take(i as int).push(s@[i as int]));
        i += 1;
    }
    assert(s@.take(n as int) =~= s@);
    r
}

pub fn exec_is_digit(c: char) -> (r: bool)
    ensures
        r == is_digit(c),
{
    '0' <= c && c <= '9'
}

/// Value of the digit run `s[start..end]`, or `None` if it exceeds `u64::MAX`.
pub fn digits_to_u64(s: &Vec<char>, start: usize, end: usize) -> (r: Option<u64>)
    requires
        start <= end <= s@.len(),
        forall|j: int| start <= j < end ==> is_digit(s@[j]),
    ensures
        ({
            let run = s@.subrange(start as int, end as int);
            &&& (r is Some <==> digits_val(run) <= u64::MAX)
            &&& (r is Some ==> r->0 as nat == digits_val(run))
        }),
{
    let ghost run = s@.subrange(start as int, end as int);
    let mut acc: u64 = 0;
    let mut i: usize = start;
    while i < end
        invariant
            start <= i <= end <= s@.len(),
            forall|j: int| start <= j < end ==> is_digit(s@[j]),
            run == s@.subrange(start as int, end as int),
            acc as nat == digits_val(run.take(i - start)),
        decreases end - i,
    {
        let c = s[i];
        assert(is_digit(c));
        let d = (c as u32 - 48) as u64;
        assert(d as nat == digit_val(c));
        proof {
            lemma_digits_val_take_step(run, i - start);
        }
        if acc > (u64::MAX - d) / 10 {
            proof {
                assert(acc as nat * 10 + d as nat > u64::MAX) by (nonlinear_arith)
                    requires
                        d < 10,
                        acc > (u64::MAX - d) / 10,
                ;
                lemma_digits_val_take_le(run, i - start + 1);
            }
            return None;
        }
        assert(acc as nat * 10 + d as nat <= u64::MAX) by (nonlinear_arith)
            requires
                d < 10,
                acc <= (u64::MAX - d) / 10,
        ;
        acc = acc * 10 + d;
        i += 1;
    }
    assert(run.take(end - start) =~= run);
    Some(acc)
}

/// Value of the first maximal digit run in `raw`.
///
/// Used both to read an identifier out of a hyperlink and to read the
/// identifier cell of a detail page.
pub fn extract_identifier(raw: &str) -> (r: Result<u64, ValueError>)
    ensures
        r == spec_extract_identifier(raw@),
{
    let s = chars_of(raw);
    let n = s.len();
    let mut st: usize = 0;
    while st < n && !exec_is_digit(s[st])
        invariant
            st <= n,
            n == s@.len(),
            s@ == raw@,
            run_start_from(s@, 0) == run_start_from(s@, st as int),
        decreases n - st,
    {
        st += 1;
    }
    if st == n {
        return Err(ValueError::NotFound);
    }
    let mut en: usize = st;
    while en < n && exec_is_digit(s[en])
        invariant
            st <= en <= n,
            n == s@.len(),
            s@ == raw@,
            run_end_from(s@, st as int) == run_end_from(s@, en as int),
            forall|j: int| st <= j < en ==> is_digit(s@[j]),
        decreases n - en,
    {
        en += 1;
    }
    match digits_to_u64(&s, st, en) {
        Some(v) => Ok(v),
        None => Err(ValueError::MalformedValue),
    }
}

fn zip_at_exec(s: &Vec<char>, i: usize) -> (r: bool)
    requires
        i + 5 <= s@.len(),
    ensures
        r == zip_at(s@, i as int),
{
    let n = s.len();
    let all5 = exec_is_digit(s[i]) && exec_is_digit(s[i + 1]) && exec_is_digit(s[i + 2])
        && exec_is_digit(s[i + 3]) && exec_is_digit(s[i + 4]);
    let left = i == 0 || !exec_is_digit(s[i - 1]);
    let right = i + 5 == n || !exec_is_digit(s[i + 5]);
    let r = all5 && left && right;
    proof {
        if all5 {
            assert forall|j: int| i <= j < i + 5 implies is_digit(s@[j]) by {
                assert(j == i || j == i + 1 || j == i + 2 || j == i + 3 || j == i + 4);
            }
        }
    }
    r
}

/// The first maximal run of exactly five digits in `raw`, read as a postal
/// code; `NotFound` when no such run exists.
pub fn extract_postal_code(raw: &str) -> (r: Result<u64, ValueError>)
    ensures
        r == spec_extract_postal_code(raw@),
        r is Ok ==> r->Ok_0 < 100000,
{
    let s = chars_of(raw);
    let n = s.len();
    let mut i: usize = 0;
    while (n >= 5 && i <= n - 5) && !zip_at_exec(&s, i)
        invariant
            i <= n,
            n == s@.len(),
            s@ == raw@,
            zip_scan(s@, 0) == zip_scan(s@, i as int),
        decreases n - i,
    {
        i += 1;
    }
    if n < 5 || i > n - 5 {
        proof {
            assert(zip_scan(s@, i as int) == s@.len());
        }
        return Err(ValueError::NotFound);
    }
    proof {
        lemma_digits_val_bound(s@.subrange(i as int, i + 5));
        reveal_with_fuel(pow10, 6);
        assert(pow10(5) == 100000);
    }
    match digits_to_u64(&s, i, i + 5) {
        Some(v) => Ok(v),
        None => {
            proof {
                assert(false);
            }
            Err(ValueError::NotFound)
        },
    }
}

fn push_digit(s: &mut String, d: u64)
    requires
        d < 10,
    ensures
        final(s)@ == old(s)@ + seq![digit_char(d as nat)],
{
    proof {
        reveal_strlit("0");
        reveal_strlit("1");
        reveal_strlit("2");
        reveal_strlit("3");
        reveal_strlit("4");
        reveal_strlit("5");
        reveal_strlit("6");
        reveal_strlit("7");
        reveal_strlit("8");
        reveal_strlit("9");
    }
    match d {
        0 => s.append("0"),
        1 => s.append("1"),
        2 => s.append("2"),
        3 => s.append("3"),
        4 => s.append("4"),
        5 => s.append("5"),
        6 => s.append("6"),
        7 => s.append("7"),
        8 => s.append("8"),
        _ => s.append("9"),
    }
    assert(final(s)@ =~= old(s)@ + seq![digit_char(d as nat)]);
}

/// The decimal rendering of `n`, without leading zeros.
pub fn u64_digits(n: u64) -> (r: String)
    ensures
        r@ == dec_digits(n as nat),
    decreases n,
{
    if n < 10 {
        let mut s = String::new();
        push_digit(&mut s, n);
        assert(s@ =~= dec_digits(n as nat));
        s
    } else {
        let mut s = u64_digits(n / 10);
        push_digit(&mut s, n % 10);
        assert(s@ =~= dec_digits(n as nat));
        s
    }
}

pub open spec fn spec_base_url() -> Seq<char> {
    "https://www.secondsol.com/de/anzeige/"@
}

/// The canonical detail-page address of an identifier, as a character
/// sequence: the fixed base address followed by the decimal identifier.
pub open spec fn spec_canonical_url(id: u64) -> Seq<char> {
    spec_base_url() + dec_digits(id as nat)
}

/// Reconstructs the canonical detail-page address of an identifier.
pub fn canonical_url(id: u64) -> (r: String)
    ensures
        r@ == spec_canonical_url(id),
{
    let mut s = ("https://www.secondsol.com/de/anzeige/").to_owned();
    let digits = u64_digits(id);
    s.append(digits.as_str());
    s
}

/// No decimal digit occurs in `s` at or after `i`.
pub open spec fn digit_free(s: Seq<char>, i: int) -> bool
    decreases s.len() - i,
    when 0 <= i <= s.len()
{
    i >= s.len() || (!is_digit(s[i]) && digit_free(s, i + 1))
}

pub proof fn lemma_digit_free_forall(s: Seq<char>, i: int)
    requires
        0 <= i <= s.len(),
        digit_free(s, i),
    ensures
        forall|j: int| i <= j < s.len() ==> !is_digit(s[j]),
    decreases s.len() - i,
{
    if i < s.len() {
        lemma_digit_free_forall(s, i + 1);
    }
}

pub proof fn lemma_run_start_skips(s: Seq<char>, i: int, k: int)
    requires
        0 <= i <= k < s.len(),
        forall|j: int| i <= j < k ==> !is_digit(s[j]),
        is_digit(s[k]),
    ensures
        run_start_from(s, i) == k,
    decreases k - i,
{
    if i < k {
        lemma_run_start_skips(s, i + 1, k);
    }
}

pub proof fn lemma_run_end_all_digits(s: Seq<char>, i: int)
    requires
        0 <= i <= s.len(),
        forall|j: int| i <= j < s.len() ==> is_digit(s[j]),
    ensures
        run_end_from(s, i) == s.len(),
    decreases s.len() - i,
{
    if i < s.len() {
        lemma_run_end_all_digits(s, i + 1);
    }
}

/// Identifier extraction is idempotent on canonical addresses: the canonical
/// address built from an identifier yields exactly that identifier back.
pub proof fn lemma_extract_identifier_canonical(id: u64)
    ensures
        spec_extract_identifier(spec_canonical_url(id)) == Ok::<u64, ValueError>(id),
{
    reveal_strlit("https://www.secondsol.com/de/anzeige/");
    let base = spec_base_url();
    let digits = dec_digits(id as nat);
    let s = spec_canonical_url(id);
    lemma_dec_digits_wf(id as nat);
    lemma_digits_val_of_dec_digits(id as nat);
    assert(base.len() == 37);
    assert(digit_free(base, 0)) by {
        reveal_with_fuel(digit_free, 40);
    }
    lemma_digit_free_forall(base, 0);
    assert forall|j: int| 0 <= j < 37 implies !is_digit(s[j]) by {
        assert(s[j] == base[j]);
    }
    assert forall|j: int| 37 <= j < s.len() implies is_digit(s[j]) by {
        assert(s[j] == digits[j - 37]);
    }
    assert(is_digit(s[37])) by {
        assert(s[37] == digits[0]);
    }
    lemma_run_start_skips(s, 0, 37);
    lemma_run_end_all_digits(s, 37);
    assert(s.subrange(37, s.len() as int) =~= digits);
}

} // verus!
