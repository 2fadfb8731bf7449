//! Sizes as the configuration writes them: a number, an optional fraction and
//! an optional unit, such as `1000`, `42 KB`, `2.33 MB` or `666 GiB`.
use vstd::prelude::*;

use crate::decimal::{all_digits, digit_value, digits_value, is_digit_char};
use crate::text::chars_of;

verus! {

/// Fraction digits beyond this many do not count.
pub const MAX_FRACTION_DIGITS: usize = 18;

/// The number of digits in a row from `from` on.
pub open spec fn digit_run(s: Seq<char>, from: int) -> int
    decreases s.len() - from,
{
    if from < 0 || from >= s.len() || !is_digit_char(s[from]) {
        0
    } else {
        1 + digit_run(s, from + 1)
    }
}

/// The number of spaces in a row from `from` on.
pub open spec fn space_run(s: Seq<char>, from: int) -> int
    decreases s.len() - from,
{
    if from < 0 || from >= s.len() || s[from] != ' ' {
        0
    } else {
        1 + space_run(s, from + 1)
    }
}

pub open spec fn ascii_lower(c: char) -> char {
    if 'A' <= c && c <= 'Z' {
        ((c as int) + 32) as char
    } else {
        c
    }
}

pub open spec fn pow10(k: nat) -> nat
    decreases k,
{
    if k == 0 {
        1
    } else {
        10 * pow10((k - 1) as nat)
    }
}

/// The number of bytes of a unit, whose letters may be in either case: none
/// or `B` is one byte, `KB`, `MB`, `GB`, `TB`, `PB` are powers of 1000 and
/// `KiB`, `MiB`, `GiB`, `TiB`, `PiB` powers of 1024.
pub open spec fn unit_bytes(u: Seq<char>) -> Option<nat> {
    let l = u.map_values(|c: char| ascii_lower(c));
    if l == Seq::<char>::empty() || l == seq!['b'] {
        Some(1)
    } else if l == seq!['k', 'b'] {
        Some(1000)
    } else if l == seq!['k', 'i', 'b'] {
        Some(1024)
    } else if l == seq!['m', 'b'] {
        Some(1000_000)
    } else if l == seq!['m', 'i', 'b'] {
        Some(1048576)
    } else if l == seq!['g', 'b'] {
        Some(1000_000_000)
    } else if l == seq!['g', 'i', 'b'] {
        Some(1073741824)
    } else if l == seq!['t', 'b'] {
        Some(1000_000_000_000)
    } else if l == seq!['t', 'i', 'b'] {
        Some(1099511627776)
    } else if l == seq!['p', 'b'] {
        Some(1000_000_000_000_000)
    } else if l == seq!['p', 'i', 'b'] {
        Some(1125899906842624)
    } else {
        None
    }
}

/// The fraction digits of a size written `<digits>.<digits>`, at most
/// `MAX_FRACTION_DIGITS` of them, and where the text after the number starts.
pub open spec fn fraction_of(s: Seq<char>, i: int) -> (Seq<char>, int) {
    if i < s.len() && s[i] == '.' {
        let f = digit_run(s, i + 1);
        let d = s.subrange(i + 1, i + 1 + f);
        (if f > MAX_FRACTION_DIGITS { d.take(MAX_FRACTION_DIGITS as int) } else { d }, i + 1 + f)
    } else {
        (Seq::empty(), i)
    }
}

/// The number of bytes a size stands for, rounded down: digits, optionally a
/// `.` and fraction digits, optionally spaces, then an optional unit. `None`
/// when the text has another form or the number exceeds a `u64`.
pub open spec fn size_spec(s: Seq<char>) -> Option<u64> {
    let i = digit_run(s, 0);
    let (frac, next) = fraction_of(s, i);
    let j = next + space_run(s, next);
    if i == 0 {
        None
    } else {
        match unit_bytes(s.skip(j)) {
            None => None,
            Some(m) => {
                let v = digits_value(s.take(i)) * m + digits_value(frac) * m / pow10(frac.len());
                if v <= u64::MAX {
                    Some(v as u64)
                } else {
                    None
                }
            },
        }
    }
}

proof fn lemma_digit_run_bounds(s: Seq<char>, from: int)
    requires
        0 <= from <= s.len(),
    ensures
        0 <= digit_run(s, from) <= s.len() - from,
        all_digits(s.subrange(from, from + digit_run(s, from))),
        from + digit_run(s, from) < s.len() ==> !is_digit_char(s[from + digit_run(s, from)]),
    decreases s.len() - from,
{
    if from < s.len() && is_digit_char(s[from]) {
        lemma_digit_run_bounds(s, from + 1);
        let a = s.subrange(from, from + digit_run(s, from));
        let b = s.subrange(from + 1, from + 1 + digit_run(s, from + 1));
        assert forall|k: int| 0 <= k < a.len() implies is_digit_char(#[trigger] a[k]) by {
            if k > 0 {
                assert(a[k] == b[k - 1]);
            }
        }
    }
}

fn run_of_digits(c: &Vec<char>, from: usize) -> (r: usize)
    requires
        from <= c.len(),
    ensures
        r == digit_run(c@, from as int),
        from + r <= c.len(),
{
    let mut k = from;
    while k < c.len() && '0' <= c[k] && c[k] <= '9'
        invariant
            from <= k <= c.len(),
            digit_run(c@, from as int) == (k - from) + digit_run(c@, k as int),
        decreases c.len() - k,
    {
        k = k + 1;
    }
    proof {
        lemma_digit_run_bounds(c@, from as int);
    }
    k - from
}

fn run_of_spaces(c: &Vec<char>, from: usize) -> (r: usize)
    requires
        from <= c.len(),
    ensures
        r == space_run(c@, from as int),
        from + r <= c.len(),
{
    let mut k = from;
    while k < c.len() && c[k] == ' '
        invariant
            from <= k <= c.len(),
            space_run(c@, from as int) == (k - from) + space_run(c@, k as int),
        decreases c.len() - k,
    {
        k = k + 1;
    }
    k - from
}

fn lower_ascii(c: char) -> (r: char)
    ensures
        r == ascii_lower(c),
{
    if 'A' <= c && c <= 'Z' {
        ((c as u8) + 32) as char
    } else {
        c
    }
}

/// Whether `c[from..]`, read case-insensitively, spells `unit` (given in lower case).
fn unit_is(c: &Vec<char>, from: usize, unit: &[char]) -> (r: bool)
    requires
        from <= c.len(),
    ensures
        r == (c@.skip(from as int).map_values(|x: char| ascii_lower(x)) == unit@),
{
    let ghost l = c@.skip(from as int).map_values(|x: char| ascii_lower(x));
    if c.len() - from != unit.len() {
        assert(l.len() != unit@.len());
        return false;
    }
    let mut k: usize = 0;
    while k < unit.len()
        invariant
            from <= c.len(),
            c.len() - from == unit.len(),
            l == c@.skip(from as int).map_values(|x: char| ascii_lower(x)),
            k <= unit.len(),
            forall|t: int| 0 <= t < k ==> l[t] == unit@[t],
        decreases unit.len() - k,
    {
        if lower_ascii(c[from + k]) != unit[k] {
            assert(l[k as int] == ascii_lower(c@[from + k]));
            return false;
        }
        k = k + 1;
    }
    assert(l =~= unit@);
    true
}

fn unit_bytes_exec(c: &Vec<char>, from: usize) -> (r: Option<u64>)
    requires
        from <= c.len(),
    ensures
        match r {
            Some(m) => unit_bytes(c@.skip(from as int)) == Some(m as nat) && 1 <= m <= 1125899906842624,
            None => unit_bytes(c@.skip(from as int)) == None::<nat>,
        },
{
    let ghost l = c@.skip(from as int).map_values(|x: char| ascii_lower(x));
    if from == c.len() {
        assert(l =~= Seq::<char>::empty());
        return Some(1);
    }
    let b = ['b'];
    if unit_is(c, from, &b) {
        assert(b@ =~= seq!['b']);
        return Some(1);
    }
    assert(b@ =~= seq!['b']);
    let kb = ['k', 'b'];
    assert(kb@ =~= seq!['k', 'b']);
    if unit_is(c, from, &kb) { return Some(1000); }
    let kib = ['k', 'i', 'b'];
    assert(kib@ =~= seq!['k', 'i', 'b']);
    if unit_is(c, from, &kib) { return Some(1024); }
    let mb = ['m', 'b'];
    assert(mb@ =~= seq!['m', 'b']);
    if unit_is(c, from, &mb) { return Some(1000_000); }
    let mib = ['m', 'i', 'b'];
    assert(mib@ =~= seq!['m', 'i', 'b']);
    if unit_is(c, from, &mib) { return Some(1048576); }
    let gb = ['g', 'b'];
    assert(gb@ =~= seq!['g', 'b']);
    if unit_is(c, from, &gb) { return Some(1000_000_000); }
    let gib = ['g', 'i', 'b'];
    assert(gib@ =~= seq!['g', 'i', 'b']);
    if unit_is(c, from, &gib) { return Some(1073741824); }
    let tb = ['t', 'b'];
    assert(tb@ =~= seq!['t', 'b']);
    if unit_is(c, from, &tb) { return Some(1000_000_000_000); }
    let tib = ['t', 'i', 'b'];
    assert(tib@ =~= seq!['t', 'i', 'b']);
    if unit_is(c, from, &tib) { return Some(1099511627776); }
    let pb = ['p', 'b'];
    assert(pb@ =~= seq!['p', 'b']);
    if unit_is(c, from, &pb) { return Some(1000_000_000_000_000); }
    let pib = ['p', 'i', 'b'];
    assert(pib@ =~= seq!['p', 'i', 'b']);
    if unit_is(c, from, &pib) { return Some(1125899906842624); }
    None
}

/// The value of the digits `c[from..from+len]`, or `None` when it exceeds `u64::MAX`.
fn digits_value_exec(c: &Vec<char>, from: usize, len: usize) -> (r: Option<u64>)
    requires
        from + len <= c.len(),
        all_digits(c@.subrange(from as int, from + len)),
    ensures
        match r {
            Some(v) => v == digits_value(c@.subrange(from as int, from + len)),
            None => digits_value(c@.subrange(from as int, from + len)) > u64::MAX,
        },
{
    let ghost t = c@.subrange(from as int, from + len);
    let mut acc: u64 = 0;
    let mut k: usize = 0;
    while k < len
        invariant
            from + len <= c.len(),
            t == c@.subrange(from as int, from + len),
            all_digits(t),
            k <= len,
            acc == digits_value(t.take(k as int)),
        decreases len - k,
    {
        let ch = c[from + k];
        assert(t[k as int] == ch);
        assert(is_digit_char(t[k as int]));
        let ghost prev = t.take(k as int);
        let ghost next = t.take(k + 1);
        assert(next.drop_last() =~= prev);
        assert(next.last() == ch);
        let d: u64 = (ch as u32 - 48u32) as u64;
        assert(d == digit_value(ch));
        if acc > (u64::MAX - d) / 10 {
            assert(acc * 10 + d > u64::MAX) by (nonlinear_arith)
                requires acc > (u64::MAX - d) / 10, d <= 9;
            proof {
                lemma_digits_prefix_le(t, k + 1);
            }
            return None;
        }
        assert(acc * 10 + d <= u64::MAX) by (nonlinear_arith)
            requires acc <= (u64::MAX - d) / 10, d <= 9;
        acc = acc * 10 + d;
        k = k + 1;
    }
    assert(t.take(len as int) =~= t);
    Some(acc)
}

/// A prefix of digits is worth no more than the whole.
proof fn lemma_digits_prefix_le(t: Seq<char>, n: int)
    requires
        0 <= n <= t.len(),
    ensures
        digits_value(t.take(n)) <= digits_value(t),
    decreases t.len(),
{
    if n < t.len() {
        assert(t.drop_last().take(n) =~= t.take(n));
        lemma_digits_prefix_le(t.drop_last(), n);
    } else {
        assert(t.take(n) =~= t);
    }
}

proof fn lemma_digits_bound(t: Seq<char>)
    requires
        all_digits(t),
    ensures
        digits_value(t) < pow10(t.len()),
    decreases t.len(),
{
    if t.len() > 0 {
        let p = t.drop_last();
        assert(all_digits(p)) by {
            assert forall|k: int| 0 <= k < p.len() implies is_digit_char(#[trigger] p[k]) by {
                assert(p[k] == t[k]);
            }
        }
        lemma_digits_bound(p);
        assert(is_digit_char(t[t.len() - 1]));
        assert(digit_value(t.last()) <= 9);
        assert(pow10(t.len()) == 10 * pow10(p.len()));
        assert(digits_value(t) == digits_value(p) * 10 + digit_value(t.last()));
        assert(digits_value(p) * 10 + digit_value(t.last()) < 10 * pow10(p.len())) by (nonlinear_arith)
            requires digits_value(p) < pow10(p.len()), digit_value(t.last()) <= 9;
    }
}

proof fn lemma_pow10_mono(i: nat, j: nat)
    requires
        i <= j,
    ensures
        1 <= pow10(i) <= pow10(j),
    decreases j,
{
    if j > 0 {
        if i < j {
            lemma_pow10_mono(i, (j - 1) as nat);
        } else {
            lemma_pow10_mono((j - 1) as nat, (j - 1) as nat);
        }
        assert(pow10(j) == 10 * pow10((j - 1) as nat));
    } else {
        assert(pow10(0) == 1);
    }
}

fn pow10_exec(k: usize) -> (r: u64)
    requires
        k <= 18,
    ensures
        r == pow10(k as nat),
        1 <= r <= 1000_000_000_000_000_000,
{
    proof {
        reveal_with_fuel(pow10, 19);
        assert(pow10(18) == 1000_000_000_000_000_000);
    }
    let mut r: u64 = 1;
    let mut i: usize = 0;
    while i < k
        invariant
            i <= k <= 18,
            r == pow10(i as nat),
            pow10(18) == 1000_000_000_000_000_000,
        decreases k - i,
    {
        proof {
            lemma_pow10_mono((i + 1) as nat, 18);
            assert(pow10((i + 1) as nat) == 10 * pow10(i as nat));
        }
        r = r * 10;
        i = i + 1;
    }
    proof {
        lemma_pow10_mono(i as nat, 18);
    }
    r
}

/// Reads a size with an optional unit, such as `2.33 MB`, as a number of
/// bytes, rounded down.
pub fn parse_size(s: &str) -> (r: Option<u64>)
    ensures
        r == size_spec(s@),
{
    let c = chars_of(s);
    proof {
        lemma_digit_run_bounds(c@, 0);
    }
    let i = run_of_digits(&c, 0);
    if i == 0 {
        return None;
    }
    let mut frac_start: usize = i;
    let mut frac_len: usize = 0;
    let mut next: usize = i;
    if i < c.len() && c[i] == '.' {
        let f = run_of_digits(&c, i + 1);
        proof {
            lemma_digit_run_bounds(c@, i + 1);
        }
        frac_start = i + 1;
        frac_len = if f > MAX_FRACTION_DIGITS { MAX_FRACTION_DIGITS } else { f };
        next = i + 1 + f;
        proof {
            let d = c@.subrange(i + 1, i + 1 + f);
            assert(c@.subrange(frac_start as int, frac_start + frac_len) =~= if f > MAX_FRACTION_DIGITS {
                d.take(MAX_FRACTION_DIGITS as int)
            } else {
                d
            });
        }
    } else {
        assert(c@.subrange(i as int, i as int) =~= Seq::<char>::empty());
    }
    let ghost frac = fraction_of(c@, i as int).0;
    assert(frac == c@.subrange(frac_start as int, frac_start + frac_len));
    assert(next == fraction_of(c@, i as int).1);
    let sp = run_of_spaces(&c, next);
    assert(next + sp == fraction_of(c@, i as int).1 + space_run(c@, fraction_of(c@, i as int).1));
    let m = match unit_bytes_exec(&c, next + sp) {
        Some(m) => m,
        None => return None,
    };
    assert(unit_bytes(c@.skip(next + sp)) == Some(m as nat));
    assert(c@.take(i as int) =~= c@.subrange(0, i as int));
    let int_part = match digits_value_exec(&c, 0, i) {
        Some(v) => v,
        None => {
            proof {
                let fr = fraction_of(c@, i as int);
                let a = digits_value(c@.take(i as int));
                let v = a * (m as nat) + digits_value(fr.0) * (m as nat) / pow10(fr.0.len());
                assert(a > u64::MAX);
                let q = digits_value(fr.0) * (m as nat) / pow10(fr.0.len());
                assert(a * (m as nat) >= a) by (nonlinear_arith)
                    requires m >= 1;
                assert(v == a * (m as nat) + q);
                lemma_pow10_mono(fr.0.len(), fr.0.len());
                let x = digits_value(fr.0) * (m as nat);
                let y = pow10(fr.0.len());
                assert(x / y >= 0) by (nonlinear_arith)
                    requires x >= 0, y >= 1;
                assert(q >= 0);
                assert(a * (m as nat) > u64::MAX);
                assert(v > u64::MAX);
                assert(size_spec(s@) == None::<u64>);
            }
            return None;
        },
    };
    assert(all_digits(frac)) by {
        let d = c@.subrange(i + 1, next as int);
        assert forall|k: int| 0 <= k < frac.len() implies is_digit_char(#[trigger] frac[k]) by {
            assert(frac[k] == c@[frac_start + k]);
            assert(c@[frac_start + k] == d[k]);
        }
    }
    proof {
        lemma_digits_bound(frac);
        lemma_pow10_mono(frac_len as nat, 18);
        reveal_with_fuel(pow10, 19);
        assert(pow10(18) == 1000_000_000_000_000_000);
    }
    let fv = match digits_value_exec(&c, frac_start, frac_len) {
        Some(v) => v,
        None => {
            assert(false);
            return None;
        },
    };
    proof {
        lemma_digits_bound(frac);
    }
    let p = pow10_exec(frac_len);
    assert(fv < p);
    assert((int_part as int) * (m as int) <= 18446744073709551615 * 1125899906842624) by (nonlinear_arith)
        requires 0 <= int_part <= 18446744073709551615, 0 <= m <= 1125899906842624;
    assert((fv as int) * (m as int) <= 1000_000_000_000_000_000 * 1125899906842624) by (nonlinear_arith)
        requires 0 <= fv <= 1000_000_000_000_000_000, 0 <= m <= 1125899906842624;
    let big: u128 = (int_part as u128) * (m as u128);
    let small: u128 = (fv as u128) * (m as u128) / (p as u128);
    assert(small < m) by (nonlinear_arith)
        requires small == (fv as int) * (m as int) / (p as int), fv < p, p > 0, m >= 1;
    if big > u64::MAX as u128 {
        return None;
    }
    if small > u64::MAX as u128 - big {
        return None;
    }
    Some((big + small) as u64)
}

// ---------------------------------------------------------------------------
// How the units relate.

/// `n` bytes times `k`, or `None` when either is `None` or the product does
/// not fit in a `u64`.
pub open spec fn scaled(n: Option<u64>, k: nat) -> Option<u64> {
    match n {
        Some(v) => if v * k <= u64::MAX { Some((v * k) as u64) } else { None },
        None => None,
    }
}

proof fn lemma_digit_run_of_digits(s: Seq<char>, n: int, from: int)
    requires
        0 <= from <= n <= s.len(),
        forall|k: int| 0 <= k < n ==> is_digit_char(#[trigger] s[k]),
        n < s.len() ==> !is_digit_char(s[n]),
    ensures
        digit_run(s, from) == n - from,
    decreases n - from,
{
    if from < n {
        lemma_digit_run_of_digits(s, n, from + 1);
    }
}

/// A whole number, a space and a unit: the number times the unit's bytes.
proof fn lemma_size_with_unit(d: Seq<char>, u: Seq<char>)
    requires
        d.len() > 0,
        all_digits(d),
        u.len() > 0,
        u[0] != ' ',
    ensures
        size_spec(d + seq![' '] + u) == match unit_bytes(u) {
            Some(m) => if digits_value(d) * m <= u64::MAX { Some((digits_value(d) * m) as u64) } else { None::<u64> },
            None => None::<u64>,
        },
{
    let s = d + seq![' '] + u;
    let n = d.len() as int;
    assert(s[n] == ' ');
    assert forall|k: int| 0 <= k < n implies is_digit_char(#[trigger] s[k]) by {
        assert(s[k] == d[k]);
    }
    lemma_digit_run_of_digits(s, n, 0);
    assert(s[n + 1] == u[0]);
    assert(space_run(s, n + 1) == 0);
    assert(space_run(s, n) == 1);
    let (frac, next) = fraction_of(s, n);
    assert(frac =~= Seq::<char>::empty());
    assert(next == n);
    assert(s.skip(n + 1) =~= u);
    assert(s.take(n) =~= d);
    assert(digits_value(Seq::<char>::empty()) == 0);
    assert(pow10(0) == 1);
}

/// A whole number with no unit is a number of bytes.
proof fn lemma_size_plain(d: Seq<char>)
    requires
        d.len() > 0,
        all_digits(d),
    ensures
        size_spec(d) == if digits_value(d) <= u64::MAX { Some(digits_value(d) as u64) } else { None::<u64> },
{
    let n = d.len() as int;
    lemma_digit_run_of_digits(d, n, 0);
    let (frac, next) = fraction_of(d, n);
    assert(frac =~= Seq::<char>::empty());
    assert(d.skip(n) =~= Seq::<char>::empty());
    assert(d.skip(n).map_values(|c: char| ascii_lower(c)) =~= Seq::<char>::empty());
    assert(space_run(d, n) == 0);
    assert(unit_bytes(d.skip(n)) == Some(1nat));
    assert(digits_value(d) * 1 == digits_value(d));
    assert(d.take(n) =~= d);
    assert(digits_value(Seq::<char>::empty()) == 0);
    assert(pow10(0) == 1);
}

proof fn lemma_scaled(v: nat, m: nat, k: nat)
    requires
        k > 0,
    ensures
        scaled(if v * m <= u64::MAX { Some((v * m) as u64) } else { None::<u64> }, k)
            == if v * (m * k) <= u64::MAX { Some((v * (m * k)) as u64) } else { None::<u64> },
{
    assert(v * (m * k) == (v * m) * k) by (nonlinear_arith);
    if v * m > u64::MAX {
        assert((v * m) * k >= v * m) by (nonlinear_arith)
            requires k > 0;
    }
}

/// A whole number alone counts bytes, and reads the same with the unit `B`.
pub proof fn law_plain_number_is_bytes(d: Seq<char>)
    requires
        d.len() > 0,
        all_digits(d),
    ensures
        size_spec(d) == if digits_value(d) <= u64::MAX { Some(digits_value(d) as u64) } else { None::<u64> },
        size_spec(d + " B"@) == size_spec(d),
{
    reveal_strlit(" B");
    lemma_size_plain(d);
    let u = seq!['B'];
    assert(" B"@ =~= seq![' '] + u);
    assert(d + " B"@ =~= d + seq![' '] + u);
    lemma_size_with_unit(d, u);
    assert(u.map_values(|c: char| ascii_lower(c)) =~= seq!['b']);
    assert(digits_value(d) * 1 == digits_value(d));
}

/// Each decimal unit is 1000 times the one before it: `KB` is 1000 `B`,
/// `MB` 1000 `KB`, `GB` 1000 `MB`, `TB` 1000 `GB` and `PB` 1000 `TB`, for
/// every whole number written before the unit.
pub proof fn law_decimal_units_step_by_1000(d: Seq<char>)
    requires
        d.len() > 0,
        all_digits(d),
    ensures
        size_spec(d + " KB"@) == scaled(size_spec(d + " B"@), 1000),
        size_spec(d + " MB"@) == scaled(size_spec(d + " KB"@), 1000),
        size_spec(d + " GB"@) == scaled(size_spec(d + " MB"@), 1000),
        size_spec(d + " TB"@) == scaled(size_spec(d + " GB"@), 1000),
        size_spec(d + " PB"@) == scaled(size_spec(d + " TB"@), 1000),
{
    reveal_strlit(" B");
    reveal_strlit(" KB");
    reveal_strlit(" MB");
    reveal_strlit(" GB");
    reveal_strlit(" TB");
    reveal_strlit(" PB");
    let v = digits_value(d);
    let b = seq!['B'];
    let kb = seq!['K', 'B'];
    let mb = seq!['M', 'B'];
    let gb = seq!['G', 'B'];
    let tb = seq!['T', 'B'];
    let pb = seq!['P', 'B'];
    assert(d + " B"@ =~= d + seq![' '] + b);
    assert(d + " KB"@ =~= d + seq![' '] + kb);
    assert(d + " MB"@ =~= d + seq![' '] + mb);
    assert(d + " GB"@ =~= d + seq![' '] + gb);
    assert(d + " TB"@ =~= d + seq![' '] + tb);
    assert(d + " PB"@ =~= d + seq![' '] + pb);
    lemma_size_with_unit(d, b);
    lemma_size_with_unit(d, kb);
    lemma_size_with_unit(d, mb);
    lemma_size_with_unit(d, gb);
    lemma_size_with_unit(d, tb);
    lemma_size_with_unit(d, pb);
    assert(b.map_values(|c: char| ascii_lower(c)) =~= seq!['b']);
    assert(kb.map_values(|c: char| ascii_lower(c)) =~= seq!['k', 'b']);
    assert(mb.map_values(|c: char| ascii_lower(c)) =~= seq!['m', 'b']);
    assert(gb.map_values(|c: char| ascii_lower(c)) =~= seq!['g', 'b']);
    assert(tb.map_values(|c: char| ascii_lower(c)) =~= seq!['t', 'b']);
    assert(pb.map_values(|c: char| ascii_lower(c)) =~= seq!['p', 'b']);
    lemma_scaled(v, 1, 1000);
    lemma_scaled(v, 1000, 1000);
    lemma_scaled(v, 1000_000, 1000);
    lemma_scaled(v, 1000_000_000, 1000);
    lemma_scaled(v, 1000_000_000_000, 1000);
}

/// Each binary unit is 1024 times the one before it: `KiB` is 1024 `B`,
/// `MiB` 1024 `KiB`, `GiB` 1024 `MiB`, `TiB` 1024 `GiB` and `PiB` 1024
/// `TiB`, for every whole number written before the unit.
pub proof fn law_binary_units_step_by_1024(d: Seq<char>)
    requires
        d.len() > 0,
        all_digits(d),
    ensures
        size_spec(d + " KiB"@) == scaled(size_spec(d + " B"@), 1024),
        size_spec(d + " MiB"@) == scaled(size_spec(d + " KiB"@), 1024),
        size_spec(d + " GiB"@) == scaled(size_spec(d + " MiB"@), 1024),
        size_spec(d + " TiB"@) == scaled(size_spec(d + " GiB"@), 1024),
        size_spec(d + " PiB"@) == scaled(size_spec(d + " TiB"@), 1024),
{
    reveal_strlit(" B");
    reveal_strlit(" KiB");
    reveal_strlit(" MiB");
    reveal_strlit(" GiB");
    reveal_strlit(" TiB");
    reveal_strlit(" PiB");
    let v = digits_value(d);
    let b = seq!['B'];
    let kb = seq!['K', 'i', 'B'];
    let mb = seq!['M', 'i', 'B'];
    let gb = seq!['G', 'i', 'B'];
    let tb = seq!['T', 'i', 'B'];
    let pb = seq!['P', 'i', 'B'];
    assert(d + " B"@ =~= d + seq![' '] + b);
    assert(d + " KiB"@ =~= d + seq![' '] + kb);
    assert(d + " MiB"@ =~= d + seq![' '] + mb);
    assert(d + " GiB"@ =~= d + seq![' '] + gb);
    assert(d + " TiB"@ =~= d + seq![' '] + tb);
    assert(d + " PiB"@ =~= d + seq![' '] + pb);
    lemma_size_with_unit(d, b);
    lemma_size_with_unit(d, kb);
    lemma_size_with_unit(d, mb);
    lemma_size_with_unit(d, gb);
    lemma_size_with_unit(d, tb);
    lemma_size_with_unit(d, pb);
    assert(b.map_values(|c: char| ascii_lower(c)) =~= seq!['b']);
    assert(kb.map_values(|c: char| ascii_lower(c)) =~= seq!['k', 'i', 'b']);
    assert(mb.map_values(|c: char| ascii_lower(c)) =~= seq!['m', 'i', 'b']);
    assert(gb.map_values(|c: char| ascii_lower(c)) =~= seq!['g', 'i', 'b']);
    assert(tb.map_values(|c: char| ascii_lower(c)) =~= seq!['t', 'i', 'b']);
    assert(pb.map_values(|c: char| ascii_lower(c)) =~= seq!['p', 'i', 'b']);
    lemma_scaled(v, 1, 1024);
    lemma_scaled(v, 1024, 1024);
    lemma_scaled(v, 1048576, 1024);
    lemma_scaled(v, 1073741824, 1024);
    lemma_scaled(v, 1099511627776, 1024);
}

} // verus!
