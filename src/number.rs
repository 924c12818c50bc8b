//! Numbers written in decimal: HTTP status codes and epoch timestamps.
use vstd::prelude::*;
use crate::text::chars_of;

verus! {

pub open spec fn is_digit(c: char) -> bool {
    '0' <= c && c <= '9'
}

/// The value of a run of decimal digits.
pub open spec fn digits_value(s: Seq<char>) -> nat
    decreases s.len(),
{
    if s.len() == 0 {
        0
    } else {
        (digits_value(s.drop_last()) * 10 + (s.last() as u32 - '0' as u32)) as nat
    }
}

/// The index where the run of digits that starts at `i` ends.
pub open spec fn digit_run(s: Seq<char>, i: int) -> int
    decreases s.len() - i,
{
    if 0 <= i < s.len() && is_digit(s[i]) {
        digit_run(s, i + 1)
    } else {
        i
    }
}

/// `x`, or `c` where `x` is larger.
pub open spec fn capped(x: nat, c: nat) -> nat {
    if x < c {
        x
    } else {
        c
    }
}

pub open spec fn pow10(n: nat) -> nat
    decreases n,
{
    if n == 0 {
        1
    } else {
        10 * pow10((n - 1) as nat)
    }
}

/// A run of digits from `i` that ends at `e` is the run that `digit_run` finds.
proof fn lemma_digit_run(s: Seq<char>, i: int, e: int)
    requires
        0 <= i <= e <= s.len(),
        forall|q: int| i <= q < e ==> is_digit(s[q]),
        e == s.len() || !is_digit(s[e]),
    ensures
        digit_run(s, i) == e,
    decreases e - i,
{
    if i < e {
        lemma_digit_run(s, i + 1, e);
    }
}

proof fn lemma_capped_step(x: nat, d: nat, c: nat)
    ensures
        capped(capped(x, c) * 10 + d, c) == capped(x * 10 + d, c),
{
    if x >= c {
        assert(x * 10 + d >= c) by (nonlinear_arith)
            requires
                x >= c,
        ;
        assert(c * 10 + d >= c) by (nonlinear_arith);
    }
}

proof fn lemma_capped_scale(y: nat, p: nat, c: nat)
    requires
        p >= 1,
    ensures
        capped(capped(y, c) * p, c) == capped(y * p, c),
{
    if y >= c {
        assert(y * p >= c) by (nonlinear_arith)
            requires
                y >= c,
                p >= 1,
        ;
        assert(c * p >= c) by (nonlinear_arith)
            requires
                p >= 1,
        ;
    }
}

proof fn lemma_pow10_large(n: nat)
    requires
        n >= 20,
    ensures
        pow10(n) >= 100_000_000_000_000_000_000,
    decreases n,
{
    if n > 20 {
        lemma_pow10_large((n - 1) as nat);
    } else {
        reveal_with_fuel(pow10, 21);
    }
}

proof fn lemma_pow10_positive(n: nat)
    ensures
        pow10(n) >= 1,
    decreases n,
{
    if n > 0 {
        lemma_pow10_positive((n - 1) as nat);
    }
}

/// Reads the digits of `v` from `from` on, up to `to` at most: where the run
/// ends, and its value capped at `cap`.
fn read_digits(v: &Vec<char>, from: usize, to: usize, cap: u128) -> (r: (usize, u128))
    requires
        from <= to <= v@.len(),
        cap <= 0x1_0000_0000_0000_0000_0000_0000,
    ensures
        from <= r.0 <= to,
        forall|q: int| from <= q < r.0 ==> is_digit(v@[q]),
        r.0 == to || !is_digit(v@[r.0 as int]),
        r.1 == capped(digits_value(v@.subrange(from as int, r.0 as int)), cap as nat),
{
    let mut k: usize = from;
    let mut acc: u128 = 0;
    assert(v@.subrange(from as int, from as int) =~= Seq::<char>::empty());
    while k < to && '0' <= v[k] && v[k] <= '9'
        invariant
            from <= k <= to <= v@.len(),
            cap <= 0x1_0000_0000_0000_0000_0000_0000,
            forall|q: int| from <= q < k ==> is_digit(v@[q]),
            acc == capped(digits_value(v@.subrange(from as int, k as int)), cap as nat),
        decreases to - k,
    {
        let d: u128 = (v[k] as u32 - '0' as u32) as u128;
        let ghost before = digits_value(v@.subrange(from as int, k as int));
        assert(v@.subrange(from as int, k + 1).drop_last() =~= v@.subrange(from as int, k as int));
        assert(digits_value(v@.subrange(from as int, k + 1)) == before * 10 + d);
        proof {
            lemma_capped_step(before, d as nat, cap as nat);
        }
        let next = acc * 10 + d;
        acc = if next < cap {
            next
        } else {
            cap
        };
        k = k + 1;
    }
    (k, acc)
}

/// The status code that `s` writes: an optional `+`, then decimal digits up to
/// the end, whose value fits in `u32` (what `u32::from_str` accepts).
pub open spec fn status_value(s: Seq<char>) -> Option<u32> {
    let i: int = if s.len() > 0 && s[0] == '+' { 1 } else { 0 };
    let j = digit_run(s, i);
    if j == s.len() && j > i && digits_value(s.subrange(i, j)) <= u32::MAX {
        Some(digits_value(s.subrange(i, j)) as u32)
    } else {
        None
    }
}

/// Parses a status code.
pub fn parse_status(s: &str) -> (r: Option<u32>)
    ensures
        r == status_value(s@),
{
    let v = chars_of(s);
    let i: usize = if v.len() > 0 && v[0] == '+' { 1 } else { 0 };
    let (j, value) = read_digits(&v, i, v.len(), 0x1_0000_0000);
    proof {
        lemma_digit_run(v@, i as int, j as int);
    }
    if j == v.len() && j > i && value <= 0xffff_ffff {
        Some(value as u32)
    } else {
        None
    }
}

/// Where a timestamp falls among whole seconds.
#[derive(Debug, Clone, Copy, PartialEq, Eq, Structural)]
pub enum Stamp {
    /// Whole seconds since the epoch, rounded down.
    Secs(i64),
    /// Before every second that `i64` holds: minus infinity, or a finite value
    /// too small.
    Below,
    /// After every second that `i64` holds: infinity, or a finite value too large.
    Above,
    /// Not a number.
    NotANumber,
}

/// The upper case of the letters of `inf`, `infinity` and `nan`.
pub open spec fn upper_of(c: char) -> char {
    match c {
        'a' => 'A',
        'f' => 'F',
        'i' => 'I',
        'n' => 'N',
        't' => 'T',
        'y' => 'Y',
        _ => c,
    }
}

/// `s` is the word `w`, a word of lower-case letters, in either case.
pub open spec fn word_is(s: Seq<char>, w: Seq<char>) -> bool {
    s.len() == w.len() && forall|q: int|
        0 <= q < s.len() ==> (s[q] == w[q] || s[q] == upper_of(w[q]))
}

/// The whole part of the number whose digits are `d` with the point after the
/// first `k` of them (`k` may lie outside `d`: zeros fill in).
pub open spec fn whole_part(d: Seq<char>, k: int) -> nat {
    let t = if k < 0 {
        0
    } else if k > d.len() {
        d.len() as int
    } else {
        k
    };
    let pad = if k > d.len() {
        k - d.len()
    } else {
        0
    };
    digits_value(d.take(t)) * pow10(pad as nat)
}

/// That number has a nonzero digit after the point.
pub open spec fn has_fraction(d: Seq<char>, k: int) -> bool {
    exists|q: int| 0 <= q < d.len() && k <= q && d[q] != '0'
}

/// The stamp of a number with this sign, whole part and fraction.
pub open spec fn stamp_of(negative: bool, whole: nat, fraction: bool) -> Stamp {
    if !negative {
        if whole <= i64::MAX {
            Stamp::Secs(whole as i64)
        } else {
            Stamp::Above
        }
    } else {
        let up: int = if fraction {
            whole as int + 1
        } else {
            whole as int
        };
        if up <= 0x8000_0000_0000_0000 {
            Stamp::Secs((-up) as i64)
        } else {
            Stamp::Below
        }
    }
}

/// What `s` gives as a floating-point epoch timestamp, in the grammar of
/// `f64::from_str`: an optional sign, then `inf`, `infinity` or `nan` in any
/// case, or digits with an optional point (at least one digit in all) and an
/// optional exponent, `e` or `E` with an optional sign and digits. `None` for
/// anything else.
///
/// A number is taken at its exact decimal value and rounded down to whole
/// seconds. Window bounds are whole seconds, and for whole `a`, `b` and any real
/// `t`, `a <= t < b` holds exactly when `a <= floor(t) < b`.
pub open spec fn timestamp_of(s: Seq<char>) -> Option<Stamp> {
    let negative = s.len() > 0 && s[0] == '-';
    let i: int = if s.len() > 0 && (s[0] == '+' || s[0] == '-') { 1 } else { 0 };
    let body = s.subrange(i, s.len() as int);
    if word_is(body, seq!['i', 'n', 'f']) || word_is(
        body,
        seq!['i', 'n', 'f', 'i', 'n', 'i', 't', 'y'],
    ) {
        Some(if negative { Stamp::Below } else { Stamp::Above })
    } else if word_is(body, seq!['n', 'a', 'n']) {
        Some(Stamp::NotANumber)
    } else {
        number_of(s, i, negative)
    }
}

/// What `s` from `i` on gives as the digits, point and exponent of a number.
pub open spec fn number_of(s: Seq<char>, i: int, negative: bool) -> Option<Stamp> {
    let j = digit_run(s, i);
    let point = j < s.len() && s[j] == '.';
    let k = if point { digit_run(s, j + 1) } else { j };
    let digits = if point { s.subrange(i, j) + s.subrange(j + 1, k) } else { s.subrange(i, j) };
    let exponent = k < s.len() && (s[k] == 'e' || s[k] == 'E');
    let x = if exponent && k + 1 < s.len() && (s[k + 1] == '+' || s[k + 1] == '-') {
        k + 2
    } else {
        k + 1
    };
    let y = if exponent { digit_run(s, x) } else { k };
    let e: int = if !exponent {
        0
    } else if x == k + 2 && s[k + 1] == '-' {
        -digits_value(s.subrange(x, y))
    } else {
        digits_value(s.subrange(x, y)) as int
    };
    if (j > i || k > j + 1) && y == s.len() && (!exponent || y > x) {
        Some(
            stamp_of(negative, whole_part(digits, (j - i) + e), has_fraction(digits, (j - i) + e)),
        )
    } else {
        None
    }
}

const WHOLE_CAP: u128 = 0x8000_0000_0000_0001;

const EXPONENT_CAP: u128 = 0x40_0000_0000_0000_0000;

proof fn lemma_capped_whole(d: Seq<char>, k: int, x: nat)
    requires
        k > d.len() + 19,
        x == capped(digits_value(d), WHOLE_CAP as nat),
    ensures
        capped(whole_part(d, k), WHOLE_CAP as nat) == if x == 0 {
            0
        } else {
            WHOLE_CAP as nat
        },
{
    let pad = (k - d.len()) as nat;
    assert(d.take(d.len() as int) =~= d);
    lemma_pow10_large(pad);
    let v = digits_value(d);
    if v > 0 {
        assert(v * pow10(pad) >= pow10(pad)) by (nonlinear_arith)
            requires
                v > 0,
        ;
    } else {
        assert(v * pow10(pad) == 0) by (nonlinear_arith)
            requires
                v == 0,
        ;
    }
}

/// An exponent capped far beyond the number of digits gives the same stamp.
proof fn lemma_exponent_cap(d: Seq<char>, w: int, e: int, ec: int)
    requires
        0 <= w <= d.len() <= 0x1_0000_0000_0000_0000,
        ec == e || (e >= EXPONENT_CAP && ec == EXPONENT_CAP) || (e <= -EXPONENT_CAP && ec
            == -EXPONENT_CAP),
    ensures
        capped(whole_part(d, w + e), WHOLE_CAP as nat) == capped(
            whole_part(d, w + ec),
            WHOLE_CAP as nat,
        ),
        has_fraction(d, w + e) == has_fraction(d, w + ec),
{
    if ec != e {
        let x = capped(digits_value(d), WHOLE_CAP as nat);
        if e > 0 {
            lemma_capped_whole(d, w + e, x);
            lemma_capped_whole(d, w + ec, x);
        } else {
            assert(w + e < 0);
            assert(w + ec < 0);
            assert(d.take(0) =~= Seq::<char>::empty());
            assert(digits_value(d.take(0)) == 0);
            assert(pow10(0) == 1);
            assert(whole_part(d, w + e) == digits_value(d.take(0)) * pow10(0));
            assert(whole_part(d, w + e) == 0);
            assert(whole_part(d, w + ec) == 0);
        }
    }
}

fn upper(c: char) -> (r: char)
    ensures
        r == upper_of(c),
{
    match c {
        'a' => 'A',
        'f' => 'F',
        'i' => 'I',
        'n' => 'N',
        't' => 'T',
        'y' => 'Y',
        _ => c,
    }
}

/// `v` from `from` on is the word `w`, in either case.
fn word_at(v: &Vec<char>, from: usize, w: &Vec<char>) -> (r: bool)
    requires
        from <= v@.len(),
    ensures
        r == word_is(v@.subrange(from as int, v@.len() as int), w@),
{
    if v.len() - from != w.len() {
        return false;
    }
    let ghost rest = v@.subrange(from as int, v@.len() as int);
    let n = v.len();
    let mut q: usize = 0;
    while q < w.len()
        invariant
            from + w@.len() == n,
            n == v@.len(),
            rest == v@.subrange(from as int, v@.len() as int),
            q <= w@.len(),
            forall|p: int| 0 <= p < q ==> (rest[p] == w@[p] || rest[p] == upper_of(w@[p])),
        decreases w@.len() - q,
    {
        let c = v[from + q];
        let l = w[q];
        if !(c == l || c == upper(l)) {
            return false;
        }
        q = q + 1;
    }
    true
}

/// The digits of a number: those before the point, then those after it.
fn mantissa(v: &Vec<char>, i: usize, j: usize, k: usize, point: bool) -> (d: Vec<char>)
    requires
        i <= j <= v@.len(),
        point ==> j < k <= v@.len(),
        forall|q: int| i <= q < j ==> is_digit(v@[q]),
        forall|q: int| j < q < k ==> is_digit(v@[q]),
    ensures
        d@ == if point {
            v@.subrange(i as int, j as int) + v@.subrange(j + 1, k as int)
        } else {
            v@.subrange(i as int, j as int)
        },
        forall|q: int| 0 <= q < d@.len() ==> is_digit(d@[q]),
{
    let mut d: Vec<char> = Vec::new();
    for q in i..j
        invariant
            j <= v@.len(),
            forall|p: int| i <= p < j ==> is_digit(v@[p]),
            d@ == v@.subrange(i as int, q as int),
    {
        d.push(v[q]);
        assert(d@ =~= v@.subrange(i as int, q + 1));
    }
    if point {
        for q in j + 1..k
            invariant
                k <= v@.len(),
                j + 1 <= q <= k,
                forall|p: int| i <= p < j ==> is_digit(v@[p]),
                forall|p: int| j < p < k ==> is_digit(v@[p]),
                d@ == v@.subrange(i as int, j as int) + v@.subrange(j + 1, q as int),
        {
            let ghost before = d@;
            d.push(v[q]);
            assert(v@.subrange(j + 1, q + 1) =~= v@.subrange(j + 1, q as int).push(v@[q as int]));
            assert(d@ =~= v@.subrange(i as int, j as int) + v@.subrange(j + 1, q + 1));
        }
    }
    d
}

/// The whole part of the digits `d` with the point after the first `kk`,
/// capped.
fn capped_whole(d: &Vec<char>, kk: i128) -> (r: u128)
    requires
        forall|q: int| 0 <= q < d@.len() ==> is_digit(d@[q]),
        -0x1_0000_0000_0000_0000_0000_0000 < kk < 0x1_0000_0000_0000_0000_0000_0000,
    ensures
        r == capped(whole_part(d@, kk as int), WHOLE_CAP as nat),
{
    let t: usize = if kk < 0 {
        0
    } else if kk > d.len() as i128 {
        d.len()
    } else {
        kk as usize
    };
    let (_, x) = read_digits(d, 0, t, WHOLE_CAP);
    assert(d@.subrange(0, t as int) =~= d@.take(t as int));
    let ghost value = digits_value(d@.take(t as int));
    if kk - d.len() as i128 > 19 {
        proof {
            assert(d@.take(t as int) =~= d@);
            lemma_capped_whole(d@, kk as int, x as nat);
        }
        return if x == 0 {
            0
        } else {
            WHOLE_CAP
        };
    }
    let pad: u128 = if kk > d.len() as i128 {
        (kk - d.len() as i128) as u128
    } else {
        0
    };
    proof {
        lemma_pow10_positive(pad as nat);
        lemma_capped_scale(value, pow10(pad as nat), WHOLE_CAP as nat);
        assert(whole_part(d@, kk as int) == value * pow10(pad as nat));
    }
    let mut whole: u128 = x;
    let mut m: u128 = pad;
    while m > 0
        invariant
            whole <= WHOLE_CAP,
            capped((whole * pow10(m as nat)) as nat, WHOLE_CAP as nat) == capped(
                value * pow10(pad as nat),
                WHOLE_CAP as nat,
            ),
        decreases m,
    {
        let ghost p = pow10((m - 1) as nat);
        proof {
            lemma_pow10_positive((m - 1) as nat);
            assert(whole * pow10(m as nat) == (whole * 10) * p) by (nonlinear_arith)
                requires
                    pow10(m as nat) == 10 * p,
            ;
            lemma_capped_scale((whole * 10) as nat, p, WHOLE_CAP as nat);
        }
        let next = whole * 10;
        whole = if next < WHOLE_CAP {
            next
        } else {
            WHOLE_CAP
        };
        m = m - 1;
    }
    assert(m == 0);
    assert(pow10(m as nat) == 1);
    assert(whole * pow10(m as nat) == whole * 1);
    whole
}

/// Some digit of `d` after the point, which stands after the first `kk`, is
/// not zero.
fn fraction_after(d: &Vec<char>, kk: i128) -> (r: bool)
    ensures
        r == has_fraction(d@, kk as int),
{
    let t: usize = if kk < 0 {
        0
    } else if kk > d.len() as i128 {
        d.len()
    } else {
        kk as usize
    };
    let mut fraction = false;
    for q in t..d.len()
        invariant
            t <= d@.len(),
            kk < 0 ==> t == 0,
            kk >= 0 && kk <= d@.len() ==> t == kk,
            kk > d@.len() ==> t == d@.len(),
            fraction <==> exists|p: int| t <= p < q && d@[p] != '0',
    {
        if d[q] != '0' {
            fraction = true;
        }
    }
    fraction
}

/// Parses an epoch timestamp written as a floating-point number.
pub fn parse_timestamp(s: &str) -> (r: Option<Stamp>)
    ensures
        r == timestamp_of(s@),
{
    let v = chars_of(s);
    let negative = v.len() > 0 && v[0] == '-';
    let i: usize = if v.len() > 0 && (v[0] == '+' || v[0] == '-') { 1 } else { 0 };
    let inf = vec!['i', 'n', 'f'];
    let infinity = vec!['i', 'n', 'f', 'i', 'n', 'i', 't', 'y'];
    let nan = vec!['n', 'a', 'n'];
    assert(inf@ =~= seq!['i', 'n', 'f']);
    assert(infinity@ =~= seq!['i', 'n', 'f', 'i', 'n', 'i', 't', 'y']);
    assert(nan@ =~= seq!['n', 'a', 'n']);
    if word_at(&v, i, &inf) || word_at(&v, i, &infinity) {
        return Some(if negative { Stamp::Below } else { Stamp::Above });
    }
    if word_at(&v, i, &nan) {
        return Some(Stamp::NotANumber);
    }
    parse_number(&v, i, negative)
}

/// Parses the digits, point and exponent of a number in `v` from `i` on.
#[verifier::rlimit(60)]
fn parse_number(v: &Vec<char>, i: usize, negative: bool) -> (r: Option<Stamp>)
    requires
        i <= v@.len(),
    ensures
        r == number_of(v@, i as int, negative),
{
    let (j, _) = read_digits(v, i, v.len(), 0);
    proof {
        lemma_digit_run(v@, i as int, j as int);
    }
    let point = j < v.len() && v[j] == '.';
    let k: usize = if point {
        let (k, _) = read_digits(v, j + 1, v.len(), 0);
        proof {
            lemma_digit_run(v@, j + 1, k as int);
        }
        k
    } else {
        j
    };
    if !(j > i || k - j > 1) {
        return None;
    }
    let exponent = k < v.len() && (v[k] == 'e' || v[k] == 'E');
    let mut e: i128 = 0;
    let ghost mut exact: int = 0;
    if exponent {
        let x: usize = if k + 1 < v.len() && (v[k + 1] == '+' || v[k + 1] == '-') {
            k + 2
        } else {
            k + 1
        };
        let (y, m) = read_digits(v, x, v.len(), EXPONENT_CAP);
        proof {
            lemma_digit_run(v@, x as int, y as int);
            let value = digits_value(v@.subrange(x as int, y as int));
            exact = if x == k + 2 && v@[k + 1] == '-' { -value } else { value as int };
        }
        if y != v.len() || y == x {
            return None;
        }
        e = if x == k + 2 && v[k + 1] == '-' {
            -(m as i128)
        } else {
            m as i128
        };
    } else if k != v.len() {
        return None;
    }
    let d = mantissa(v, i, j, k, point);
    let w0: usize = j - i;
    proof {
        lemma_exponent_cap(d@, w0 as int, exact, e as int);
    }
    let kk: i128 = w0 as i128 + e;
    let whole = capped_whole(&d, kk);
    let fraction = fraction_after(&d, kk);
    if !negative {
        if whole <= 0x7fff_ffff_ffff_ffff {
            Some(Stamp::Secs(whole as i64))
        } else {
            Some(Stamp::Above)
        }
    } else {
        let up: u128 = if fraction {
            whole + 1
        } else {
            whole
        };
        if up <= 0x8000_0000_0000_0000 {
            Some(Stamp::Secs((0 - up as i128) as i64))
        } else {
            Some(Stamp::Below)
        }
    }
}

} // verus!
