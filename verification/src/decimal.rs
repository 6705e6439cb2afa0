//! Fixed-point decimal numbers read from the text that exchanges send.
//!
//! A value is an `i128` counting units of 10^-18. Text is read in the grammar
//! of floating-point literals: an optional sign, then digits with at most one
//! decimal point and at least one digit, then an optional exponent (`e` or
//! `E`, an optional sign and digits). Digits past the eighteenth fractional
//! place are cut off. The words `inf`, `infinity` and `nan`, in any case, are
//! floating-point literals too, but no fixed-point value stands for them, so
//! they are refused; so is a number whose magnitude does not fit in an
//! `i128`.
use vstd::prelude::*;

verus! {

/// Number of fractional decimal digits that a fixed-point value holds.
pub const FRACTION_DIGITS: usize = 18;

/// One whole unit (the value 1) in fixed-point units.
pub const ONE: i128 = 1_000_000_000_000_000_000;

/// Largest magnitude a fixed-point value may have: that of `i128::MAX`.
pub const MAX_UNITS: u128 = 170_141_183_460_469_231_731_687_303_715_884_105_727;

/// Exponents are read up to this bound; any larger one puts every nonzero
/// number out of range and every number with a negative one at zero.
pub const EXPONENT_CAP: u128 = 1_208_925_819_614_629_174_706_176;

/// Why a text is not a fixed-point number.
#[derive(Clone, Copy, Debug, PartialEq, Eq, Structural)]
pub enum DecimalError {
    /// The text is empty.
    Empty,
    /// The text is not a floating-point literal.
    Invalid,
    /// The text is infinity or not a number, which no fixed-point value holds.
    NotFinite,
    /// The magnitude exceeds `MAX_UNITS`.
    OutOfRange,
}

pub open spec fn is_digit(c: char) -> bool {
    '0' <= c && c <= '9'
}

pub open spec fn digit_value(c: char) -> nat {
    (c as int - '0' as int) as nat
}

pub open spec fn all_digits(s: Seq<char>) -> bool {
    forall|i: int| 0 <= i < s.len() ==> is_digit(#[trigger] s[i])
}

/// The number that a run of decimal digits denotes.
pub open spec fn digits_value(s: Seq<char>) -> nat
    decreases s.len(),
{
    if s.len() == 0 {
        0
    } else {
        digits_value(s.drop_last()) * 10 + digit_value(s.last())
    }
}

/// Length of the leading sign, if any.
pub open spec fn sign_len(s: Seq<char>) -> int {
    if s.len() > 0 && (s[0] == '-' || s[0] == '+') {
        1
    } else {
        0
    }
}

pub open spec fn is_negative(s: Seq<char>) -> bool {
    s.len() > 0 && s[0] == '-'
}

/// The text after its sign.
pub open spec fn body(s: Seq<char>) -> Seq<char> {
    s.skip(sign_len(s))
}

/// `b` is digits with a decimal point at `k` (or none, when `k` is its
/// length), and holds at least one digit.
pub open spec fn point_at(b: Seq<char>, k: int) -> bool {
    &&& 0 <= k <= b.len()
    &&& forall|i: int| 0 <= i < b.len() && i != k ==> is_digit(#[trigger] b[i])
    &&& k < b.len() ==> b[k] == '.'
    &&& if k < b.len() {
        b.len() > 1
    } else {
        b.len() > 0
    }
}

/// `c` marks the exponent of a number.
pub open spec fn is_exp_marker(c: char) -> bool {
    c == 'e' || c == 'E'
}

/// `x` is an exponent after its marker: an optional sign and at least one
/// digit.
pub open spec fn exponent_ok(x: Seq<char>) -> bool {
    body(x).len() > 0 && all_digits(body(x))
}

/// `b` is a number whose exponent marker stands at `e` (or none, when `e` is
/// its length) and whose mantissa `b[..e]` has its decimal point at `k`.
pub open spec fn number_at(b: Seq<char>, e: int, k: int) -> bool {
    &&& 0 <= e <= b.len()
    &&& point_at(b.take(e), k)
    &&& e < b.len() ==> is_exp_marker(b[e]) && exponent_ok(b.skip(e + 1))
}

/// `b` is an unsigned number.
pub open spec fn is_number(b: Seq<char>) -> bool {
    exists|e: int, k: int| number_at(b, e, k)
}

/// Where the exponent marker and the decimal point of a number stand.
pub open spec fn number_split(b: Seq<char>) -> (int, int) {
    choose|e: int, k: int| number_at(b, e, k)
}

/// The digits of the mantissa of a number, without its point.
pub open spec fn mantissa_digits(b: Seq<char>) -> Seq<char> {
    let m = b.take(number_split(b).0);
    let k = number_split(b).1;
    if k < m.len() {
        m.take(k) + m.skip(k + 1)
    } else {
        m
    }
}

/// How many mantissa digits stand after the point.
pub open spec fn fraction_len(b: Seq<char>) -> int {
    let e = number_split(b).0;
    let k = number_split(b).1;
    if k < e {
        e - k - 1
    } else {
        0
    }
}

/// The exponent of a number, zero when it has none.
pub open spec fn exponent_value(b: Seq<char>) -> int {
    let e = number_split(b).0;
    if e < b.len() {
        let x = b.skip(e + 1);
        if is_negative(x) {
            -digits_value(body(x))
        } else {
            digits_value(body(x)) as int
        }
    } else {
        0
    }
}

pub open spec fn zeros(n: nat) -> Seq<char> {
    Seq::new(n, |i: int| '0')
}

/// The digits `m` read as an integer times 10^t, with any fraction cut off.
pub open spec fn shifted(m: Seq<char>, t: int) -> Seq<char> {
    if t >= 0 {
        m + zeros(t as nat)
    } else if m.len() + t > 0 {
        m.take(m.len() + t)
    } else {
        Seq::empty()
    }
}

/// The magnitude of an unsigned number in units of 10^-18, cut toward zero.
pub open spec fn body_units(b: Seq<char>) -> nat {
    digits_value(shifted(mantissa_digits(b), exponent_value(b) - fraction_len(b) + 18))
}

/// The magnitude of a number in units of 10^-18, cut toward zero.
pub open spec fn units(s: Seq<char>) -> nat {
    body_units(body(s))
}

/// `c` is `w` or, where `w` is a lower-case letter, its upper case.
pub open spec fn matches_letter(c: char, w: char) -> bool {
    c == w || (c as u32) + 32 == (w as u32)
}

/// `b` is the lower-case word `w` in any case.
pub open spec fn is_word(b: Seq<char>, w: Seq<char>) -> bool {
    b.len() == w.len() && forall|i: int| 0 <= i < b.len() ==> matches_letter(#[trigger] b[i], w[i])
}

/// `b` is infinity or not-a-number.
pub open spec fn is_not_finite(b: Seq<char>) -> bool {
    ||| is_word(b, seq!['i', 'n', 'f'])
    ||| is_word(b, seq!['i', 'n', 'f', 'i', 'n', 'i', 't', 'y'])
    ||| is_word(b, seq!['n', 'a', 'n'])
}

/// What reading `s` gives.
pub open spec fn parse_result(s: Seq<char>) -> Result<i128, DecimalError> {
    if s.len() == 0 {
        Err(DecimalError::Empty)
    } else if is_not_finite(body(s)) {
        Err(DecimalError::NotFinite)
    } else if !is_number(body(s)) {
        Err(DecimalError::Invalid)
    } else if units(s) > MAX_UNITS {
        Err(DecimalError::OutOfRange)
    } else if is_negative(s) {
        Ok((-units(s)) as i128)
    } else {
        Ok(units(s) as i128)
    }
}

pub open spec fn pow10(n: nat) -> nat
    decreases n,
{
    if n == 0 {
        1
    } else {
        10 * pow10((n - 1) as nat)
    }
}

proof fn lemma_pow10_mono(a: nat, b: nat)
    requires
        a <= b,
    ensures
        pow10(a) <= pow10(b),
    decreases b,
{
    if a < b {
        lemma_pow10_mono(a, (b - 1) as nat);
    }
}

proof fn lemma_pow10_40_exceeds()
    ensures
        pow10(40) > MAX_UNITS,
{
    reveal_with_fuel(pow10, 41);
}

/// A mantissa has no exponent marker.
proof fn lemma_point_no_marker(m: Seq<char>, k: int, i: int)
    requires
        point_at(m, k),
        0 <= i < m.len(),
    ensures
        !is_exp_marker(m[i]),
{
    if i != k {
        assert(is_digit(m[i]));
    }
}

/// A number splits in one way only.
proof fn lemma_number_unique(b: Seq<char>, e1: int, k1: int, e2: int, k2: int)
    requires
        number_at(b, e1, k1),
        number_at(b, e2, k2),
    ensures
        e1 == e2 && k1 == k2,
{
    if e1 < e2 {
        lemma_point_no_marker(b.take(e2), k2, e1);
    } else if e2 < e1 {
        lemma_point_no_marker(b.take(e1), k1, e2);
    }
    lemma_point_unique(b.take(e1), k1, k2);
}

/// Zeros after digits that denote zero still denote zero.
proof fn lemma_zero_then_zeros(m: Seq<char>, j: nat)
    requires
        digits_value(m) == 0,
    ensures
        digits_value(m + zeros(j)) == 0,
    decreases j,
{
    if j > 0 {
        lemma_zero_then_zeros(m, (j - 1) as nat);
        assert((m + zeros(j)).drop_last() =~= m + zeros((j - 1) as nat));
    } else {
        assert(m + zeros(j) =~= m);
    }
}

/// A decimal number has a single decimal-point position.
pub proof fn lemma_point_unique(b: Seq<char>, k1: int, k2: int)
    requires
        point_at(b, k1),
        point_at(b, k2),
    ensures
        k1 == k2,
{
    if k1 != k2 {
        if k1 < b.len() {
            assert(is_digit(b[k1]));
        } else {
            assert(is_digit(b[k2]));
        }
    }
}

/// A longer run of digits denotes at least as much as its prefix.
pub proof fn lemma_digits_value_prefix(s: Seq<char>, i: int)
    requires
        0 <= i <= s.len(),
    ensures
        digits_value(s.take(i)) <= digits_value(s),
    decreases s.len(),
{
    if i < s.len() {
        lemma_digits_value_prefix(s.drop_last(), i);
        assert(s.drop_last().take(i) =~= s.take(i));
    } else {
        assert(s.take(i) =~= s);
    }
}

fn is_digit_char(c: char) -> (r: bool)
    ensures
        r == is_digit(c),
{
    '0' <= c && c <= '9'
}

/// The characters of `text`, one by one.
pub fn chars_of(text: &str) -> (v: Vec<char>)
    ensures
        v@ == text@,
{
    let n = text.unicode_len();
    let mut v: Vec<char> = Vec::new();
    let mut i: usize = 0;
    while i < n
        invariant
            n == text@.len(),
            i <= n,
            v@ == text@.take(i as int),
        decreases n - i,
    {
        let c = text.get_char(i);
        v.push(c);
        i = i + 1;
        assert(v@ =~= text@.take(i as int));
    }
    assert(text@.take(n as int) =~= text@);
    v
}

/// Reads a run of digits, refusing one above `MAX_UNITS`.
fn digits_to_units(d: &Vec<char>) -> (r: Option<u128>)
    requires
        all_digits(d@),
    ensures
        match r {
            Some(u) => u == digits_value(d@) && u <= MAX_UNITS,
            None => digits_value(d@) > MAX_UNITS,
        },
{
    let n = d.len();
    let mut acc: u128 = 0;
    let mut i: usize = 0;
    while i < n
        invariant
            n == d@.len(),
            i <= n,
            all_digits(d@),
            acc == digits_value(d@.take(i as int)),
            acc <= MAX_UNITS,
        decreases n - i,
    {
        let c = d[i];
        assert(is_digit(d@[i as int]));
        let dg: u128 = (c as u32 - '0' as u32) as u128;
        assert(d@.take(i + 1).drop_last() =~= d@.take(i as int));
        assert(digits_value(d@.take(i + 1)) == acc * 10 + dg);
        if acc > (MAX_UNITS - dg) / 10 {
            proof {
                lemma_digits_value_prefix(d@, i + 1);
            }
            return None;
        }
        acc = acc * 10 + dg;
        i = i + 1;
    }
    assert(d@.take(n as int) =~= d@);
    Some(acc)
}

/// Finds the decimal point of the body `s[start..]`: whether the body is a
/// decimal number and, if so, the index in `s` of its point (or `s.len()`).
fn scan_body(s: &Vec<char>, start: usize) -> (r: (bool, usize))
    requires
        start <= s@.len(),
    ensures
        r.0 == exists|k: int| point_at(s@.skip(start as int), k),
        r.0 ==> start <= r.1 <= s@.len() && point_at(s@.skip(start as int), r.1 - start),
{
    let ghost b = s@.skip(start as int);
    let n = s.len();
    let mut point: usize = n;
    let mut seen_digit = false;
    let mut j = start;
    while j < n
        invariant
            b == s@.skip(start as int),
            n == s@.len(),
            start <= j <= n,
            point == n || (start <= point < j && s@[point as int] == '.'),
            forall|i: int| start <= i < j && i != point ==> is_digit(#[trigger] s@[i]),
            seen_digit == exists|i: int| start <= i < j && is_digit(#[trigger] s@[i]),
        decreases n - j,
    {
        let c = s[j];
        if c == '.' {
            if point < n {
                assert forall|k: int| !point_at(b, k) by {
                    if point_at(b, k) {
                        if k != point - start {
                            assert(is_digit(b[point - start]));
                        } else {
                            assert(is_digit(b[j - start]));
                        }
                    }
                }
                return (false, 0);
            }
            point = j;
        } else if is_digit_char(c) {
            seen_digit = true;
        } else {
            assert forall|k: int| !point_at(b, k) by {
                if point_at(b, k) {
                    if k != j - start {
                        assert(is_digit(b[j - start]));
                    }
                }
            }
            return (false, 0);
        }
        j = j + 1;
    }
    if !seen_digit {
        assert forall|k: int| !point_at(b, k) by {
            if point_at(b, k) {
                if k < b.len() {
                    let i = if k == 0 { 1 } else { 0 };
                    assert(is_digit(b[i]));
                    assert(is_digit(s@[start + i]));
                } else {
                    assert(is_digit(b[0]));
                    assert(is_digit(s@[start as int]));
                }
            }
        }
        return (false, 0);
    }
    let ghost w = choose|i: int| start <= i < n && is_digit(#[trigger] s@[i]);
    assert(is_digit(b[w - start]));
    assert(point_at(b, point - start));
    (true, point)
}

/// The characters `v[from..]`.
fn skip_vec(v: &Vec<char>, from: usize) -> (r: Vec<char>)
    requires
        from <= v@.len(),
    ensures
        r@ == v@.skip(from as int),
{
    let n = v.len();
    let mut r: Vec<char> = Vec::new();
    let mut i = from;
    while i < n
        invariant
            from <= i <= n,
            n == v@.len(),
            r@ == v@.subrange(from as int, i as int),
        decreases n - i,
    {
        r.push(v[i]);
        i = i + 1;
        assert(r@ =~= v@.subrange(from as int, i as int));
    }
    assert(r@ =~= v@.skip(from as int));
    r
}

/// The characters `v[..to]`.
fn take_vec(v: &Vec<char>, to: usize) -> (r: Vec<char>)
    requires
        to <= v@.len(),
    ensures
        r@ == v@.take(to as int),
{
    let mut r: Vec<char> = Vec::new();
    let mut i: usize = 0;
    while i < to
        invariant
            i <= to <= v@.len(),
            r@ == v@.take(i as int),
        decreases to - i,
    {
        r.push(v[i]);
        i = i + 1;
        assert(r@ =~= v@.take(i as int));
    }
    r
}

/// Whether `b` is the lower-case word `w` in any case.
fn word_matches(b: &Vec<char>, w: &Vec<char>) -> (r: bool)
    ensures
        r == is_word(b@, w@),
{
    if b.len() != w.len() {
        return false;
    }
    let n = b.len();
    let mut i: usize = 0;
    while i < n
        invariant
            n == b@.len(),
            n == w@.len(),
            i <= n,
            forall|j: int| 0 <= j < i ==> matches_letter(#[trigger] b@[j], w@[j]),
        decreases n - i,
    {
        let c = b[i];
        let l = w[i];
        if !(c == l || ((l as u32) >= 32 && (c as u32) == (l as u32) - 32)) {
            return false;
        }
        i = i + 1;
    }
    true
}

/// Whether `b` is infinity or not-a-number.
fn not_finite(b: &Vec<char>) -> (r: bool)
    ensures
        r == is_not_finite(b@),
{
    let inf = vec!['i', 'n', 'f'];
    let infinity = vec!['i', 'n', 'f', 'i', 'n', 'i', 't', 'y'];
    let nan = vec!['n', 'a', 'n'];
    assert(inf@ =~= seq!['i', 'n', 'f']);
    assert(infinity@ =~= seq!['i', 'n', 'f', 'i', 'n', 'i', 't', 'y']);
    assert(nan@ =~= seq!['n', 'a', 'n']);
    word_matches(b, &inf) || word_matches(b, &infinity) || word_matches(b, &nan)
}

/// The index of the first exponent marker of `b`, or its length.
fn find_exp_marker(b: &Vec<char>) -> (e: usize)
    ensures
        e <= b@.len(),
        forall|i: int| 0 <= i < e ==> !is_exp_marker(#[trigger] b@[i]),
        e < b@.len() ==> is_exp_marker(b@[e as int]),
{
    let n = b.len();
    let mut e: usize = 0;
    while e < n
        invariant
            n == b@.len(),
            e <= n,
            forall|i: int| 0 <= i < e ==> !is_exp_marker(#[trigger] b@[i]),
        decreases n - e,
    {
        if b[e] == 'e' || b[e] == 'E' {
            return e;
        }
        e = e + 1;
    }
    e
}

/// Reads the exponent `b[from..]`: whether it is one, whether it is
/// negative, and its magnitude held to `EXPONENT_CAP`.
fn read_exponent(b: &Vec<char>, from: usize) -> (r: (bool, bool, u128))
    requires
        from <= b@.len(),
    ensures
        r.0 == exponent_ok(b@.skip(from as int)),
        r.0 ==> r.1 == is_negative(b@.skip(from as int)),
        r.0 ==> r.2 == (if digits_value(body(b@.skip(from as int))) < EXPONENT_CAP {
            digits_value(body(b@.skip(from as int)))
        } else {
            EXPONENT_CAP as nat
        }),
{
    let ghost x = b@.skip(from as int);
    let x_vec = skip_vec(b, from);
    let n = x_vec.len();
    let negative = n > 0 && x_vec[0] == '-';
    let start: usize = if n > 0 && (x_vec[0] == '-' || x_vec[0] == '+') {
        1
    } else {
        0
    };
    assert(start == sign_len(x));
    let d = skip_vec(&x_vec, start);
    assert(d@ == body(x));
    if d.len() == 0 {
        return (false, false, 0);
    }
    let m = d.len();
    let mut acc: u128 = 0;
    let mut i: usize = 0;
    while i < m
        invariant
            m == d@.len(),
            i <= m,
            d@ == body(x),
            x == b@.skip(from as int),
            forall|j: int| 0 <= j < i ==> is_digit(#[trigger] d@[j]),
            acc == (if digits_value(d@.take(i as int)) < EXPONENT_CAP {
                digits_value(d@.take(i as int))
            } else {
                EXPONENT_CAP as nat
            }),
        decreases m - i,
    {
        let c = d[i];
        if !is_digit_char(c) {
            assert(!is_digit(d@[i as int]));
            assert(!all_digits(d@));
            return (false, false, 0);
        }
        let dg: u128 = (c as u32 - '0' as u32) as u128;
        assert(d@.take(i + 1).drop_last() =~= d@.take(i as int));
        let next = acc * 10 + dg;
        acc = if next < EXPONENT_CAP {
            next
        } else {
            EXPONENT_CAP
        };
        i = i + 1;
    }
    assert(d@.take(m as int) =~= d@);
    (true, negative, acc)
}

/// The mantissa `m` without its point at `k`.
fn mantissa_digit_vec(m: &Vec<char>, k: usize) -> (r: Vec<char>)
    requires
        k <= m@.len(),
    ensures
        r@ == (if k < m@.len() {
            m@.take(k as int) + m@.skip(k + 1)
        } else {
            m@
        }),
{
    if k < m.len() {
        let mut r = take_vec(m, k);
        let tail = skip_vec(m, k + 1);
        let ghost head = r@;
        let n = tail.len();
        let mut i: usize = 0;
        while i < n
            invariant
                n == tail@.len(),
                i <= n,
                r@ == head + tail@.take(i as int),
            decreases n - i,
        {
            r.push(tail[i]);
            i = i + 1;
            assert(r@ =~= head + tail@.take(i as int));
        }
        assert(tail@.take(n as int) =~= tail@);
        r
    } else {
        take_vec(m, m.len())
    }
}

/// Reads the digits `m` times 10^t, with any fraction cut off, refusing a
/// result above `MAX_UNITS`. When the exponent behind `t` was held to
/// `EXPONENT_CAP` (`held`), `t` stands for any true shift on the same side.
fn shifted_units(m: &Vec<char>, t: i128, true_t: Ghost<int>) -> (r: Option<u128>)
    requires
        all_digits(m@),
        m@.len() < 0x1_0000_0000_0000_0000,
        true_t@ == t || (t >= 40 && true_t@ >= t) || (t <= -0x1_0000_0000_0000_0000 && true_t@ <= t),
        -0x10_0000_0000_0000_0000_0000 < t < 0x10_0000_0000_0000_0000_0000,
    ensures
        match r {
            Some(u) => u == digits_value(shifted(m@, true_t@)) && u <= MAX_UNITS,
            None => digits_value(shifted(m@, true_t@)) > MAX_UNITS,
        },
{
    let ghost tt = true_t@;
    let l = m.len();
    if t >= 0 {
        let acc0 = match digits_to_units(m) {
            None => {
                proof {
                    assert(shifted(m@, tt).take(m@.len() as int) =~= m@);
                    lemma_digits_value_prefix(shifted(m@, tt), m@.len() as int);
                }
                return None;
            },
            Some(a) => a,
        };
        if acc0 == 0 {
            proof {
                lemma_zero_then_zeros(m@, tt as nat);
            }
            return Some(0);
        }
        let mut acc = acc0;
        let mut j: i128 = 0;
        assert(m@ + zeros(0) =~= m@);
        while j < t
            invariant
                0 <= j <= t,
                tt >= t,
                tt == true_t@,
                acc == digits_value(m@ + zeros(j as nat)),
                acc <= MAX_UNITS,
                acc >= pow10(j as nat),
            decreases t - j,
        {
            assert((m@ + zeros((j + 1) as nat)).drop_last() =~= m@ + zeros(j as nat));
            assert(digits_value(m@ + zeros((j + 1) as nat)) == acc * 10);
            if acc > MAX_UNITS / 10 {
                proof {
                    assert(acc * 10 > MAX_UNITS);
                    assert(shifted(m@, tt) == m@ + zeros(tt as nat));
                    assert(shifted(m@, tt).take(m@.len() + j + 1) =~= m@ + zeros((j + 1) as nat));
                    lemma_digits_value_prefix(shifted(m@, tt), m@.len() + j + 1);
                }
                return None;
            }
            acc = acc * 10;
            j = j + 1;
        }
        proof {
            if tt != t {
                lemma_pow10_mono(40, t as nat);
                lemma_pow10_40_exceeds();
            }
        }
        Some(acc)
    } else {
        let drop: i128 = -t;
        if (l as i128) <= drop {
            assert(shifted(m@, tt) =~= Seq::<char>::empty());
            return Some(0);
        }
        let keep: usize = (l as i128 - drop) as usize;
        let kept = take_vec(m, keep);
        assert(shifted(m@, tt) == kept@);
        assert(all_digits(kept@)) by {
            assert forall|i: int| 0 <= i < kept@.len() implies is_digit(#[trigger] kept@[i]) by {
                assert(kept@[i] == m@[i]);
            }
        }
        digits_to_units(&kept)
    }
}

/// Where the exponent marker and the decimal point of the unsigned number
/// `b` stand, or `None` when `b` is not one.
fn split_number(b: &Vec<char>) -> (r: Option<(usize, usize)>)
    ensures
        r is Some <==> is_number(b@),
        r matches Some(ek) ==> number_at(b@, ek.0 as int, ek.1 as int),
{
    let ghost bs = b@;
    let e = find_exp_marker(b);
    let mant = take_vec(b, e);
    assert(mant@.skip(0) =~= mant@);
    let (point_ok, k) = scan_body(&mant, 0);
    if !point_ok {
        proof {
            assert forall|e2: int, k2: int| !number_at(bs, e2, k2) by {
                if number_at(bs, e2, k2) {
                    if e2 < e {
                        assert(is_exp_marker(bs[e2]));
                    } else if e2 > e {
                        lemma_point_no_marker(bs.take(e2), k2, e as int);
                    } else {
                        assert(point_at(mant@.skip(0), k2));
                    }
                }
            }
        }
        return None;
    }
    let exp_ok = if e < b.len() {
        read_exponent(b, e + 1).0
    } else {
        true
    };
    if !exp_ok {
        proof {
            assert forall|e2: int, k2: int| !number_at(bs, e2, k2) by {
                if number_at(bs, e2, k2) {
                    if e2 < e {
                        assert(is_exp_marker(bs[e2]));
                    } else if e2 > e {
                        lemma_point_no_marker(bs.take(e2), k2, e as int);
                    }
                }
            }
        }
        return None;
    }
    assert(point_at(mant@.skip(0), k as int));
    assert(number_at(bs, e as int, k as int));
    Some((e, k))
}

/// The magnitude of the unsigned number `b`, split at `e` and `k`, or
/// `None` when it exceeds `MAX_UNITS`.
fn number_units(b: &Vec<char>, e: usize, k: usize) -> (r: Option<u128>)
    requires
        number_at(b@, e as int, k as int),
    ensures
        match r {
            Some(u) => u == body_units(b@) && u <= MAX_UNITS,
            None => body_units(b@) > MAX_UNITS,
        },
{
    let ghost bs = b@;
    proof {
        let (e2, k2) = number_split(bs);
        lemma_number_unique(bs, e as int, k as int, e2, k2);
    }
    let mant = take_vec(b, e);
    let digits = mantissa_digit_vec(&mant, k);
    assert(digits@ == mantissa_digits(bs));
    assert(all_digits(digits@)) by {
        assert forall|i: int| 0 <= i < digits@.len() implies is_digit(#[trigger] digits@[i]) by {
            if i < k {
                assert(digits@[i] == mant@[i]);
            } else {
                assert(digits@[i] == mant@[i + 1]);
            }
        }
    }
    let (_, exp_negative, exp_held) = if e < b.len() {
        read_exponent(b, e + 1)
    } else {
        (true, false, 0)
    };
    let f: usize = if k < e {
        e - k - 1
    } else {
        0
    };
    let exponent: i128 = if exp_negative {
        -(exp_held as i128)
    } else {
        exp_held as i128
    };
    let t: i128 = exponent - (f as i128) + 18;
    let ghost true_t = exponent_value(bs) - fraction_len(bs) + 18;
    assert(fraction_len(bs) == f);
    assert(true_t == t || (t >= 40 && true_t >= t) || (t <= -0x1_0000_0000_0000_0000 && true_t <= t));
    shifted_units(&digits, t, Ghost(true_t))
}

/// Reads a fixed-point number from `text`.
pub fn parse_decimal(text: &str) -> (r: Result<i128, DecimalError>)
    ensures
        r == parse_result(text@),
{
    let s = chars_of(text);
    let n = s.len();
    if n == 0 {
        return Err(DecimalError::Empty);
    }
    let negative = s[0] == '-';
    let start: usize = if s[0] == '-' || s[0] == '+' {
        1
    } else {
        0
    };
    assert(start == sign_len(s@));
    let b = skip_vec(&s, start);
    assert(b@ == body(s@));
    if not_finite(&b) {
        return Err(DecimalError::NotFinite);
    }
    let (e, k) = match split_number(&b) {
        None => {
            return Err(DecimalError::Invalid);
        },
        Some(ek) => ek,
    };
    let units = match number_units(&b, e, k) {
        None => {
            return Err(DecimalError::OutOfRange);
        },
        Some(u) => u,
    };
    let v = units as i128;
    if negative {
        Ok(-v)
    } else {
        Ok(v)
    }
}

/// `v` held to the range of `i128`.
pub open spec fn saturate(v: int) -> i128 {
    if v > i128::MAX {
        i128::MAX
    } else if v < i128::MIN {
        i128::MIN
    } else {
        v as i128
    }
}

/// A value in the range of `i128` is kept exactly; one above it becomes
/// `i128::MAX`, one below it `i128::MIN`.
pub proof fn lemma_saturate_exact(v: int)
    ensures
        i128::MIN <= v <= i128::MAX ==> saturate(v) == v,
        v > i128::MAX ==> saturate(v) == i128::MAX,
        v < i128::MIN ==> saturate(v) == i128::MIN,
        saturate(v) <= v <==> v >= i128::MIN,
{
}

/// `a - b`, held to the range of `i128`.
pub fn saturating_diff(a: i128, b: i128) -> (r: i128)
    ensures
        r == saturate(a - b),
        i128::MIN <= a - b <= i128::MAX ==> r == a - b,
        a - b > i128::MAX ==> r == i128::MAX,
        a - b < i128::MIN ==> r == i128::MIN,
{
    if b < 0 {
        if a > i128::MAX + b {
            i128::MAX
        } else {
            a - b
        }
    } else {
        if a < i128::MIN + b {
            i128::MIN
        } else {
            a - b
        }
    }
}

} // verus!
