//! Fixed-point decimal numerals.
//!
//! A coordinate of the path language is held in micro-units: one unit of
//! the language is `MICRO` micro-units. Numerals match the class
//! `-?\d+(\.\d+)?`; fraction digits beyond the sixth carry no weight
//! (the value is truncated at six decimal places), and a value whose
//! magnitude exceeds `COORD_LIMIT` micro-units is rejected. Emission
//! formats every value with exactly six decimal places, so parsing a
//! formatted value recovers it exactly.

use vstd::prelude::*;

verus! {

/// Micro-units per unit of the path language.
pub const MICRO: i64 = 1_000_000;

/// Largest coordinate magnitude, in micro-units, that the library accepts.
pub const COORD_LIMIT: i64 = 2_000_000_000_000_000;

/// Whether a value in micro-units is within the accepted coordinate range.
pub open spec fn in_coord_range(v: int) -> bool {
    -(COORD_LIMIT as int) <= v <= COORD_LIMIT as int
}

/// The value of a decimal digit character; 10 marks a non-digit.
pub open spec fn digit_char_val(c: char) -> nat {
    if c == '0' {
        0
    } else if c == '1' {
        1
    } else if c == '2' {
        2
    } else if c == '3' {
        3
    } else if c == '4' {
        4
    } else if c == '5' {
        5
    } else if c == '6' {
        6
    } else if c == '7' {
        7
    } else if c == '8' {
        8
    } else if c == '9' {
        9
    } else {
        10
    }
}

/// Whether a character is a decimal digit.
pub open spec fn is_digit_char(c: char) -> bool {
    digit_char_val(c) < 10
}

/// The digit character for a value below ten.
pub open spec fn digit_char(d: nat) -> char {
    if d == 0 {
        '0'
    } else if d == 1 {
        '1'
    } else if d == 2 {
        '2'
    } else if d == 3 {
        '3'
    } else if d == 4 {
        '4'
    } else if d == 5 {
        '5'
    } else if d == 6 {
        '6'
    } else if d == 7 {
        '7'
    } else if d == 8 {
        '8'
    } else {
        '9'
    }
}

/// Whether every character of the sequence is a decimal digit.
pub open spec fn all_digits(s: Seq<char>) -> bool {
    forall|i: int| 0 <= i < s.len() ==> is_digit_char(#[trigger] s[i])
}

/// The value of a digit string, most significant digit first.
pub open spec fn digits_val(s: Seq<char>) -> nat
    decreases s.len(),
{
    if s.len() == 0 {
        0
    } else {
        digits_val(s.drop_last()) * 10 + digit_char_val(s.last())
    }
}

/// The canonical digit string of a natural number (no leading zeros,
/// a single `'0'` for zero).
pub open spec fn digits_of(n: nat) -> Seq<char>
    decreases n,
{
    if n < 10 {
        seq![digit_char(n)]
    } else {
        digits_of(n / 10).push(digit_char(n % 10))
    }
}

/// Ten to the `k`.
pub open spec fn pow10(k: nat) -> nat
    decreases k,
{
    if k == 0 {
        1
    } else {
        10 * pow10((k - 1) as nat)
    }
}

/// The index of the first `'.'` in the sequence, or its length if none.
pub open spec fn dot_pos(s: Seq<char>) -> nat
    decreases s.len(),
{
    if s.len() == 0 {
        0
    } else if s[0] == '.' {
        0
    } else {
        1 + dot_pos(s.skip(1))
    }
}

/// The value, in micro-units, of a fraction-digit string: only the first
/// six digits carry weight.
pub open spec fn frac_value(f: Seq<char>) -> nat {
    if f.len() >= 6 {
        digits_val(f.take(6))
    } else {
        digits_val(f) * pow10((6 - f.len()) as nat)
    }
}

/// The value, in micro-units, of an unsigned numeral `\d+(\.\d+)?`,
/// or `None` where the sequence does not match that class.
pub open spec fn mag_value(s: Seq<char>) -> Option<nat> {
    let d = dot_pos(s) as int;
    if d == 0 {
        None
    } else if !all_digits(s.take(d)) {
        None
    } else if d == s.len() {
        Some(digits_val(s.take(d)) * (MICRO as nat))
    } else {
        let f = s.skip(d + 1);
        if f.len() == 0 {
            None
        } else if !all_digits(f) {
            None
        } else {
            Some(digits_val(s.take(d)) * (MICRO as nat) + frac_value(f))
        }
    }
}

/// The value, in micro-units, of a signed numeral `-?\d+(\.\d+)?`,
/// or `None` where the sequence does not match that class.
pub open spec fn num_value(s: Seq<char>) -> Option<int> {
    if s.len() > 0 && s[0] == '-' {
        match mag_value(s.skip(1)) {
            Some(m) => Some(-(m as int)),
            None => None,
        }
    } else {
        match mag_value(s) {
            Some(m) => Some(m as int),
            None => None,
        }
    }
}

/// The six fraction digits of a magnitude below `MICRO`, most
/// significant first.
pub open spec fn pad6(n: nat) -> Seq<char> {
    seq![
        digit_char(n / 100000 % 10),
        digit_char(n / 10000 % 10),
        digit_char(n / 1000 % 10),
        digit_char(n / 100 % 10),
        digit_char(n / 10 % 10),
        digit_char(n % 10),
    ]
}

/// The six-decimal-place numeral of a magnitude in micro-units.
pub open spec fn fmt_mag(m: nat) -> Seq<char> {
    digits_of(m / (MICRO as nat)) + seq!['.'] + pad6(m % (MICRO as nat))
}

/// The six-decimal-place numeral of a signed value in micro-units.
pub open spec fn fmt_fixed(v: int) -> Seq<char> {
    if v < 0 {
        seq!['-'] + fmt_mag((-v) as nat)
    } else {
        fmt_mag(v as nat)
    }
}

/// The digit character of any value is a digit, and for values below
/// ten the two directions are inverse.
pub proof fn lemma_digit_char(d: nat)
    ensures
        is_digit_char(digit_char(d)),
        d < 10 ==> digit_char_val(digit_char(d)) == d,
{
}

/// The canonical digit string is nonempty and made of digits.
pub proof fn lemma_digits_of_shape(n: nat)
    ensures
        digits_of(n).len() >= 1,
        all_digits(digits_of(n)),
    decreases n,
{
    if n < 10 {
        lemma_digit_char(n);
    } else {
        lemma_digits_of_shape(n / 10);
        lemma_digit_char(n % 10);
        let s = digits_of(n / 10);
        assert forall|i: int| 0 <= i < s.push(digit_char(n % 10)).len() implies is_digit_char(
            #[trigger] s.push(digit_char(n % 10))[i],
        ) by {
            if i < s.len() {
                assert(s.push(digit_char(n % 10))[i] == s[i]);
            }
        }
    }
}

/// Reading the canonical digit string back gives the number.
pub proof fn lemma_digits_of_val(n: nat)
    ensures
        digits_val(digits_of(n)) == n,
    decreases n,
{
    if n < 10 {
        lemma_digit_char(n);
        let s = seq![digit_char(n)];
        assert(s.drop_last() =~= Seq::<char>::empty());
        assert(digits_val(Seq::<char>::empty()) == 0);
        assert(digits_val(s) == digit_char_val(digit_char(n)));
    } else {
        lemma_digits_of_val(n / 10);
        lemma_digit_char(n % 10);
        let s = digits_of(n / 10).push(digit_char(n % 10));
        assert(s.drop_last() =~= digits_of(n / 10));
        assert(s.last() == digit_char(n % 10));
    }
}

/// `dot_pos` names the first dot: everything before it is not a dot,
/// and it lands on a dot unless there is none.
pub proof fn lemma_dot_pos_shape(s: Seq<char>)
    ensures
        dot_pos(s) <= s.len(),
        dot_pos(s) < s.len() ==> s[dot_pos(s) as int] == '.',
        forall|i: int| 0 <= i < dot_pos(s) ==> s[i] != '.',
    decreases s.len(),
{
    if s.len() != 0 && s[0] != '.' {
        lemma_dot_pos_shape(s.skip(1));
        assert forall|i: int| 0 <= i < dot_pos(s) implies s[i] != '.' by {
            if i >= 1 {
                assert(s.skip(1)[i - 1] == s[i]);
            }
        }
        if dot_pos(s) < s.len() {
            assert(s.skip(1)[dot_pos(s.skip(1)) as int] == s[dot_pos(s) as int]);
        }
    }
}

/// Conversely, the position of a first dot is `dot_pos`.
pub proof fn lemma_dot_pos_at(s: Seq<char>, j: int)
    requires
        0 <= j <= s.len(),
        forall|i: int| 0 <= i < j ==> s[i] != '.',
        j < s.len() ==> s[j] == '.',
    ensures
        dot_pos(s) == j,
    decreases s.len(),
{
    if s.len() != 0 && s[0] != '.' {
        assert(j >= 1);
        assert forall|i: int| 0 <= i < j - 1 implies s.skip(1)[i] != '.' by {
            assert(s.skip(1)[i] == s[i + 1]);
        }
        if j - 1 < s.skip(1).len() {
            assert(s.skip(1)[j - 1] == s[j]);
        }
        lemma_dot_pos_at(s.skip(1), j - 1);
    }
}

/// The six padded fraction digits of a magnitude below `MICRO` read
/// back as that magnitude.
pub proof fn lemma_pad6_val(n: nat)
    requires
        n < MICRO,
    ensures
        pad6(n).len() == 6,
        all_digits(pad6(n)),
        digits_val(pad6(n)) == n,
{
    let c1 = digit_char(n / 100000 % 10);
    let c2 = digit_char(n / 10000 % 10);
    let c3 = digit_char(n / 1000 % 10);
    let c4 = digit_char(n / 100 % 10);
    let c5 = digit_char(n / 10 % 10);
    let c6 = digit_char(n % 10);
    lemma_digit_char(n / 100000 % 10);
    lemma_digit_char(n / 10000 % 10);
    lemma_digit_char(n / 1000 % 10);
    lemma_digit_char(n / 100 % 10);
    lemma_digit_char(n / 10 % 10);
    lemma_digit_char(n % 10);
    let s = pad6(n);
    assert forall|i: int| 0 <= i < s.len() implies is_digit_char(#[trigger] s[i]) by {
        assert(s[0] == c1 && s[1] == c2 && s[2] == c3 && s[3] == c4 && s[4] == c5 && s[5] == c6);
    }
    let v1 = n / 100000 % 10;
    let v2 = n / 10000 % 10;
    let v3 = n / 1000 % 10;
    let v4 = n / 100 % 10;
    let v5 = n / 10 % 10;
    let v6 = n % 10;
    assert(seq![c1].drop_last() =~= Seq::<char>::empty());
    assert(digits_val(Seq::<char>::empty()) == 0);
    assert(digits_val(seq![c1]) == v1);
    assert(seq![c1, c2].drop_last() =~= seq![c1]);
    assert(digits_val(seq![c1, c2]) == v1 * 10 + v2);
    assert(seq![c1, c2, c3].drop_last() =~= seq![c1, c2]);
    assert(digits_val(seq![c1, c2, c3]) == (v1 * 10 + v2) * 10 + v3);
    assert(seq![c1, c2, c3, c4].drop_last() =~= seq![c1, c2, c3]);
    assert(digits_val(seq![c1, c2, c3, c4]) == ((v1 * 10 + v2) * 10 + v3) * 10 + v4);
    assert(seq![c1, c2, c3, c4, c5].drop_last() =~= seq![c1, c2, c3, c4]);
    assert(digits_val(seq![c1, c2, c3, c4, c5]) == (((v1 * 10 + v2) * 10 + v3) * 10 + v4) * 10
        + v5);
    assert(s.drop_last() =~= seq![c1, c2, c3, c4, c5]);
    assert(digits_val(s) == ((((v1 * 10 + v2) * 10 + v3) * 10 + v4) * 10 + v5) * 10 + v6);
    assert(((((v1 * 10 + v2) * 10 + v3) * 10 + v4) * 10 + v5) * 10 + v6 == n) by (nonlinear_arith)
        requires
            v1 == n / 100000 % 10 && v2 == n / 10000 % 10 && v3 == n / 1000 % 10 && v4 == n / 100
                % 10 && v5 == n / 10 % 10 && v6 == n % 10 && n < 1000000,
    ;
}

/// A digit string's value is below ten to its length.
pub proof fn lemma_digits_val_upper(s: Seq<char>)
    requires
        all_digits(s),
    ensures
        digits_val(s) < pow10(s.len()),
    decreases s.len(),
{
    if s.len() == 0 {
    } else {
        assert(all_digits(s.drop_last())) by {
            assert(forall|i: int|
                0 <= i < s.drop_last().len() ==> s.drop_last()[i] == #[trigger] s[i]);
        }
        lemma_digits_val_upper(s.drop_last());
        assert(is_digit_char(s.last()));
        assert(digit_char_val(s.last()) <= 9);
        assert(pow10(s.len()) == 10 * pow10((s.len() - 1) as nat));
    }
}

/// Extending a digit string by one character multiplies its value by
/// ten and adds the digit.
pub proof fn lemma_digits_val_step(s: Seq<char>, k: int)
    requires
        0 <= k < s.len(),
    ensures
        digits_val(s.take(k + 1)) == digits_val(s.take(k)) * 10 + digit_char_val(s[k]),
{
    assert(s.take(k + 1).drop_last() =~= s.take(k));
    assert(s.take(k + 1).last() == s[k]);
}

/// An unsigned six-decimal-place numeral parses back to its magnitude.
pub proof fn lemma_fmt_mag_parses(m: nat)
    ensures
        mag_value(fmt_mag(m)) == Some(m),
        fmt_mag(m).len() >= 1,
        is_digit_char(fmt_mag(m)[0]),
{
    let ip = m / (MICRO as nat);
    let fp = m % (MICRO as nat);
    let a = digits_of(ip);
    let p = pad6(fp);
    let s = fmt_mag(m);
    lemma_digits_of_shape(ip);
    lemma_digits_of_val(ip);
    lemma_pad6_val(fp);
    assert(s.len() == a.len() + 1 + 6);
    assert(s[0] == a[0]);
    let j = a.len() as int;
    assert forall|i: int| 0 <= i < j implies s[i] != '.' by {
        assert(s[i] == a[i]);
        assert(is_digit_char(a[i]));
    }
    assert(s[j] == '.');
    lemma_dot_pos_at(s, j);
    assert(s.take(j) =~= a);
    assert(s.skip(j + 1) =~= p);
    assert(p.take(6) =~= p);
    assert(digits_val(a) * (MICRO as nat) + frac_value(p) == ip * (MICRO as nat) + fp);
    assert(ip * (MICRO as nat) + fp == m) by {
        vstd::arithmetic::div_mod::lemma_fundamental_div_mod(m as int, MICRO as int);
    }
}

/// Round trip of the numeral codec: formatting a value in range with
/// six decimal places and parsing the result gives the value back.
pub proof fn lemma_fmt_fixed_parses(v: int)
    requires
        in_coord_range(v),
    ensures
        num_value(fmt_fixed(v)) == Some(v),
{
    if v < 0 {
        let m = (-v) as nat;
        lemma_fmt_mag_parses(m);
        let s = fmt_fixed(v);
        assert(s[0] == '-');
        assert(s.skip(1) =~= fmt_mag(m));
    } else {
        lemma_fmt_mag_parses(v as nat);
        let s = fmt_fixed(v);
        assert(s[0] != '-');
    }
}

/// Ten raised to a sum is the product of the powers.
pub proof fn lemma_pow10_add(a: nat, b: nat)
    ensures
        pow10(a + b) == pow10(a) * pow10(b),
    decreases a,
{
    if a == 0 {
        assert(pow10(a) == 1);
        assert(a + b == b);
        assert(pow10(a + b) == pow10(b));
        assert(pow10(a + b) == pow10(a) * pow10(b));
    } else {
        let a1 = (a - 1) as nat;
        lemma_pow10_add(a1, b);
        assert(pow10(a + b) == 10 * pow10(a1 + b));
        assert(pow10(a1 + b) == pow10(a1) * pow10(b));
        assert(pow10(a) == 10 * pow10(a1));
        assert(pow10(a + b) == pow10(a) * pow10(b)) by (nonlinear_arith)
            requires
                pow10(a + b) == 10 * pow10(a1 + b),
                pow10(a1 + b) == pow10(a1) * pow10(b),
                pow10(a) == 10 * pow10(a1),
        ;
    }
}

/// The small powers of ten, evaluated.
pub proof fn lemma_pow10_vals()
    ensures
        pow10(0) == 1,
        pow10(1) == 10,
        pow10(2) == 100,
        pow10(3) == 1000,
        pow10(4) == 10000,
        pow10(5) == 100000,
        pow10(6) == 1000000,
{
    reveal_with_fuel(pow10, 7);
}

/// The decimal digit value of a character; ten where it is not a digit.
pub fn digit_of(c: char) -> (r: u8)
    ensures
        r as nat == digit_char_val(c),
{
    match c {
        '0' => 0,
        '1' => 1,
        '2' => 2,
        '3' => 3,
        '4' => 4,
        '5' => 5,
        '6' => 6,
        '7' => 7,
        '8' => 8,
        '9' => 9,
        _ => 10,
    }
}

/// The digit character of a value below ten.
pub fn char_of_digit(d: u64) -> (r: char)
    requires
        d < 10,
    ensures
        r == digit_char(d as nat),
{
    match d {
        0 => '0',
        1 => '1',
        2 => '2',
        3 => '3',
        4 => '4',
        5 => '5',
        6 => '6',
        7 => '7',
        8 => '8',
        _ => '9',
    }
}

/// Formats a micro-unit value with exactly six decimal places.
#[verifier::loop_isolation(false)]
pub fn format_fixed(v: i64) -> (r: String)
    requires
        in_coord_range(v as int),
    ensures
        r@ == fmt_fixed(v as int),
{
    let neg = v < 0;
    let m: u64 = if v < 0 {
        (-v) as u64
    } else {
        v as u64
    };
    let ip: u64 = m / 1_000_000;
    let fp: u64 = m % 1_000_000;
    let mut ds: Vec<char> = Vec::new();
    let mut cur: u64 = ip;
    while cur >= 10
        invariant
            digits_of(ip as nat) =~= digits_of(cur as nat) + ds@,
        decreases cur,
    {
        let c = char_of_digit(cur % 10);
        let ghost old_ds = ds@;
        ds.insert(0, c);
        proof {
            assert(digits_of(cur as nat) == digits_of((cur as nat) / 10).push(
                digit_char((cur as nat) % 10),
            ));
            assert(ds@ =~= seq![c] + old_ds);
            assert(digits_of((cur / 10) as nat) + ds@ =~= digits_of(cur as nat) + old_ds);
        }
        cur = cur / 10;
    }
    let c0 = char_of_digit(cur);
    let ghost old_ds = ds@;
    ds.insert(0, c0);
    proof {
        assert(digits_of(cur as nat) == seq![digit_char(cur as nat)]);
        assert(ds@ =~= digits_of(cur as nat) + old_ds);
        assert(ds@ =~= digits_of(ip as nat));
    }
    let mut out = ds;
    out.push('.');
    out.push(char_of_digit(fp / 100000 % 10));
    out.push(char_of_digit(fp / 10000 % 10));
    out.push(char_of_digit(fp / 1000 % 10));
    out.push(char_of_digit(fp / 100 % 10));
    out.push(char_of_digit(fp / 10 % 10));
    out.push(char_of_digit(fp % 10));
    proof {
        assert(out@ =~= digits_of(ip as nat) + seq!['.'] + pad6(fp as nat));
        assert(out@ =~= fmt_mag(m as nat));
    }
    if neg {
        out.insert(0, '-');
        proof {
            assert(out@ =~= seq!['-'] + fmt_mag(m as nat));
        }
    }
    crate::text::chars_to_string(&out)
}

/// Parses the unsigned numeral held in `cs[start..end]` into micro-units,
/// rejecting a magnitude above `COORD_LIMIT`.
#[verifier::loop_isolation(false)]
pub fn parse_mag(cs: &Vec<char>, start: usize, end: usize) -> (r: Option<u64>)
    requires
        start <= end <= cs@.len(),
    ensures
        ({
            let t = cs@.subrange(start as int, end as int);
            match mag_value(t) {
                Some(m) => if m <= COORD_LIMIT as nat {
                    r matches Some(x) && x as nat == m
                } else {
                    r is None
                },
                None => r is None,
            }
        }),
{
    let ghost t = cs@.subrange(start as int, end as int);
    proof {
        lemma_pow10_vals();
    }
    let mut j = start;
    let mut acc: u64 = 0;
    let mut over = false;
    while j < end && digit_of(cs[j]) < 10
        invariant
            start <= j <= end,
            forall|i: int| 0 <= i < j - start ==> is_digit_char(#[trigger] t[i]),
            !over ==> acc as nat == digits_val(t.take(j - start)) && acc <= 2_000_000_000,
            over ==> digits_val(t.take(j - start)) > 2_000_000_000,
        decreases end - j,
    {
        let d = digit_of(cs[j]);
        proof {
            assert(t[j - start] == cs@[j as int]);
            lemma_digits_val_step(t, j - start);
        }
        if over {
            assert(digits_val(t.take(j - start + 1)) > 2_000_000_000) by {
                assert(digits_val(t.take(j - start + 1)) >= digits_val(t.take(j - start)) * 10);
            }
        } else if acc >= 300_000_000 {
            over = true;
        } else {
            acc = acc * 10 + (d as u64);
            if acc > 2_000_000_000 {
                over = true;
            }
        }
        j = j + 1;
    }
    if j == start {
        proof {
            lemma_dot_pos_shape(t);
            if t.len() > 0 && t[0] != '.' {
                assert(dot_pos(t) >= 1);
                assert(!is_digit_char(t.take(dot_pos(t) as int)[0]));
            }
        }
        return None;
    }
    let ghost nd = j - start;
    if j == end {
        // the numeral is all integer digits
        proof {
            assert forall|i: int| 0 <= i < t.len() implies t[i] != '.' by {
                assert(is_digit_char(t[i]));
            }
            lemma_dot_pos_at(t, t.len() as int);
            assert(t.take(t.len() as int) =~= t);
        }
        if over {
            proof {
                assert(digits_val(t) * (MICRO as nat) > 2_000_000_000_000_000) by (nonlinear_arith)
                    requires
                        digits_val(t) > 2_000_000_000,
                ;
            }
            return None;
        }
        proof {
            assert(acc as nat * (MICRO as nat) <= 2_000_000_000_000_000_000) by (nonlinear_arith)
                requires
                    acc as nat <= 2_000_000_000,
            ;
        }
        let m = acc * 1_000_000;
        if m > 2_000_000_000_000_000 {
            return None;
        }
        return Some(m);
    }
    // a non-digit stands at j
    let cj = cs[j];
    proof {
        assert(t[nd] == cs@[j as int]);
        assert(!is_digit_char(t[nd]));
    }
    if cj != '.' {
        proof {
            lemma_dot_pos_shape(t);
            let d = dot_pos(t) as int;
            assert forall|i: int| 0 <= i <= nd implies t[i] != '.' by {
                if i < nd {
                    assert(is_digit_char(t[i]));
                }
            }
            assert(d > nd);
            assert(!is_digit_char(t.take(d)[nd]));
        }
        return None;
    }
    proof {
        assert forall|i: int| 0 <= i < nd implies t[i] != '.' by {
            assert(is_digit_char(t[i]));
        }
        lemma_dot_pos_at(t, nd);
    }
    let fj = j + 1;
    let ghost f = t.skip(nd + 1);
    if fj == end {
        return None;
    }
    let mut k = fj;
    let mut facc: u64 = 0;
    let mut cnt: usize = 0;
    while k < end
        invariant
            fj <= k <= end,
            cnt == if k - fj <= 6 {
                k - fj
            } else {
                6
            },
            forall|i: int| 0 <= i < k - fj ==> is_digit_char(#[trigger] f[i]),
            facc as nat == digits_val(f.take(cnt as int)),
            facc <= 999_999,
        decreases end - k,
    {
        let d = digit_of(cs[k]);
        proof {
            assert(f[k - fj] == cs@[k as int]);
        }
        if d >= 10 {
            proof {
                assert(!all_digits(f));
            }
            return None;
        }
        if cnt < 6 {
            proof {
                lemma_digits_val_step(f, cnt as int);
                assert(all_digits(f.take(cnt as int))) by {
                    assert(forall|i: int|
                        0 <= i < cnt ==> f.take(cnt as int)[i] == #[trigger] f[i]);
                }
                lemma_digits_val_upper(f.take(cnt as int));
                assert(pow10(cnt as nat) <= 100000) by {
                    assert(cnt <= 5);
                    if cnt == 0 {
                    } else if cnt == 1 {
                    } else if cnt == 2 {
                    } else if cnt == 3 {
                    } else if cnt == 4 {
                    } else {
                        assert(cnt == 5);
                    }
                }
            }
            facc = facc * 10 + (d as u64);
            cnt = cnt + 1;
        }
        k = k + 1;
    }
    proof {
        assert(all_digits(f));
    }
    let ghost flen = f.len();
    proof {
        if flen < 6 {
            assert(f.take(cnt as int) =~= f);
        }
    }
    while cnt < 6
        invariant
            cnt <= 6,
            flen >= 6 ==> cnt == 6 && facc as nat == digits_val(f.take(6)),
            flen < 6 ==> flen <= cnt && facc as nat == digits_val(f) * pow10((cnt - flen) as nat),
            facc <= 999_999,
        decreases 6 - cnt,
    {
        proof {
            assert(flen < 6);
            lemma_digits_val_upper(f);
            lemma_pow10_add(flen as nat, (cnt - flen) as nat);
            lemma_pow10_add(flen as nat, (cnt + 1 - flen) as nat);
            assert(digits_val(f) * pow10((cnt + 1 - flen) as nat) < pow10(flen as nat) * pow10(
                (cnt + 1 - flen) as nat,
            )) by (nonlinear_arith)
                requires
                    digits_val(f) < pow10(flen as nat),
                    pow10((cnt + 1 - flen) as nat) >= 1,
            ;
            assert(pow10((cnt + 1 - flen) as nat) >= 1) by {
                lemma_pow10_ge_one((cnt + 1 - flen) as nat);
            }
            assert(pow10(flen as nat) * pow10((cnt + 1 - flen) as nat) == pow10(
                (cnt + 1) as nat,
            ));
            assert(pow10((cnt + 1) as nat) <= 1000000) by {
                if cnt == 0 {
                } else if cnt == 1 {
                } else if cnt == 2 {
                } else if cnt == 3 {
                } else if cnt == 4 {
                } else {
                    assert(cnt == 5);
                }
            }
            assert(digits_val(f) * pow10(((cnt - flen) as nat) + 1) == digits_val(f) * pow10(
                (cnt - flen) as nat,
            ) * 10) by {
                lemma_pow10_add((cnt - flen) as nat, 1);
                assert(digits_val(f) * (pow10((cnt - flen) as nat) * 10) == digits_val(f) * pow10(
                    (cnt - flen) as nat,
                ) * 10) by (nonlinear_arith);
            }
        }
        facc = facc * 10;
        cnt = cnt + 1;
    }
    proof {
        if flen >= 6 {
            assert(facc as nat == frac_value(f));
        } else {
            assert(f.take(flen as int) =~= f);
            assert(facc as nat == frac_value(f));
        }
        assert(t.take(nd) == t.take(dot_pos(t) as int));
    }
    if over {
        proof {
            assert(digits_val(t.take(nd)) * (MICRO as nat) > 2_000_000_000_000_000)
                by (nonlinear_arith)
                requires
                    digits_val(t.take(nd)) > 2_000_000_000,
            ;
        }
        return None;
    }
    proof {
        assert(acc as nat * (MICRO as nat) <= 2_000_000_000_000_000_000) by (nonlinear_arith)
            requires
                acc as nat <= 2_000_000_000,
        ;
    }
    let m = acc * 1_000_000 + facc;
    if m > 2_000_000_000_000_000 {
        return None;
    }
    Some(m)
}

/// One power of ten is at least one.
pub proof fn lemma_pow10_ge_one(k: nat)
    ensures
        pow10(k) >= 1,
    decreases k,
{
    if k > 0 {
        lemma_pow10_ge_one((k - 1) as nat);
    }
}

/// Parses the signed numeral held in `cs[start..end]` into micro-units,
/// rejecting values outside the coordinate range.
pub fn parse_coord(cs: &Vec<char>, start: usize, end: usize) -> (r: Option<i64>)
    requires
        start <= end <= cs@.len(),
    ensures
        ({
            let s = cs@.subrange(start as int, end as int);
            match num_value(s) {
                Some(v) => if in_coord_range(v) {
                    r matches Some(x) && x as int == v
                } else {
                    r is None
                },
                None => r is None,
            }
        }),
{
    let ghost s = cs@.subrange(start as int, end as int);
    if start < end && cs[start] == '-' {
        proof {
            assert(s.skip(1) =~= cs@.subrange(start + 1, end as int));
        }
        match parse_mag(cs, start + 1, end) {
            Some(m) => Some(-(m as i64)),
            None => None,
        }
    } else {
        match parse_mag(cs, start, end) {
            Some(m) => Some(m as i64),
            None => None,
        }
    }
}

} // verus!
