//! Decimal and hexadecimal numerals: writing them, padding them, reading them.

use crate::text;
use vstd::prelude::*;

verus! {

/// The digit for `d`, `0 <= d < 10`.
pub open spec fn digit_char(d: int) -> char {
    (48 + d) as char
}

/// The decimal numeral of `n`, without leading zeros.
pub open spec fn decimal(n: nat) -> Seq<char>
    decreases n,
{
    if n < 10 {
        seq![digit_char(n as int)]
    } else {
        decimal(n / 10).push(digit_char((n % 10) as int))
    }
}

/// `s` with zeros put in front until it is `width` characters long.
pub open spec fn zero_padded(s: Seq<char>, width: nat) -> Seq<char> {
    if s.len() >= width {
        s
    } else {
        Seq::new((width - s.len()) as nat, |i: int| '0') + s
    }
}

/// An ASCII digit.
pub open spec fn is_digit(c: char) -> bool {
    '0' <= c <= '9'
}

/// Every character of `s` is an ASCII digit.
pub open spec fn all_digits(s: Seq<char>) -> bool {
    forall|i: int| 0 <= i < s.len() ==> is_digit(#[trigger] s[i])
}

/// The number that a sequence of digits stands for, the first the heaviest.
pub open spec fn digits_value(s: Seq<char>) -> nat
    decreases s.len(),
{
    if s.len() == 0 {
        0
    } else {
        digits_value(s.drop_last()) * 10 + (s.last() as int - 48) as nat
    }
}

/// `s` without the one `+` that may stand in front of a numeral.
pub open spec fn without_plus(s: Seq<char>) -> Seq<char> {
    if s.len() > 0 && s[0] == '+' {
        s.drop_first()
    } else {
        s
    }
}

/// The unsigned number up to `max` that `s` spells: an optional `+`, then one
/// digit or more.
pub open spec fn unsigned(s: Seq<char>, max: nat) -> Option<nat> {
    let d = without_plus(s);
    if d.len() > 0 && all_digits(d) && digits_value(d) <= max {
        Some(digits_value(d))
    } else {
        None
    }
}

/// Appends the decimal numeral of `n`.
pub fn push_decimal(out: &mut String, n: u128)
    ensures
        final(out)@ == old(out)@ + decimal(n as nat),
    decreases n,
{
    if n >= 10 {
        push_decimal(out, n / 10);
    }
    let d: u8 = (n % 10) as u8;
    let ghost before = out@;
    out.push((48 + d) as char);
    assert(before.push(digit_char(d as int)) =~= old(out)@ + decimal(n as nat));
}

/// The decimal numeral of `n`.
pub fn decimal_text(n: u128) -> (s: String)
    ensures
        s@ == decimal(n as nat),
{
    let mut s = String::new();
    push_decimal(&mut s, n);
    assert(s@ =~= decimal(n as nat));
    s
}

/// The decimal numeral of `n`, padded with zeros to `width`.
pub fn padded_text(n: u128, width: usize) -> (s: String)
    ensures
        s@ == zero_padded(decimal(n as nat), width as nat),
{
    let d = decimal_text(n);
    let len: usize = text::to_chars(d.as_str()).len();
    let mut s = String::new();
    let mut k: usize = len;
    assert(s@ =~= Seq::new(0, |i: int| '0'));
    while k < width
        invariant
            len <= k,
            k <= width || k == len,
            s@ == Seq::new((k - len) as nat, |i: int| '0'),
        decreases width - k,
    {
        let ghost before = s@;
        s.push('0');
        k += 1;
        assert(before.push('0') =~= Seq::new((k - len) as nat, |i: int| '0'));
    }
    s.append(d.as_str());
    assert(s@ =~= zero_padded(decimal(n as nat), width as nat));
    s
}

/// Reads `v[from..to]` as `unsigned` does.
pub fn parse_in(v: &Vec<char>, from: usize, to: usize, max: u64) -> (r: Option<u64>)
    requires
        from <= to <= v@.len(),
    ensures
        match r {
            Some(n) => unsigned(v@.subrange(from as int, to as int), max as nat) == Some(n as nat),
            None => unsigned(v@.subrange(from as int, to as int), max as nat) is None,
        },
{
    let ghost whole = v@.subrange(from as int, to as int);
    let start: usize = if from < to && v[from] == '+' {
        from + 1
    } else {
        from
    };
    let ghost d = v@.subrange(start as int, to as int);
    assert(d =~= without_plus(whole));
    if start == to {
        return None;
    }
    let mut i: usize = start;
    let mut n: u64 = 0;
    let mut over: bool = false;
    assert(d.take(0) =~= Seq::<char>::empty());
    while i < to
        invariant
            start <= i <= to <= v@.len(),
            d == v@.subrange(start as int, to as int),
            d == without_plus(whole),
            whole == v@.subrange(from as int, to as int),
            all_digits(d.take(i - start)),
            !over ==> n == digits_value(d.take(i - start)) && n <= max,
            over ==> digits_value(d.take(i - start)) > max,
        decreases to - i,
    {
        let c: char = v[i];
        let ghost before = d.take(i - start);
        let ghost after = d.take(i - start + 1);
        assert(after.drop_last() =~= before);
        assert(after.last() == c);
        if !('0' <= c && c <= '9') {
            assert(!is_digit(d[i - start]));
            return None;
        }
        let digit: u64 = (c as u32 - 48) as u64;
        if !over {
            if n > max / 10 || digit > max || n * 10 > max - digit {
                over = true;
            } else {
                n = n * 10 + digit;
            }
        }
        i += 1;
        assert(all_digits(after)) by {
            assert forall|k: int| 0 <= k < after.len() implies is_digit(#[trigger] after[k]) by {
                if k < before.len() {
                    assert(after[k] == before[k]);
                }
            }
        }
    }
    assert(d.take(i - start) =~= d);
    if over {
        None
    } else {
        Some(n)
    }
}

/// `str::parse` for an unsigned type whose largest value is `max`.
pub fn parse_unsigned(s: &str, max: u64) -> (r: Option<u64>)
    ensures
        match r {
            Some(n) => unsigned(s@, max as nat) == Some(n as nat),
            None => unsigned(s@, max as nat) is None,
        },
{
    let v = text::to_chars(s);
    assert(v@.subrange(0, v@.len() as int) =~= s@);
    parse_in(&v, 0, v.len(), max)
}

/// A numeral is one digit or more.
pub proof fn lemma_decimal_digits(n: nat)
    ensures
        decimal(n).len() > 0,
        all_digits(decimal(n)),
        digits_value(decimal(n)) == n,
    decreases n,
{
    if n < 10 {
        assert(decimal(n).drop_last() =~= Seq::<char>::empty());
        assert(digits_value(Seq::<char>::empty()) == 0);
        assert(decimal(n).last() as int == 48 + n);
    } else {
        lemma_decimal_digits(n / 10);
        assert(decimal(n).drop_last() =~= decimal(n / 10));
        assert(decimal(n).last() as int == 48 + n % 10);
        assert forall|i: int| 0 <= i < decimal(n).len() implies is_digit(#[trigger] decimal(n)[i]) by {
            if i < decimal(n / 10).len() {
                assert(decimal(n)[i] == decimal(n / 10)[i]);
            }
        }
    }
}

/// Reading a written number gives the number back.
pub proof fn law_numeral_round_trip(n: nat, max: nat)
    requires
        n <= max,
    ensures
        unsigned(decimal(n), max) == Some(n),
{
    lemma_decimal_digits(n);
    assert(is_digit(decimal(n)[0]));
}

/// Different numbers have different numerals.
pub proof fn law_numerals_differ(m: nat, n: nat)
    requires
        decimal(m) == decimal(n),
    ensures
        m == n,
{
    lemma_decimal_digits(m);
    lemma_decimal_digits(n);
}

/// A text begins with `head` and the numeral of `n`, in front of a quotation mark.
pub open spec fn is_numbered(t: Seq<char>, head: Seq<char>, n: nat) -> bool {
    let k = head.len() + decimal(n).len();
    k < t.len() && t.subrange(0, k as int) == head + decimal(n) && t[k as int] == '"'
}

/// A text has one number.
pub proof fn lemma_one_number(t: Seq<char>, head: Seq<char>, m: nat, n: nat)
    requires
        is_numbered(t, head, m),
        is_numbered(t, head, n),
    ensures
        m == n,
{
    let a = decimal(m);
    let b = decimal(n);
    lemma_decimal_digits(m);
    lemma_decimal_digits(n);
    let h = head.len() as int;
    assert forall|i: int| 0 <= i < a.len() implies #[trigger] a[i] == t[h + i] by {
        assert(t.subrange(0, h + a.len())[h + i] == (head + a)[h + i]);
    }
    assert forall|i: int| 0 <= i < b.len() implies #[trigger] b[i] == t[h + i] by {
        assert(t.subrange(0, h + b.len())[h + i] == (head + b)[h + i]);
    }
    if a.len() < b.len() {
        assert(is_digit(b[a.len() as int]));
    } else if b.len() < a.len() {
        assert(is_digit(a[b.len() as int]));
    }
    assert(a =~= b);
    law_numerals_differ(m, n);
}

/// Zeros in front of a numeral do not change what it spells; they make it as
/// long as is asked for, where it is not longer already.
pub proof fn law_padded_numerals_are_read(n: nat, width: nat, max: nat)
    requires
        n <= max,
    ensures
        unsigned(zero_padded(decimal(n), width), max) == Some(n),
        zero_padded(decimal(n), width).len() == if decimal(n).len() < width {
            width
        } else {
            decimal(n).len()
        },
        all_digits(zero_padded(decimal(n), width)),
{
    lemma_decimal_digits(n);
    law_numeral_round_trip(n, max);
    let d = decimal(n);
    if d.len() < width {
        lemma_zeros((width - d.len()) as nat, d);
        let p = zero_padded(d, width);
        assert(is_digit(p[0]));
    }
}

/// Zeros in front of digits.
proof fn lemma_zeros(k: nat, d: Seq<char>)
    requires
        all_digits(d),
    ensures
        all_digits(Seq::new(k, |i: int| '0') + d),
        digits_value(Seq::new(k, |i: int| '0') + d) == digits_value(d),
    decreases d.len(),
{
    let z = Seq::new(k, |i: int| '0');
    let s = z + d;
    assert forall|i: int| 0 <= i < s.len() implies is_digit(#[trigger] s[i]) by {
        if i >= k {
            assert(is_digit(d[i - k]));
        }
    }
    if d.len() == 0 {
        assert(s =~= z);
        lemma_only_zeros(k);
    } else {
        assert(s.drop_last() =~= z + d.drop_last());
        assert forall|i: int| 0 <= i < d.drop_last().len() implies is_digit(
            #[trigger] d.drop_last()[i],
        ) by {
            assert(is_digit(d[i]));
        }
        lemma_zeros(k, d.drop_last());
    }
}

/// Zeros spell nothing.
proof fn lemma_only_zeros(k: nat)
    ensures
        digits_value(Seq::new(k, |i: int| '0')) == 0,
    decreases k,
{
    if k > 0 {
        let z = Seq::new(k, |i: int| '0');
        assert(z.drop_last() =~= Seq::new((k - 1) as nat, |i: int| '0'));
        lemma_only_zeros((k - 1) as nat);
    }
}

/// A plus sign in front of a numeral makes no difference; any other character in
/// it makes it no number, and so does a value above the largest allowed.
pub proof fn law_what_is_a_number(s: Seq<char>, i: int, n: nat, max: nat)
    requires
        s.len() > 0,
        all_digits(s),
    ensures
        unsigned(seq!['+'] + s, max) == unsigned(s, max),
        unsigned(Seq::empty(), max) is None,
        unsigned(seq!['+'], max) is None,
        n > max ==> unsigned(decimal(n), max) is None,
        forall|c: char|
            0 <= i < s.len() && !is_digit(c) && c != '+' ==> #[trigger] unsigned(
                s.update(i, c),
                max,
            ) is None,
{
    assert(is_digit(s[0]));
    assert((seq!['+'] + s).drop_first() =~= s);
    assert(seq!['+'].drop_first() =~= Seq::<char>::empty());
    lemma_decimal_digits(n);
    assert(is_digit(decimal(n)[0]));
    assert forall|c: char| 0 <= i < s.len() && !is_digit(c) && c != '+' implies #[trigger] unsigned(
        s.update(i, c),
        max,
    ) is None by {
        let t = s.update(i, c);
        assert(t[0] == s[0] || t[0] == c);
        assert(without_plus(t) == t);
        assert(!is_digit(t[i]));
    }
}

/// Numerals are written in the decimal system: a further digit stands behind the
/// others.
pub proof fn law_a_further_digit(n: nat, d: nat)
    requires
        n > 0,
        d < 10,
    ensures
        decimal(10 * n + d) == decimal(n) + decimal(d),
{
    assert((10 * n + d) / 10 == n);
    assert((10 * n + d) % 10 == d);
    assert(decimal(10 * n + d) =~= decimal(n) + decimal(d));
}

} // verus!
