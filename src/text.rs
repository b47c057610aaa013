//! Decimal text of integers.
use vstd::prelude::*;

verus! {

/// The ASCII digit for `d` (below ten).
pub open spec fn digit_char(d: nat) -> char {
    if d == 0 {
        '0'
    } else if d == 1 {
        '1'
    } else if d == 2 {
        '2'
    } else if d == 3 {
        '3'
    } else if d == 4 {
        '4'
    } else if d == 5 {
        '5'
    } else if d == 6 {
        '6'
    } else if d == 7 {
        '7'
    } else if d == 8 {
        '8'
    } else {
        '9'
    }
}

/// Decimal digits of `n`, without leading zeros.
pub open spec fn decimal(n: nat) -> Seq<char>
    decreases n,
{
    if n < 10 {
        seq![digit_char(n)]
    } else {
        decimal(n / 10).push(digit_char(n % 10))
    }
}

fn digit_str(d: u64) -> (r: &'static str)
    requires
        d < 10,
    ensures
        r@ == seq![digit_char(d as nat)],
{
    if d == 0 {
        proof { reveal_strlit("0"); }
        "0"
    } else if d == 1 {
        proof { reveal_strlit("1"); }
        "1"
    } else if d == 2 {
        proof { reveal_strlit("2"); }
        "2"
    } else if d == 3 {
        proof { reveal_strlit("3"); }
        "3"
    } else if d == 4 {
        proof { reveal_strlit("4"); }
        "4"
    } else if d == 5 {
        proof { reveal_strlit("5"); }
        "5"
    } else if d == 6 {
        proof { reveal_strlit("6"); }
        "6"
    } else if d == 7 {
        proof { reveal_strlit("7"); }
        "7"
    } else if d == 8 {
        proof { reveal_strlit("8"); }
        "8"
    } else {
        proof { reveal_strlit("9"); }
        "9"
    }
}

/// Decimal text of `n`.
pub fn decimal_string(n: u64) -> (r: String)
    ensures
        r@ == decimal(n as nat),
    decreases n,
{
    if n < 10 {
        String::from_str(digit_str(n))
    } else {
        let mut s = decimal_string(n / 10);
        s.append(digit_str(n % 10));
        s
    }
}

/// Append the decimal text of `n` to `s`.
pub fn push_decimal(s: &mut String, n: u64)
    ensures
        final(s)@ == old(s)@ + decimal(n as nat),
{
    let d = decimal_string(n);
    s.append(d.as_str());
}

} // verus!

verus! {

/// Whether `c` is an ASCII digit.
pub open spec fn is_digit(c: char) -> bool {
    '0' <= c && c <= '9'
}

/// Value of the ASCII digit `c`.
pub open spec fn digit_value(c: char) -> nat {
    (c as u32 - '0' as u32) as nat
}

/// Whether every character of `s` is an ASCII digit.
pub open spec fn all_digits(s: Seq<char>) -> bool {
    forall|i: int| 0 <= i < s.len() ==> is_digit(#[trigger] s[i])
}

/// Value of the decimal digits `s` (zero for none).
pub open spec fn digits_value(s: Seq<char>) -> nat
    decreases s.len(),
{
    if s.len() == 0 {
        0
    } else {
        digits_value(s.drop_last()) * 10 + digit_value(s.last())
    }
}

/// Index of the first `.` in `s` at or after `i`.
pub open spec fn first_dot(s: Seq<char>, i: int) -> Option<int>
    decreases s.len() - i,
{
    if i >= s.len() || i < 0 {
        None
    } else if s[i] == '.' {
        Some(i)
    } else {
        first_dot(s, i + 1)
    }
}

/// Milliseconds named by the fraction digits `f`: the first three, padded with zeros.
pub open spec fn fraction_ms(f: Seq<char>) -> nat {
    let d0 = if f.len() > 0 { digit_value(f[0]) } else { 0 };
    let d1 = if f.len() > 1 { digit_value(f[1]) } else { 0 };
    let d2 = if f.len() > 2 { digit_value(f[2]) } else { 0 };
    d0 * 100 + d1 * 10 + d2
}

/// Milliseconds named by a duration text: decimal seconds, optionally followed
/// by `.` and fraction digits (beyond the third ignored).
pub open spec fn duration_value(s: Seq<char>) -> Option<nat> {
    match first_dot(s, 0) {
        Some(p) => {
            let whole = s.take(p);
            let frac = s.skip(p + 1);
            if whole.len() > 0 && all_digits(whole) && all_digits(frac) {
                Some(digits_value(whole) * 1000 + fraction_ms(frac))
            } else {
                None
            }
        },
        None => if s.len() > 0 && all_digits(s) {
            Some(digits_value(s) * 1000)
        } else {
            None
        },
    }
}

/// The parsed duration, where it fits in 64 bits.
pub open spec fn parse_duration_spec(s: Seq<char>) -> Option<u64> {
    match duration_value(s) {
        Some(v) => if v <= u64::MAX {
            Some(v as u64)
        } else {
            None
        },
        None => None,
    }
}

/// The text written for a duration of `ms` milliseconds: whole seconds, `.`,
/// and three digits of milliseconds.
pub open spec fn duration_text_spec(ms: nat) -> Seq<char> {
    decimal(ms / 1000) + seq![
        '.',
        digit_char(ms % 1000 / 100),
        digit_char(ms % 100 / 10),
        digit_char(ms % 10),
    ]
}

/// The text of a duration of `ms` milliseconds, e.g. `15.250`.
pub fn duration_text(ms: u64) -> (r: String)
    ensures
        r@ == duration_text_spec(ms as nat),
{
    let mut s = decimal_string(ms / 1000);
    s.append(".");
    s.append(digit_str(ms % 1000 / 100));
    s.append(digit_str(ms % 100 / 10));
    s.append(digit_str(ms % 10));
    proof { reveal_strlit("."); }
    assert(s@ =~= duration_text_spec(ms as nat));
    s
}

proof fn lemma_digits_value_prefix(s: Seq<char>, i: int)
    requires
        0 <= i <= s.len(),
    ensures
        digits_value(s.take(i)) <= digits_value(s),
    decreases s.len(),
{
    if i < s.len() {
        assert(s.drop_last().take(i) =~= s.take(i));
        lemma_digits_value_prefix(s.drop_last(), i);
    } else {
        assert(s.take(i) =~= s);
    }
}

proof fn lemma_first_dot_skip(s: Seq<char>, i: int)
    requires
        0 <= i <= s.len(),
        forall|k: int| 0 <= k < i ==> s[k] != '.',
    ensures
        first_dot(s, 0) == first_dot(s, i),
    decreases i,
{
    if i > 0 {
        lemma_first_dot_skip(s, i - 1);
    }
}

/// Value of the digits `s[from..to]`, or `None` when one is not a digit or the
/// value exceeds 64 bits.
fn parse_digits(s: &str, from: usize, to: usize) -> (r: Option<u64>)
    requires
        from <= to <= s@.len(),
    ensures
        r is Some <==> all_digits(s@.subrange(from as int, to as int)) && digits_value(
            s@.subrange(from as int, to as int),
        ) <= u64::MAX,
        r is Some ==> r->Some_0 == digits_value(s@.subrange(from as int, to as int)),
        r is None && all_digits(s@.subrange(from as int, to as int)) ==> digits_value(
            s@.subrange(from as int, to as int),
        ) > u64::MAX,
{
    let ghost part = s@.subrange(from as int, to as int);
    let mut value: u64 = 0;
    let mut i = from;
    while i < to
        invariant
            from <= i <= to <= s@.len(),
            part == s@.subrange(from as int, to as int),
            all_digits(part.take(i - from)),
            value == digits_value(part.take(i - from)),
        decreases to - i,
    {
        let c = s.get_char(i);
        assert(c == part[i - from]);
        assert(part.take(i - from + 1).drop_last() =~= part.take(i - from));
        if c < '0' || c > '9' {
            assert(!is_digit(part[i - from]));
            return None;
        }
        let d = (c as u32 - '0' as u32) as u64;
        if value > (0xFFFF_FFFF_FFFF_FFFF - d) / 10 {
            proof {
                assert(digits_value(part.take(i - from + 1)) > u64::MAX);
                lemma_digits_value_prefix(part, i - from + 1);
            }
            return None;
        }
        value = value * 10 + d;
        assert(all_digits(part.take(i - from + 1)));
        i = i + 1;
    }
    assert(part.take(to - from) =~= part);
    Some(value)
}

/// Parse a duration text into milliseconds; see `duration_value`.
pub fn parse_duration(s: &str) -> (r: Option<u64>)
    ensures
        r == parse_duration_spec(s@),
{
    let n = s.unicode_len();
    let mut p: usize = 0;
    while p < n && s.get_char(p) != '.'
        invariant
            p <= n == s@.len(),
            forall|k: int| 0 <= k < p ==> s@[k] != '.',
        decreases n - p,
    {
        p = p + 1;
    }
    proof { lemma_first_dot_skip(s@, p as int); }
    if p == n {
        assert(first_dot(s@, 0) is None);
        assert(s@.subrange(0, n as int) =~= s@);
        if n == 0 {
            return None;
        }
        match parse_digits(s, 0, n) {
            Some(v) => {
                if v > 0xFFFF_FFFF_FFFF_FFFF / 1000 {
                    return None;
                }
                Some(v * 1000)
            },
            None => None,
        }
    } else {
        assert(first_dot(s@, 0) == Some(p as int));
        assert(s@.subrange(0, p as int) =~= s@.take(p as int));
        assert(s@.subrange(p + 1, n as int) =~= s@.skip(p + 1));
        if p == 0 {
            return None;
        }
        let whole = match parse_digits(s, 0, p) {
            Some(v) => v,
            None => {
                return None;
            },
        };
        let ghost frac = s@.skip(p + 1);
        assert(first_dot(s@, 0) == Some(p as int));
        let mut ms: u64 = 0;
        let mut k: usize = p + 1;
        let mut taken: usize = 0;
        while k < n
            invariant
                p + 1 <= k <= n == s@.len(),
                frac == s@.skip(p + 1),
                first_dot(s@, 0) == Some(p as int),
                all_digits(frac.take(k - p - 1)),
                taken == if k - p - 1 < 3 { k - p - 1 } else { 3 },
                ms == fraction_ms(frac.take(taken as int)),
                ms < 1000,
            decreases n - k,
        {
            let c = s.get_char(k);
            assert(c == frac[k - p - 1]);
            if c < '0' || c > '9' {
                assert(!is_digit(frac[k - p - 1]));
                assert(!all_digits(frac));
                assert(first_dot(s@, 0) == Some(p as int));
                assert(duration_value(s@) is None);
                return None;
            }
            if taken < 3 {
                let d = (c as u32 - '0' as u32) as u64;
                proof {
                    let t = frac.take(taken as int + 1);
                    assert(t =~= frac.take(taken as int).push(c));
                }
                ms = if taken == 0 {
                    d * 100
                } else if taken == 1 {
                    ms + d * 10
                } else {
                    ms + d
                };
                taken = taken + 1;
            }
            assert(all_digits(frac.take(k - p)));
            k = k + 1;
        }
        assert(frac.take(k - p - 1) =~= frac);
        assert(fraction_ms(frac.take(taken as int)) == fraction_ms(frac));
        if whole > (0xFFFF_FFFF_FFFF_FFFF - ms) / 1000 {
            return None;
        }
        Some(whole * 1000 + ms)
    }
}

} // verus!

verus! {

proof fn lemma_digit_char(d: nat)
    requires
        d < 10,
    ensures
        is_digit(digit_char(d)),
        digit_value(digit_char(d)) == d,
{
}

proof fn lemma_decimal(n: nat)
    ensures
        decimal(n).len() > 0,
        all_digits(decimal(n)),
        digits_value(decimal(n)) == n,
    decreases n,
{
    lemma_digit_char(n % 10);
    if n >= 10 {
        lemma_decimal(n / 10);
        assert(decimal(n).drop_last() =~= decimal(n / 10));
        assert(decimal(n).last() == digit_char(n % 10));
        assert(n / 10 * 10 + n % 10 == n);
        assert(digits_value(decimal(n)) == digits_value(decimal(n).drop_last()) * 10 + digit_value(
            decimal(n).last(),
        ));
    } else {
        assert(decimal(n).drop_last() =~= Seq::<char>::empty());
        assert(digits_value(Seq::<char>::empty()) == 0);
        assert(digits_value(decimal(n)) == digits_value(decimal(n).drop_last()) * 10 + digit_value(
            decimal(n).last(),
        ));
    }
}

/// Reading back the text written for a duration gives the same number of
/// milliseconds.
pub proof fn lemma_duration_round_trip(ms: u64)
    ensures
        parse_duration_spec(duration_text_spec(ms as nat)) == Some(ms),
{
    let n = ms as nat;
    let whole = decimal(n / 1000);
    let tail = seq!['.', digit_char(n % 1000 / 100), digit_char(n % 100 / 10), digit_char(n % 10)];
    let s = duration_text_spec(n);
    lemma_decimal(n / 1000);
    lemma_digit_char(n % 1000 / 100);
    lemma_digit_char(n % 100 / 10);
    lemma_digit_char(n % 10);
    assert(s == whole + tail);
    assert forall|k: int| 0 <= k < whole.len() implies s[k] != '.' by {
        assert(s[k] == whole[k]);
        assert(is_digit(whole[k]));
    }
    lemma_first_dot_skip(s, whole.len() as int);
    assert(s[whole.len() as int] == '.');
    assert(first_dot(s, 0) == Some(whole.len() as int));
    assert(s.take(whole.len() as int) =~= whole);
    let frac = s.skip(whole.len() as int + 1);
    assert(frac =~= tail.skip(1));
    assert(all_digits(frac));
    assert(fraction_ms(frac) == n % 1000);
    assert(n / 1000 * 1000 + n % 1000 == n);
}

} // verus!
