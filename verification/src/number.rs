//! The texts that `str::parse` accepts for `i64`, `u64`, `usize`, `bool` and `f64`.
use vstd::prelude::*;
use crate::text::{lower, lower_seq, to_lower};

verus! {

pub open spec fn is_digit(c: char) -> bool {
    '0' <= c && c <= '9'
}

pub open spec fn all_digits(s: Seq<char>) -> bool {
    forall|i: int| 0 <= i < s.len() ==> #[trigger] is_digit(s[i])
}

/// The number that a sequence of decimal digits denotes.
pub open spec fn digits_value(s: Seq<char>) -> nat
    decreases s.len(),
{
    if s.len() == 0 {
        0
    } else {
        digits_value(s.drop_last()) * 10 + ((s.last() as int - 48) as nat)
    }
}

/// The digits of a number after an optional sign `sign_chars` (`+`, or `+` and `-`).
pub open spec fn unsigned_part(s: Seq<char>, allow_minus: bool) -> (bool, Seq<char>) {
    if s.len() > 0 && s[0] == '-' && allow_minus {
        (true, s.drop_first())
    } else if s.len() > 0 && s[0] == '+' {
        (false, s.drop_first())
    } else {
        (false, s)
    }
}

/// What `str::parse::<i64>` gives: an optional sign, then one or more ASCII digits, with the
/// value in range.
pub open spec fn parse_i64_spec(s: Seq<char>) -> Option<i64> {
    let (neg, d) = unsigned_part(s, true);
    if d.len() > 0 && all_digits(d) {
        let v: int = if neg {
            -(digits_value(d) as int)
        } else {
            digits_value(d) as int
        };
        if i64::MIN <= v && v <= i64::MAX {
            Some(v as i64)
        } else {
            None
        }
    } else {
        None
    }
}

/// What `str::parse::<usize>` gives: an optional `+`, then one or more ASCII digits, with the
/// value in range.
pub open spec fn parse_usize_spec(s: Seq<char>) -> Option<usize> {
    let (neg, d) = unsigned_part(s, false);
    if d.len() > 0 && all_digits(d) && digits_value(d) <= usize::MAX {
        Some(digits_value(d) as usize)
    } else {
        None
    }
}

/// What `str::parse::<u64>` gives: an optional `+`, then one or more ASCII digits, with the
/// value in range.
pub open spec fn parse_u64_spec(s: Seq<char>) -> Option<u64> {
    let (neg, d) = unsigned_part(s, false);
    if d.len() > 0 && all_digits(d) && digits_value(d) <= u64::MAX {
        Some(digits_value(d) as u64)
    } else {
        None
    }
}

pub open spec fn saturate(v: nat) -> nat {
    if v > 0x1_0000_0000_0000_0000 {
        0x1_0000_0000_0000_0000
    } else {
        v
    }
}

/// The value of the digits `d`, capped just above `u64::MAX`; `None` when some character is
/// not a digit or there is none.
fn digits_capped(d: &[char], from: usize) -> (r: Option<u128>)
    requires
        from <= d.len(),
    ensures
        match r {
            Some(v) => from < d.len() && all_digits(d@.skip(from as int)) && v == saturate(
                digits_value(d@.skip(from as int)),
            ),
            None => !(from < d.len() && all_digits(d@.skip(from as int))),
        },
{
    if from == d.len() {
        return None;
    }
    let ghost t = d@.skip(from as int);
    let mut acc: u128 = 0;
    let mut i: usize = from;
    assert(t.take(0) =~= Seq::<char>::empty());
    while i < d.len()
        invariant
            from <= i <= d.len(),
            t == d@.skip(from as int),
            all_digits(t.take(i - from)),
            acc as nat == saturate(digits_value(t.take(i - from))),
            acc <= 0x1_0000_0000_0000_0000,
        decreases d.len() - i,
    {
        let c = d[i];
        if !('0' <= c && c <= '9') {
            assert(!is_digit(t[i - from]));
            return None;
        }
        let dv: u128 = ((c as u32) - 48) as u128;
        let ghost prev = t.take(i - from);
        proof {
            assert(t.take(i + 1 - from).drop_last() =~= prev);
            assert(t.take(i + 1 - from).last() == c);
            assert(digits_value(t.take(i + 1 - from)) == digits_value(prev) * 10 + dv);
            assert forall|k: int| 0 <= k < t.take(i + 1 - from).len() implies #[trigger] is_digit(t.take(i + 1 - from)[k]) by {
                if k < i - from {
                    assert(t.take(i + 1 - from)[k] == prev[k]);
                }
            }
        }
        if acc >= 0x1_0000_0000_0000_0000 {
            acc = 0x1_0000_0000_0000_0000;
        } else {
            let next = acc * 10 + dv;
            if next > 0x1_0000_0000_0000_0000 {
                acc = 0x1_0000_0000_0000_0000;
            } else {
                acc = next;
            }
        }
        i = i + 1;
    }
    assert(t.take(d.len() - from) =~= t);
    Some(acc)
}

/// Reads a decimal `i64` as `str::parse` does.
pub fn parse_i64(s: &[char]) -> (r: Option<i64>)
    ensures
        r == parse_i64_spec(s@),
{
    let mut neg = false;
    let mut from: usize = 0;
    if s.len() > 0 && s[0] == '-' {
        neg = true;
        from = 1;
    } else if s.len() > 0 && s[0] == '+' {
        from = 1;
    }
    proof {
        assert(s@.skip(from as int) == unsigned_part(s@, true).1);
        assert(neg == unsigned_part(s@, true).0);
        assert(s@.skip(0) =~= s@);
    }
    match digits_capped(s, from) {
        None => None,
        Some(v) => {
            if neg {
                if v <= 0x8000_0000_0000_0000 {
                    Some((0i128 - v as i128) as i64)
                } else {
                    None
                }
            } else {
                if v <= 0x7FFF_FFFF_FFFF_FFFF {
                    Some(v as i64)
                } else {
                    None
                }
            }
        },
    }
}

/// Reads a decimal `usize` as `str::parse` does.
pub fn parse_usize(s: &[char]) -> (r: Option<usize>)
    ensures
        r == parse_usize_spec(s@),
{
    let mut from: usize = 0;
    if s.len() > 0 && s[0] == '+' {
        from = 1;
    }
    proof {
        assert(s@.skip(from as int) == unsigned_part(s@, false).1);
        assert(s@.skip(0) =~= s@);
    }
    match digits_capped(s, from) {
        None => None,
        Some(v) => {
            if v <= usize::MAX as u128 {
                Some(v as usize)
            } else {
                None
            }
        },
    }
}

/// Reads a decimal `u64` as `str::parse` does.
pub fn parse_u64(s: &[char]) -> (r: Option<u64>)
    ensures
        r == parse_u64_spec(s@),
{
    let mut from: usize = 0;
    if s.len() > 0 && s[0] == '+' {
        from = 1;
    }
    proof {
        assert(s@.skip(from as int) == unsigned_part(s@, false).1);
        assert(s@.skip(0) =~= s@);
    }
    match digits_capped(s, from) {
        None => None,
        Some(v) => {
            if v <= 0xFFFF_FFFF_FFFF_FFFF {
                Some(v as u64)
            } else {
                None
            }
        },
    }
}

/// Whether `s` holds at least one character and only decimal digits.
pub fn is_digits(s: &[char], from: usize, to: usize) -> (r: bool)
    requires
        from <= to <= s.len(),
    ensures
        r == (from < to && all_digits(s@.subrange(from as int, to as int))),
{
    if from == to {
        return false;
    }
    let mut i = from;
    while i < to
        invariant
            from <= i <= to,
            to <= s.len(),
            forall|k: int| from <= k < i ==> #[trigger] is_digit(s@[k]),
        decreases to - i,
    {
        if !('0' <= s[i] && s[i] <= '9') {
            assert(!is_digit(s@.subrange(from as int, to as int)[i - from]));
            return false;
        }
        i = i + 1;
    }
    assert forall|k: int| 0 <= k < to - from implies #[trigger] is_digit(s@.subrange(from as int, to as int)[k]) by {
        assert(s@.subrange(from as int, to as int)[k] == s@[from + k]);
    }
    true
}

/// What `str::parse::<bool>` gives: exactly `true` or `false`.
pub open spec fn parse_bool_spec(s: Seq<char>) -> Option<bool> {
    if s == seq!['t', 'r', 'u', 'e'] {
        Some(true)
    } else if s == seq!['f', 'a', 'l', 's', 'e'] {
        Some(false)
    } else {
        None
    }
}

pub fn parse_bool(s: &[char]) -> (r: Option<bool>)
    ensures
        r == parse_bool_spec(s@),
{
    if s.len() == 4 && s[0] == 't' && s[1] == 'r' && s[2] == 'u' && s[3] == 'e' {
        assert(s@ =~= seq!['t', 'r', 'u', 'e']);
        Some(true)
    } else if s.len() == 5 && s[0] == 'f' && s[1] == 'a' && s[2] == 'l' && s[3] == 's' && s[4] == 'e' {
        assert(s@ =~= seq!['f', 'a', 'l', 's', 'e']);
        Some(false)
    } else {
        None
    }
}

/// The index of the first `e` or `E` in `s`.
pub open spec fn exp_index(s: Seq<char>) -> Option<int> {
    if exists|i: int| 0 <= i < s.len() && (s[i] == 'e' || s[i] == 'E') {
        Some(choose|i: int| 0 <= i < s.len() && (s[i] == 'e' || s[i] == 'E') && forall|j: int| 0 <= j < i ==> !(s[j] == 'e' || s[j] == 'E'))
    } else {
        None
    }
}

/// The number of `.` characters in `s`.
pub open spec fn dot_count(s: Seq<char>) -> nat
    decreases s.len(),
{
    if s.len() == 0 {
        0
    } else {
        dot_count(s.drop_last()) + if s.last() == '.' { 1nat } else { 0nat }
    }
}

/// `Digit+ | Digit+ '.' Digit* | Digit* '.' Digit+`: digits with at most one dot and at
/// least one digit.
pub open spec fn mantissa_ok(m: Seq<char>) -> bool {
    &&& forall|i: int| 0 <= i < m.len() ==> #[trigger] is_digit(m[i]) || m[i] == '.'
    &&& dot_count(m) <= 1
    &&& exists|i: int| 0 <= i < m.len() && #[trigger] is_digit(m[i])
}

/// `Sign? Digit+`
pub open spec fn exponent_ok(e: Seq<char>) -> bool {
    let d = unsigned_part(e, true).1;
    d.len() > 0 && all_digits(d)
}

/// Whether `t` is `inf`, `infinity` or `nan` in any case of ASCII letters.
pub open spec fn special_float(t: Seq<char>) -> bool {
    lower_seq(t) == seq!['i', 'n', 'f'] || lower_seq(t) == seq!['i', 'n', 'f', 'i', 'n', 'i', 't', 'y']
        || lower_seq(t) == seq!['n', 'a', 'n']
}

/// Whether `str::parse::<f64>` accepts `s`, by the grammar that its documentation gives:
/// `Sign? ('inf' | 'infinity' | 'nan' | Number)` with `Number ::= Mantissa Exp?`.
pub open spec fn float_literal(s: Seq<char>) -> bool {
    let t = unsigned_part(s, true).1;
    special_float(t) || match exp_index(t) {
        Some(e) => mantissa_ok(t.take(e)) && exponent_ok(t.skip(e + 1)),
        None => mantissa_ok(t),
    }
}

proof fn lemma_dot_count_push(s: Seq<char>, c: char)
    ensures
        dot_count(s.push(c)) == dot_count(s) + if c == '.' { 1nat } else { 0nat },
{
    assert(s.push(c).drop_last() =~= s);
}

/// Whether `s[from..to]` is a mantissa.
fn mantissa_exec(s: &[char], from: usize, to: usize) -> (r: bool)
    requires
        from <= to <= s.len(),
    ensures
        r == mantissa_ok(s@.subrange(from as int, to as int)),
{
    let ghost m = s@.subrange(from as int, to as int);
    let mut dots: usize = 0;
    let mut digit = false;
    let mut i = from;
    assert(m.take(0) =~= Seq::<char>::empty());
    while i < to
        invariant
            from <= i <= to,
            to <= s.len(),
            m == s@.subrange(from as int, to as int),
            forall|k: int| 0 <= k < i - from ==> #[trigger] is_digit(m[k]) || m[k] == '.',
            dots as nat == dot_count(m.take(i - from)),
            dots <= 1,
            digit == exists|k: int| 0 <= k < i - from && #[trigger] is_digit(m[k]),
        decreases to - i,
    {
        let c = s[i];
        proof {
            assert(m[i - from] == c);
            assert(m.take(i + 1 - from) =~= m.take(i - from).push(c));
            lemma_dot_count_push(m.take(i - from), c);
        }
        if '0' <= c && c <= '9' {
            digit = true;
            assert(is_digit(m[i - from]));
        } else if c == '.' {
            if dots == 1 {
                proof {
                    lemma_dot_count_prefix(m, i + 1 - from);
                }
                return false;
            }
            dots = dots + 1;
        } else {
            assert(!(is_digit(m[i - from]) || m[i - from] == '.'));
            return false;
        }
        i = i + 1;
    }
    assert(m.take(to - from) =~= m);
    dots <= 1 && digit
}

proof fn lemma_dot_count_prefix(m: Seq<char>, n: int)
    requires
        0 <= n <= m.len(),
    ensures
        dot_count(m) >= dot_count(m.take(n)),
    decreases m.len() - n,
{
    if n < m.len() {
        lemma_dot_count_prefix(m, n + 1);
        assert(m.take(n + 1).drop_last() =~= m.take(n));
    } else {
        assert(m.take(n) =~= m);
    }
}

pub proof fn lemma_exp_index_at(t: Seq<char>, k: int)
    requires
        0 <= k < t.len(),
        t[k] == 'e' || t[k] == 'E',
        forall|j: int| 0 <= j < k ==> !(t[j] == 'e' || t[j] == 'E'),
    ensures
        exp_index(t) == Some(k),
{
    let w = choose|i: int| 0 <= i < t.len() && (t[i] == 'e' || t[i] == 'E') && forall|j: int| 0 <= j < i ==> !(t[j] == 'e' || t[j] == 'E');
    assert(0 <= w < t.len() && (t[w] == 'e' || t[w] == 'E') && forall|j: int| 0 <= j < w ==> !(t[j] == 'e' || t[j] == 'E'));
    if w < k {
        assert(!(t[w] == 'e' || t[w] == 'E'));
    }
    if w > k {
        assert(!(t[k] == 'e' || t[k] == 'E'));
    }
}

/// Whether `s[from..]` is an exponent: an optional sign and one or more digits.
fn exponent_exec(s: &[char], from: usize) -> (r: bool)
    requires
        from <= s.len(),
    ensures
        r == exponent_ok(s@.subrange(from as int, s.len() as int)),
{
    let mut ds = from;
    if ds < s.len() && (s[ds] == '-' || s[ds] == '+') {
        ds = ds + 1;
    }
    proof {
        let ex = s@.subrange(from as int, s.len() as int);
        assert(unsigned_part(ex, true).1 =~= s@.subrange(ds as int, s.len() as int));
    }
    is_digits(s, ds, s.len())
}

/// Whether `s[from..]` is a `Number`: a mantissa and an optional exponent.
fn number_exec(s: &[char], from: usize) -> (r: bool)
    requires
        from <= s.len(),
    ensures
        r == (match exp_index(s@.subrange(from as int, s.len() as int)) {
            Some(e) => mantissa_ok(s@.subrange(from as int, s.len() as int).take(e)) && exponent_ok(
                s@.subrange(from as int, s.len() as int).skip(e + 1),
            ),
            None => mantissa_ok(s@.subrange(from as int, s.len() as int)),
        }),
{
    let ghost t = s@.subrange(from as int, s.len() as int);
    let mut e = from;
    while e < s.len() && !(s[e] == 'e' || s[e] == 'E')
        invariant
            from <= e <= s.len(),
            t == s@.subrange(from as int, s.len() as int),
            forall|j: int| 0 <= j < e - from ==> !(t[j] == 'e' || t[j] == 'E'),
        decreases s.len() - e,
    {
        e = e + 1;
    }
    if e == s.len() {
        proof {
            assert(!exists|i: int| 0 <= i < t.len() && (t[i] == 'e' || t[i] == 'E'));
        }
        mantissa_exec(s, from, s.len())
    } else {
        proof {
            lemma_exp_index_at(t, e - from);
            assert(t.take(e - from) =~= s@.subrange(from as int, e as int));
            assert(t.skip(e - from + 1) =~= s@.subrange(e + 1, s.len() as int));
        }
        mantissa_exec(s, from, e) && exponent_exec(s, e + 1)
    }
}

/// Whether `str::parse::<f64>` accepts the characters `s`.
pub fn is_float_literal(s: &[char]) -> (r: bool)
    ensures
        r == float_literal(s@),
{
    let mut from: usize = 0;
    if s.len() > 0 && (s[0] == '-' || s[0] == '+') {
        from = 1;
    }
    proof {
        assert(s@.skip(0) =~= s@);
        assert(unsigned_part(s@, true).1 =~= s@.subrange(from as int, s.len() as int));
    }
    special_exec(s, from) || number_exec(s, from)
}

/// Whether the characters `s` spell infinity or not-a-number, after an optional sign.
pub fn is_non_finite(s: &[char]) -> (r: bool)
    ensures
        r == special_float(unsigned_part(s@, true).1),
{
    let mut from: usize = 0;
    if s.len() > 0 && (s[0] == '-' || s[0] == '+') {
        from = 1;
    }
    proof {
        assert(s@.skip(0) =~= s@);
        assert(unsigned_part(s@, true).1 =~= s@.subrange(from as int, s.len() as int));
    }
    special_exec(s, from)
}

fn special_exec(s: &[char], from: usize) -> (r: bool)
    requires
        from <= s.len(),
    ensures
        r == special_float(s@.subrange(from as int, s.len() as int)),
{
    let ghost t = s@.subrange(from as int, s.len() as int);
    let mut low: Vec<char> = Vec::new();
    let mut i = from;
    while i < s.len()
        invariant
            from <= i <= s.len(),
            t == s@.subrange(from as int, s.len() as int),
            low@ == lower_seq(t.take(i - from)),
        decreases s.len() - i,
    {
        low.push(to_lower(s[i]));
        assert(lower_seq(t.take(i + 1 - from)) =~= lower_seq(t.take(i - from)).push(lower(s@[i as int])));
        i = i + 1;
    }
    assert(t.take(s.len() - from) =~= t);
    let n = low.len();
    (n == 3 && low[0] == 'i' && low[1] == 'n' && low[2] == 'f' && {
        assert(low@ =~= seq!['i', 'n', 'f']);
        true
    }) || (n == 8 && low[0] == 'i' && low[1] == 'n' && low[2] == 'f' && low[3] == 'i' && low[4] == 'n'
        && low[5] == 'i' && low[6] == 't' && low[7] == 'y' && {
        assert(low@ =~= seq!['i', 'n', 'f', 'i', 'n', 'i', 't', 'y']);
        true
    }) || (n == 3 && low[0] == 'n' && low[1] == 'a' && low[2] == 'n' && {
        assert(low@ =~= seq!['n', 'a', 'n']);
        true
    })
}

} // verus!
