use vstd::prelude::*;

verus! {

pub open spec fn is_digit(c: char) -> bool {
    '0' <= c && c <= '9'
}

pub open spec fn is_sign(c: char) -> bool {
    c == '+' || c == '-'
}

/// Every character is a decimal digit (the empty sequence included).
pub open spec fn only_digits(s: Seq<char>) -> bool {
    forall|i: int| 0 <= i < s.len() ==> is_digit(#[trigger] s[i])
}

/// The value of a run of decimal digits, most significant first.
pub open spec fn digits_value(s: Seq<char>) -> int
    decreases s.len(),
{
    if s.len() == 0 {
        0
    } else {
        digits_value(s.drop_last()) * 10 + (s.last() as int - '0' as int)
    }
}

/// The value written by an optional sign followed by one or more digits.
pub open spec fn integer_value(s: Seq<char>) -> Option<int> {
    if s.len() > 0 && is_sign(s[0]) {
        let d = s.drop_first();
        if d.len() > 0 && only_digits(d) {
            Some(if s[0] == '-' { -digits_value(d) } else { digits_value(d) })
        } else {
            None
        }
    } else if s.len() > 0 && only_digits(s) {
        Some(digits_value(s))
    } else {
        None
    }
}

/// What reading `s` whole as a 64-bit signed integer gives.
pub open spec fn i64_of(s: Seq<char>) -> Option<i64> {
    match integer_value(s) {
        Some(v) => if i64::MIN <= v <= i64::MAX { Some(v as i64) } else { None },
        None => None,
    }
}

/// `s` spells the lower-case word `w`, each letter in either case.
pub open spec fn spells(s: Seq<char>, w: Seq<char>) -> bool {
    s.len() == w.len() && forall|i: int|
        0 <= i < s.len() ==> #[trigger] s[i] == w[i] || s[i] as u32 + 32 == w[i] as u32
}

/// Digits with at most one decimal point, and at least one digit.
pub open spec fn is_mantissa(m: Seq<char>) -> bool {
    (m.len() > 0 && only_digits(m)) || (m.len() >= 2 && exists|k: int|
        0 <= k < m.len() && m[k] == '.' && #[trigger] only_digits(m.take(k)) && only_digits(
            m.skip(k + 1),
        ))
}

/// An optional sign followed by one or more digits.
pub open spec fn is_exponent(x: Seq<char>) -> bool {
    integer_value(x) is Some
}

pub open spec fn is_exponent_mark(c: char) -> bool {
    c == 'e' || c == 'E'
}

/// A decimal number with an optional exponent part.
pub open spec fn is_number(s: Seq<char>) -> bool {
    is_mantissa(s) || exists|k: int|
        0 <= k < s.len() && is_exponent_mark(s[k]) && #[trigger] is_mantissa(s.take(k))
            && is_exponent(s.skip(k + 1))
}

/// The text that reading as a 64-bit float accepts: an optional sign, then
/// `inf`, `infinity`, `nan` (in any case) or a decimal number.
pub open spec fn is_float_text(s: Seq<char>) -> bool {
    let body = if s.len() > 0 && is_sign(s[0]) { s.drop_first() } else { s };
    spells(body, seq!['i', 'n', 'f']) || spells(body, seq!['i', 'n', 'f', 'i', 'n', 'i', 't', 'y'])
        || spells(body, seq!['n', 'a', 'n']) || is_number(body)
}

fn digits_only(s: &Vec<char>, from: usize, to: usize) -> (r: bool)
    requires
        from <= to <= s.len(),
    ensures
        r == only_digits(s@.subrange(from as int, to as int)),
{
    let mut i = from;
    while i < to
        invariant
            from <= i <= to <= s.len(),
            only_digits(s@.subrange(from as int, i as int)),
        decreases to - i,
    {
        if !(s[i] >= '0' && s[i] <= '9') {
            assert(s@.subrange(from as int, to as int)[i - from] == s@[i as int]);
            return false;
        }
        assert(s@.subrange(from as int, i + 1) =~= s@.subrange(from as int, i as int).push(s@[i as int]));
        i = i + 1;
    }
    true
}

proof fn lemma_digits_nonneg(s: Seq<char>)
    requires
        only_digits(s),
    ensures
        digits_value(s) >= 0,
    decreases s.len(),
{
    if s.len() > 0 {
        assert(only_digits(s.drop_last())) by {
            assert forall|j: int| 0 <= j < s.len() - 1 implies is_digit(#[trigger] s.drop_last()[j]) by {
                assert(s.drop_last()[j] == s[j]);
            }
        }
        lemma_digits_nonneg(s.drop_last());
    }
}

/// Reads `t` whole as a 64-bit signed integer: an optional sign, then digits,
/// with the value in range.
pub fn parse_i64(t: &Vec<char>) -> (r: Option<i64>)
    ensures
        r == i64_of(t@),
{
    let n = t.len();
    if n == 0 {
        return None;
    }
    let signed = t[0] == '+' || t[0] == '-';
    let start: usize = if signed { 1 } else { 0 };
    if start == n || !digits_only(t, start, n) {
        proof {
            if signed {
                assert(t@.drop_first() =~= t@.subrange(1, n as int));
            } else {
                assert(t@ =~= t@.subrange(0, n as int));
            }
        }
        return None;
    }
    let ghost d = t@.subrange(start as int, n as int);
    proof {
        if signed {
            assert(t@.drop_first() =~= d);
        } else {
            assert(t@ =~= d);
        }
    }
    let limit: u64 = 9223372036854775808;
    let mut mag: u64 = 0;
    let mut over = false;
    let mut i = start;
    while i < n
        invariant
            start <= i <= n == t.len(),
            d == t@.subrange(start as int, n as int),
            only_digits(d),
            limit == 9223372036854775808u64,
            mag <= limit,
            !over ==> mag as int == digits_value(t@.subrange(start as int, i as int)),
            over ==> digits_value(t@.subrange(start as int, i as int)) > limit,
        decreases n - i,
    {
        let ghost p = t@.subrange(start as int, i as int);
        let ghost q = t@.subrange(start as int, i + 1);
        assert(q.drop_last() =~= p);
        assert(d[i - start] == t@[i as int]);
        assert(is_digit(t@[i as int]));
        let dig = (t[i] as u32 - '0' as u32) as u64;
        assert(dig <= 9);
        proof {
            assert(only_digits(p)) by {
                assert forall|j: int| 0 <= j < p.len() implies is_digit(#[trigger] p[j]) by {
                    assert(p[j] == d[j]);
                }
            }
            lemma_digits_nonneg(p);
        }
        if !over {
            if mag > (limit - dig) / 10 {
                over = true;
                assert(digits_value(q) > limit) by (nonlinear_arith)
                    requires
                        digits_value(q) == mag * 10 + dig,
                        mag > (limit - dig) / 10,
                        dig <= 9,
                ;
            } else {
                assert(mag * 10 + dig <= limit) by (nonlinear_arith)
                    requires
                        mag <= (limit - dig) / 10,
                        dig <= 9,
                ;
                mag = mag * 10 + dig;
            }
        } else {
            assert(digits_value(q) > limit) by (nonlinear_arith)
                requires
                    digits_value(q) == digits_value(p) * 10 + dig,
                    digits_value(p) > limit,
                    dig <= 9,
            ;
        }
        i = i + 1;
    }
    assert(t@.subrange(start as int, n as int) == d);
    if over {
        return None;
    }
    if t[0] == '-' {
        let v: i128 = -(mag as i128);
        Some(v as i64)
    } else if mag < limit {
        Some(mag as i64)
    } else {
        None
    }
}

/// Every character of a mantissa is a digit or the decimal point.
proof fn lemma_mantissa_chars(m: Seq<char>)
    requires
        is_mantissa(m),
    ensures
        forall|i: int| 0 <= i < m.len() ==> is_digit(#[trigger] m[i]) || m[i] == '.',
{
    if !(m.len() > 0 && only_digits(m)) {
        let k = choose|k: int|
            0 <= k < m.len() && m[k] == '.' && #[trigger] only_digits(m.take(k)) && only_digits(
                m.skip(k + 1),
            );
        assert forall|i: int| 0 <= i < m.len() implies is_digit(#[trigger] m[i]) || m[i] == '.' by {
            if i < k {
                assert(m.take(k)[i] == m[i]);
            } else if i > k {
                assert(m.skip(k + 1)[i - k - 1] == m[i]);
            }
        }
    }
}

/// The first index in `from..to` that holds `c` or `d`, or `to` if none does.
fn find_either(t: &Vec<char>, from: usize, to: usize, c: char, d: char) -> (r: usize)
    requires
        from <= to <= t.len(),
    ensures
        from <= r <= to,
        forall|j: int| from <= j < r ==> t@[j] != c && t@[j] != d,
        r < to ==> (t@[r as int] == c || t@[r as int] == d),
{
    let mut i = from;
    while i < to
        invariant
            from <= i <= to <= t.len(),
            forall|j: int| from <= j < i ==> t@[j] != c && t@[j] != d,
        decreases to - i,
    {
        if t[i] == c || t[i] == d {
            return i;
        }
        i = i + 1;
    }
    i
}

fn mantissa_ok(t: &Vec<char>, a: usize, b: usize) -> (r: bool)
    requires
        a <= b <= t.len(),
    ensures
        r == is_mantissa(t@.subrange(a as int, b as int)),
{
    let ghost m = t@.subrange(a as int, b as int);
    let p = find_either(t, a, b, '.', '.');
    if p == b {
        let r = b > a && digits_only(t, a, b);
        proof {
            if !r && is_mantissa(m) {
                let k = choose|k: int|
                    0 <= k < m.len() && m[k] == '.' && #[trigger] only_digits(m.take(k))
                        && only_digits(m.skip(k + 1));
                assert(m[k] == t@[a + k]);
            }
        }
        r
    } else {
        let r = b - a >= 2 && digits_only(t, a, p) && digits_only(t, p + 1, b);
        let ghost k0 = p - a;
        proof {
            assert(m[k0] == '.');
            assert(!only_digits(m)) by {
                assert(!is_digit(m[k0]));
            }
            assert(m.take(k0) =~= t@.subrange(a as int, p as int));
            assert(m.skip(k0 + 1) =~= t@.subrange(p + 1, b as int));
            if r {
                assert(only_digits(m.take(k0)));
            } else if is_mantissa(m) {
                let k = choose|k: int|
                    0 <= k < m.len() && m[k] == '.' && #[trigger] only_digits(m.take(k))
                        && only_digits(m.skip(k + 1));
                if k < k0 {
                    assert(m[k] == t@[a + k]);
                } else if k > k0 {
                    assert(m.take(k)[k0] == '.');
                    assert(!is_digit(m.take(k)[k0]));
                }
            }
        }
        r
    }
}

fn exponent_ok(t: &Vec<char>, a: usize, b: usize) -> (r: bool)
    requires
        a <= b <= t.len(),
    ensures
        r == is_exponent(t@.subrange(a as int, b as int)),
{
    let ghost x = t@.subrange(a as int, b as int);
    if a == b {
        return false;
    }
    assert(x[0] == t@[a as int]);
    if t[a] == '+' || t[a] == '-' {
        assert(x.drop_first() =~= t@.subrange(a + 1, b as int));
        a + 1 < b && digits_only(t, a + 1, b)
    } else {
        digits_only(t, a, b)
    }
}

fn number_ok(t: &Vec<char>, a: usize, b: usize) -> (r: bool)
    requires
        a <= b <= t.len(),
    ensures
        r == is_number(t@.subrange(a as int, b as int)),
{
    let ghost s = t@.subrange(a as int, b as int);
    let q = find_either(t, a, b, 'e', 'E');
    if q == b {
        let r = mantissa_ok(t, a, b);
        proof {
            if !r && is_number(s) {
                let k = choose|k: int|
                    0 <= k < s.len() && is_exponent_mark(s[k]) && #[trigger] is_mantissa(s.take(k))
                        && is_exponent(s.skip(k + 1));
                assert(s[k] == t@[a + k]);
            }
        }
        r
    } else {
        let r = mantissa_ok(t, a, q) && exponent_ok(t, q + 1, b);
        let ghost k0 = q - a;
        proof {
            assert(is_exponent_mark(s[k0]));
            assert(s.take(k0) =~= t@.subrange(a as int, q as int));
            assert(s.skip(k0 + 1) =~= t@.subrange(q + 1, b as int));
            if is_mantissa(s) {
                lemma_mantissa_chars(s);
                assert(is_digit(s[k0]) || s[k0] == '.');
            }
            if r {
                assert(is_mantissa(s.take(k0)));
            } else if is_number(s) {
                let k = choose|k: int|
                    0 <= k < s.len() && is_exponent_mark(s[k]) && #[trigger] is_mantissa(s.take(k))
                        && is_exponent(s.skip(k + 1));
                if k < k0 {
                    assert(s[k] == t@[a + k]);
                } else if k > k0 {
                    lemma_mantissa_chars(s.take(k));
                    assert(s.take(k)[k0] == s[k0]);
                }
            }
        }
        r
    }
}

fn spells_word(t: &Vec<char>, a: usize, w: &Vec<char>) -> (r: bool)
    requires
        a <= t.len(),
    ensures
        r == spells(t@.skip(a as int), w@),
{
    let ghost s = t@.skip(a as int);
    if t.len() - a != w.len() {
        return false;
    }
    let mut i: usize = 0;
    while i < w.len()
        invariant
            s == t@.skip(a as int),
            s.len() == w.len(),
            a + w.len() == t.len(),
            i <= w.len(),
            forall|j: int| 0 <= j < i ==> #[trigger] s[j] == w@[j] || s[j] as u32 + 32 == w@[j] as u32,
        decreases w.len() - i,
    {
        let c = t[a + i];
        assert(s[i as int] == c);
        if !(c == w[i] || (w[i] as u32 >= 32 && c as u32 == w[i] as u32 - 32)) {
            return false;
        }
        i = i + 1;
    }
    true
}

/// Tells whether `t` reads whole as a 64-bit float: an optional sign, then
/// `inf`, `infinity` or `nan` in any case, or a decimal number with an
/// optional exponent.
pub fn is_float(t: &Vec<char>) -> (r: bool)
    ensures
        r == is_float_text(t@),
{
    let n = t.len();
    let start: usize = if n > 0 && (t[0] == '+' || t[0] == '-') { 1 } else { 0 };
    let ghost body = if t@.len() > 0 && is_sign(t@[0]) { t@.drop_first() } else { t@ };
    assert(body =~= t@.skip(start as int));
    assert(body =~= t@.subrange(start as int, n as int));
    let inf = vec!['i', 'n', 'f'];
    let infinity = vec!['i', 'n', 'f', 'i', 'n', 'i', 't', 'y'];
    let nan = vec!['n', 'a', 'n'];
    assert(inf@ =~= seq!['i', 'n', 'f']);
    assert(infinity@ =~= seq!['i', 'n', 'f', 'i', 'n', 'i', 't', 'y']);
    assert(nan@ =~= seq!['n', 'a', 'n']);
    spells_word(t, start, &inf) || spells_word(t, start, &infinity) || spells_word(t, start, &nan)
        || number_ok(t, start, n)
}

} // verus!
