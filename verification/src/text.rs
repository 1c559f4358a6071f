//! Character-level helpers shared by the order logic: string equality,
//! substring search, and decimal parsing and printing of unsigned integers.
use vstd::prelude::*;
use vstd::string::*;

verus! {

/// Whether two string slices hold the same characters.
pub fn str_eq(a: &str, b: &str) -> (r: bool)
    ensures
        r == (a@ == b@),
{
    let x: String = a.to_owned();
    let y: String = b.to_owned();
    x == y
}

/// `pat` occurs in `s` starting at position `i`.
pub open spec fn occurs_at(s: Seq<char>, pat: Seq<char>, i: int) -> bool {
    0 <= i && i + pat.len() <= s.len() && s.subrange(i, i + pat.len()) == pat
}

/// `pat` occurs somewhere in `s` (an empty pattern occurs everywhere).
pub open spec fn contains_substring(s: Seq<char>, pat: Seq<char>) -> bool {
    exists|i: int| occurs_at(s, pat, i)
}

/// Whether `pat` occurs as a contiguous piece of `s`.
pub fn str_contains(s: &str, pat: &str) -> (r: bool)
    ensures
        r == contains_substring(s@, pat@),
{
    let n = s.unicode_len();
    let m = pat.unicode_len();
    if m > n {
        proof {
            assert forall|i: int| !occurs_at(s@, pat@, i) by {}
        }
        return false;
    }
    let mut i: usize = 0;
    while i <= n - m
        invariant
            n == s@.len(),
            m == pat@.len(),
            m <= n,
            i <= n - m + 1,
            forall|k: int| 0 <= k < i ==> !occurs_at(s@, pat@, k),
        decreases n - m + 1 - i,
    {
        let mut j: usize = 0;
        let mut same = true;
        while j < m
            invariant
                n == s@.len(),
                m == pat@.len(),
                i + m <= n,
                j <= m,
                same == (forall|t: int| 0 <= t < j ==> s@[i + t] == pat@[t]),
            decreases m - j,
        {
            if s.get_char(i + j) != pat.get_char(j) {
                same = false;
            }
            j = j + 1;
        }
        if same {
            assert(s@.subrange(i as int, i + m) =~= pat@);
            assert(occurs_at(s@, pat@, i as int));
            return true;
        }
        assert(!occurs_at(s@, pat@, i as int)) by {
            if occurs_at(s@, pat@, i as int) {
                let t = choose|t: int| 0 <= t < m && s@[i + t] != pat@[t];
                assert(s@.subrange(i as int, i + m)[t] == s@[i + t]);
            }
        }
        i = i + 1;
    }
    proof {
        assert forall|k: int| !occurs_at(s@, pat@, k) by {
            if occurs_at(s@, pat@, k) {
                assert(k < i);
            }
        }
    }
    false
}

/// A decimal digit.
pub open spec fn is_digit(c: char) -> bool {
    '0' <= c && c <= '9'
}

/// The numeric value of a decimal digit.
pub open spec fn digit_value(c: char) -> int {
    (c as int) - ('0' as int)
}

/// Every character is a decimal digit.
pub open spec fn all_digits(s: Seq<char>) -> bool {
    forall|i: int| 0 <= i < s.len() ==> is_digit(#[trigger] s[i])
}

/// The value of a string of decimal digits, most significant first.
pub open spec fn decimal_value(s: Seq<char>) -> int
    decreases s.len(),
{
    if s.len() == 0 {
        0
    } else {
        decimal_value(s.drop_last()) * 10 + digit_value(s.last())
    }
}

/// The digits of an unsigned number as written: an optional leading `+` is dropped.
pub open spec fn unsigned_digits(s: Seq<char>) -> Seq<char> {
    if s.len() > 0 && s[0] == '+' {
        s.drop_first()
    } else {
        s
    }
}

/// What std's `str::parse` gives for an unsigned integer type whose largest value is `max`:
/// an optional `+`, then at least one decimal digit and nothing else, with a value that fits.
pub open spec fn parse_unsigned(s: Seq<char>, max: int) -> Option<int> {
    let d = unsigned_digits(s);
    if d.len() > 0 && all_digits(d) && decimal_value(d) <= max {
        Some(decimal_value(d))
    } else {
        None
    }
}

proof fn lemma_decimal_value_nonneg(s: Seq<char>)
    requires
        all_digits(s),
    ensures
        decimal_value(s) >= 0,
    decreases s.len(),
{
    if s.len() > 0 {
        assert(all_digits(s.drop_last())) by {
            assert forall|i: int| 0 <= i < s.drop_last().len() implies is_digit(
                #[trigger] s.drop_last()[i],
            ) by {
                assert(s.drop_last()[i] == s[i]);
            }
        }
        lemma_decimal_value_nonneg(s.drop_last());
        assert(is_digit(s[s.len() - 1]));
    }
}

/// The value of a digit string never drops when more digits follow.
proof fn lemma_decimal_value_prefix(s: Seq<char>, k: int)
    requires
        all_digits(s),
        0 <= k <= s.len(),
    ensures
        decimal_value(s.subrange(0, k)) <= decimal_value(s),
    decreases s.len() - k,
{
    if k < s.len() {
        lemma_decimal_value_prefix(s, k + 1);
        let p = s.subrange(0, k + 1);
        assert(p.drop_last() =~= s.subrange(0, k));
        assert(all_digits(p.drop_last())) by {
            assert forall|i: int| 0 <= i < p.drop_last().len() implies is_digit(
                #[trigger] p.drop_last()[i],
            ) by {
                assert(p.drop_last()[i] == s[i]);
            }
        }
        lemma_decimal_value_nonneg(p.drop_last());
        assert(is_digit(s[k]));
        assert(p.last() == s[k]);
    } else {
        assert(s.subrange(0, k) =~= s);
    }
}

/// Parses `s[start..]` as a string of decimal digits whose value is at most `max`.
fn parse_digits(s: &str, start: usize, max: u128) -> (r: Option<u128>)
    requires
        start <= s@.len(),
    ensures
        ({
            let d = s@.subrange(start as int, s@.len() as int);
            r == (if d.len() > 0 && all_digits(d) && decimal_value(d) <= max {
                Some(decimal_value(d) as u128)
            } else {
                None
            })
        }),
        r matches Some(v) ==> v <= max,
{
    let n = s.unicode_len();
    let ghost d = s@.subrange(start as int, s@.len() as int);
    if start >= n {
        return None;
    }
    let mut v: u128 = 0;
    let mut i: usize = start;
    while i < n
        invariant
            n == s@.len(),
            start <= i <= n,
            d == s@.subrange(start as int, n as int),
            all_digits(s@.subrange(start as int, i as int)),
            v as int == decimal_value(s@.subrange(start as int, i as int)),
            v <= max,
        decreases n - i,
    {
        let c = s.get_char(i);
        let ghost pre = s@.subrange(start as int, i as int);
        let ghost next = s@.subrange(start as int, i + 1);
        assert(next.drop_last() =~= pre);
        assert(next.last() == c);
        if c < '0' || c > '9' {
            proof {
                assert(d[i - start] == c);
                assert(!is_digit(d[i - start]));
            }
            return None;
        }
        let digit: u128 = ((c as u32) - ('0' as u32)) as u128;
        assert(next =~= d.subrange(0, i + 1 - start));
        assert(all_digits(next)) by {
            assert forall|t: int| 0 <= t < next.len() implies is_digit(#[trigger] next[t]) by {
                if t < pre.len() {
                    assert(next[t] == pre[t]);
                }
            }
        }
        let ok = match v.checked_mul(10) {
            Some(m) => match m.checked_add(digit) {
                Some(w) => {
                    if w <= max {
                        v = w;
                        true
                    } else {
                        false
                    }
                },
                None => false,
            },
            None => false,
        };
        if !ok {
            proof {
                assert(decimal_value(next) > max);
                if all_digits(d) {
                    lemma_decimal_value_prefix(d, i + 1 - start);
                }
            }
            return None;
        }
        i = i + 1;
    }
    assert(s@.subrange(start as int, i as int) =~= d);
    Some(v)
}

/// `str::parse::<u128>`: an optional `+`, then decimal digits whose value fits in a `u128`.
pub fn parse_u128(s: &str) -> (r: Option<u128>)
    ensures
        r == (match parse_unsigned(s@, u128::MAX as int) {
            Some(v) => Some(v as u128),
            None => None::<u128>,
        }),
{
    let n = s.unicode_len();
    let start: usize = if n > 0 && s.get_char(0) == '+' {
        1
    } else {
        0
    };
    assert(unsigned_digits(s@) =~= s@.subrange(start as int, s@.len() as int));
    parse_digits(s, start, u128::MAX)
}

/// `str::parse::<usize>`: an optional `+`, then decimal digits whose value fits in a `usize`.
pub fn parse_usize(s: &str) -> (r: Option<usize>)
    ensures
        r == (match parse_unsigned(s@, usize::MAX as int) {
            Some(v) => Some(v as usize),
            None => None::<usize>,
        }),
{
    let n = s.unicode_len();
    let start: usize = if n > 0 && s.get_char(0) == '+' {
        1
    } else {
        0
    };
    assert(unsigned_digits(s@) =~= s@.subrange(start as int, s@.len() as int));
    proof {
        if all_digits(unsigned_digits(s@)) {
            lemma_decimal_value_nonneg(unsigned_digits(s@));
        }
    }
    let max: u128 = usize::MAX as u128;
    assert(max as int == usize::MAX as int);
    match parse_digits(s, start, max) {
        Some(v) => {
            let r: usize = v as usize;
            assert(r as int == v as int);
            Some(r)
        },
        None => None,
    }
}

/// `str::parse::<u64>`: an optional `+`, then decimal digits whose value fits in a `u64`.
pub fn parse_u64(s: &str) -> (r: Option<u64>)
    ensures
        r == (match parse_unsigned(s@, u64::MAX as int) {
            Some(v) => Some(v as u64),
            None => None::<u64>,
        }),
{
    let n = s.unicode_len();
    let start: usize = if n > 0 && s.get_char(0) == '+' {
        1
    } else {
        0
    };
    assert(unsigned_digits(s@) =~= s@.subrange(start as int, s@.len() as int));
    proof {
        if all_digits(unsigned_digits(s@)) {
            lemma_decimal_value_nonneg(unsigned_digits(s@));
        }
    }
    match parse_digits(s, start, u64::MAX as u128) {
        Some(v) => Some(v as u64),
        None => None,
    }
}

/// What std's `str::parse` gives for a signed integer type ranging from `min` to `max`: a
/// `-` then at least one decimal digit, or what `parse_unsigned` reads, with a value in range.
pub open spec fn parse_signed(s: Seq<char>, min: int, max: int) -> Option<int> {
    if s.len() > 0 && s[0] == '-' {
        let d = s.drop_first();
        if d.len() > 0 && all_digits(d) && -decimal_value(d) >= min {
            Some(-decimal_value(d))
        } else {
            None
        }
    } else {
        parse_unsigned(s, max)
    }
}

/// `str::parse::<i64>`: an optional sign, then decimal digits whose value fits in an `i64`.
pub fn parse_i64(s: &str) -> (r: Option<i64>)
    ensures
        r == (match parse_signed(s@, i64::MIN as int, i64::MAX as int) {
            Some(v) => Some(v as i64),
            None => None::<i64>,
        }),
{
    let n = s.unicode_len();
    if n > 0 && s.get_char(0) == '-' {
        assert(s@.drop_first() =~= s@.subrange(1, s@.len() as int));
        proof {
            if all_digits(s@.drop_first()) {
                lemma_decimal_value_nonneg(s@.drop_first());
            }
        }
        match parse_digits(s, 1, 9223372036854775808u128) {
            Some(v) => {
                let r: i64 = if v == 9223372036854775808u128 {
                    i64::MIN
                } else {
                    -(v as i64)
                };
                Some(r)
            },
            None => None,
        }
    } else {
        let start: usize = if n > 0 && s.get_char(0) == '+' {
            1
        } else {
            0
        };
        assert(unsigned_digits(s@) =~= s@.subrange(start as int, s@.len() as int));
        proof {
            if all_digits(unsigned_digits(s@)) {
                lemma_decimal_value_nonneg(unsigned_digits(s@));
            }
        }
        match parse_digits(s, start, i64::MAX as u128) {
            Some(v) => Some(v as i64),
            None => None,
        }
    }
}

/// The character of a decimal digit.
pub open spec fn digit_char(d: int) -> char {
    (d + ('0' as int)) as char
}

/// The decimal representation of a natural number, without leading zeros.
pub open spec fn decimal_digits(v: nat) -> Seq<char>
    decreases v,
{
    if v < 10 {
        seq![digit_char(v as int)]
    } else {
        decimal_digits(v / 10).push(digit_char((v % 10) as int))
    }
}

/// What `Display` writes for a signed integer: a minus sign before negative numbers.
pub open spec fn signed_decimal(v: int) -> Seq<char> {
    if v < 0 {
        seq!['-'] + decimal_digits((-v) as nat)
    } else {
        decimal_digits(v as nat)
    }
}

fn digit_str(d: u8) -> (r: &'static str)
    requires
        d < 10,
    ensures
        r@ == seq![digit_char(d as int)],
{
    proof {
        reveal_strlit("0");
        reveal_strlit("1");
        reveal_strlit("2");
        reveal_strlit("3");
        reveal_strlit("4");
        reveal_strlit("5");
        reveal_strlit("6");
        reveal_strlit("7");
        reveal_strlit("8");
        reveal_strlit("9");
    }
    let r = match d {
        0 => "0",
        1 => "1",
        2 => "2",
        3 => "3",
        4 => "4",
        5 => "5",
        6 => "6",
        7 => "7",
        8 => "8",
        _ => "9",
    };
    assert(r@ =~= seq![digit_char(d as int)]);
    r
}

fn append_decimal(s: &mut String, v: u128)
    ensures
        final(s)@ == old(s)@ + decimal_digits(v as nat),
    decreases v,
{
    if v >= 10 {
        append_decimal(s, v / 10);
    }
    let d: u8 = (v % 10) as u8;
    s.append(digit_str(d));
    assert(final(s)@ =~= old(s)@ + decimal_digits(v as nat)) by {
        if v >= 10 {
            assert(decimal_digits(v as nat) == decimal_digits((v / 10) as nat).push(
                digit_char((v % 10) as int),
            ));
        }
    }
}

/// `u128::to_string`: the decimal digits of `v`.
pub fn u128_to_decimal(v: u128) -> (r: String)
    ensures
        r@ == decimal_digits(v as nat),
{
    let mut s = String::new();
    append_decimal(&mut s, v);
    s
}

/// `i128::to_string`: a minus sign for negative numbers, then the decimal digits.
pub fn i128_to_decimal(v: i128) -> (r: String)
    ensures
        r@ == signed_decimal(v as int),
{
    if v < 0 {
        let magnitude: u128 = ((-(v + 1)) as u128) + 1;
        proof {
            reveal_strlit("-");
        }
        let mut s = "-".to_owned();
        append_decimal(&mut s, magnitude);
        s
    } else {
        u128_to_decimal(v as u128)
    }
}

/// The decimal digits of `v` are digits, and read back as `v`.
pub proof fn lemma_decimal_digits_value(v: nat)
    ensures
        decimal_digits(v).len() > 0,
        all_digits(decimal_digits(v)),
        decimal_value(decimal_digits(v)) == v,
    decreases v,
{
    if v >= 10 {
        lemma_decimal_digits_value(v / 10);
        let p = decimal_digits(v / 10);
        let s = p.push(digit_char((v % 10) as int));
        assert(s.drop_last() =~= p);
        assert forall|i: int| 0 <= i < s.len() implies is_digit(#[trigger] s[i]) by {
            if i < p.len() {
                assert(s[i] == p[i]);
            }
        }
        assert(digit_value(digit_char((v % 10) as int)) == v % 10);
        assert((v / 10) * 10 + v % 10 == v) by (nonlinear_arith);
        assert(decimal_digits(v) == s);
        assert(s.last() == digit_char((v % 10) as int));
        assert(decimal_value(s) == decimal_value(p) * 10 + digit_value(s.last()));
    } else {
        let d = decimal_digits(v);
        assert(d.drop_last() =~= Seq::<char>::empty());
        assert(digit_value(digit_char(v as int)) == v);
        assert(decimal_value(d) == decimal_value(d.drop_last()) * 10 + digit_value(d.last()));
        assert(is_digit(d[0]));
    }
}

/// Reading back what `u128_to_decimal` writes gives the number written.
pub proof fn lemma_parse_u128_inverts_decimal(v: u128)
    ensures
        parse_unsigned(decimal_digits(v as nat), u128::MAX as int) == Some(v as int),
{
    lemma_decimal_digits_value(v as nat);
    let d = decimal_digits(v as nat);
    assert(d[0] != '+') by {
        assert(is_digit(d[0]));
    }
    assert(unsigned_digits(d) == d);
}

} // verus!
