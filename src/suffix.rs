//! The numeric suffix of a directory name: the part after its last `.`, read
//! as a decimal `i32`, and the name that comes next once it is incremented.
use vstd::prelude::*;

verus! {

pub open spec fn is_digit(c: char) -> bool {
    '0' <= c && c <= '9'
}

pub open spec fn digit_value(c: char) -> int {
    c as u32 - '0' as u32
}

pub open spec fn digit_char(d: int) -> char {
    if d == 0 { '0' } else if d == 1 { '1' } else if d == 2 { '2' } else if d == 3 { '3' }
    else if d == 4 { '4' } else if d == 5 { '5' } else if d == 6 { '6' } else if d == 7 { '7' }
    else if d == 8 { '8' } else { '9' }
}

pub open spec fn all_digits(s: Seq<char>) -> bool {
    forall|i: int| 0 <= i < s.len() ==> is_digit(#[trigger] s[i])
}

/// The value of a string of decimal digits, most significant first.
pub open spec fn digits_value(s: Seq<char>) -> int
    decreases s.len(),
{
    if s.len() == 0 {
        0
    } else {
        10 * digits_value(s.drop_last()) + digit_value(s.last())
    }
}

/// What `str::parse::<i32>` gives: an optional `+` or `-`, then at least one
/// decimal digit and nothing else, with a value in the range of `i32`.
pub open spec fn parsed_i32(s: Seq<char>) -> Option<int> {
    let signed = s.len() > 0 && (s[0] == '-' || s[0] == '+');
    let body = if signed { s.drop_first() } else { s };
    let v = if signed && s[0] == '-' { -digits_value(body) } else { digits_value(body) };
    if body.len() > 0 && all_digits(body) && i32::MIN <= v <= i32::MAX {
        Some(v)
    } else {
        None
    }
}

/// The decimal digits of a natural number, without leading zeros.
pub open spec fn nat_digits(n: nat) -> Seq<char>
    decreases n,
{
    if n < 10 {
        seq![digit_char(n as int)]
    } else {
        nat_digits(n / 10) + seq![digit_char((n % 10) as int)]
    }
}

/// The decimal form of an integer, as `to_string` writes it.
pub open spec fn decimal(n: int) -> Seq<char> {
    if n < 0 {
        seq!['-'] + nat_digits((-n) as nat)
    } else {
        nat_digits(n as nat)
    }
}

/// Index of the last `.` in `s`, or -1 where there is none.
pub open spec fn last_dot(s: Seq<char>) -> int
    decreases s.len(),
{
    if s.len() == 0 {
        -1
    } else if s.last() == '.' {
        s.len() - 1
    } else {
        last_dot(s.drop_last())
    }
}

/// A name has an extension where its last `.` has something before it
/// (so `.hidden` has none).
pub open spec fn has_extension(s: Seq<char>) -> bool {
    last_dot(s) > 0
}

pub open spec fn stem(s: Seq<char>) -> Seq<char> {
    if has_extension(s) {
        s.subrange(0, last_dot(s))
    } else {
        s
    }
}

pub open spec fn extension(s: Seq<char>) -> Seq<char> {
    if has_extension(s) {
        s.subrange(last_dot(s) + 1, s.len() as int)
    } else {
        Seq::empty()
    }
}

/// The number that a name carries as its extension: 0 where it has none or
/// where the extension does not parse as an `i32`.
pub open spec fn suffix_value(s: Seq<char>) -> int {
    if has_extension(s) {
        match parsed_i32(extension(s)) {
            Some(v) => v,
            None => 0,
        }
    } else {
        0
    }
}

/// The name tried after `s` was found taken: its extension replaced by its
/// suffix value plus one.
pub open spec fn name_after(s: Seq<char>) -> Seq<char> {
    stem(s) + seq!['.'] + decimal(suffix_value(s) + 1)
}

proof fn lemma_digits_nonneg(s: Seq<char>)
    requires
        all_digits(s),
    ensures
        digits_value(s) >= 0,
    decreases s.len(),
{
    if s.len() > 0 {
        assert(is_digit(s[s.len() - 1]));
        lemma_digits_nonneg(s.drop_last());
    }
}

proof fn lemma_nat_digits(n: nat)
    ensures
        nat_digits(n).len() > 0,
        all_digits(nat_digits(n)),
        digits_value(nat_digits(n)) == n,
    decreases n,
{
    let s = nat_digits(n);
    if n >= 10 {
        lemma_nat_digits(n / 10);
        assert(s.drop_last() =~= nat_digits(n / 10));
        assert(s.last() == digit_char((n % 10) as int));
        assert(digit_value(digit_char((n % 10) as int)) == n % 10);
        assert(n == 10 * (n / 10) + n % 10);
        assert forall|i: int| 0 <= i < s.len() implies is_digit(#[trigger] s[i]) by {
            if i < s.len() - 1 {
                assert(s[i] == nat_digits(n / 10)[i]);
            }
        }
    } else {
        assert(s.drop_last() =~= Seq::<char>::empty());
        assert(digits_value(s.drop_last()) == 0);
        assert(s.last() == digit_char(n as int));
    }
}

/// A decimal form holds digits and at most a leading `-`: never a `.`.
pub proof fn lemma_decimal_has_no_dot(n: int)
    ensures
        forall|i: int| 0 <= i < decimal(n).len() ==> #[trigger] decimal(n)[i] != '.',
{
    let m: nat = if n < 0 { (-n) as nat } else { n as nat };
    lemma_nat_digits(m);
    let d = nat_digits(m);
    assert forall|i: int| 0 <= i < decimal(n).len() implies #[trigger] decimal(n)[i] != '.' by {
        if n < 0 {
            if i > 0 {
                assert(decimal(n)[i] == d[i - 1]);
                assert(is_digit(d[i - 1]));
            }
        } else {
            assert(is_digit(d[i]));
        }
    }
}

/// Parsing the decimal form of an `i32` gives it back.
pub proof fn lemma_parse_decimal(n: int)
    requires
        i32::MIN <= n <= i32::MAX,
    ensures
        parsed_i32(decimal(n)) == Some(n),
{
    let m: nat = if n < 0 { (-n) as nat } else { n as nat };
    lemma_nat_digits(m);
    let d = nat_digits(m);
    assert(is_digit(d[0]));
    if n < 0 {
        assert((seq!['-'] + d).drop_first() =~= d);
    }
}

/// `v`, or `cap` where `v` reaches it.
spec fn capped(v: int, cap: int) -> int {
    if v < cap {
        v
    } else {
        cap
    }
}

/// Reads `s` as `str::parse::<i32>` does.
pub fn parse_i32(s: &str) -> (r: Option<i32>)
    ensures
        match parsed_i32(s@) {
            Some(v) => r == Some(v as i32),
            None => r is None,
        },
{
    let n = s.unicode_len();
    let mut start: usize = 0;
    let mut neg = false;
    if n > 0 {
        let c = s.get_char(0);
        if c == '-' {
            neg = true;
            start = 1;
        } else if c == '+' {
            start = 1;
        }
    }
    let ghost body = if start == 1 { s@.drop_first() } else { s@ };
    assert(body =~= s@.subrange(start as int, n as int));
    if start >= n {
        return None;
    }
    let cap: u64 = 2147483649;
    let mut acc: u64 = 0;
    let mut i: usize = start;
    while i < n
        invariant
            start <= i <= n,
            n == s@.len(),
            acc <= cap,
            cap == 2147483649,
            start <= 1,
            (s@.len() > 0 && (s@[0] == '-' || s@[0] == '+')) == (start == 1),
            neg == (start == 1 && s@[0] == '-'),
            body =~= s@.subrange(start as int, n as int),
            all_digits(s@.subrange(start as int, i as int)),
            acc as int == capped(digits_value(s@.subrange(start as int, i as int)), cap as int),
        decreases n - i,
    {
        let c = s.get_char(i);
        if !('0' <= c && c <= '9') {
            assert(body[i - start] == c);
            assert(!all_digits(body));
            return None;
        }
        let d = (c as u32 - '0' as u32) as u64;
        assert(d <= 9);
        let ghost prev = s@.subrange(start as int, i as int);
        let ghost next = s@.subrange(start as int, i + 1);
        assert(next.drop_last() =~= prev);
        assert(next.last() == c);
        assert forall|j: int| 0 <= j < next.len() implies is_digit(#[trigger] next[j]) by {
            if j < prev.len() {
                assert(next[j] == prev[j]);
            }
        }
        if acc * 10 + d >= cap {
            acc = cap;
        } else {
            acc = acc * 10 + d;
        }
        i = i + 1;
    }
    assert(s@.subrange(start as int, n as int) =~= body);
    proof {
        lemma_digits_nonneg(body);
    }
    if neg {
        if acc <= 2147483648 {
            Some((0 - (acc as i64)) as i32)
        } else {
            None
        }
    } else {
        if acc <= 2147483647 {
            Some(acc as i32)
        } else {
            None
        }
    }
}

fn digit_str(d: u64) -> (r: &'static str)
    requires
        d < 10,
    ensures
        r@ == seq![digit_char(d as int)],
{
    proof {
        reveal_strlit("0123456789");
    }
    "0123456789".substring_char(d as usize, d as usize + 1)
}

/// Writes `n` in decimal, as `to_string` does.
pub fn format_decimal(n: i64) -> (r: String)
    ensures
        r@ == decimal(n as int),
{
    let orig: u64 = if n < 0 { (-(n + 1)) as u64 + 1 } else { n as u64 };
    let mut m: u64 = orig / 10;
    let mut s = String::from_str(digit_str(orig % 10));
    while m > 0
        invariant
            nat_digits(orig as nat) == (if m == 0 { s@ } else { nat_digits(m as nat) + s@ }),
        decreases m,
    {
        let ghost old_s = s@;
        s = String::from_str(digit_str(m % 10)).concat(s.as_str());
        assert(nat_digits(m as nat) + old_s =~= (if m < 10 { s@ } else { nat_digits((m / 10) as nat) + s@ }));
        m = m / 10;
    }
    if n < 0 {
        proof {
            reveal_strlit("-");
        }
        String::from_str("-").concat(s.as_str())
    } else {
        s
    }
}

/// The last dot is a dot, and none follows it.
pub proof fn lemma_last_dot(s: Seq<char>)
    ensures
        -1 <= last_dot(s) < s.len(),
        last_dot(s) >= 0 ==> s[last_dot(s)] == '.',
        forall|i: int| last_dot(s) < i < s.len() ==> #[trigger] s[i] != '.',
    decreases s.len(),
{
    if s.len() > 0 && s.last() != '.' {
        lemma_last_dot(s.drop_last());
        assert forall|i: int| last_dot(s) < i < s.len() implies #[trigger] s[i] != '.' by {
            if i < s.len() - 1 {
                assert(s[i] == s.drop_last()[i]);
            }
        }
    }
}

/// Finds the last `.` of `s`.
fn find_last_dot(s: &str) -> (r: Option<usize>)
    ensures
        match r {
            Some(p) => p as int == last_dot(s@),
            None => last_dot(s@) == -1,
        },
{
    let n = s.unicode_len();
    let mut i: usize = n;
    assert(s@.subrange(0, n as int) =~= s@);
    while i > 0
        invariant
            i <= n,
            n == s@.len(),
            last_dot(s@) == last_dot(s@.subrange(0, i as int)),
        decreases i,
    {
        let ghost t = s@.subrange(0, i as int);
        assert(t.drop_last() =~= s@.subrange(0, i - 1));
        if s.get_char(i - 1) == '.' {
            return Some(i - 1);
        }
        i = i - 1;
    }
    None
}

/// The name to try after `name` was found taken.
pub fn next_name(name: &str) -> (r: String)
    ensures
        r@ == name_after(name@),
{
    let n = name.unicode_len();
    proof {
        lemma_last_dot(name@);
    }
    let (stem_part, value): (&str, i64) = match find_last_dot(name) {
        Some(p) if p > 0 => {
            let ext = name.substring_char(p + 1, n);
            let v: i64 = match parse_i32(ext) {
                Some(v) => v as i64,
                None => 0,
            };
            (name.substring_char(0, p), v)
        },
        _ => (name, 0),
    };
    let digits = format_decimal(value + 1);
    proof {
        reveal_strlit(".");
    }
    let mut r = String::from_str(stem_part);
    r.append(".");
    r.append(digits.as_str());
    r
}

} // verus!
