//! Small verified helpers for building and comparing strings.
use vstd::prelude::*;

verus! {

/// Wraps `String::push` (std): the character is appended to the string, and
/// nothing else changes.
#[verifier::external_body]
pub(crate) fn push_char(out: &mut String, c: char)
    ensures
        final(out)@ == old(out)@.push(c),
{
    out.push(c);
}

/// Whether the two strings hold the same characters in the same order.
pub fn str_eq(a: &str, b: &str) -> (r: bool)
    ensures
        r == (a@ == b@),
{
    let x = to_chars(a);
    let y = to_chars(b);
    if x.len() != y.len() {
        return false;
    }
    let mut i: usize = 0;
    while i < x.len()
        invariant
            x@ == a@,
            y@ == b@,
            x.len() == y.len(),
            i <= x.len(),
            forall|k: int| 0 <= k < i ==> x@[k] == y@[k],
        decreases x.len() - i,
    {
        if x[i] != y[i] {
            return false;
        }
        i = i + 1;
    }
    assert(a@ =~= b@);
    true
}

/// The characters of a string slice, in order.
pub fn to_chars(text: &str) -> (v: Vec<char>)
    ensures
        v@ == text@,
{
    let mut v: Vec<char> = Vec::new();
    for c in it: text.chars()
        invariant
            v@ == it.seq().take(it.index() as int),
    {
        v.push(c);
    }
    v
}

/// A string made of the characters `s[from..to]`.
pub fn string_of(s: &Vec<char>, from: usize, to: usize) -> (r: String)
    requires
        from <= to <= s.len(),
    ensures
        r@ == s@.subrange(from as int, to as int),
{
    let mut r = String::new();
    let mut i = from;
    while i < to
        invariant
            from <= i <= to <= s.len(),
            r@ == s@.subrange(from as int, i as int),
        decreases to - i,
    {
        push_char(&mut r, s[i]);
        assert(s@.subrange(from as int, i + 1) =~= s@.subrange(from as int, i as int).push(s@[i as int]));
        i = i + 1;
    }
    r
}

/// A string holding exactly the given characters.
pub fn string_from_chars(s: &Vec<char>) -> (r: String)
    ensures
        r@ == s@,
{
    let r = string_of(s, 0, s.len());
    assert(s@.subrange(0, s@.len() as int) =~= s@);
    r
}

/// A fresh copy of a string slice.
pub fn owned(s: &str) -> (r: String)
    ensures
        r@ == s@,
{
    s.to_owned()
}

/// The decimal digit character for `d < 10`.
pub open spec fn digit_char(d: int) -> char
    recommends
        0 <= d < 10,
{
    ((d + 48) as u32) as char
}

/// The decimal digits of a natural number, most significant first, without
/// leading zeros ("0" for zero).
pub open spec fn nat_digits(n: nat) -> Seq<char>
    decreases n,
{
    if n < 10 {
        seq![digit_char(n as int)]
    } else {
        nat_digits(n / 10).push(digit_char((n % 10) as int))
    }
}

/// The decimal text of an integer, with a leading `-` when it is negative.
pub open spec fn int_text(i: int) -> Seq<char> {
    if i < 0 {
        seq!['-'] + nat_digits((-i) as nat)
    } else {
        nat_digits(i as nat)
    }
}

fn digit(d: u64) -> (c: char)
    requires
        d < 10,
    ensures
        c == digit_char(d as int),
{
    if d == 0 { '0' }
    else if d == 1 { '1' }
    else if d == 2 { '2' }
    else if d == 3 { '3' }
    else if d == 4 { '4' }
    else if d == 5 { '5' }
    else if d == 6 { '6' }
    else if d == 7 { '7' }
    else if d == 8 { '8' }
    else { '9' }
}

fn push_nat_digits(out: &mut String, n: u64)
    ensures
        final(out)@ == old(out)@ + nat_digits(n as nat),
    decreases n,
{
    if n < 10 {
        push_char(out, digit(n));
        assert(nat_digits(n as nat) =~= seq![digit_char(n as int)]);
        assert(final(out)@ =~= old(out)@ + nat_digits(n as nat));
    } else {
        push_nat_digits(out, n / 10);
        push_char(out, digit(n % 10));
        assert(final(out)@ =~= old(out)@ + nat_digits(n as nat));
    }
}

/// The decimal text of an `i32`, as `i32::to_string` writes it.
pub fn i32_to_string(v: i32) -> (r: String)
    ensures
        r@ == int_text(v as int),
{
    let mut r = String::new();
    if v < 0 {
        push_char(&mut r, '-');
        let m: i64 = -(v as i64);
        push_nat_digits(&mut r, m as u64);
        assert(r@ =~= int_text(v as int));
    } else {
        push_nat_digits(&mut r, v as u64);
        assert(r@ =~= int_text(v as int));
    }
    r
}

/// The value of a decimal digit character.
pub open spec fn digit_value(c: char) -> int {
    (c as int) - 48
}

pub open spec fn is_digit(c: char) -> bool {
    '0' <= c <= '9'
}

/// The value of a non-empty run of decimal digits.
pub open spec fn digits_value(s: Seq<char>) -> int
    decreases s.len(),
{
    if s.len() == 0 {
        0
    } else {
        digits_value(s.drop_last()) * 10 + digit_value(s.last())
    }
}

pub open spec fn all_digits(s: Seq<char>) -> bool {
    forall|i: int| 0 <= i < s.len() ==> is_digit(#[trigger] s[i])
}

/// What `str::parse::<i32>` gives: an optional `+` or `-` sign followed by at
/// least one decimal digit, whose value lies in the `i32` range.
pub open spec fn parse_i32(s: Seq<char>) -> Option<i32> {
    let neg = s.len() > 0 && s[0] == '-';
    let signed = s.len() > 0 && (s[0] == '-' || s[0] == '+');
    let body = if signed { s.drop_first() } else { s };
    if body.len() == 0 || !all_digits(body) {
        None
    } else {
        let v = if neg { -digits_value(body) } else { digits_value(body) };
        if i32::MIN <= v <= i32::MAX {
            Some(v as i32)
        } else {
            None
        }
    }
}

proof fn lemma_digits_value_nonneg(s: Seq<char>)
    requires
        all_digits(s),
    ensures
        digits_value(s) >= 0,
    decreases s.len(),
{
    if s.len() > 0 {
        assert(all_digits(s.drop_last())) by {
            assert forall|i: int| 0 <= i < s.drop_last().len() implies is_digit(#[trigger] s.drop_last()[i]) by {
                assert(s.drop_last()[i] == s[i]);
            }
        }
        lemma_digits_value_nonneg(s.drop_last());
        assert(is_digit(s[s.len() - 1]));
    }
}

/// Parses a decimal `i32` the way `str::parse::<i32>` does.
pub fn str_to_i32(text: &str) -> (r: Option<i32>)
    ensures
        r == parse_i32(text@),
{
    let s = to_chars(text);
    let n = s.len();
    if n == 0 {
        return None;
    }
    let neg = s[0] == '-';
    let signed = s[0] == '-' || s[0] == '+';
    let start: usize = if signed { 1 } else { 0 };
    if start == n {
        return None;
    }
    let ghost body = s@.subrange(start as int, n as int);
    assert(body =~= (if signed { s@.drop_first() } else { s@ }));
    // accumulate the magnitude, stopping once it leaves the i32 range
    let mut acc: i64 = 0;
    let mut i = start;
    while i < n
        invariant
            start <= i <= n == s.len(),
            start < n,
            s@ == text@,
            neg == (s@[0] == '-'),
            signed == (s@[0] == '-' || s@[0] == '+'),
            start == (if signed { 1usize } else { 0usize }),
            body == s@.subrange(start as int, n as int),
            body == (if signed { s@.drop_first() } else { s@ }),
            all_digits(s@.subrange(start as int, i as int)),
            acc == digits_value(s@.subrange(start as int, i as int)),
            0 <= acc <= 2147483648,
        decreases n - i,
    {
        let c = s[i];
        if !('0' <= c && c <= '9') {
            assert(!all_digits(body)) by {
                assert(body[i - start] == c);
                assert(!is_digit(body[i - start]));
            }
            return None;
        }
        let ghost prev = s@.subrange(start as int, i as int);
        let ghost next = s@.subrange(start as int, i + 1);
        assert(next.drop_last() =~= prev);
        assert(all_digits(next)) by {
            assert forall|k: int| 0 <= k < next.len() implies is_digit(#[trigger] next[k]) by {
                if k < prev.len() {
                    assert(next[k] == prev[k]);
                }
            }
        }
        let d = (c as u32 - 48) as i64;
        let v = acc * 10 + d;
        assert(v == digits_value(next));
        if v > 2147483648 {
            // every further digit only grows the magnitude
            proof {
                lemma_digits_grow(s@.subrange(start as int, n as int), (i + 1 - start) as int);
            }
            assert(s@.subrange(start as int, n as int).subrange(0, (i + 1 - start) as int) =~= next);
            assert(all_digits(body) ==> digits_value(body) > 2147483648);
            return None;
        }
        acc = v;
        i = i + 1;
    }
    assert(s@.subrange(start as int, n as int) =~= body);
    if neg {
        let m = -acc;
        if m < -2147483648 {
            return None;
        }
        Some(m as i32)
    } else {
        if acc > 2147483647 {
            return None;
        }
        Some(acc as i32)
    }
}

/// Extending a run of digits never makes its value smaller.
proof fn lemma_digits_grow(s: Seq<char>, k: int)
    requires
        0 <= k <= s.len(),
    ensures
        all_digits(s) ==> digits_value(s) >= digits_value(s.subrange(0, k)),
    decreases s.len() - k,
{
    if k == s.len() {
        assert(s.subrange(0, k) =~= s);
    } else if all_digits(s) {
        lemma_digits_grow(s, k + 1);
        let a = s.subrange(0, k);
        let b = s.subrange(0, k + 1);
        assert(b.drop_last() =~= a);
        assert(all_digits(a)) by {
            assert forall|i: int| 0 <= i < a.len() implies is_digit(#[trigger] a[i]) by {
                assert(a[i] == s[i]);
            }
        }
        lemma_digits_value_nonneg(a);
        assert(is_digit(s[k]));
        assert(b.last() == s[k]);
        assert(digits_value(b) == digits_value(a) * 10 + digit_value(s[k]));
        let va = digits_value(a);
        assert(va * 10 >= va) by (nonlinear_arith)
            requires
                va >= 0,
        ;
    }
}

proof fn lemma_nat_digits(n: nat)
    ensures
        nat_digits(n).len() > 0,
        all_digits(nat_digits(n)),
        digits_value(nat_digits(n)) == n,
    decreases n,
{
    if n < 10 {
        let c = digit_char(n as int);
        assert((c as int) == n + 48);
        assert(nat_digits(n).drop_last() =~= Seq::<char>::empty());
        assert(all_digits(nat_digits(n)));
        assert(digits_value(nat_digits(n)) == digits_value(Seq::<char>::empty()) * 10 + digit_value(c));
    } else {
        lemma_nat_digits(n / 10);
        let d = (n % 10) as int;
        let c = digit_char(d);
        assert((c as int) == d + 48);
        let s = nat_digits(n);
        assert(s.drop_last() == nat_digits(n / 10));
        assert(s.last() == c);
        assert(all_digits(s)) by {
            assert forall|i: int| 0 <= i < s.len() implies is_digit(#[trigger] s[i]) by {
                if i < s.len() - 1 {
                    assert(s[i] == nat_digits(n / 10)[i]);
                }
            }
        }
        assert(digits_value(s) == digits_value(nat_digits(n / 10)) * 10 + digit_value(c));
        assert((n / 10) * 10 + d == n) by (nonlinear_arith)
            requires
                d == n % 10,
        ;
    }
}

/// Reading back the decimal text of an `i32` gives the same number.
pub proof fn lemma_parse_int_text(i: i32)
    ensures
        parse_i32(int_text(i as int)) == Some(i),
{
    if i < 0 {
        let m = (-(i as int)) as nat;
        lemma_nat_digits(m);
        let t = int_text(i as int);
        assert(t.drop_first() =~= nat_digits(m));
        assert(t[0] == '-');
    } else {
        lemma_nat_digits(i as nat);
        let t = nat_digits(i as nat);
        assert(is_digit(t[0]));
    }
}

/// The decimal text of an integer is a non-empty run of digits, with a `-`
/// before it when the integer is negative.
pub proof fn lemma_int_text_digits(i: i32)
    ensures
        int_text(i as int).len() > 0,
        forall|k: int| 0 <= k < int_text(i as int).len() ==> #[trigger] is_digit(int_text(i as int)[k]) || int_text(i as int)[k] == '-',
{
    if i < 0 {
        let m = (-(i as int)) as nat;
        lemma_nat_digits(m);
        let t = int_text(i as int);
        assert forall|k: int| 0 <= k < t.len() implies #[trigger] is_digit(t[k]) || t[k] == '-' by {
            if k > 0 {
                assert(t[k] == nat_digits(m)[k - 1]);
            }
        }
    } else {
        lemma_nat_digits(i as nat);
    }
}

} // verus!
