//! The grammar of a numbered name: a run of decimal digits, then optionally
//! `-` and a free suffix.

use vstd::prelude::*;

verus! {

/// A decimal digit character.
pub open spec fn is_digit_char(c: char) -> bool {
    '0' <= c && c <= '9'
}

/// Every character of `s` is a decimal digit (vacuously true of the empty sequence).
pub open spec fn all_digits(s: Seq<char>) -> bool {
    forall|i: int| 0 <= i < s.len() ==> is_digit_char(#[trigger] s[i])
}

/// `is_numeric`: every character is a decimal digit.
pub fn is_numeric(file_prefix: &str) -> (r: bool)
    ensures
        r == all_digits(file_prefix@),
{
    let n = file_prefix.unicode_len();
    let mut i: usize = 0;
    while i < n
        invariant
            n == file_prefix@.len(),
            i <= n,
            all_digits(file_prefix@.subrange(0, i as int)),
        decreases n - i,
    {
        let c = file_prefix.get_char(i);
        if !(c >= '0' && c <= '9') {
            return false;
        }
        i = i + 1;
    }
    assert(file_prefix@.subrange(0, n as int) =~= file_prefix@);
    true
}


/// The position of the first `-` at or after `i`, or `s.len()` where none follows.
pub open spec fn dash_from(s: Seq<char>, i: int) -> int
    decreases s.len() - i,
{
    if i < 0 || i >= s.len() {
        s.len() as int
    } else if s[i] == '-' {
        i
    } else {
        dash_from(s, i + 1)
    }
}

/// Where the prefix of a name ends: its first `-`, or its length.
pub open spec fn prefix_end(s: Seq<char>) -> int {
    dash_from(s, 0)
}

/// The prefix of a name: everything before its first `-`, or the whole name.
pub open spec fn prefix_of(s: Seq<char>) -> Seq<char> {
    s.subrange(0, prefix_end(s))
}

/// What follows the prefix: the first `-` and the rest, or nothing.
pub open spec fn tail_of(s: Seq<char>) -> Seq<char> {
    s.subrange(prefix_end(s), s.len() as int)
}

/// A numbered name: its prefix is non-empty and made of decimal digits.
pub open spec fn valid_name(s: Seq<char>) -> bool {
    prefix_of(s).len() > 0 && all_digits(prefix_of(s))
}

/// The value of a run of decimal digits.
pub open spec fn digits_value(s: Seq<char>) -> nat
    decreases s.len(),
{
    if s.len() == 0 {
        0
    } else {
        digits_value(s.drop_last()) * 10 + ((s.last() as nat) - ('0' as nat)) as nat
    }
}

/// The number that a name's prefix spells.
pub open spec fn prefix_value(s: Seq<char>) -> nat {
    digits_value(prefix_of(s))
}

proof fn lemma_dash_from_bounds(s: Seq<char>, i: int)
    requires
        0 <= i <= s.len(),
    ensures
        i <= dash_from(s, i) <= s.len(),
        forall|k: int| i <= k < dash_from(s, i) ==> s[k] != '-',
        dash_from(s, i) < s.len() ==> s[dash_from(s, i)] == '-',
    decreases s.len() - i,
{
    if i < s.len() && s[i] != '-' {
        lemma_dash_from_bounds(s, i + 1);
    }
}

/// Facts on where the prefix ends: no `-` before it, a `-` at it unless it is the end.
pub proof fn lemma_prefix_end(s: Seq<char>)
    ensures
        0 <= prefix_end(s) <= s.len(),
        forall|k: int| 0 <= k < prefix_end(s) ==> s[k] != '-',
        prefix_end(s) < s.len() ==> s[prefix_end(s)] == '-',
{
    lemma_dash_from_bounds(s, 0);
}

/// The first `-` is the unique position with no `-` before it and a `-` (or the end) at it.
pub proof fn lemma_prefix_end_unique(s: Seq<char>, k: int)
    requires
        0 <= k <= s.len(),
        forall|j: int| 0 <= j < k ==> s[j] != '-',
        k < s.len() ==> s[k] == '-',
    ensures
        prefix_end(s) == k,
{
    lemma_prefix_end(s);
    if prefix_end(s) < k {
        assert(s[prefix_end(s)] == '-');
    }
    if k < prefix_end(s) {
        assert(s[k] != '-');
    }
}

fn prefix_len(name: &str) -> (r: usize)
    ensures
        r == prefix_end(name@),
{
    proof {
        lemma_prefix_end(name@);
    }
    let n = name.unicode_len();
    let mut i: usize = 0;
    while i < n
        invariant
            n == name@.len(),
            i <= n,
            forall|k: int| 0 <= k < i ==> name@[k] != '-',
        decreases n - i,
    {
        if name.get_char(i) == '-' {
            proof {
                lemma_prefix_end_unique(name@, i as int);
            }
            return i;
        }
        i = i + 1;
    }
    proof {
        lemma_prefix_end_unique(name@, n as int);
    }
    n
}

/// `file_prefix`: the part of the name before its first `-`, or the whole name.
pub fn file_prefix(file_name: &str) -> (r: String)
    ensures
        r@ == prefix_of(file_name@),
{
    let k = prefix_len(file_name);
    proof {
        lemma_prefix_end(file_name@);
    }
    String::from_str(file_name.substring_char(0, k))
}

/// `is_valid_name`: the prefix is non-empty and all digits.
pub fn is_valid_name(file_name: &str) -> (r: bool)
    ensures
        r == valid_name(file_name@),
{
    let p = file_prefix(file_name);
    p.as_str().unicode_len() > 0 && is_numeric(p.as_str())
}


/// Why a name has no usable number.
#[derive(Debug, Clone, Copy, PartialEq, Eq, Structural)]
pub enum NameError {
    /// The prefix is empty or holds a character that is not a decimal digit.
    InvalidName,
    /// The prefix is all digits, but its value does not fit in a `usize`.
    PrefixTooLarge,
}

/// A name whose number can be read: valid, and its number fits in a `usize`.
pub open spec fn managed_name(s: Seq<char>) -> bool {
    valid_name(s) && prefix_value(s) <= usize::MAX
}

proof fn lemma_digits_value_step(s: Seq<char>, i: int)
    requires
        0 <= i < s.len(),
    ensures
        digits_value(s.subrange(0, i + 1)) == digits_value(s.subrange(0, i)) * 10 + ((s[i] as nat)
            - ('0' as nat)) as nat,
{
    assert(s.subrange(0, i + 1).drop_last() =~= s.subrange(0, i));
}

proof fn lemma_digits_value_grows(s: Seq<char>, i: int, j: int)
    requires
        0 <= i <= j <= s.len(),
        all_digits(s),
    ensures
        digits_value(s.subrange(0, i)) <= digits_value(s.subrange(0, j)),
    decreases j - i,
{
    if i < j {
        lemma_digits_value_step(s, j - 1);
        assert(is_digit_char(s[j - 1]));
        lemma_digits_value_grows(s, i, j - 1);
    }
}

/// `num_prefix`: the number that a name's prefix spells.
pub fn num_prefix(file_name: &str) -> (r: Result<usize, NameError>)
    ensures
        r is Ok <==> managed_name(file_name@),
        r is Ok ==> r->Ok_0 == prefix_value(file_name@),
        !valid_name(file_name@) ==> r == Err::<usize, NameError>(NameError::InvalidName),
        valid_name(file_name@) && prefix_value(file_name@) > usize::MAX ==> r == Err::<
            usize,
            NameError,
        >(NameError::PrefixTooLarge),
{
    if !is_valid_name(file_name) {
        return Err(NameError::InvalidName);
    }
    let p = file_prefix(file_name);
    let n = p.as_str().unicode_len();
    let ghost ps = p@;
    let mut v: usize = 0;
    let mut i: usize = 0;
    assert(ps.subrange(0, 0).len() == 0);
    while i < n
        invariant
            n == ps.len(),
            ps == p@,
            ps == prefix_of(file_name@),
            all_digits(ps),
            i <= n,
            v == digits_value(ps.subrange(0, i as int)),
        decreases n - i,
    {
        let c = p.as_str().get_char(i);
        assert(is_digit_char(ps[i as int]));
        let d = (c as u32 - '0' as u32) as usize;
        proof {
            lemma_digits_value_step(ps, i as int);
        }
        if v > (usize::MAX - d) / 10 {
            proof {
                lemma_digits_value_grows(ps, i as int + 1, n as int);
                assert(ps.subrange(0, n as int) =~= ps);
                assert(v * 10 + d > usize::MAX) by (nonlinear_arith)
                    requires
                        v > (usize::MAX - d) / 10,
                        d <= 9,
                ;
            }
            return Err(NameError::PrefixTooLarge);
        }
        assert(v * 10 + d <= usize::MAX) by (nonlinear_arith)
            requires
                v <= (usize::MAX - d) / 10,
                d <= 9,
        ;
        v = v * 10 + d;
        i = i + 1;
    }
    assert(ps.subrange(0, n as int) =~= ps);
    Ok(v)
}


/// The character of a decimal digit.
pub open spec fn digit_char(d: nat) -> char {
    if d == 0 {
        '0'
    } else if d == 1 {
        '1'
    } else if d == 2 {
        '2'
    } else if d == 3 {
        '3'
    } else if d == 4 {
        '4'
    } else if d == 5 {
        '5'
    } else if d == 6 {
        '6'
    } else if d == 7 {
        '7'
    } else if d == 8 {
        '8'
    } else {
        '9'
    }
}

/// The decimal digits of `n`, without leading zeros (`0` is one digit).
pub open spec fn decimal(n: nat) -> Seq<char>
    decreases n,
{
    if n < 10 {
        seq![digit_char(n)]
    } else {
        decimal(n / 10).push(digit_char(n % 10))
    }
}

/// `k` zero characters.
pub open spec fn zeros(k: nat) -> Seq<char> {
    Seq::new(k, |j: int| '0')
}

/// `n` in decimal, left-padded with zeros to at least `w` characters.
pub open spec fn padded(n: nat, w: nat) -> Seq<char> {
    let d = decimal(n);
    if d.len() < w {
        zeros((w - d.len()) as nat) + d
    } else {
        d
    }
}

/// A name with its prefix replaced by `n` padded to width `w`; the rest (the
/// first `-` and what follows it) is kept.
pub open spec fn renamed(name: Seq<char>, n: nat, w: nat) -> Seq<char> {
    padded(n, w) + tail_of(name)
}

fn digit_text(d: usize) -> (r: &'static str)
    requires
        d < 10,
    ensures
        r@ == seq![digit_char(d as nat)],
{
    if d == 0 {
        proof {
            reveal_strlit("0");
        }
        "0"
    } else if d == 1 {
        proof {
            reveal_strlit("1");
        }
        "1"
    } else if d == 2 {
        proof {
            reveal_strlit("2");
        }
        "2"
    } else if d == 3 {
        proof {
            reveal_strlit("3");
        }
        "3"
    } else if d == 4 {
        proof {
            reveal_strlit("4");
        }
        "4"
    } else if d == 5 {
        proof {
            reveal_strlit("5");
        }
        "5"
    } else if d == 6 {
        proof {
            reveal_strlit("6");
        }
        "6"
    } else if d == 7 {
        proof {
            reveal_strlit("7");
        }
        "7"
    } else if d == 8 {
        proof {
            reveal_strlit("8");
        }
        "8"
    } else {
        proof {
            reveal_strlit("9");
        }
        "9"
    }
}

fn decimal_string(n: usize) -> (r: String)
    ensures
        r@ == decimal(n as nat),
    decreases n,
{
    if n < 10 {
        String::from_str(digit_text(n))
    } else {
        let mut s = decimal_string(n / 10);
        s.append(digit_text(n % 10));
        s
    }
}

/// `n` in decimal, left-padded with zeros to at least `width` characters.
pub fn zero_padded(n: usize, width: usize) -> (r: String)
    ensures
        r@ == padded(n as nat, width as nat),
{
    let d = decimal_string(n);
    let len = d.as_str().unicode_len();
    let mut out = String::new();
    if len < width {
        let mut i: usize = 0;
        while i < width - len
            invariant
                i <= width - len,
                out@ =~= zeros(i as nat),
            decreases width - len - i,
        {
            proof {
                reveal_strlit("0");
            }
            out.append("0");
            i = i + 1;
        }
    }
    out.append(d.as_str());
    out
}

/// `replaced_index_name_unchecked`: the name with its prefix replaced by
/// `new_index` padded with zeros to `padding` digits. The first `-` and what
/// follows it are kept; a name with no `-` becomes the padded number alone.
pub fn replaced_index_name_unchecked(name: &str, new_index: usize, padding: usize) -> (r: String)
    ensures
        r@ == renamed(name@, new_index as nat, padding as nat),
{
    let k = prefix_len(name);
    let n = name.unicode_len();
    proof {
        lemma_prefix_end(name@);
    }
    let mut out = zero_padded(new_index, padding);
    out.append(name.substring_char(k, n));
    out
}


/// Ten to the power `w`.
pub open spec fn pow10(w: nat) -> nat
    decreases w,
{
    if w == 0 {
        1
    } else {
        10 * pow10((w - 1) as nat)
    }
}

proof fn lemma_digit_char(d: nat)
    requires
        d < 10,
    ensures
        is_digit_char(digit_char(d)),
        (digit_char(d) as nat) - ('0' as nat) == d,
{
}

proof fn lemma_decimal(n: nat)
    ensures
        decimal(n).len() >= 1,
        all_digits(decimal(n)),
        digits_value(decimal(n)) == n,
    decreases n,
{
    if n < 10 {
        lemma_digit_char(n);
        assert(decimal(n).drop_last() =~= Seq::<char>::empty());
        assert(decimal(n).last() == digit_char(n));
        assert(digits_value(Seq::<char>::empty()) == 0);
    } else {
        lemma_decimal(n / 10);
        lemma_digit_char(n % 10);
        assert(decimal(n).drop_last() =~= decimal(n / 10));
        assert(decimal(n).last() == digit_char(n % 10));
        assert(digits_value(decimal(n)) == digits_value(decimal(n / 10)) * 10 + n % 10);
        assert((n / 10) * 10 + n % 10 == n);
        assert(all_digits(decimal(n))) by {
            assert forall|i: int| 0 <= i < decimal(n).len() implies is_digit_char(
                #[trigger] decimal(n)[i],
            ) by {
                if i < decimal(n / 10).len() {
                    assert(decimal(n)[i] == decimal(n / 10)[i]);
                }
            }
        }
    }
}

proof fn lemma_decimal_len(n: nat, w: nat)
    requires
        1 <= w,
        n < pow10(w),
    ensures
        decimal(n).len() <= w,
    decreases n,
{
    if n >= 10 {
        assert(w >= 2) by {
            if w == 1 {
                assert(pow10(1) == 10 * pow10(0));
            }
        }
        let p = pow10((w - 1) as nat);
        assert(pow10(w) == 10 * p);
        assert(n / 10 < p) by (nonlinear_arith)
            requires
                n < 10 * p,
        ;
        lemma_decimal_len(n / 10, (w - 1) as nat);
    }
}

proof fn lemma_zeros_value(k: nat, s: Seq<char>)
    ensures
        digits_value(zeros(k) + s) == digits_value(s),
    decreases k + s.len(),
{
    if s.len() > 0 {
        assert((zeros(k) + s).drop_last() =~= zeros(k) + s.drop_last());
        lemma_zeros_value(k, s.drop_last());
    } else if k > 0 {
        assert((zeros(k) + s).drop_last() =~= zeros((k - 1) as nat) + s);
        lemma_zeros_value((k - 1) as nat, s);
    } else {
        assert(zeros(k) + s =~= s);
    }
}

/// A padded number is all digits, holds at least one, and spells the number.
pub proof fn lemma_padded(n: nat, w: nat)
    ensures
        padded(n, w).len() >= 1,
        padded(n, w).len() >= w,
        all_digits(padded(n, w)),
        digits_value(padded(n, w)) == n,
{
    lemma_decimal(n);
    let d = decimal(n);
    if d.len() < w {
        let z = zeros((w - d.len()) as nat);
        lemma_zeros_value((w - d.len()) as nat, d);
        assert forall|i: int| 0 <= i < padded(n, w).len() implies is_digit_char(
            #[trigger] padded(n, w)[i],
        ) by {
            if i >= z.len() {
                assert(padded(n, w)[i] == d[i - z.len()]);
            }
        }
    }
}

/// Renaming puts `n`, written in exactly `w` zero-padded digits, in front of
/// what followed the old prefix: the result is a valid name whose prefix is that
/// padded number, whose number is `n`, and whose part after the prefix is the
/// old one unchanged. It holds whenever `n` has at most `w` digits.
pub proof fn lemma_renamed_shape(name: Seq<char>, n: nat, w: nat)
    requires
        1 <= w,
        n < pow10(w),
    ensures
        padded(n, w).len() == w,
        padded(n, w) == zeros((w - decimal(n).len()) as nat) + decimal(n),
        prefix_of(renamed(name, n, w)) == padded(n, w),
        all_digits(prefix_of(renamed(name, n, w))),
        valid_name(renamed(name, n, w)),
        prefix_value(renamed(name, n, w)) == n,
        tail_of(renamed(name, n, w)) == tail_of(name),
{
    lemma_decimal_len(n, w);
    lemma_padded(n, w);
    if decimal(n).len() == w {
        assert(zeros(0) + decimal(n) =~= decimal(n));
    }
    lemma_tail_rebuilt(name, padded(n, w));
}

/// Whatever the width, a renamed name is valid and its number is the one given.
pub proof fn lemma_renamed_value(name: Seq<char>, n: nat, w: nat)
    ensures
        valid_name(renamed(name, n, w)),
        prefix_value(renamed(name, n, w)) == n,
{
    lemma_padded(n, w);
    lemma_tail_rebuilt(name, padded(n, w));
}

/// A run of digits followed by a name's tail has that run as prefix and keeps the tail.
proof fn lemma_tail_rebuilt(name: Seq<char>, p: Seq<char>)
    requires
        all_digits(p),
    ensures
        prefix_of(p + tail_of(name)) == p,
        tail_of(p + tail_of(name)) == tail_of(name),
{
    lemma_prefix_end(name);
    let r = p + tail_of(name);
    assert forall|j: int| 0 <= j < p.len() implies r[j] != '-' by {
        assert(r[j] == p[j]);
        assert(is_digit_char(p[j]));
    }
    if p.len() < r.len() {
        assert(r[p.len() as int] == name[prefix_end(name)]);
    }
    lemma_prefix_end_unique(r, p.len() as int);
    assert(prefix_of(r) =~= p);
    assert(tail_of(r) =~= tail_of(name));
}


proof fn lemma_value_below_pow(t: Seq<char>)
    requires
        all_digits(t),
    ensures
        digits_value(t) < pow10(t.len()),
    decreases t.len(),
{
    if t.len() > 0 {
        let u = t.drop_last();
        assert(all_digits(u)) by {
            assert forall|i: int| 0 <= i < u.len() implies is_digit_char(#[trigger] u[i]) by {
                assert(u[i] == t[i]);
            }
        }
        lemma_value_below_pow(u);
        assert(is_digit_char(t.last()));
        let d = ((t.last() as nat) - ('0' as nat)) as nat;
        assert(d <= 9);
        assert(pow10(t.len()) == 10 * pow10(u.len()));
        let v = digits_value(u);
        let p = pow10(u.len());
        assert(v * 10 + d < 10 * p) by (nonlinear_arith)
            requires
                v < p,
                d <= 9,
        ;
    }
}

proof fn lemma_value_at_least_pow(t: Seq<char>)
    requires
        all_digits(t),
        t.len() > 0,
        t[0] != '0',
    ensures
        digits_value(t) >= pow10((t.len() - 1) as nat),
    decreases t.len(),
{
    let u = t.drop_last();
    let d = ((t.last() as nat) - ('0' as nat)) as nat;
    if t.len() == 1 {
        assert(pow10(0) == 1);
        assert(u.len() == 0);
        assert(digits_value(u) == 0);
        assert(t.last() == t[0]);
        assert(is_digit_char(t[0]));
    } else {
        assert(all_digits(u)) by {
            assert forall|i: int| 0 <= i < u.len() implies is_digit_char(#[trigger] u[i]) by {
                assert(u[i] == t[i]);
            }
        }
        assert(u[0] == t[0]);
        lemma_value_at_least_pow(u);
        assert(pow10((t.len() - 1) as nat) == 10 * pow10((u.len() - 1) as nat));
    }
}

proof fn lemma_value_split(t: Seq<char>, m: int)
    requires
        0 <= m <= t.len(),
    ensures
        digits_value(t) == digits_value(t.subrange(0, m)) * pow10((t.len() - m) as nat)
            + digits_value(t.subrange(m, t.len() as int)),
    decreases t.len(),
{
    if m == t.len() {
        assert(t.subrange(0, m) =~= t);
        assert(pow10(0) == 1);
        assert(t.subrange(m, t.len() as int) =~= Seq::<char>::empty());
        assert(digits_value(Seq::<char>::empty()) == 0);
        assert(digits_value(t) == digits_value(t.subrange(0, m)) * 1);
    } else {
        let u = t.drop_last();
        lemma_value_split(u, m);
        assert(u.subrange(0, m) =~= t.subrange(0, m));
        let r = t.subrange(m, t.len() as int);
        assert(r.drop_last() =~= u.subrange(m, u.len() as int));
        assert(r.last() == t.last());
        let d = ((t.last() as nat) - ('0' as nat)) as nat;
        assert(digits_value(t) == digits_value(u) * 10 + d);
        assert(digits_value(r) == digits_value(r.drop_last()) * 10 + d);
        let a = digits_value(t.subrange(0, m));
        let p = pow10((u.len() - m) as nat);
        let b = digits_value(u.subrange(m, u.len() as int));
        assert(pow10((t.len() - m) as nat) == 10 * p);
        assert((a * p + b) * 10 + d == a * (10 * p) + (b * 10 + d)) by (nonlinear_arith);
        assert(digits_value(u) == a * p + b);
        assert(digits_value(r) == b * 10 + d);
        assert(digits_value(t) == a * (10 * p) + (b * 10 + d));
        assert(a * pow10((t.len() - m) as nat) == a * (10 * p));
    }
}

/// Leading zeros do not change the value of a run of digits.
proof fn lemma_strip_zeros(t: Seq<char>, z: int)
    requires
        0 <= z <= t.len(),
        forall|i: int| 0 <= i < z ==> t[i] == '0',
    ensures
        digits_value(t) == digits_value(t.subrange(z, t.len() as int)),
{
    assert(t =~= zeros(z as nat) + t.subrange(z, t.len() as int));
    lemma_zeros_value(z as nat, t.subrange(z, t.len() as int));
}

fn first_nonzero(p: &str) -> (z: usize)
    ensures
        z <= p@.len(),
        forall|i: int| 0 <= i < z ==> p@[i] == '0',
        z < p@.len() ==> p@[z as int] != '0',
{
    let n = p.unicode_len();
    let mut z: usize = 0;
    while z < n
        invariant
            n == p@.len(),
            z <= n,
            forall|i: int| 0 <= i < z ==> p@[i] == '0',
        decreases n - z,
    {
        if p.get_char(z) != '0' {
            return z;
        }
        z = z + 1;
    }
    z
}

proof fn lemma_all_digits_sub(t: Seq<char>, a: int, b: int)
    requires
        all_digits(t),
        0 <= a <= b <= t.len(),
    ensures
        all_digits(t.subrange(a, b)),
{
    assert forall|i: int| 0 <= i < b - a implies is_digit_char(#[trigger] t.subrange(a, b)[i]) by {
        assert(t.subrange(a, b)[i] == t[a + i]);
    }
}

/// Whether the first name's number is at most the second's. The numbers are
/// compared as digit runs, so they may be of any size.
pub fn prefix_le(a: &str, b: &str) -> (r: bool)
    requires
        valid_name(a@),
        valid_name(b@),
    ensures
        r == (prefix_value(a@) <= prefix_value(b@)),
{
    let pa = file_prefix(a);
    let pb = file_prefix(b);
    let sa = pa.as_str();
    let sb = pb.as_str();
    let na = sa.unicode_len();
    let nb = sb.unicode_len();
    let za = first_nonzero(sa);
    let zb = first_nonzero(sb);
    let ghost ta = sa@.subrange(za as int, na as int);
    let ghost tb = sb@.subrange(zb as int, nb as int);
    proof {
        lemma_strip_zeros(sa@, za as int);
        lemma_strip_zeros(sb@, zb as int);
        lemma_all_digits_sub(sa@, za as int, na as int);
        lemma_all_digits_sub(sb@, zb as int, nb as int);
        lemma_value_below_pow(ta);
        lemma_value_below_pow(tb);
        if ta.len() > 0 {
            lemma_value_at_least_pow(ta);
        }
        if tb.len() > 0 {
            lemma_value_at_least_pow(tb);
        }
    }
    let la = na - za;
    let lb = nb - zb;
    if la != lb {
        proof {
            if la < lb {
                lemma_pow10_mono_name(la as nat, (lb - 1) as nat);
            } else {
                lemma_pow10_mono_name(lb as nat, (la - 1) as nat);
            }
        }
        return la < lb;
    }
    let mut i: usize = 0;
    while i < la
        invariant
            la == lb,
            la == ta.len(),
            lb == tb.len(),
            za + la == na,
            zb + lb == nb,
            na == sa@.len(),
            nb == sb@.len(),
            ta == sa@.subrange(za as int, na as int),
            tb == sb@.subrange(zb as int, nb as int),
            all_digits(ta),
            all_digits(tb),
            i <= la,
            ta.subrange(0, i as int) == tb.subrange(0, i as int),
            prefix_value(a@) == digits_value(ta),
            prefix_value(b@) == digits_value(tb),
        decreases la - i,
    {
        let ca = sa.get_char(za + i);
        let cb = sb.get_char(zb + i);
        assert(ca == ta[i as int] && cb == tb[i as int]);
        if ca != cb {
            proof {
                let m = i as int + 1;
                lemma_value_split(ta, m);
                lemma_value_split(tb, m);
                lemma_value_split(ta.subrange(0, m), i as int);
                lemma_value_split(tb.subrange(0, m), i as int);
                assert(ta.subrange(0, m).subrange(0, i as int) =~= ta.subrange(0, i as int));
                assert(tb.subrange(0, m).subrange(0, i as int) =~= tb.subrange(0, i as int));
                let ra = ta.subrange(m, la as int);
                let rb = tb.subrange(m, la as int);
                lemma_all_digits_sub(ta, m, la as int);
                lemma_all_digits_sub(tb, m, la as int);
                lemma_value_below_pow(ra);
                lemma_value_below_pow(rb);
                let qa = ta.subrange(0, m).subrange(i as int, m);
                let qb = tb.subrange(0, m).subrange(i as int, m);
                assert(qa.drop_last() =~= Seq::<char>::empty());
                assert(qb.drop_last() =~= Seq::<char>::empty());
                assert(digits_value(Seq::<char>::empty()) == 0);
                assert(qa.last() == ca && qb.last() == cb);
                assert(is_digit_char(ta[i as int]) && is_digit_char(tb[i as int]));
                assert(pow10(1) == 10 * pow10(0));
                let h = digits_value(ta.subrange(0, i as int));
                let da = ((ca as nat) - ('0' as nat)) as nat;
                let db = ((cb as nat) - ('0' as nat)) as nat;
                let p = pow10((la - m) as nat);
                let xa = digits_value(ra);
                let xb = digits_value(rb);
                assert(digits_value(qa) == da);
                assert(digits_value(qb) == db);
                assert(ta.subrange(0, i as int) == tb.subrange(0, i as int));
                assert(digits_value(ta.subrange(0, m)) == h * 10 + da);
                assert(digits_value(tb.subrange(0, m)) == h * 10 + db);
                assert(digits_value(ta) == (h * 10 + da) * p + xa);
                assert(digits_value(tb) == (h * 10 + db) * p + xb);
                assert(prefix_value(a@) == digits_value(ta));
                assert(prefix_value(b@) == digits_value(tb));
                if ca < cb {
                    assert((h * 10 + da) * p + xa < (h * 10 + db) * p + xb) by (nonlinear_arith)
                        requires
                            da < db,
                            xa < p,
                    ;
                } else {
                    assert((h * 10 + db) * p + xb < (h * 10 + da) * p + xa) by (nonlinear_arith)
                        requires
                            db < da,
                            xb < p,
                    ;
                }
            }
            return ca < cb;
        }
        proof {
            assert(ta.subrange(0, i as int + 1) =~= ta.subrange(0, i as int).push(ta[i as int]));
            assert(tb.subrange(0, i as int + 1) =~= tb.subrange(0, i as int).push(tb[i as int]));
        }
        i = i + 1;
    }
    proof {
        assert(ta =~= ta.subrange(0, la as int));
        assert(tb =~= tb.subrange(0, la as int));
    }
    true
}

proof fn lemma_pow10_mono_name(a: nat, b: nat)
    requires
        a <= b,
    ensures
        pow10(a) <= pow10(b),
    decreases b,
{
    if a < b {
        lemma_pow10_mono_name(a, (b - 1) as nat);
    }
}

} // verus!
