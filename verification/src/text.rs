//! Character-level helpers shared by the plan, path and preview code.

use vstd::prelude::*;

verus! {

/// Number of bytes the UTF-8 encoding of `c` takes.
pub open spec fn char_utf8_len(c: char) -> nat {
    if (c as u32) < 0x80 {
        1
    } else if (c as u32) < 0x800 {
        2
    } else if (c as u32) < 0x10000 {
        3
    } else {
        4
    }
}

/// Number of bytes the UTF-8 encoding of `s` takes.
pub open spec fn utf8_len(s: Seq<char>) -> nat
    decreases s.len(),
{
    if s.len() == 0 {
        0
    } else {
        utf8_len(s.drop_last()) + char_utf8_len(s.last())
    }
}

/// Appends one character to a string (`String::push`).
#[verifier::external_body]
pub(crate) fn push_char(s: &mut String, c: char)
    ensures
        final(s)@ == old(s)@.push(c),
{
    s.push(c);
}

/// The characters of `s`, in order.
pub fn chars_of(s: &str) -> (out: Vec<char>)
    ensures
        out@ == s@,
{
    let mut out: Vec<char> = Vec::new();
    for c in it: s.chars()
        invariant
            out@ == it.seq().take(it.index() as int),
    {
        out.push(c);
    }
    out
}

/// The string made of `cs[start..end]`.
pub fn string_from(cs: &Vec<char>, start: usize, end: usize) -> (out: String)
    requires
        start <= end <= cs.len(),
    ensures
        out@ == cs@.subrange(start as int, end as int),
{
    let mut out = String::new();
    let mut i = start;
    while i < end
        invariant
            start <= i <= end <= cs.len(),
            out@ == cs@.subrange(start as int, i as int),
        decreases end - i,
    {
        push_char(&mut out, cs[i]);
        assert(cs@.subrange(start as int, i + 1) == cs@.subrange(start as int, i as int).push(cs@[i as int]));
        i = i + 1;
    }
    out
}

} // verus!

verus! {

/// Unicode `White_Space`, which is what `char::is_whitespace` tests.
pub open spec fn is_ws(c: char) -> bool {
    ||| c == '\t'
    ||| c == '\n'
    ||| c == '\u{B}'
    ||| c == '\u{C}'
    ||| c == '\r'
    ||| c == ' '
    ||| c == '\u{85}'
    ||| c == '\u{A0}'
    ||| c == '\u{1680}'
    ||| ('\u{2000}' <= c && c <= '\u{200A}')
    ||| c == '\u{2028}'
    ||| c == '\u{2029}'
    ||| c == '\u{202F}'
    ||| c == '\u{205F}'
    ||| c == '\u{3000}'
}

pub fn is_ws_exec(c: char) -> (b: bool)
    ensures
        b == is_ws(c),
{
    c == '\t' || c == '\n' || c == '\u{B}' || c == '\u{C}' || c == '\r' || c == ' ' || c
        == '\u{85}' || c == '\u{A0}' || c == '\u{1680}' || ('\u{2000}' <= c && c <= '\u{200A}')
        || c == '\u{2028}' || c == '\u{2029}' || c == '\u{202F}' || c == '\u{205F}' || c
        == '\u{3000}'
}

/// `s` with leading whitespace removed (`str::trim_start`).
pub open spec fn trim_start(s: Seq<char>) -> Seq<char>
    decreases s.len(),
{
    if s.len() > 0 && is_ws(s[0]) {
        trim_start(s.drop_first())
    } else {
        s
    }
}

/// `s` with trailing whitespace removed (`str::trim_end`).
pub open spec fn trim_end(s: Seq<char>) -> Seq<char>
    decreases s.len(),
{
    if s.len() > 0 && is_ws(s.last()) {
        trim_end(s.drop_last())
    } else {
        s
    }
}

/// `str::trim`.
pub open spec fn trim(s: Seq<char>) -> Seq<char> {
    trim_end(trim_start(s))
}

pub open spec fn starts_with(s: Seq<char>, prefix: Seq<char>) -> bool {
    prefix.len() <= s.len() && s.subrange(0, prefix.len() as int) == prefix
}

pub open spec fn is_digit(c: char) -> bool {
    '0' <= c && c <= '9'
}

pub open spec fn all_digits(s: Seq<char>) -> bool {
    forall|i: int| 0 <= i < s.len() ==> is_digit(#[trigger] s[i])
}

pub open spec fn digit_value(c: char) -> nat {
    (c as u32 - '0' as u32) as nat
}

/// The number written by the decimal digits `s` (leading zeros allowed).
pub open spec fn digits_value(s: Seq<char>) -> nat
    decreases s.len(),
{
    if s.len() == 0 {
        0
    } else {
        digits_value(s.drop_last()) * 10 + digit_value(s.last())
    }
}

pub open spec fn digit_char(d: nat) -> char {
    ((d % 10) + '0' as nat) as char
}

/// Shortest decimal numeral of `n`, as `u64::to_string` writes it.
pub open spec fn decimal(n: nat) -> Seq<char>
    decreases n,
{
    if n < 10 {
        seq![digit_char(n)]
    } else {
        decimal(n / 10).push(digit_char(n % 10))
    }
}

/// `format!("{:0width$}", n)`: the numeral left-padded with zeros to `width` characters.
pub open spec fn zero_padded(n: nat, width: nat) -> Seq<char> {
    let d = decimal(n);
    if d.len() >= width {
        d
    } else {
        Seq::new((width - d.len()) as nat, |i: int| '0') + d
    }
}

/// What `<u64 as FromStr>::from_str` accepts and returns.
pub open spec fn parse_u64(s: Seq<char>) -> Option<u64> {
    let body = if s.len() > 0 && s[0] == '+' { s.drop_first() } else { s };
    if body.len() > 0 && all_digits(body) && digits_value(body) <= u64::MAX {
        Some(digits_value(body) as u64)
    } else {
        None
    }
}

pub proof fn lemma_decimal_digits(n: nat)
    ensures
        all_digits(decimal(n)),
        digits_value(decimal(n)) == n,
        decimal(n).len() >= 1,
    decreases n,
{
    lemma_digit_char(n);
    if n >= 10 {
        lemma_decimal_digits(n / 10);
        let d = decimal(n);
        assert(d.drop_last() == decimal(n / 10));
        assert(d.last() == digit_char(n % 10));
        assert(digits_value(d) == digits_value(d.drop_last()) * 10 + digit_value(d.last()));
        assert forall|i: int| 0 <= i < d.len() implies is_digit(#[trigger] d[i]) by {
            if i < d.len() - 1 {
                assert(d[i] == decimal(n / 10)[i]);
            }
        }
    } else {
        let d = decimal(n);
        assert(d.drop_last().len() == 0);
        assert(digits_value(d.drop_last()) == 0);
        assert(digits_value(d) == digits_value(d.drop_last()) * 10 + digit_value(d.last()));
    }
}

pub proof fn lemma_digits_value_bound(s: Seq<char>)
    requires
        all_digits(s),
    ensures
        digits_value(s) < crate::text::pow10(s.len()),
    decreases s.len(),
{
    if s.len() > 0 {
        assert(all_digits(s.drop_last())) by {
            assert forall|i: int| 0 <= i < s.drop_last().len() implies is_digit(
                #[trigger] s.drop_last()[i],
            ) by {
                assert(s.drop_last()[i] == s[i]);
            }
        }
        lemma_digits_value_bound(s.drop_last());
        assert(is_digit(s[s.len() - 1]));
    }
}

pub open spec fn pow10(n: nat) -> nat
    decreases n,
{
    if n == 0 {
        1
    } else {
        10 * pow10((n - 1) as nat)
    }
}

/// Whether `s` contains `c`.
pub open spec fn has_char(s: Seq<char>, c: char) -> bool {
    exists|i: int| 0 <= i < s.len() && s[i] == c
}

/// Appends the characters of `s` to `out`.
pub fn push_str(out: &mut String, s: &str)
    ensures
        final(out)@ == old(out)@ + s@,
{
    out.append(s);
}

/// Appends `cs[start..end]` to `out`.
pub fn push_range(out: &mut String, cs: &Vec<char>, start: usize, end: usize)
    requires
        start <= end <= cs.len(),
    ensures
        final(out)@ == old(out)@ + cs@.subrange(start as int, end as int),
{
    let ghost init = out@;
    let mut i = start;
    while i < end
        invariant
            start <= i <= end <= cs.len(),
            out@ == init + cs@.subrange(start as int, i as int),
        decreases end - i,
    {
        push_char(out, cs[i]);
        assert(cs@.subrange(start as int, i + 1) == cs@.subrange(start as int, i as int).push(
            cs@[i as int],
        ));
        i = i + 1;
    }
}

/// Appends the decimal numeral of `n`.
pub fn push_decimal(out: &mut String, n: u64)
    ensures
        final(out)@ == old(out)@ + decimal(n as nat),
    decreases n,
{
    if n >= 10 {
        push_decimal(out, n / 10);
    }
    let d = (n % 10) as u32;
    let c = char_from_digit(d);
    push_char(out, c);
    assert(decimal(n as nat) == if n < 10 {
        seq![digit_char(n as nat)]
    } else {
        decimal((n / 10) as nat).push(digit_char((n % 10) as nat))
    });
}

/// The ASCII digit for `d < 10`.
pub fn char_from_digit(d: u32) -> (c: char)
    requires
        d < 10,
    ensures
        c == digit_char(d as nat),
{
    if d == 0 { '0' }
    else if d == 1 { '1' }
    else if d == 2 { '2' }
    else if d == 3 { '3' }
    else if d == 4 { '4' }
    else if d == 5 { '5' }
    else if d == 6 { '6' }
    else if d == 7 { '7' }
    else if d == 8 { '8' }
    else { '9' }
}

/// Number of decimal digits of `n`.
pub fn decimal_len(n: u64) -> (len: usize)
    ensures
        len == decimal(n as nat).len(),
    decreases n,
{
    if n < 10 {
        1
    } else {
        let l = decimal_len(n / 10);
        proof {
            assert(decimal(n as nat).len() == decimal((n / 10) as nat).len() + 1);
            lemma_decimal_len_bound(n as nat);
        }
        l + 1
    }
}

pub proof fn lemma_digit_char(d: nat)
    ensures
        digit_value(digit_char(d)) == d % 10,
        is_digit(digit_char(d)),
{
    let x = (d % 10) + '0' as nat;
    assert(x < 58);
    assert((x as char) as u32 == x);
}

pub proof fn lemma_decimal_len_pow(n: nat, k: nat)
    requires
        n < pow10(k),
        k >= 1,
    ensures
        decimal(n).len() <= k,
    decreases n,
{
    if n >= 10 {
        assert(k >= 2) by {
            if k == 1 {
                assert(pow10(1) == 10) by {
                    reveal_with_fuel(pow10, 2);
                }
            }
        }
        assert(n / 10 < pow10((k - 1) as nat));
        lemma_decimal_len_pow(n / 10, (k - 1) as nat);
    }
}

pub proof fn lemma_decimal_len_bound(n: nat)
    requires
        n <= u64::MAX,
    ensures
        decimal(n).len() <= 20,
{
    assert(pow10(20) == 100000000000000000000nat) by {
        reveal_with_fuel(pow10, 21);
    }
    lemma_decimal_len_pow(n, 20);
}

/// Appends `format!("{:0width$}", n)`.
pub fn push_padded(out: &mut String, n: u64, width: usize)
    ensures
        final(out)@ == old(out)@ + zero_padded(n as nat, width as nat),
{
    let len = decimal_len(n);
    let ghost init = out@;
    if len < width {
        let mut i = len;
        while i < width
            invariant
                len <= i <= width,
                out@ == init + Seq::new((i - len) as nat, |k: int| '0'),
            decreases width - i,
        {
            push_char(out, '0');
            assert(Seq::new((i + 1 - len) as nat, |k: int| '0') == Seq::new(
                (i - len) as nat,
                |k: int| '0',
            ).push('0'));
            i = i + 1;
        }
    }
    push_decimal(out, n);
    proof {
        if len < width {
            assert(init + Seq::new((width - len) as nat, |k: int| '0') + decimal(n as nat)
                == init + (Seq::new((width - len) as nat, |k: int| '0') + decimal(n as nat)));
        }
    }
}

} // verus!

verus! {

/// `s.split(sep)`: the pieces between separators, always at least one.
pub open spec fn split_on(s: Seq<char>, sep: char) -> Seq<Seq<char>>
    decreases s.len(),
{
    if s.len() == 0 {
        seq![Seq::<char>::empty()]
    } else {
        let init = split_on(s.drop_last(), sep);
        if s.last() == sep {
            init.push(Seq::<char>::empty())
        } else {
            init.update(init.len() - 1, init.last().push(s.last()))
        }
    }
}

pub proof fn lemma_split_on_len(s: Seq<char>, sep: char)
    ensures
        split_on(s, sep).len() >= 1,
        split_on(s, sep).len() <= s.len() + 1,
    decreases s.len(),
{
    if s.len() > 0 {
        lemma_split_on_len(s.drop_last(), sep);
    }
}

/// Boundaries `(start, end)` of the pieces of `cs` between occurrences of `sep`.
pub fn split_bounds(cs: &Vec<char>, sep: char) -> (out: Vec<(usize, usize)>)
    ensures
        out.len() == split_on(cs@, sep).len(),
        forall|k: int|
            0 <= k < out.len() ==> {
                &&& (#[trigger] out[k]).0 <= out[k].1 <= cs.len()
                &&& cs@.subrange(out[k].0 as int, out[k].1 as int) == split_on(cs@, sep)[k]
                &&& !has_char(split_on(cs@, sep)[k], sep)
            },
{
    let mut out: Vec<(usize, usize)> = Vec::new();
    let mut start: usize = 0;
    let mut i: usize = 0;
    while i < cs.len()
        invariant
            start <= i <= cs.len(),
            out.len() + 1 == split_on(cs@.take(i as int), sep).len(),
            forall|k: int|
                0 <= k < out.len() ==> {
                    &&& (#[trigger] out[k]).0 <= out[k].1 <= start
                    &&& cs@.subrange(out[k].0 as int, out[k].1 as int) == split_on(
                        cs@.take(i as int),
                        sep,
                    )[k]
                },
            cs@.subrange(start as int, i as int) == split_on(cs@.take(i as int), sep).last(),
            forall|k: int|
                0 <= k < split_on(cs@.take(i as int), sep).len() ==> !has_char(
                    #[trigger] split_on(cs@.take(i as int), sep)[k],
                    sep,
                ),
        decreases cs.len() - i,
    {
        let ghost prev = split_on(cs@.take(i as int), sep);
        assert(cs@.take(i + 1).drop_last() == cs@.take(i as int));
        assert(cs@.take(i + 1).last() == cs@[i as int]);
        if cs[i] == sep {
            out.push((start, i));
            start = i + 1;
            proof {
                let next = split_on(cs@.take(i + 1), sep);
                assert(next == prev.push(Seq::<char>::empty()));
                assert(cs@.subrange(start as int, i + 1) =~= Seq::<char>::empty());
                assert forall|k: int| 0 <= k < next.len() implies !has_char(#[trigger] next[k], sep) by {
                    if k < prev.len() {
                        assert(next[k] == prev[k]);
                    }
                }
            }
        } else {
            proof {
                let next = split_on(cs@.take(i + 1), sep);
                assert(next == prev.update(prev.len() - 1, prev.last().push(cs@[i as int])));
                assert(cs@.subrange(start as int, i + 1) == cs@.subrange(start as int, i as int).push(cs@[i as int]));
                assert forall|k: int| 0 <= k < next.len() implies !has_char(#[trigger] next[k], sep) by {
                    if k < prev.len() - 1 {
                        assert(next[k] == prev[k]);
                    } else {
                        assert(next[k] == prev.last().push(cs@[i as int]));
                        if has_char(next[k], sep) {
                            let j = choose|j: int| 0 <= j < next[k].len() && next[k][j] == sep;
                            if j < prev.last().len() {
                                assert(prev.last()[j] == sep);
                                assert(has_char(prev[prev.len() - 1], sep));
                            }
                        }
                    }
                }
            }
        }
        i = i + 1;
    }
    out.push((start, i));
    assert(cs@.take(i as int) == cs@);
    out
}

} // verus!

verus! {

pub proof fn lemma_trim_start_at(t: Seq<char>, k: int)
    requires
        0 <= k <= t.len(),
        forall|i: int| 0 <= i < k ==> is_ws(#[trigger] t[i]),
        k == t.len() || !is_ws(t[k]),
    ensures
        trim_start(t) == t.skip(k),
    decreases k,
{
    if k > 0 {
        let d = t.drop_first();
        assert forall|i: int| 0 <= i < k - 1 implies is_ws(#[trigger] d[i]) by {
            assert(d[i] == t[i + 1]);
        }
        if k - 1 < d.len() {
            assert(d[k - 1] == t[k]);
        }
        lemma_trim_start_at(d, k - 1);
        assert(d.skip(k - 1) == t.skip(k));
    } else {
        assert(t.skip(0) == t);
    }
}

pub proof fn lemma_trim_end_at(t: Seq<char>, k: int)
    requires
        0 <= k <= t.len(),
        forall|i: int| k <= i < t.len() ==> is_ws(#[trigger] t[i]),
        k == 0 || !is_ws(t[k - 1]),
    ensures
        trim_end(t) == t.take(k),
    decreases t.len() - k,
{
    if k < t.len() {
        let d = t.drop_last();
        assert forall|i: int| k <= i < d.len() implies is_ws(#[trigger] d[i]) by {
            assert(d[i] == t[i]);
        }
        if k > 0 {
            assert(d[k - 1] == t[k - 1]);
        }
        lemma_trim_end_at(d, k);
        assert(d.take(k) == t.take(k));
    } else {
        assert(t.take(k) == t);
    }
}

/// Bounds of `trim(cs[s..e])` inside `cs`.
pub fn trim_bounds(cs: &Vec<char>, s: usize, e: usize) -> (r: (usize, usize))
    requires
        s <= e <= cs.len(),
    ensures
        s <= r.0 <= r.1 <= e,
        cs@.subrange(r.0 as int, r.1 as int) == trim(cs@.subrange(s as int, e as int)),
{
    let ghost t = cs@.subrange(s as int, e as int);
    let mut a = s;
    while a < e && is_ws_exec(cs[a])
        invariant
            s <= a <= e <= cs.len(),
            forall|i: int| s <= i < a ==> is_ws(#[trigger] cs@[i]),
        decreases e - a,
    {
        a = a + 1;
    }
    proof {
        assert forall|i: int| 0 <= i < a - s implies is_ws(#[trigger] t[i]) by {
            assert(t[i] == cs@[s + i]);
        }
        if a < e {
            assert(t[a - s] == cs@[a as int]);
        }
        lemma_trim_start_at(t, a - s);
        assert(t.skip(a - s) == cs@.subrange(a as int, e as int));
    }
    let ghost u = cs@.subrange(a as int, e as int);
    let mut b = e;
    while b > a && is_ws_exec(cs[b - 1])
        invariant
            a <= b <= e <= cs.len(),
            forall|i: int| b <= i < e ==> is_ws(#[trigger] cs@[i]),
        decreases b - a,
    {
        b = b - 1;
    }
    proof {
        assert forall|i: int| b - a <= i < u.len() implies is_ws(#[trigger] u[i]) by {
            assert(u[i] == cs@[a + i]);
        }
        if b > a {
            assert(u[b - a - 1] == cs@[b - 1]);
        }
        lemma_trim_end_at(u, b - a);
        assert(u.take(b - a) == cs@.subrange(a as int, b as int));
    }
    (a, b)
}

/// Whether `cs[s..e]` equals `lit`.
pub fn range_eq(cs: &Vec<char>, s: usize, e: usize, lit: &Vec<char>) -> (b: bool)
    requires
        s <= e <= cs.len(),
    ensures
        b == (cs@.subrange(s as int, e as int) == lit@),
{
    if e - s != lit.len() {
        return false;
    }
    let mut i: usize = 0;
    while i < lit.len()
        invariant
            e - s == lit.len(),
            s <= e <= cs.len(),
            i <= lit.len(),
            forall|k: int| 0 <= k < i ==> cs@[s + k] == lit@[k],
        decreases lit.len() - i,
    {
        if cs[s + i] != lit[i] {
            proof {
                assert(cs@.subrange(s as int, e as int)[i as int] == cs@[s + i]);
            }
            return false;
        }
        i = i + 1;
    }
    assert(cs@.subrange(s as int, e as int) =~= lit@);
    true
}

/// Whether `cs[s..e]` starts with `lit`.
pub fn range_starts_with(cs: &Vec<char>, s: usize, e: usize, lit: &Vec<char>) -> (b: bool)
    requires
        s <= e <= cs.len(),
    ensures
        b == starts_with(cs@.subrange(s as int, e as int), lit@),
{
    if e - s < lit.len() {
        return false;
    }
    let r = range_eq(cs, s, s + lit.len(), lit);
    assert(cs@.subrange(s as int, e as int).subrange(0, lit@.len() as int) == cs@.subrange(
        s as int,
        s + lit.len(),
    ));
    r
}

/// Whether `cs[s..e]` contains `c`.
pub fn range_has_char(cs: &Vec<char>, s: usize, e: usize, c: char) -> (b: bool)
    requires
        s <= e <= cs.len(),
    ensures
        b == has_char(cs@.subrange(s as int, e as int), c),
{
    let mut i = s;
    while i < e
        invariant
            s <= i <= e <= cs.len(),
            forall|k: int| s <= k < i ==> cs@[k] != c,
        decreases e - i,
    {
        if cs[i] == c {
            assert(cs@.subrange(s as int, e as int)[i - s] == c);
            return true;
        }
        i = i + 1;
    }
    assert forall|k: int| 0 <= k < e - s implies cs@.subrange(s as int, e as int)[k] != c by {
        assert(cs@.subrange(s as int, e as int)[k] == cs@[s + k]);
    }
    false
}

} // verus!

verus! {

/// A copy of `cs[s..e]`.
pub fn vec_range(cs: &Vec<char>, s: usize, e: usize) -> (out: Vec<char>)
    requires
        s <= e <= cs.len(),
    ensures
        out@ == cs@.subrange(s as int, e as int),
{
    let mut out: Vec<char> = Vec::new();
    let mut i = s;
    while i < e
        invariant
            s <= i <= e <= cs.len(),
            out@ == cs@.subrange(s as int, i as int),
        decreases e - i,
    {
        out.push(cs[i]);
        assert(cs@.subrange(s as int, i + 1) == cs@.subrange(s as int, i as int).push(cs@[i as int]));
        i = i + 1;
    }
    out
}

/// Whether `utf8_len(cs[s..e]) > limit`.
pub fn range_utf8_len_exceeds(cs: &Vec<char>, s: usize, e: usize, limit: usize) -> (b: bool)
    requires
        s <= e <= cs.len(),
        limit < usize::MAX - 4,
    ensures
        b == (utf8_len(cs@.subrange(s as int, e as int)) > limit),
{
    let mut total: usize = 0;
    let mut i = s;
    while i < e
        invariant
            s <= i <= e <= cs.len(),
            limit < usize::MAX - 4,
            total == utf8_len(cs@.subrange(s as int, i as int)),
            total <= limit,
        decreases e - i,
    {
        let c = cs[i];
        let w: usize = if (c as u32) < 0x80 {
            1
        } else if (c as u32) < 0x800 {
            2
        } else if (c as u32) < 0x10000 {
            3
        } else {
            4
        };
        assert(cs@.subrange(s as int, i + 1).drop_last() == cs@.subrange(s as int, i as int));
        assert(cs@.subrange(s as int, i + 1).last() == c);
        total = total + w;
        i = i + 1;
        if total > limit {
            proof {
                lemma_utf8_len_prefix(cs@.subrange(s as int, e as int), i - s);
                assert(cs@.subrange(s as int, e as int).take(i - s) == cs@.subrange(s as int, i as int));
            }
            return true;
        }
    }
    false
}

/// The UTF-8 length of a prefix never exceeds that of the whole.
pub proof fn lemma_utf8_len_prefix(s: Seq<char>, k: int)
    requires
        0 <= k <= s.len(),
    ensures
        utf8_len(s.take(k)) <= utf8_len(s),
    decreases s.len(),
{
    if k < s.len() {
        lemma_utf8_len_prefix(s.drop_last(), k);
        assert(s.drop_last().take(k) == s.take(k));
    } else {
        assert(s.take(k) == s);
    }
}

} // verus!

verus! {

/// Text equality of two string slices.
pub fn str_eq(a: &str, b: &str) -> (r: bool)
    ensures
        r == (a@ == b@),
{
    let x = chars_of(a);
    let y = chars_of(b);
    assert(x@.subrange(0, x.len() as int) == x@);
    range_eq(&x, 0, x.len(), &y)
}

} // verus!
