//! Natural order of file names: runs of digits compare by their numeric value.

use std::cmp::Ordering;
use vstd::prelude::*;

verus! {

/// How one text stands to another.
#[derive(Clone, Copy, Debug, PartialEq, Eq, Structural)]
pub enum Rel {
    Less,
    Equal,
    Greater,
}

pub open spec fn ascii_digit(c: char) -> bool {
    '0' <= c && c <= '9'
}

/// Length of the run of ASCII digits that starts `s`.
pub open spec fn digit_run(s: Seq<char>) -> int
    decreases s.len(),
{
    if s.len() > 0 && ascii_digit(s[0]) {
        1 + digit_run(s.drop_first())
    } else {
        0
    }
}

/// `s` without its leading zeros.
pub open spec fn strip_zeros(s: Seq<char>) -> Seq<char>
    decreases s.len(),
{
    if s.len() > 0 && s[0] == '0' {
        strip_zeros(s.drop_first())
    } else {
        s
    }
}

pub open spec fn order_of_nats(a: nat, b: nat) -> Rel {
    if a < b {
        Rel::Less
    } else if a > b {
        Rel::Greater
    } else {
        Rel::Equal
    }
}

/// Character-by-character order (a prefix comes first).
pub open spec fn lex_order(a: Seq<char>, b: Seq<char>) -> Rel
    decreases a.len(),
{
    if a.len() == 0 && b.len() == 0 {
        Rel::Equal
    } else if a.len() == 0 {
        Rel::Less
    } else if b.len() == 0 {
        Rel::Greater
    } else if a[0] < b[0] {
        Rel::Less
    } else if a[0] > b[0] {
        Rel::Greater
    } else {
        lex_order(a.drop_first(), b.drop_first())
    }
}

/// How two digit runs compare: fewer significant digits first, then digit by digit,
/// then fewer leading zeros first.
pub open spec fn number_order(an: Seq<char>, bn: Seq<char>) -> Rel {
    let az = strip_zeros(an);
    let bz = strip_zeros(bn);
    let by_len = order_of_nats(az.len(), bz.len());
    if by_len != Rel::Equal {
        by_len
    } else {
        let by_digits = lex_order(az, bz);
        if by_digits != Rel::Equal {
            by_digits
        } else {
            order_of_nats(an.len(), bn.len())
        }
    }
}

/// Natural order: where both texts continue with digits, the digit runs compare as
/// numbers (see `number_order`); elsewhere characters compare one by one; a text that
/// ends first comes first.
pub open spec fn natural_order(a: Seq<char>, b: Seq<char>) -> Rel
    decreases a.len() + b.len(),
{
    if a.len() == 0 && b.len() == 0 {
        Rel::Equal
    } else if a.len() == 0 {
        Rel::Less
    } else if b.len() == 0 {
        Rel::Greater
    } else if ascii_digit(a[0]) && ascii_digit(b[0]) {
        let na = digit_run(a);
        let nb = digit_run(b);
        let o = number_order(a.take(na), b.take(nb));
        if o != Rel::Equal {
            o
        } else {
            proof {
                lemma_digit_run_bounds(a);
                lemma_digit_run_bounds(b);
            }
            natural_order(a.skip(na), b.skip(nb))
        }
    } else if a[0] < b[0] {
        Rel::Less
    } else if a[0] > b[0] {
        Rel::Greater
    } else {
        natural_order(a.drop_first(), b.drop_first())
    }
}

pub proof fn lemma_digit_run_bounds(s: Seq<char>)
    ensures
        digit_run(s) <= s.len(),
        s.len() > 0 && ascii_digit(s[0]) ==> digit_run(s) >= 1,
        forall|i: int| 0 <= i < digit_run(s) ==> ascii_digit(#[trigger] s[i]),
        digit_run(s) < s.len() ==> !ascii_digit(s[digit_run(s)]),
    decreases s.len(),
{
    if s.len() > 0 && ascii_digit(s[0]) {
        lemma_digit_run_bounds(s.drop_first());
        assert forall|i: int| 0 <= i < digit_run(s) implies ascii_digit(#[trigger] s[i]) by {
            if i > 0 {
                assert(s[i] == s.drop_first()[i - 1]);
            }
        }
    }
}

pub open spec fn flip(o: Rel) -> Rel {
    match o {
        Rel::Less => Rel::Greater,
        Rel::Greater => Rel::Less,
        Rel::Equal => Rel::Equal,
    }
}

proof fn lemma_lex_flip(a: Seq<char>, b: Seq<char>)
    ensures
        lex_order(a, b) == flip(lex_order(b, a)),
        lex_order(a, a) == Rel::Equal,
    decreases a.len(),
{
    if a.len() > 0 && b.len() > 0 && a[0] == b[0] {
        lemma_lex_flip(a.drop_first(), b.drop_first());
    }
    if a.len() > 0 {
        lemma_lex_flip(a.drop_first(), a.drop_first());
    }
}

/// Every text is equal to itself in natural order.
pub proof fn lemma_natural_order_reflexive(a: Seq<char>)
    ensures
        natural_order(a, a) == Rel::Equal,
    decreases a.len(),
{
    lemma_digit_run_bounds(a);
    if a.len() > 0 {
        if ascii_digit(a[0]) {
            let na = digit_run(a);
            lemma_lex_flip(strip_zeros(a.take(na)), strip_zeros(a.take(na)));
            lemma_natural_order_reflexive(a.skip(na));
        } else {
            lemma_natural_order_reflexive(a.drop_first());
        }
    }
}

/// Natural order is antisymmetric: swapping the texts reverses it.
pub proof fn lemma_natural_order_flips(a: Seq<char>, b: Seq<char>)
    ensures
        natural_order(a, b) == flip(natural_order(b, a)),
    decreases a.len() + b.len(),
{
    lemma_digit_run_bounds(a);
    lemma_digit_run_bounds(b);
    if a.len() > 0 && b.len() > 0 {
        if ascii_digit(a[0]) && ascii_digit(b[0]) {
            let na = digit_run(a);
            let nb = digit_run(b);
            lemma_lex_flip(strip_zeros(a.take(na)), strip_zeros(b.take(nb)));
            lemma_natural_order_flips(a.skip(na), b.skip(nb));
        } else if a[0] == b[0] {
            lemma_natural_order_flips(a.drop_first(), b.drop_first());
        }
    }
}


/// End of the digit run of `cs` that starts at `i`.
fn digit_run_end(cs: &Vec<char>, i: usize) -> (e: usize)
    requires
        i <= cs.len(),
    ensures
        i <= e <= cs.len(),
        e - i == digit_run(cs@.skip(i as int)),
{
    let mut e = i;
    while e < cs.len() && cs[e] >= '0' && cs[e] <= '9'
        invariant
            i <= e <= cs.len(),
            digit_run(cs@.skip(i as int)) == (e - i) + digit_run(cs@.skip(e as int)),
        decreases cs.len() - e,
    {
        assert(cs@.skip(e as int).drop_first() =~= cs@.skip(e + 1));
        e += 1;
    }
    e
}

/// First index in `[i, e)` that is not `0`, or `e`.
fn skip_zeros(cs: &Vec<char>, i: usize, e: usize) -> (z: usize)
    requires
        i <= e <= cs.len(),
    ensures
        i <= z <= e,
        strip_zeros(cs@.subrange(i as int, e as int)) == cs@.subrange(z as int, e as int),
{
    let mut z = i;
    while z < e && cs[z] == '0'
        invariant
            i <= z <= e <= cs.len(),
            strip_zeros(cs@.subrange(i as int, e as int)) == strip_zeros(cs@.subrange(z as int, e as int)),
        decreases e - z,
    {
        assert(cs@.subrange(z as int, e as int).drop_first() =~= cs@.subrange(z + 1, e as int));
        z += 1;
    }
    z
}

fn order_of(a: usize, b: usize) -> (o: Rel)
    ensures
        o == order_of_nats(a as nat, b as nat),
{
    if a < b {
        Rel::Less
    } else if a > b {
        Rel::Greater
    } else {
        Rel::Equal
    }
}

/// `lex_order` of `a[i..ie]` and `b[j..je]`, which have the same length.
fn lex_ranges(a: &Vec<char>, i: usize, ie: usize, b: &Vec<char>, j: usize, je: usize) -> (o: Rel)
    requires
        i <= ie <= a.len(),
        j <= je <= b.len(),
        ie - i == je - j,
    ensures
        o == lex_order(a@.subrange(i as int, ie as int), b@.subrange(j as int, je as int)),
{
    let mut x = i;
    let mut y = j;
    while x < ie
        invariant
            i <= x <= ie <= a.len(),
            j <= y <= je <= b.len(),
            ie - x == je - y,
            lex_order(a@.subrange(i as int, ie as int), b@.subrange(j as int, je as int)) == lex_order(
                a@.subrange(x as int, ie as int),
                b@.subrange(y as int, je as int),
            ),
        decreases ie - x,
    {
        if a[x] < b[y] {
            return Rel::Less;
        }
        if a[x] > b[y] {
            return Rel::Greater;
        }
        assert(a@.subrange(x as int, ie as int).drop_first() =~= a@.subrange(x + 1, ie as int));
        assert(b@.subrange(y as int, je as int).drop_first() =~= b@.subrange(y + 1, je as int));
        x += 1;
        y += 1;
    }
    Rel::Equal
}

/// How two texts stand in natural order (see `natural_order`).
pub fn natural_rel(left: &str, right: &str) -> (o: Rel)
    ensures
        o == natural_order(left@, right@),
{
    let a = crate::text::chars_of(left);
    let b = crate::text::chars_of(right);
    let mut i: usize = 0;
    let mut j: usize = 0;
    assert(a@.skip(0) =~= a@);
    assert(b@.skip(0) =~= b@);
    loop
        invariant
            i <= a.len(),
            j <= b.len(),
            a@ == left@,
            b@ == right@,
            natural_order(left@, right@) == natural_order(a@.skip(i as int), b@.skip(j as int)),
        decreases a.len() - i + b.len() - j,
    {
        let ghost sa = a@.skip(i as int);
        let ghost sb = b@.skip(j as int);
        if i == a.len() && j == b.len() {
            return Rel::Equal;
        }
        if i == a.len() {
            return Rel::Less;
        }
        if j == b.len() {
            return Rel::Greater;
        }
        let x = a[i];
        let y = b[j];
        assert(sa[0] == x && sb[0] == y);
        if x >= '0' && x <= '9' && y >= '0' && y <= '9' {
            let ie = digit_run_end(&a, i);
            let je = digit_run_end(&b, j);
            proof {
                assert(sa.take(ie - i) =~= a@.subrange(i as int, ie as int));
                assert(sb.take(je - j) =~= b@.subrange(j as int, je as int));
                assert(sa.skip(ie - i) =~= a@.skip(ie as int));
                assert(sb.skip(je - j) =~= b@.skip(je as int));
            }
            let zi = skip_zeros(&a, i, ie);
            let zj = skip_zeros(&b, j, je);
            let by_len = order_of(ie - zi, je - zj);
            if by_len != Rel::Equal {
                return by_len;
            }
            let by_digits = lex_ranges(&a, zi, ie, &b, zj, je);
            if by_digits != Rel::Equal {
                return by_digits;
            }
            let by_run = order_of(ie - i, je - j);
            if by_run != Rel::Equal {
                return by_run;
            }
            proof {
                lemma_digit_run_bounds(sa);
                lemma_digit_run_bounds(sb);
            }
            i = ie;
            j = je;
        } else {
            if x < y {
                return Rel::Less;
            }
            if x > y {
                return Rel::Greater;
            }
            assert(sa.drop_first() =~= a@.skip(i + 1));
            assert(sb.drop_first() =~= b@.skip(j + 1));
            i += 1;
            j += 1;
        }
    }
}


/// Ten to the power `n`.
pub open spec fn pow10(n: nat) -> nat
    decreases n,
{
    if n == 0 {
        1
    } else {
        10 * pow10((n - 1) as nat)
    }
}

/// Every character of `s` is an ASCII digit.
pub open spec fn all_ascii_digits(s: Seq<char>) -> bool {
    forall|i: int| 0 <= i < s.len() ==> ascii_digit(#[trigger] s[i])
}

/// The number that the digits `s` write (leading zeros allowed).
pub open spec fn decimal_value(s: Seq<char>) -> nat {
    crate::text::digits_value(s)
}

proof fn lemma_pow10_positive(n: nat)
    ensures
        pow10(n) >= 1,
    decreases n,
{
    if n > 0 {
        lemma_pow10_positive((n - 1) as nat);
    }
}

proof fn lemma_pow10_monotone(m: nat, n: nat)
    requires
        m <= n,
    ensures
        pow10(m) <= pow10(n),
    decreases n,
{
    if m < n {
        lemma_pow10_monotone(m, (n - 1) as nat);
        lemma_pow10_positive((n - 1) as nat);
    }
}

proof fn lemma_digit_small(c: char)
    requires
        ascii_digit(c),
    ensures
        crate::text::digit_value(c) <= 9,
        crate::text::digit_value(c) == 0 <==> c == '0',
{
}

/// A run of `n` digits writes a number below ten to the `n`.
proof fn lemma_value_below(s: Seq<char>)
    requires
        all_ascii_digits(s),
    ensures
        decimal_value(s) < pow10(s.len()),
    decreases s.len(),
{
    if s.len() > 0 {
        let t = s.drop_last();
        lemma_value_below(t);
        lemma_digit_small(s.last());
        let v = crate::text::digits_value(t);
        let d = crate::text::digit_value(s.last());
        let p = pow10(t.len());
        assert(v * 10 + d < 10 * p) by (nonlinear_arith)
            requires
                v < p,
                d <= 9,
        ;
    }
}

/// The value of digits read from the front: the first digit counts ten to the power of
/// the number of digits after it.
proof fn lemma_value_front(s: Seq<char>)
    requires
        s.len() > 0,
    ensures
        decimal_value(s) == crate::text::digit_value(s[0]) * pow10((s.len() - 1) as nat) + decimal_value(s.drop_first()),
    decreases s.len(),
{
    let d0 = crate::text::digit_value(s[0]);
    if s.len() == 1 {
        assert(s.drop_last().len() == 0);
        assert(s.drop_first().len() == 0);
        assert(s.last() == s[0]);
        assert(crate::text::digits_value(s.drop_last()) == 0);
        assert(crate::text::digits_value(s.drop_first()) == 0);
        assert(pow10(0) == 1);
        assert(d0 * 1 == d0);
        assert(crate::text::digits_value(s) == crate::text::digits_value(s.drop_last()) * 10 + crate::text::digit_value(s.last()));
    } else {
        let t = s.drop_last();
        lemma_value_front(t);
        assert(t[0] == s[0]);
        assert(t.drop_first() =~= s.drop_first().drop_last());
        assert(s.drop_first().last() == s.last());
        let p = pow10((t.len() - 1) as nat);
        let r = crate::text::digits_value(t.drop_first());
        let dl = crate::text::digit_value(s.last());
        assert((d0 * p + r) * 10 + dl == d0 * (10 * p) + (r * 10 + dl)) by (nonlinear_arith);
        assert(crate::text::digits_value(s) == crate::text::digits_value(t) * 10 + dl);
        assert(crate::text::digits_value(s.drop_first()) == crate::text::digits_value(s.drop_first().drop_last()) * 10 + dl);
        assert(pow10((s.len() - 1) as nat) == 10 * p);
    }
}

/// Digits of the same length compare by value as they compare character by character.
proof fn lemma_lex_value(x: Seq<char>, y: Seq<char>)
    requires
        all_ascii_digits(x),
        all_ascii_digits(y),
        x.len() == y.len(),
    ensures
        lex_order(x, y) == Rel::Less ==> decimal_value(x) < decimal_value(y),
        lex_order(x, y) == Rel::Greater ==> decimal_value(x) > decimal_value(y),
        lex_order(x, y) == Rel::Equal ==> decimal_value(x) == decimal_value(y),
    decreases x.len(),
{
    if x.len() > 0 {
        let n = (x.len() - 1) as nat;
        let p = pow10(n);
        lemma_value_front(x);
        lemma_value_front(y);
        lemma_value_below(x.drop_first());
        lemma_value_below(y.drop_first());
        assert(all_ascii_digits(x.drop_first()));
        assert(all_ascii_digits(y.drop_first()));
        let dx = crate::text::digit_value(x[0]);
        let dy = crate::text::digit_value(y[0]);
        let rx = decimal_value(x.drop_first());
        let ry = decimal_value(y.drop_first());
        if x[0] < y[0] {
            assert(dx < dy);
            assert(dx * p + rx < dy * p + ry) by (nonlinear_arith)
                requires
                    dx < dy,
                    rx < p,
            ;
        } else if x[0] > y[0] {
            assert(dx > dy);
            assert(dx * p + rx > dy * p + ry) by (nonlinear_arith)
                requires
                    dx > dy,
                    ry < p,
            ;
        } else {
            lemma_lex_value(x.drop_first(), y.drop_first());
        }
    }
}

/// Leading zeros change no value; what is left is digits, and starts with a nonzero digit.
proof fn lemma_strip_zeros_value(s: Seq<char>)
    requires
        all_ascii_digits(s),
    ensures
        decimal_value(strip_zeros(s)) == decimal_value(s),
        all_ascii_digits(strip_zeros(s)),
        strip_zeros(s).len() > 0 ==> strip_zeros(s)[0] != '0',
        strip_zeros(s).len() <= s.len(),
    decreases s.len(),
{
    if s.len() > 0 && s[0] == '0' {
        lemma_value_front(s);
        assert(all_ascii_digits(s.drop_first()));
        lemma_strip_zeros_value(s.drop_first());
        assert(crate::text::digit_value(s[0]) == 0);
        let p = pow10((s.len() - 1) as nat);
        assert(0 * p == 0) by (nonlinear_arith);
    }
}

/// Digits starting with a nonzero digit write at least ten to the power of one less
/// than their number.
proof fn lemma_value_at_least(s: Seq<char>)
    requires
        all_ascii_digits(s),
        s.len() > 0,
        s[0] != '0',
    ensures
        decimal_value(s) >= pow10((s.len() - 1) as nat),
{
    lemma_value_front(s);
    lemma_digit_small(s[0]);
    let d = crate::text::digit_value(s[0]);
    let p = pow10((s.len() - 1) as nat);
    assert(d * p >= p) by (nonlinear_arith)
        requires
            d >= 1,
    ;
}

/// Two runs of digits compare by their values: a run that writes a smaller number comes
/// first, whatever the leading zeros; of two that write the same number, the shorter.
proof fn lemma_number_order_by_value(a: Seq<char>, b: Seq<char>)
    requires
        all_ascii_digits(a),
        all_ascii_digits(b),
    ensures
        decimal_value(a) < decimal_value(b) ==> number_order(a, b) == Rel::Less,
        decimal_value(a) == decimal_value(b) ==> number_order(a, b) == order_of_nats(a.len(), b.len()),
{
    let az = strip_zeros(a);
    let bz = strip_zeros(b);
    lemma_strip_zeros_value(a);
    lemma_strip_zeros_value(b);
    if az.len() > bz.len() {
        lemma_value_at_least(az);
        lemma_value_below(bz);
        lemma_pow10_monotone(bz.len(), (az.len() - 1) as nat);
    } else if az.len() < bz.len() {
        lemma_value_at_least(bz);
        lemma_value_below(az);
        lemma_pow10_monotone(az.len(), (bz.len() - 1) as nat);
    } else {
        lemma_lex_value(az, bz);
    }
}

proof fn lemma_digit_run_of_run(a: Seq<char>, x: Seq<char>)
    requires
        all_ascii_digits(a),
        x.len() == 0 || !ascii_digit(x[0]),
    ensures
        digit_run(a + x) == a.len(),
    decreases a.len(),
{
    if a.len() > 0 {
        assert((a + x).drop_first() =~= a.drop_first() + x);
        assert(all_ascii_digits(a.drop_first()));
        lemma_digit_run_of_run(a.drop_first(), x);
    } else {
        assert(a + x =~= x);
    }
}

/// Numbers in names sort by value: where two names share a start without digits, then
/// hold runs of digits (ended by the end of the name or by a character that is not a
/// digit), the name whose run writes the smaller number comes first in natural order,
/// whatever follows; when both write the same number, the run with fewer leading zeros
/// comes first. So `img12.jpg` comes before `img21.jpg`, `x9` before `x10`, and `x1`
/// before `x01`.
pub proof fn lemma_natural_order_by_number(p: Seq<char>, a: Seq<char>, x: Seq<char>, b: Seq<char>, y: Seq<char>)
    requires
        forall|i: int| 0 <= i < p.len() ==> !ascii_digit(#[trigger] p[i]),
        a.len() > 0,
        b.len() > 0,
        all_ascii_digits(a),
        all_ascii_digits(b),
        x.len() == 0 || !ascii_digit(x[0]),
        y.len() == 0 || !ascii_digit(y[0]),
        decimal_value(a) < decimal_value(b) || (decimal_value(a) == decimal_value(b) && a.len() < b.len()),
    ensures
        natural_order(p + a + x, p + b + y) == Rel::Less,
    decreases p.len(),
{
    if p.len() > 0 {
        assert((p + a + x).drop_first() =~= p.drop_first() + a + x);
        assert((p + b + y).drop_first() =~= p.drop_first() + b + y);
        assert((p + a + x)[0] == p[0]);
        assert((p + b + y)[0] == p[0]);
        lemma_natural_order_by_number(p.drop_first(), a, x, b, y);
    } else {
        let s = p + a + x;
        let t = p + b + y;
        assert(s =~= a + x);
        assert(t =~= b + y);
        lemma_digit_run_of_run(a, x);
        lemma_digit_run_of_run(b, y);
        assert(s.take(a.len() as int) =~= a);
        assert(t.take(b.len() as int) =~= b);
        assert(s[0] == a[0]);
        assert(t[0] == b[0]);
        lemma_number_order_by_value(a, b);
    }
}

pub open spec fn ordering_of(r: Rel) -> Ordering {
    match r {
        Rel::Less => Ordering::Less,
        Rel::Equal => Ordering::Equal,
        Rel::Greater => Ordering::Greater,
    }
}

/// Compares two texts in natural order (see `natural_order`).
pub fn natural_cmp(left: &str, right: &str) -> (o: Ordering)
    ensures
        o == ordering_of(natural_order(left@, right@)),
{
    match natural_rel(left, right) {
        Rel::Less => Ordering::Less,
        Rel::Equal => Ordering::Equal,
        Rel::Greater => Ordering::Greater,
    }
}

} // verus!
