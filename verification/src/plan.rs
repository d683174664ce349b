//! The plan file: generation, line-oriented parsing, header checks, hashes and
//! classification of the edited entries into operations.

use crate::model::{ManifestEntry, OpKind, Operation, SessionMode};
use crate::text::{
    all_digits, chars_of, decimal, digits_value, has_char, is_digit, push_decimal, push_str,
    range_eq, range_has_char, range_starts_with, split_bounds, split_on, starts_with, string_from,
    parse_u64, push_padded, range_utf8_len_exceeds, trim, trim_bounds, utf8_len, vec_range,
    zero_padded,
};
use vstd::prelude::*;
use vstd::string::StringSliceAdditionalSpecFns;

verus! {

pub const MAX_FILE_BYTES: usize = 32 * 1024 * 1024;

pub const MAX_LINE_BYTES: usize = 64 * 1024;

pub const MAX_LINES: usize = 200_000;

pub const MAX_DEST_BYTES: usize = 4096;

/// Why a plan was rejected.
#[derive(Clone, Copy, Debug, PartialEq, Eq, Structural)]
pub enum PlanErrorCode {
    PlanTooLarge,
    Cr,
    TooManyLines,
    LineTooLong,
    FrontMatter,
    DuplicateId,
    DestTooLong,
    BadDest,
    UnknownId,
}

impl PlanErrorCode {
    /// The short machine-readable code.
    pub fn as_str(&self) -> (s: &'static str)
        ensures
            s@ == (match self {
                PlanErrorCode::PlanTooLarge => "plan-too-large"@,
                PlanErrorCode::Cr => "cr"@,
                PlanErrorCode::TooManyLines => "too-many-lines"@,
                PlanErrorCode::LineTooLong => "line-too-long"@,
                PlanErrorCode::FrontMatter => "front-matter"@,
                PlanErrorCode::DuplicateId => "duplicate-id"@,
                PlanErrorCode::DestTooLong => "dest-too-long"@,
                PlanErrorCode::BadDest => "bad-dest"@,
                PlanErrorCode::UnknownId => "unknown-id"@,
            }),
    {
        match self {
            PlanErrorCode::PlanTooLarge => "plan-too-large",
            PlanErrorCode::Cr => "cr",
            PlanErrorCode::TooManyLines => "too-many-lines",
            PlanErrorCode::LineTooLong => "line-too-long",
            PlanErrorCode::FrontMatter => "front-matter",
            PlanErrorCode::DuplicateId => "duplicate-id",
            PlanErrorCode::DestTooLong => "dest-too-long",
            PlanErrorCode::BadDest => "bad-dest",
            PlanErrorCode::UnknownId => "unknown-id",
        }
    }
}

#[derive(Debug)]
pub struct PlanError {
    pub code: PlanErrorCode,
    pub message: String,
}

impl PlanError {
    fn new(code: PlanErrorCode, message: String) -> (e: PlanError)
        ensures
            e.code == code,
            e.message@ == message@,
    {
        PlanError { code, message }
    }
}

#[derive(Clone, Debug)]
pub struct PlanHeader {
    pub remodeco: u64,
    pub id: String,
    pub root: String,
}

#[derive(Clone, Copy, Debug, PartialEq, Eq, Structural)]
pub enum BulletKind {
    Trash,
    Destination,
}

#[derive(Clone, Debug)]
pub struct ParsedBullet {
    pub id: u64,
    pub destination: String,
    pub kind: BulletKind,
    pub line: usize,
}

#[derive(Clone, Debug)]
pub struct ParsedPlan {
    pub header: Option<PlanHeader>,
    pub bullets: Vec<ParsedBullet>,
    pub unknown_lines: Vec<(usize, String)>,
}

pub struct HeaderV {
    pub remodeco: u64,
    pub id: Seq<char>,
    pub root: Seq<char>,
}

pub struct BulletV {
    pub id: u64,
    pub destination: Seq<char>,
    pub kind: BulletKind,
    pub line: int,
}

pub struct PlanV {
    pub header: Option<HeaderV>,
    pub bullets: Seq<BulletV>,
    pub unknown: Seq<(int, Seq<char>)>,
}

impl View for PlanHeader {
    type V = HeaderV;

    open spec fn view(&self) -> HeaderV {
        HeaderV { remodeco: self.remodeco, id: self.id@, root: self.root@ }
    }
}

impl View for ParsedBullet {
    type V = BulletV;

    open spec fn view(&self) -> BulletV {
        BulletV { id: self.id, destination: self.destination@, kind: self.kind, line: self.line as int }
    }
}

pub open spec fn unknown_view(u: (usize, String)) -> (int, Seq<char>) {
    (u.0 as int, u.1@)
}

impl View for ParsedPlan {
    type V = PlanV;

    open spec fn view(&self) -> PlanV {
        PlanV {
            header: match self.header {
                Some(h) => Some(h@),
                None => None,
            },
            bullets: self.bullets@.map_values(|b: ParsedBullet| b@),
            unknown: self.unknown_lines@.map_values(|u: (usize, String)| unknown_view(u)),
        }
    }
}

// ---------------------------------------------------------------------------
// Line classification.

pub open spec fn all_dashes(s: Seq<char>) -> bool {
    forall|i: int| 0 <= i < s.len() ==> #[trigger] s[i] == '-'
}

/// Blank lines, `---` rules, `#` comments, `>` quotes and `<!--` markers carry no entry.
pub open spec fn is_ignorable(line: Seq<char>) -> bool {
    let t = trim(line);
    ||| t.len() == 0
    ||| all_dashes(t)
    ||| starts_with(t, seq!['#'])
    ||| starts_with(t, seq!['>'])
    ||| starts_with(t, seq!['<', '!', '-', '-'])
}

/// End of the run of ASCII digits that starts at `k`.
pub open spec fn digit_run_end(s: Seq<char>, k: int) -> int
    decreases s.len() - k,
{
    if 0 <= k < s.len() && is_digit(s[k]) {
        digit_run_end(s, k + 1)
    } else {
        k
    }
}

/// A non-empty digit string that fits `u64`, and its value.
pub open spec fn digits_u64(s: Seq<char>) -> Option<u64> {
    if s.len() > 0 && all_digits(s) && digits_value(s) <= u64::MAX {
        Some(digits_value(s) as u64)
    } else {
        None
    }
}

/// `F<digits>` at the start of a line: the id and the index just after the digits.
pub open spec fn split_f_id(s: Seq<char>) -> Option<(u64, int)> {
    if s.len() > 0 && s[0] == 'F' {
        let d = digit_run_end(s, 1);
        match digits_u64(s.subrange(1, d)) {
            Some(id) => Some((id, d)),
            None => None,
        }
    } else {
        None
    }
}

/// `F<digits><tab>:<tab><destination>`.
pub open spec fn tab_colon_entry(s: Seq<char>) -> Option<(u64, Seq<char>)> {
    match split_f_id(s) {
        Some((id, d)) => if starts_with(s.skip(d), seq!['\t', ':', '\t']) {
            Some((id, s.skip(d + 3)))
        } else {
            None
        },
        None => None,
    }
}

/// Legacy `F<digits>: <destination>` or `F<digits>:`.
pub open spec fn colon_space_entry(s: Seq<char>) -> Option<(u64, Seq<char>)> {
    match split_f_id(s) {
        Some((id, d)) => if d < s.len() && s[d] == ':' {
            if d + 1 == s.len() {
                Some((id, Seq::<char>::empty()))
            } else if s[d + 1] == ' ' {
                Some((id, s.skip(d + 2)))
            } else {
                None
            }
        } else {
            None
        },
        None => None,
    }
}

/// First index `>= from` at which `pat` occurs in `s`.
pub open spec fn find_pat(s: Seq<char>, pat: Seq<char>, from: int) -> Option<int>
    decreases s.len() + 1 - from,
{
    if from < 0 || from + pat.len() > s.len() {
        None
    } else if s.subrange(from, from + pat.len()) == pat {
        Some(from)
    } else {
        find_pat(s, pat, from + 1)
    }
}

/// Legacy markdown ``- `{<digits>}`<tab><destination>``.
pub open spec fn markdown_entry(s: Seq<char>) -> Option<(u64, Seq<char>)> {
    if starts_with(s, seq!['-', ' ', '`', '{']) {
        let rest = s.skip(4);
        match find_pat(rest, seq!['}', '`', '\t'], 0) {
            Some(p) => match digits_u64(rest.take(p)) {
                Some(id) => Some((id, rest.skip(p + 3))),
                None => None,
            },
            None => None,
        }
    } else {
        None
    }
}

/// The entry a line holds, trying the current form first.
pub open spec fn entry_of(s: Seq<char>) -> Option<(u64, Seq<char>)> {
    match tab_colon_entry(s) {
        Some(e) => Some(e),
        None => match colon_space_entry(s) {
            Some(e) => Some(e),
            None => markdown_entry(s),
        },
    }
}

/// A path that fits on one plan line: no NUL, tab, CR or LF.
pub open spec fn line_safe(p: Seq<char>) -> bool {
    !has_char(p, '\0') && !has_char(p, '\t') && !has_char(p, '\r') && !has_char(p, '\n')
}

/// Absolute, not the root, no trailing slash, and no empty, `.` or `..` segment.
pub open spec fn abs_posix(p: Seq<char>) -> bool {
    &&& p.len() > 1
    &&& p[0] == '/'
    &&& p.last() != '/'
    &&& forall|k: int|
        0 <= k < split_on(p.skip(1), '/').len() ==> {
            let seg = #[trigger] split_on(p.skip(1), '/')[k];
            seg.len() > 0 && seg != seq!['.'] && seg != seq!['.', '.']
        }
}

} // verus!

verus! {

fn is_ignorable_range(cs: &Vec<char>, s: usize, e: usize) -> (b: bool)
    requires
        s <= e <= cs.len(),
    ensures
        b == is_ignorable(cs@.subrange(s as int, e as int)),
{
    let (ts, te) = trim_bounds(cs, s, e);
    let ghost t = cs@.subrange(ts as int, te as int);
    if ts == te {
        return true;
    }
    let mut i = ts;
    let mut dashes = true;
    while i < te
        invariant
            ts <= i <= te <= cs.len(),
            dashes == (forall|k: int| ts <= k < i ==> cs@[k] == '-'),
        decreases te - i,
    {
        if cs[i] != '-' {
            dashes = false;
        }
        i = i + 1;
    }
    proof {
        if dashes {
            assert forall|k: int| 0 <= k < t.len() implies #[trigger] t[k] == '-' by {
                assert(t[k] == cs@[ts + k]);
            }
        } else {
            let k = choose|k: int| ts <= k < te && cs@[k] != '-';
            assert(t[k - ts] == cs@[k]);
        }
        assert(t.subrange(0, 1) == seq![cs@[ts as int]]);
    }
    if dashes || cs[ts] == '#' || cs[ts] == '>' {
        return true;
    }
    let marker = chars_of("<!--");
    proof {
        reveal_strlit("<!--");
        assert(marker@ == seq!['<', '!', '-', '-']);
    }
    let r = range_starts_with(cs, ts, te, &marker);
    proof {
        assert(t == trim(cs@.subrange(s as int, e as int)));
        assert(t.len() > 0);
        assert(!all_dashes(t));
        assert(t[0] == cs@[ts as int]);
        assert(cs@[ts as int] != '#' && cs@[ts as int] != '>');
        if starts_with(t, seq!['#']) {
            assert(t.subrange(0, 1)[0] == seq!['#'][0]);
            assert(t.subrange(0, 1)[0] == t[0]);
        }
        if starts_with(t, seq!['>']) {
            assert(t.subrange(0, 1)[0] == seq!['>'][0]);
            assert(t.subrange(0, 1)[0] == t[0]);
        }
    }
    r
}

/// `digits_u64(cs[s..e])`.
fn parse_digits_range(cs: &Vec<char>, s: usize, e: usize) -> (r: Option<u64>)
    requires
        s <= e <= cs.len(),
    ensures
        r == digits_u64(cs@.subrange(s as int, e as int)),
{
    let ghost t = cs@.subrange(s as int, e as int);
    if s == e {
        return None;
    }
    let mut value: u64 = 0;
    let mut overflow = false;
    let mut i = s;
    while i < e
        invariant
            s <= i <= e <= cs.len(),
            t == cs@.subrange(s as int, e as int),
            all_digits(cs@.subrange(s as int, i as int)),
            !overflow ==> value as nat == digits_value(cs@.subrange(s as int, i as int)),
            overflow ==> digits_value(cs@.subrange(s as int, i as int)) > u64::MAX,
        decreases e - i,
    {
        let c = cs[i];
        let ghost prev = cs@.subrange(s as int, i as int);
        let ghost next = cs@.subrange(s as int, i + 1);
        assert(next.drop_last() == prev);
        assert(next.last() == c);
        if !('0' <= c && c <= '9') {
            proof {
                assert(t[i - s] == c);
            }
            return None;
        }
        assert(all_digits(next)) by {
            assert forall|k: int| 0 <= k < next.len() implies is_digit(#[trigger] next[k]) by {
                if k < prev.len() {
                    assert(next[k] == prev[k]);
                }
            }
        }
        let d = (c as u32 - '0' as u32) as u64;
        if !overflow {
            match value.checked_mul(10) {
                Some(v10) => match v10.checked_add(d) {
                    Some(v) => {
                        value = v;
                    },
                    None => {
                        overflow = true;
                    },
                },
                None => {
                    overflow = true;
                },
            }
        }
        i = i + 1;
    }
    assert(cs@.subrange(s as int, i as int) == t);
    if overflow {
        None
    } else {
        Some(value)
    }
}

/// End of the digit run of `cs[s..e]` that starts at `k`.
fn digit_run(cs: &Vec<char>, s: usize, k: usize, e: usize) -> (d: usize)
    requires
        s <= k <= e <= cs.len(),
    ensures
        k <= d <= e,
        d - s == digit_run_end(cs@.subrange(s as int, e as int), k - s),
    decreases e - k,
{
    let ghost t = cs@.subrange(s as int, e as int);
    if k < e && '0' <= cs[k] && cs[k] <= '9' {
        assert(t[k - s] == cs@[k as int]);
        digit_run(cs, s, k + 1, e)
    } else {
        proof {
            if k < e {
                assert(t[k - s] == cs@[k as int]);
            }
        }
        k
    }
}

fn split_f_id_range(cs: &Vec<char>, s: usize, e: usize) -> (r: Option<(u64, usize)>)
    requires
        s <= e <= cs.len(),
    ensures
        match (r, split_f_id(cs@.subrange(s as int, e as int))) {
            (Some((id, d)), Some((sid, sd))) => id == sid && d - s == sd && s < d <= e,
            (None, None) => true,
            _ => false,
        },
{
    let ghost t = cs@.subrange(s as int, e as int);
    if s < e && cs[s] == 'F' {
        assert(t[0] == cs@[s as int]);
        let d = digit_run(cs, s, s + 1, e);
        let v = parse_digits_range(cs, s + 1, d);
        assert(t.subrange(1, d - s) == cs@.subrange(s + 1, d as int));
        match v {
            Some(id) => Some((id, d)),
            None => None,
        }
    } else {
        proof {
            if s < e {
                assert(t[0] == cs@[s as int]);
            }
        }
        None
    }
}

} // verus!

verus! {

/// An entry of `cs[s..e]`: its id and where its destination starts (it runs to `e`).
pub open spec fn entry_range_ok(
    cs: Seq<char>,
    s: int,
    e: int,
    r: Option<(u64, usize)>,
    spec_r: Option<(u64, Seq<char>)>,
) -> bool {
    match (r, spec_r) {
        (Some((id, d)), Some((sid, dest))) => id == sid && s <= d <= e && cs.subrange(
            d as int,
            e,
        ) == dest,
        (None, None) => true,
        _ => false,
    }
}

fn tab_colon_range(cs: &Vec<char>, s: usize, e: usize) -> (r: Option<(u64, usize)>)
    requires
        s <= e <= cs.len(),
    ensures
        entry_range_ok(cs@, s as int, e as int, r, tab_colon_entry(cs@.subrange(s as int, e as int))),
{
    let ghost t = cs@.subrange(s as int, e as int);
    match split_f_id_range(cs, s, e) {
        Some((id, d)) => {
            let ghost dd = d - s;
            assert(t.skip(dd) == cs@.subrange(d as int, e as int));
            if e - d >= 3 && cs[d] == '\t' && cs[d + 1] == ':' && cs[d + 2] == '\t' {
                assert(t.skip(dd).subrange(0, 3) =~= seq!['\t', ':', '\t']);
                assert(t.skip(dd + 3) == cs@.subrange(d + 3, e as int));
                Some((id, d + 3))
            } else {
                proof {
                    if starts_with(t.skip(dd), seq!['\t', ':', '\t']) {
                        let u = t.skip(dd).subrange(0, 3);
                        assert(u[0] == cs@[d as int]);
                        assert(u[1] == cs@[d + 1]);
                        assert(u[2] == cs@[d + 2]);
                        assert(u[0] == '\t' && u[1] == ':' && u[2] == '\t');
                    }
                }
                None
            }
        },
        None => None,
    }
}

fn colon_space_range(cs: &Vec<char>, s: usize, e: usize) -> (r: Option<(u64, usize)>)
    requires
        s <= e <= cs.len(),
    ensures
        entry_range_ok(
            cs@,
            s as int,
            e as int,
            r,
            colon_space_entry(cs@.subrange(s as int, e as int)),
        ),
{
    let ghost t = cs@.subrange(s as int, e as int);
    match split_f_id_range(cs, s, e) {
        Some((id, d)) => {
            let ghost dd = d - s;
            if d < e && cs[d] == ':' {
                assert(t[dd] == cs@[d as int]);
                if d + 1 == e {
                    assert(cs@.subrange(e as int, e as int) =~= Seq::<char>::empty());
                    Some((id, e))
                } else if cs[d + 1] == ' ' {
                    assert(t[dd + 1] == cs@[d + 1]);
                    assert(t.skip(dd + 2) == cs@.subrange(d + 2, e as int));
                    Some((id, d + 2))
                } else {
                    assert(t[dd + 1] == cs@[d + 1]);
                    None
                }
            } else {
                proof {
                    if d < e {
                        assert(t[dd] == cs@[d as int]);
                    }
                }
                None
            }
        },
        None => None,
    }
}

/// `find_pat(cs[s..e], pat, k - s)` shifted into `cs`.
fn find_pat_range(cs: &Vec<char>, s: usize, k: usize, e: usize, pat: &Vec<char>) -> (r: Option<usize>)
    requires
        s <= k <= e <= cs.len(),
    ensures
        match (r, find_pat(cs@.subrange(s as int, e as int), pat@, k - s)) {
            (Some(p), Some(sp)) => p - s == sp && k <= p && p + pat.len() <= e,
            (None, None) => true,
            _ => false,
        },
    decreases e - k,
{
    let ghost t = cs@.subrange(s as int, e as int);
    if pat.len() > e - k {
        return None;
    }
    let hit = range_eq(cs, k, k + pat.len(), pat);
    assert(t.subrange(k - s, k - s + pat.len()) == cs@.subrange(k as int, k + pat.len()));
    if hit {
        Some(k)
    } else {
        if k == e {
            assert(pat@ =~= cs@.subrange(k as int, k as int));
            return None;
        }
        find_pat_range(cs, s, k + 1, e, pat)
    }
}

fn markdown_range(cs: &Vec<char>, s: usize, e: usize) -> (r: Option<(u64, usize)>)
    requires
        s <= e <= cs.len(),
    ensures
        entry_range_ok(cs@, s as int, e as int, r, markdown_entry(cs@.subrange(s as int, e as int))),
{
    let ghost t = cs@.subrange(s as int, e as int);
    let open = chars_of("- `{");
    proof {
        reveal_strlit("- `{");
        assert(open@ == seq!['-', ' ', '`', '{']);
    }
    if !range_starts_with(cs, s, e, &open) {
        return None;
    }
    let close = chars_of("}`\t");
    proof {
        reveal_strlit("}`\t");
        assert(close@ == seq!['}', '`', '\t']);
    }
    let ghost rest = t.skip(4);
    assert(rest == cs@.subrange(s + 4, e as int));
    let found = find_pat_range(cs, s + 4, s + 4, e, &close);
    match found {
        Some(p) => {
            assert(rest.take(p - (s + 4)) == cs@.subrange(s + 4, p as int));
            assert(rest.skip(p - (s + 4) + 3) == cs@.subrange(p + 3, e as int));
            match parse_digits_range(cs, s + 4, p) {
                Some(id) => Some((id, p + 3)),
                None => None,
            }
        },
        None => None,
    }
}

/// The entry held by `cs[s..e]`, if any.
fn entry_range(cs: &Vec<char>, s: usize, e: usize) -> (r: Option<(u64, usize)>)
    requires
        s <= e <= cs.len(),
    ensures
        entry_range_ok(cs@, s as int, e as int, r, entry_of(cs@.subrange(s as int, e as int))),
{
    let a = tab_colon_range(cs, s, e);
    if a.is_some() {
        return a;
    }
    let b = colon_space_range(cs, s, e);
    if b.is_some() {
        return b;
    }
    markdown_range(cs, s, e)
}

} // verus!

verus! {

fn line_safe_range(cs: &Vec<char>, s: usize, e: usize) -> (b: bool)
    requires
        s <= e <= cs.len(),
    ensures
        b == line_safe(cs@.subrange(s as int, e as int)),
{
    !range_has_char(cs, s, e, '\0') && !range_has_char(cs, s, e, '\t') && !range_has_char(
        cs,
        s,
        e,
        '\r',
    ) && !range_has_char(cs, s, e, '\n')
}

fn abs_posix_vec(p: &Vec<char>) -> (b: bool)
    ensures
        b == abs_posix(p@),
{
    if p.len() <= 1 || p[0] != '/' || p[p.len() - 1] == '/' {
        return false;
    }
    let tail = vec_range(p, 1, p.len());
    assert(tail@ == p@.skip(1));
    let bounds = split_bounds(&tail, '/');
    let ghost segs = split_on(p@.skip(1), '/');
    let mut k: usize = 0;
    while k < bounds.len()
        invariant
            k <= bounds.len(),
            bounds.len() == segs.len(),
            segs == split_on(tail@, '/'),
            tail@ == p@.skip(1),
            segs == split_on(p@.skip(1), '/'),
            p.len() > 1,
            p@[0] == '/',
            p@.last() != '/',
            forall|j: int|
                0 <= j < bounds.len() ==> {
                    &&& (#[trigger] bounds[j]).0 <= bounds[j].1 <= tail.len()
                    &&& tail@.subrange(bounds[j].0 as int, bounds[j].1 as int) == segs[j]
                },
            forall|j: int|
                0 <= j < k ==> {
                    let seg = #[trigger] segs[j];
                    seg.len() > 0 && seg != seq!['.'] && seg != seq!['.', '.']
                },
        decreases bounds.len() - k,
    {
        let (a, b) = bounds[k];
        let ghost seg = segs[k as int];
        assert(tail@.subrange(a as int, b as int) == seg);
        if a == b {
            return false;
        }
        if b - a == 1 && tail[a] == '.' {
            assert(seg[0] == tail@[a as int]);
            assert(seg =~= seq!['.']);
            assert(split_on(p@.skip(1), '/')[k as int] == seq!['.']);
            return false;
        }
        if b - a == 2 && tail[a] == '.' && tail[a + 1] == '.' {
            assert(seg[0] == tail@[a as int]);
            assert(seg[1] == tail@[a + 1]);
            assert(seg =~= seq!['.', '.']);
            assert(split_on(p@.skip(1), '/')[k as int] == seq!['.', '.']);
            return false;
        }
        proof {
            if seg == seq!['.'] {
                assert(seg[0] == tail@[a as int]);
            }
            if seg == seq!['.', '.'] {
                assert(seg[0] == tail@[a as int]);
                assert(seg[1] == tail@[a + 1]);
            }
        }
        k = k + 1;
    }
    true
}

/// Whether a path fits on one plan line: no NUL, tab, CR or LF.
pub fn is_line_safe_path(path: &str) -> (b: bool)
    ensures
        b == line_safe(path@),
{
    let cs = chars_of(path);
    assert(cs@.subrange(0, cs.len() as int) == cs@);
    line_safe_range(&cs, 0, cs.len())
}

/// Why a path cannot be written on a plan line, or `None`.
pub fn unrepresentable_reason(path: &str) -> (r: Option<&'static str>)
    ensures
        r == (if has_char(path@, '\0') {
            Some("NUL byte")
        } else if has_char(path@, '\t') {
            Some("tab")
        } else if has_char(path@, '\r') {
            Some("CR")
        } else if has_char(path@, '\n') {
            Some("LF")
        } else {
            None::<&'static str>
        }),
{
    let cs = chars_of(path);
    assert(cs@.subrange(0, cs.len() as int) == cs@);
    if range_has_char(&cs, 0, cs.len(), '\0') {
        Some("NUL byte")
    } else if range_has_char(&cs, 0, cs.len(), '\t') {
        Some("tab")
    } else if range_has_char(&cs, 0, cs.len(), '\r') {
        Some("CR")
    } else if range_has_char(&cs, 0, cs.len(), '\n') {
        Some("LF")
    } else {
        None
    }
}

/// An absolute POSIX path with no empty, `.` or `..` segment and no trailing slash.
pub fn is_absolute_posix(path: &str) -> (b: bool)
    ensures
        b == abs_posix(path@),
{
    let cs = chars_of(path);
    abs_posix_vec(&cs)
}

} // verus!

verus! {

// ---------------------------------------------------------------------------
// Whole-plan specification.

pub struct BodyV {
    pub bullets: Seq<BulletV>,
    pub unknown: Seq<(int, Seq<char>)>,
}

pub open spec fn has_id(bs: Seq<BulletV>, id: u64) -> bool {
    exists|j: int| 0 <= j < bs.len() && (#[trigger] bs[j]).id == id
}

pub open spec fn dup_message(id: u64) -> Seq<char> {
    "duplicate id "@ + decimal(id as nat)
}

pub open spec fn too_long_message(id: u64) -> Seq<char> {
    "destination for F"@ + decimal(id as nat) + " is too long"@
}

pub open spec fn bad_dest_message(id: u64) -> Seq<char> {
    "unrepresentable or non-absolute destination for F"@ + decimal(id as nat)
}

/// What one body line (1-based `number`) does to the entries read so far.
pub open spec fn body_step(line: Seq<char>, number: int, acc: BodyV) -> Result<
    BodyV,
    (PlanErrorCode, Seq<char>),
> {
    if is_ignorable(line) {
        Ok(acc)
    } else {
        match entry_of(line) {
            None => Ok(BodyV { bullets: acc.bullets, unknown: acc.unknown.push((number, line)) }),
            Some((id, dest)) => if has_id(acc.bullets, id) {
                Err((PlanErrorCode::DuplicateId, dup_message(id)))
            } else if utf8_len(dest) > MAX_DEST_BYTES {
                Err((PlanErrorCode::DestTooLong, too_long_message(id)))
            } else if dest.len() == 0 {
                Ok(
                    BodyV {
                        bullets: acc.bullets.push(
                            BulletV { id, destination: dest, kind: BulletKind::Trash, line: number },
                        ),
                        unknown: acc.unknown,
                    },
                )
            } else if !line_safe(dest) || !abs_posix(dest) {
                Err((PlanErrorCode::BadDest, bad_dest_message(id)))
            } else {
                Ok(
                    BodyV {
                        bullets: acc.bullets.push(
                            BulletV {
                                id,
                                destination: dest,
                                kind: BulletKind::Destination,
                                line: number,
                            },
                        ),
                        unknown: acc.unknown,
                    },
                )
            },
        }
    }
}

/// Reads the body lines from index `i` on, stopping at the first error.
pub open spec fn parse_body(lines: Seq<Seq<char>>, i: int, acc: BodyV) -> Result<
    BodyV,
    (PlanErrorCode, Seq<char>),
>
    decreases lines.len() - i,
{
    if i < 0 || i >= lines.len() {
        Ok(acc)
    } else {
        match body_step(lines[i], i + 1, acc) {
            Ok(next) => parse_body(lines, i + 1, next),
            Err(e) => Err(e),
        }
    }
}

/// First index `>= from` of a line equal to `target`.
pub open spec fn find_line(lines: Seq<Seq<char>>, from: int, target: Seq<char>) -> Option<int>
    decreases lines.len() - from,
{
    if from < 0 || from >= lines.len() {
        None
    } else if lines[from] == target {
        Some(from)
    } else {
        find_line(lines, from + 1, target)
    }
}

/// A legacy front-matter `key: value` line, both sides trimmed.
pub open spec fn field_of(line: Seq<char>) -> Option<(Seq<char>, Seq<char>)> {
    if is_ignorable(line) {
        None
    } else {
        match find_pat(line, seq![':'], 0) {
            Some(p) => Some((trim(line.take(p)), trim(line.skip(p + 1)))),
            None => None,
        }
    }
}

/// The value of the last `key` field among `lines[lo..hi]`.
pub open spec fn field_value(lines: Seq<Seq<char>>, lo: int, hi: int, key: Seq<char>) -> Option<
    Seq<char>,
>
    decreases hi - lo,
{
    if hi <= lo {
        None
    } else {
        match field_of(lines[hi - 1]) {
            Some((k, v)) => if k == key {
                Some(v)
            } else {
                field_value(lines, lo, hi - 1, key)
            },
            None => field_value(lines, lo, hi - 1, key),
        }
    }
}

/// `''` read back as `'`, left to right.
pub open spec fn unescape_qq(s: Seq<char>) -> Seq<char>
    decreases s.len(),
{
    if s.len() == 0 {
        Seq::<char>::empty()
    } else if s.len() >= 2 && s[0] == '\'' && s[1] == '\'' {
        seq!['\''] + unescape_qq(s.skip(2))
    } else {
        seq![s[0]] + unescape_qq(s.skip(1))
    }
}

/// `'` written as `''`.
pub open spec fn escape_qq(s: Seq<char>) -> Seq<char>
    decreases s.len(),
{
    if s.len() == 0 {
        Seq::<char>::empty()
    } else if s[0] == '\'' {
        seq!['\'', '\''] + escape_qq(s.skip(1))
    } else {
        seq![s[0]] + escape_qq(s.skip(1))
    }
}

/// A YAML single-quoted scalar read back; other text is only trimmed.
pub open spec fn yaml_unquote(v: Seq<char>) -> Seq<char> {
    let t = trim(v);
    if t.len() >= 2 && t[0] == '\'' && t.last() == '\'' {
        unescape_qq(t.subrange(1, t.len() - 1))
    } else {
        t
    }
}

pub open spec fn yaml_quote(v: Seq<char>) -> Seq<char> {
    seq!['\''] + escape_qq(v) + seq!['\'']
}

/// A `#> ` metadata line of the plan's header.
pub open spec fn is_meta(l: Seq<char>) -> bool {
    starts_with(l, "#> "@)
}

/// The end of the run of metadata lines that starts at `i`.
pub open spec fn meta_end(lines: Seq<Seq<char>>, i: int) -> int
    decreases lines.len() - i,
{
    if 0 <= i < lines.len() && is_meta(lines[i]) {
        meta_end(lines, i + 1)
    } else {
        i
    }
}

/// The text after the separator of a `key: value` field: one space after the colon is
/// part of the separator, the rest of the line is the value, verbatim.
pub open spec fn after_separator(v: Seq<char>) -> Seq<char> {
    if v.len() > 0 && v[0] == ' ' {
        v.skip(1)
    } else {
        v
    }
}

/// A `#> key: value` metadata line: the key trimmed, the value verbatim.
pub open spec fn meta_field(l: Seq<char>) -> Option<(Seq<char>, Seq<char>)> {
    if is_meta(l) {
        let r = l.skip(3);
        match find_pat(r, seq![':'], 0) {
            Some(p) => Some((trim(r.take(p)), after_separator(r.skip(p + 1)))),
            None => None,
        }
    } else {
        None
    }
}

/// The value of the last `key` metadata field among `lines[lo..hi]`.
pub open spec fn meta_value(lines: Seq<Seq<char>>, lo: int, hi: int, key: Seq<char>) -> Option<Seq<char>>
    decreases hi - lo,
{
    if hi <= lo {
        None
    } else {
        match meta_field(lines[hi - 1]) {
            Some((k, v)) => if k == key {
                Some(v)
            } else {
                meta_value(lines, lo, hi - 1, key)
            },
            None => meta_value(lines, lo, hi - 1, key),
        }
    }
}

/// The header read from the metadata lines `0..end`: the format version, the session id
/// and the root, each verbatim.
pub open spec fn meta_header_of(lines: Seq<Seq<char>>, end: int) -> HeaderV {
    HeaderV {
        remodeco: match meta_value(lines, 0, end, "remodeco"@) {
            Some(v) => match parse_u64(v) {
                Some(n) => n,
                None => 0,
            },
            None => 0,
        },
        id: match meta_value(lines, 0, end, "id"@) {
            Some(v) => v,
            None => Seq::<char>::empty(),
        },
        root: match meta_value(lines, 0, end, "root"@) {
            Some(v) => v,
            None => Seq::<char>::empty(),
        },
    }
}

/// The header read from legacy YAML front-matter lines `1..end`.
pub open spec fn header_of(lines: Seq<Seq<char>>, end: int) -> HeaderV {
    HeaderV {
        remodeco: match field_value(lines, 1, end, "remodeco"@) {
            Some(v) => match parse_u64(v) {
                Some(n) => n,
                None => 0,
            },
            None => 0,
        },
        id: match field_value(lines, 1, end, "id"@) {
            Some(v) => v,
            None => Seq::<char>::empty(),
        },
        root: yaml_unquote(
            match field_value(lines, 1, end, "root"@) {
                Some(v) => v,
                None => Seq::<char>::empty(),
            },
        ),
    }
}

pub open spec fn empty_body() -> BodyV {
    BodyV { bullets: Seq::empty(), unknown: Seq::empty() }
}

pub open spec fn with_header(h: Option<HeaderV>, b: Result<BodyV, (PlanErrorCode, Seq<char>)>) -> Result<
    PlanV,
    (PlanErrorCode, Seq<char>),
> {
    match b {
        Ok(body) => Ok(PlanV { header: h, bullets: body.bullets, unknown: body.unknown }),
        Err(e) => Err(e),
    }
}

/// The meaning of a plan text of `raw_bytes` bytes.
pub open spec fn spec_parse_plan(raw: Seq<char>, raw_bytes: nat) -> Result<
    PlanV,
    (PlanErrorCode, Seq<char>),
> {
    let lines = split_on(raw, '\n');
    if raw_bytes > MAX_FILE_BYTES {
        Err((PlanErrorCode::PlanTooLarge, "plan too large"@))
    } else if has_char(raw, '\r') {
        Err((PlanErrorCode::Cr, "plan contains CR; save as LF"@))
    } else if lines.len() > MAX_LINES {
        Err((PlanErrorCode::TooManyLines, "plan has too many lines"@))
    } else if exists|i: int| 0 <= i < lines.len() && utf8_len(#[trigger] lines[i]) > MAX_LINE_BYTES {
        Err((PlanErrorCode::LineTooLong, "plan contains a line that is too long"@))
    } else if is_meta(lines[0]) {
        with_header(Some(meta_header_of(lines, meta_end(lines, 0))), parse_body(lines, meta_end(lines, 0), empty_body()))
    } else if lines[0] == "---"@ {
        match find_line(lines, 1, "---"@) {
            None => Err((PlanErrorCode::FrontMatter, "unterminated front matter"@)),
            Some(j) => with_header(Some(header_of(lines, j)), parse_body(lines, j + 1, empty_body())),
        }
    } else {
        with_header(None, parse_body(lines, 0, empty_body()))
    }
}

pub open spec fn plan_result_matches(
    r: Result<ParsedPlan, PlanError>,
    s: Result<PlanV, (PlanErrorCode, Seq<char>)>,
) -> bool {
    match (r, s) {
        (Ok(p), Ok(v)) => p@ == v,
        (Err(e), Err((code, message))) => e.code == code && e.message@ == message,
        _ => false,
    }
}

} // verus!

verus! {

pub open spec fn bounds_match(cs: Seq<char>, bounds: Seq<(usize, usize)>, lines: Seq<Seq<char>>) -> bool {
    &&& bounds.len() == lines.len()
    &&& forall|k: int|
        0 <= k < bounds.len() ==> {
            &&& (#[trigger] bounds[k]).0 <= bounds[k].1 <= cs.len()
            &&& cs.subrange(bounds[k].0 as int, bounds[k].1 as int) == lines[k]
        }
}

fn parse_u64_range(cs: &Vec<char>, s: usize, e: usize) -> (r: Option<u64>)
    requires
        s <= e <= cs.len(),
    ensures
        r == parse_u64(cs@.subrange(s as int, e as int)),
{
    let ghost t = cs@.subrange(s as int, e as int);
    if s < e && cs[s] == '+' {
        assert(t[0] == cs@[s as int]);
        assert(t.drop_first() == cs@.subrange(s + 1, e as int));
        parse_digits_range(cs, s + 1, e)
    } else {
        proof {
            if s < e {
                assert(t[0] == cs@[s as int]);
            }
        }
        parse_digits_range(cs, s, e)
    }
}

fn unescape_qq_range(cs: &Vec<char>, s: usize, e: usize) -> (out: String)
    requires
        s <= e <= cs.len(),
    ensures
        out@ == unescape_qq(cs@.subrange(s as int, e as int)),
{
    let mut out = String::new();
    let mut i = s;
    while i < e
        invariant
            s <= i <= e <= cs.len(),
            out@ + unescape_qq(cs@.subrange(i as int, e as int)) == unescape_qq(
                cs@.subrange(s as int, e as int),
            ),
        decreases e - i,
    {
        let ghost t = cs@.subrange(i as int, e as int);
        assert(t[0] == cs@[i as int]);
        if e - i >= 2 && cs[i] == '\'' && cs[i + 1] == '\'' {
            assert(t[1] == cs@[i + 1]);
            assert(t.skip(2) == cs@.subrange(i + 2, e as int));
            crate::text::push_char(&mut out, '\'');
            i = i + 2;
        } else {
            proof {
                if e - i >= 2 {
                    assert(t[1] == cs@[i + 1]);
                }
            }
            assert(t.skip(1) == cs@.subrange(i + 1, e as int));
            crate::text::push_char(&mut out, cs[i]);
            i = i + 1;
        }
    }
    assert(cs@.subrange(e as int, e as int) =~= Seq::<char>::empty());
    assert(out@ + Seq::<char>::empty() == out@);
    out
}

fn yaml_unquote_range(cs: &Vec<char>, s: usize, e: usize) -> (out: String)
    requires
        s <= e <= cs.len(),
    ensures
        out@ == yaml_unquote(cs@.subrange(s as int, e as int)),
{
    let (ts, te) = trim_bounds(cs, s, e);
    let ghost t = cs@.subrange(ts as int, te as int);
    if te - ts >= 2 && cs[ts] == '\'' && cs[te - 1] == '\'' {
        assert(t[0] == cs@[ts as int]);
        assert(t.last() == cs@[te - 1]);
        assert(t.subrange(1, t.len() - 1) == cs@.subrange(ts + 1, te - 1));
        unescape_qq_range(cs, ts + 1, te - 1)
    } else {
        proof {
            if te - ts >= 2 {
                assert(t[0] == cs@[ts as int]);
                assert(t.last() == cs@[te - 1]);
            }
        }
        string_from(cs, ts, te)
    }
}

/// `field_of(cs[s..e])` as ranges of `cs`.
fn field_range(cs: &Vec<char>, s: usize, e: usize) -> (r: Option<((usize, usize), (usize, usize))>)
    requires
        s <= e <= cs.len(),
    ensures
        match (r, field_of(cs@.subrange(s as int, e as int))) {
            (Some(((ka, kb), (va, vb))), Some((k, v))) => {
                &&& ka <= kb <= cs.len()
                &&& va <= vb <= cs.len()
                &&& cs@.subrange(ka as int, kb as int) == k
                &&& cs@.subrange(va as int, vb as int) == v
            },
            (None, None) => true,
            _ => false,
        },
{
    let ghost t = cs@.subrange(s as int, e as int);
    if is_ignorable_range(cs, s, e) {
        return None;
    }
    let colon = vec![':'];
    assert(colon@ == seq![':']);
    match find_pat_range(cs, s, s, e, &colon) {
        Some(p) => {
            assert(t.take(p - s) == cs@.subrange(s as int, p as int));
            assert(t.skip(p - s + 1) == cs@.subrange(p + 1, e as int));
            let key = trim_bounds(cs, s, p);
            let value = trim_bounds(cs, p + 1, e);
            Some((key, value))
        },
        None => None,
    }
}

/// Range of `field_value(lines, lo, hi, key)`.
fn field_lookup(
    cs: &Vec<char>,
    bounds: &Vec<(usize, usize)>,
    Ghost(lines): Ghost<Seq<Seq<char>>>,
    lo: usize,
    hi: usize,
    key: &Vec<char>,
) -> (r: Option<(usize, usize)>)
    requires
        bounds_match(cs@, bounds@, lines),
        lo <= hi <= bounds.len(),
    ensures
        match (r, field_value(lines, lo as int, hi as int, key@)) {
            (Some((a, b)), Some(v)) => a <= b <= cs.len() && cs@.subrange(a as int, b as int) == v,
            (None, None) => true,
            _ => false,
        },
{
    let mut found: Option<(usize, usize)> = None;
    let mut k = lo;
    while k < hi
        invariant
            bounds_match(cs@, bounds@, lines),
            lo <= k <= hi <= bounds.len(),
            match (found, field_value(lines, lo as int, k as int, key@)) {
                (Some((a, b)), Some(v)) => a <= b <= cs.len() && cs@.subrange(a as int, b as int)
                    == v,
                (None, None) => true,
                _ => false,
            },
        decreases hi - k,
    {
        let (s, e) = bounds[k];
        assert(cs@.subrange(s as int, e as int) == lines[k as int]);
        match field_range(cs, s, e) {
            Some(((ka, kb), (va, vb))) => {
                if range_eq(cs, ka, kb, key) {
                    found = Some((va, vb));
                }
            },
            None => {},
        }
        k = k + 1;
    }
    found
}

/// `meta_field(cs[s..e])` as ranges of `cs`.
fn meta_range(cs: &Vec<char>, s: usize, e: usize) -> (r: Option<((usize, usize), (usize, usize))>)
    requires
        s <= e <= cs.len(),
    ensures
        match (r, meta_field(cs@.subrange(s as int, e as int))) {
            (Some(((ka, kb), (va, vb))), Some((k, v))) => {
                &&& ka <= kb <= cs.len()
                &&& va <= vb <= cs.len()
                &&& cs@.subrange(ka as int, kb as int) == k
                &&& cs@.subrange(va as int, vb as int) == v
            },
            (None, None) => true,
            _ => false,
        },
{
    let ghost t = cs@.subrange(s as int, e as int);
    let marker = chars_of("#> ");
    if !range_starts_with(cs, s, e, &marker) {
        return None;
    }
    let colon = vec![':'];
    assert(colon@ == seq![':']);
    proof {
        reveal_strlit("#> ");
    }
    assert(t.len() >= 3);
    let ghost r = t.skip(3);
    assert(r =~= cs@.subrange(s + 3, e as int));
    match find_pat_range(cs, s + 3, s + 3, e, &colon) {
        Some(p) => {
            assert(r.take(p - (s + 3)) == cs@.subrange(s + 3, p as int));
            assert(r.skip(p - (s + 3) + 1) == cs@.subrange(p + 1, e as int));
            let key = trim_bounds(cs, s + 3, p);
            if p + 1 < e && cs[p + 1] == ' ' {
                assert(cs@.subrange(p + 1, e as int).skip(1) == cs@.subrange(p + 2, e as int));
                Some((key, (p + 2, e)))
            } else {
                Some((key, (p + 1, e)))
            }
        },
        None => None,
    }
}

/// Range of `meta_value(lines, lo, hi, key)`.
fn meta_lookup(
    cs: &Vec<char>,
    bounds: &Vec<(usize, usize)>,
    Ghost(lines): Ghost<Seq<Seq<char>>>,
    lo: usize,
    hi: usize,
    key: &Vec<char>,
) -> (r: Option<(usize, usize)>)
    requires
        bounds_match(cs@, bounds@, lines),
        lo <= hi <= bounds.len(),
    ensures
        match (r, meta_value(lines, lo as int, hi as int, key@)) {
            (Some((a, b)), Some(v)) => a <= b <= cs.len() && cs@.subrange(a as int, b as int) == v,
            (None, None) => true,
            _ => false,
        },
{
    let mut found: Option<(usize, usize)> = None;
    let mut k = lo;
    while k < hi
        invariant
            bounds_match(cs@, bounds@, lines),
            lo <= k <= hi <= bounds.len(),
            match (found, meta_value(lines, lo as int, k as int, key@)) {
                (Some((a, b)), Some(v)) => a <= b <= cs.len() && cs@.subrange(a as int, b as int)
                    == v,
                (None, None) => true,
                _ => false,
            },
        decreases hi - k,
    {
        let (s, e) = bounds[k];
        assert(cs@.subrange(s as int, e as int) == lines[k as int]);
        match meta_range(cs, s, e) {
            Some(((ka, kb), (va, vb))) => {
                if range_eq(cs, ka, kb, key) {
                    found = Some((va, vb));
                }
            },
            None => {},
        }
        k = k + 1;
    }
    found
}

/// The header of the metadata lines `0..end` (see `meta_header_of`).
fn parse_meta_header(
    cs: &Vec<char>,
    bounds: &Vec<(usize, usize)>,
    Ghost(lines): Ghost<Seq<Seq<char>>>,
    end: usize,
) -> (h: PlanHeader)
    requires
        bounds_match(cs@, bounds@, lines),
        end <= bounds.len(),
    ensures
        h@ == meta_header_of(lines, end as int),
{
    let remodeco_key = chars_of("remodeco");
    let id_key = chars_of("id");
    let root_key = chars_of("root");
    let remodeco = match meta_lookup(cs, bounds, Ghost(lines), 0, end, &remodeco_key) {
        Some((a, b)) => match parse_u64_range(cs, a, b) {
            Some(n) => n,
            None => 0,
        },
        None => 0,
    };
    let id = match meta_lookup(cs, bounds, Ghost(lines), 0, end, &id_key) {
        Some((a, b)) => string_from(cs, a, b),
        None => String::new(),
    };
    let root = match meta_lookup(cs, bounds, Ghost(lines), 0, end, &root_key) {
        Some((a, b)) => string_from(cs, a, b),
        None => String::new(),
    };
    PlanHeader { remodeco, id, root }
}

fn parse_header(
    cs: &Vec<char>,
    bounds: &Vec<(usize, usize)>,
    Ghost(lines): Ghost<Seq<Seq<char>>>,
    end: usize,
) -> (h: PlanHeader)
    requires
        bounds_match(cs@, bounds@, lines),
        1 <= end <= bounds.len(),
    ensures
        h@ == header_of(lines, end as int),
{
    let remodeco_key = chars_of("remodeco");
    let id_key = chars_of("id");
    let root_key = chars_of("root");
    let remodeco = match field_lookup(cs, bounds, Ghost(lines), 1, end, &remodeco_key) {
        Some((a, b)) => match parse_u64_range(cs, a, b) {
            Some(n) => n,
            None => 0,
        },
        None => 0,
    };
    let id = match field_lookup(cs, bounds, Ghost(lines), 1, end, &id_key) {
        Some((a, b)) => string_from(cs, a, b),
        None => String::new(),
    };
    let root = match field_lookup(cs, bounds, Ghost(lines), 1, end, &root_key) {
        Some((a, b)) => yaml_unquote_range(cs, a, b),
        None => {
            let empty: Vec<char> = Vec::new();
            let r = yaml_unquote_range(&empty, 0, 0);
            assert(empty@.subrange(0, 0) =~= Seq::<char>::empty());
            r
        },
    };
    PlanHeader { remodeco, id, root }
}

} // verus!

verus! {

pub open spec fn body_view(bullets: Seq<ParsedBullet>, unknown: Seq<(usize, String)>) -> BodyV {
    BodyV {
        bullets: bullets.map_values(|b: ParsedBullet| b@),
        unknown: unknown.map_values(|u: (usize, String)| unknown_view(u)),
    }
}

fn parse_body_lines(
    cs: &Vec<char>,
    bounds: &Vec<(usize, usize)>,
    Ghost(lines): Ghost<Seq<Seq<char>>>,
    start: usize,
) -> (r: Result<(Vec<ParsedBullet>, Vec<(usize, String)>), PlanError>)
    requires
        bounds_match(cs@, bounds@, lines),
        start <= bounds.len() <= MAX_LINES,
    ensures
        match (r, parse_body(lines, start as int, empty_body())) {
            (Ok((b, u)), Ok(v)) => body_view(b@, u@) == v,
            (Err(e), Err((code, message))) => e.code == code && e.message@ == message,
            _ => false,
        },
{
    broadcast use vstd::std_specs::hash::group_hash_axioms;

    let mut bullets: Vec<ParsedBullet> = Vec::new();
    let mut unknown: Vec<(usize, String)> = Vec::new();
    let mut seen: std::collections::HashSet<u64> = std::collections::HashSet::new();
    let mut i = start;
    assert(body_view(bullets@, unknown@) == empty_body()) by {
        assert(body_view(bullets@, unknown@).bullets =~= Seq::<BulletV>::empty());
        assert(body_view(bullets@, unknown@).unknown =~= Seq::<(int, Seq<char>)>::empty());
    }
    while i < bounds.len()
        invariant
            bounds_match(cs@, bounds@, lines),
            start <= i <= bounds.len() <= MAX_LINES,
            parse_body(lines, start as int, empty_body()) == parse_body(
                lines,
                i as int,
                body_view(bullets@, unknown@),
            ),
            forall|id: u64| seen@.contains(id) <==> has_id(body_view(bullets@, unknown@).bullets, id),
        decreases bounds.len() - i,
    {
        let (s, e) = bounds[i];
        let ghost line = lines[i as int];
        let ghost acc = body_view(bullets@, unknown@);
        assert(cs@.subrange(s as int, e as int) == line);
        assert(parse_body(lines, i as int, acc) == match body_step(line, i + 1, acc) {
            Ok(next) => parse_body(lines, i + 1, next),
            Err(e) => Err(e),
        });
        if is_ignorable_range(cs, s, e) {
            i = i + 1;
            continue;
        }
        match entry_range(cs, s, e) {
            None => {
                let text = string_from(cs, s, e);
                unknown.push((i + 1, text));
                proof {
                    let nb = body_view(bullets@, unknown@);
                    assert(nb.unknown =~= acc.unknown.push((i + 1, line)));
                    assert(nb.bullets == acc.bullets);
                }
                i = i + 1;
            },
            Some((id, d)) => {
                let ghost dest = cs@.subrange(d as int, e as int);
                if seen.contains(&id) {
                    let mut m = String::new();
                    push_str(&mut m, "duplicate id ");
                    push_decimal(&mut m, id);
                    return Err(PlanError::new(PlanErrorCode::DuplicateId, m));
                }
                if range_utf8_len_exceeds(cs, d, e, MAX_DEST_BYTES) {
                    let mut m = String::new();
                    push_str(&mut m, "destination for F");
                    push_decimal(&mut m, id);
                    push_str(&mut m, " is too long");
                    return Err(PlanError::new(PlanErrorCode::DestTooLong, m));
                }
                let kind = if d == e {
                    BulletKind::Trash
                } else {
                    let safe = line_safe_range(cs, d, e);
                    let dv = vec_range(cs, d, e);
                    let abs = abs_posix_vec(&dv);
                    if !safe || !abs {
                        let mut m = String::new();
                        push_str(&mut m, "unrepresentable or non-absolute destination for F");
                        push_decimal(&mut m, id);
                        return Err(PlanError::new(PlanErrorCode::BadDest, m));
                    }
                    BulletKind::Destination
                };
                let destination = string_from(cs, d, e);
                let bullet = ParsedBullet { id, destination, kind, line: i + 1 };
                bullets.push(bullet);
                seen.insert(id);
                proof {
                    let nb = body_view(bullets@, unknown@);
                    assert(nb.bullets =~= acc.bullets.push(bullet@));
                    assert(nb.unknown == acc.unknown);
                    assert forall|x: u64| seen@.contains(x) <==> has_id(nb.bullets, x) by {
                        if has_id(nb.bullets, x) {
                            let j = choose|j: int| 0 <= j < nb.bullets.len() && (#[trigger] nb.bullets[j]).id == x;
                            if j < acc.bullets.len() {
                                assert(nb.bullets[j] == acc.bullets[j]);
                            }
                        }
                        if x != id && seen@.contains(x) {
                            let j = choose|j: int| 0 <= j < acc.bullets.len() && (#[trigger] acc.bullets[j]).id == x;
                            assert(nb.bullets[j] == acc.bullets[j]);
                        }
                        if x == id {
                            assert(nb.bullets[acc.bullets.len() as int].id == id);
                        }
                    }
                }
                i = i + 1;
            },
        }
    }
    Ok((bullets, unknown))
}

/// Line-oriented parse. The header is the leading run of `#> key: value` lines (a legacy
/// YAML front matter between `---` lines is still read); entries are
/// `F<digits><tab>:<tab><path>`, and the legacy `F<digits>: <path>` and markdown
/// ``- `{01}`<tab>`` forms are still accepted.
pub fn parse_plan(raw: &str) -> (r: Result<ParsedPlan, PlanError>)
    ensures
        plan_result_matches(r, spec_parse_plan(raw@, raw.len() as nat)),
{
    if raw.len() > MAX_FILE_BYTES {
        let mut m = String::new();
        push_str(&mut m, "plan too large");
        return Err(PlanError::new(PlanErrorCode::PlanTooLarge, m));
    }
    let cs = chars_of(raw);
    let n = cs.len();
    assert(cs@.subrange(0, n as int) == cs@);
    if range_has_char(&cs, 0, n, '\r') {
        let mut m = String::new();
        push_str(&mut m, "plan contains CR; save as LF");
        return Err(PlanError::new(PlanErrorCode::Cr, m));
    }
    let bounds = split_bounds(&cs, '\n');
    let ghost lines = split_on(cs@, '\n');
    if bounds.len() > MAX_LINES {
        let mut m = String::new();
        push_str(&mut m, "plan has too many lines");
        return Err(PlanError::new(PlanErrorCode::TooManyLines, m));
    }
    let mut k: usize = 0;
    while k < bounds.len()
        invariant
            bounds_match(cs@, bounds@, lines),
            lines == split_on(cs@, '\n'),
            cs@ == raw@,
            raw.len() <= MAX_FILE_BYTES,
            !has_char(cs@, '\r'),
            bounds.len() <= MAX_LINES,
            k <= bounds.len(),
            forall|j: int| 0 <= j < k ==> utf8_len(#[trigger] lines[j]) <= MAX_LINE_BYTES,
        decreases bounds.len() - k,
    {
        let (s, e) = bounds[k];
        if range_utf8_len_exceeds(&cs, s, e, MAX_LINE_BYTES) {
            assert(cs@.subrange(s as int, e as int) == lines[k as int]);
            let mut m = String::new();
            push_str(&mut m, "plan contains a line that is too long");
            return Err(PlanError::new(PlanErrorCode::LineTooLong, m));
        }
        assert(cs@.subrange(s as int, e as int) == lines[k as int]);
        k = k + 1;
    }
    let rule = chars_of("---");
    let marker = chars_of("#> ");
    proof {
        crate::text::lemma_split_on_len(cs@, '\n');
    }
    let (s0, e0) = bounds[0];
    assert(cs@.subrange(s0 as int, e0 as int) == lines[0]);
    if range_starts_with(&cs, s0, e0, &marker) {
        let mut j: usize = 0;
        let mut more = true;
        while more && j < bounds.len()
            invariant
                bounds_match(cs@, bounds@, lines),
                lines == split_on(cs@, '\n'),
                cs@ == raw@,
                raw.len() <= MAX_FILE_BYTES,
                !has_char(cs@, '\r'),
                bounds.len() <= MAX_LINES,
                forall|i: int| 0 <= i < lines.len() ==> utf8_len(#[trigger] lines[i]) <= MAX_LINE_BYTES,
                is_meta(lines[0]),
                marker@ == "#> "@,
                j <= bounds.len(),
                more ==> meta_end(lines, 0) == meta_end(lines, j as int),
                !more ==> meta_end(lines, 0) == j,
            decreases bounds.len() - j + (if more { 1int } else { 0int }),
        {
            let (s, e) = bounds[j];
            assert(cs@.subrange(s as int, e as int) == lines[j as int]);
            if range_starts_with(&cs, s, e, &marker) {
                j = j + 1;
            } else {
                more = false;
            }
        }
        assert(meta_end(lines, 0) == j);
        let header = parse_meta_header(&cs, &bounds, Ghost(lines), j);
        return match parse_body_lines(&cs, &bounds, Ghost(lines), j) {
            Ok((bullets, unknown_lines)) => Ok(ParsedPlan { header: Some(header), bullets, unknown_lines }),
            Err(e) => Err(e),
        };
    }
    if range_eq(&cs, s0, e0, &rule) {
        let mut j: usize = 1;
        let mut found = false;
        while !found && j < bounds.len()
            invariant
                bounds_match(cs@, bounds@, lines),
                lines == split_on(cs@, '\n'),
                cs@ == raw@,
                raw.len() <= MAX_FILE_BYTES,
                !has_char(cs@, '\r'),
                bounds.len() <= MAX_LINES,
                forall|i: int| 0 <= i < lines.len() ==> utf8_len(#[trigger] lines[i]) <= MAX_LINE_BYTES,
                lines[0] == "---"@,
                rule@ == "---"@,
                1 <= j <= bounds.len(),
                found ==> j < bounds.len() && find_line(lines, 1, "---"@) == Some(j as int),
                !found ==> find_line(lines, 1, "---"@) == find_line(lines, j as int, "---"@),
            decreases bounds.len() - j + (if found { 0int } else { 1int }),
        {
            let (s, e) = bounds[j];
            assert(cs@.subrange(s as int, e as int) == lines[j as int]);
            if range_eq(&cs, s, e, &rule) {
                found = true;
            } else {
                j = j + 1;
            }
        }
        if !found {
            let mut m = String::new();
            push_str(&mut m, "unterminated front matter");
            return Err(PlanError::new(PlanErrorCode::FrontMatter, m));
        }
        let header = parse_header(&cs, &bounds, Ghost(lines), j);
        match parse_body_lines(&cs, &bounds, Ghost(lines), j + 1) {
            Ok((bullets, unknown_lines)) => Ok(ParsedPlan { header: Some(header), bullets, unknown_lines }),
            Err(e) => Err(e),
        }
    } else {
        match parse_body_lines(&cs, &bounds, Ghost(lines), 0) {
            Ok((bullets, unknown_lines)) => Ok(ParsedPlan { header: None, bullets, unknown_lines }),
            Err(e) => Err(e),
        }
    }
}

} // verus!

verus! {

// ---------------------------------------------------------------------------
// Generation.

/// The text of `ls`, each line followed by a newline.
pub open spec fn concat_lines(ls: Seq<Seq<char>>) -> Seq<char>
    decreases ls.len(),
{
    if ls.len() == 0 {
        Seq::<char>::empty()
    } else {
        concat_lines(ls.drop_last()) + ls.last() + seq!['\n']
    }
}

pub proof fn lemma_concat_lines_append(a: Seq<Seq<char>>, b: Seq<Seq<char>>)
    ensures
        concat_lines(a + b) == concat_lines(a) + concat_lines(b),
    decreases b.len(),
{
    if b.len() == 0 {
        assert(a + b == a);
        assert(concat_lines(a) + concat_lines(b) =~= concat_lines(a));
    } else {
        lemma_concat_lines_append(a, b.drop_last());
        assert((a + b).drop_last() == a + b.drop_last());
        assert((a + b).last() == b.last());
        assert(concat_lines(a) + concat_lines(b) =~= concat_lines(a) + concat_lines(b.drop_last())
            + b.last() + seq!['\n']);
    }
}

pub open spec fn comment_lines() -> Seq<Seq<char>> {
    seq![
        "# Edit the path after F#### <tab> : <tab> to rename or move."@,
        "# Leave the path unchanged, or delete it, or comment out the line means do nothing."@,
        "# Empty destination means move to trash or delete."@,
        "# When done, save and return to remodeco (exit the editor if TUI)."@,
    ]
}

/// The lines before the first entry group: three `#> ` metadata lines with the format
/// version, the session id and the root (verbatim), the editing notes, and the root.
pub open spec fn header_lines(session_id: Seq<char>, root: Seq<char>) -> Seq<Seq<char>> {
    seq!["#> remodeco: 1"@, "#> id: "@ + session_id, "#> root: "@ + root] + comment_lines()
        + seq![Seq::<char>::empty(), "# "@ + root]
}

/// The destination written for `e`: its source when no map is given, else the mapped
/// destination, or nothing when the map lacks its id.
pub open spec fn dest_of(e: ManifestEntry, dests: Option<Map<u64, String>>) -> Option<Seq<char>> {
    match dests {
        None => Some(e.from@),
        Some(m) => if m.dom().contains(e.id) {
            Some(m[e.id]@)
        } else {
            None
        },
    }
}

pub open spec fn entry_line(id: u64, width: nat, dest: Seq<char>) -> Seq<char> {
    seq!['F'] + zero_padded(id as nat, width) + seq!['\t', ':', '\t'] + dest
}

pub open spec fn group_lines(relative: Seq<char>) -> Seq<Seq<char>> {
    seq![Seq::<char>::empty(), "# ./"@ + relative, Seq::<char>::empty()]
}

/// Lines for `entries[i..]`, grouped under a comment whenever the directory changes.
pub open spec fn entry_lines(
    root: Seq<char>,
    entries: Seq<ManifestEntry>,
    width: nat,
    dests: Option<Map<u64, String>>,
    i: int,
    current: Option<Seq<char>>,
) -> Seq<Seq<char>>
    decreases entries.len() - i,
{
    if i < 0 || i >= entries.len() {
        Seq::empty()
    } else {
        match dest_of(entries[i], dests) {
            None => entry_lines(root, entries, width, dests, i + 1, current),
            Some(dest) => {
                let rel = crate::paths::spec_parent_relative(entries[i].from@, root);
                let head = if current == Some(rel) {
                    Seq::<Seq<char>>::empty()
                } else {
                    group_lines(rel)
                };
                head + seq![entry_line(entries[i].id, width, dest)] + entry_lines(
                    root,
                    entries,
                    width,
                    dests,
                    i + 1,
                    Some(rel),
                )
            },
        }
    }
}

pub open spec fn spec_render_plan(
    session_id: Seq<char>,
    root: Seq<char>,
    entries: Seq<ManifestEntry>,
    width: nat,
    dests: Option<Map<u64, String>>,
) -> Seq<char> {
    concat_lines(header_lines(session_id, root) + entry_lines(root, entries, width, dests, 0, None))
}

/// Wraps `value` in single quotes, doubling the quotes inside.
pub fn yaml_single_quote(value: &str) -> (out: String)
    ensures
        out@ == yaml_quote(value@),
{
    let cs = chars_of(value);
    let mut out = String::new();
    crate::text::push_char(&mut out, '\'');
    let mut i: usize = 0;
    assert(cs@.skip(0) == cs@);
    assert(out@ =~= seq!['\'']);
    while i < cs.len()
        invariant
            i <= cs.len(),
            out@ + escape_qq(cs@.skip(i as int)) + seq!['\''] == yaml_quote(cs@),
        decreases cs.len() - i,
    {
        let ghost t = cs@.skip(i as int);
        assert(t[0] == cs@[i as int]);
        assert(t.skip(1) == cs@.skip(i + 1));
        let ghost before = out@;
        if cs[i] == '\'' {
            crate::text::push_char(&mut out, '\'');
            crate::text::push_char(&mut out, '\'');
            assert(out@ + escape_qq(t.skip(1)) + seq!['\''] =~= before + escape_qq(t) + seq!['\'']);
        } else {
            crate::text::push_char(&mut out, cs[i]);
            assert(out@ + escape_qq(t.skip(1)) + seq!['\''] =~= before + escape_qq(t) + seq!['\'']);
        }
        i = i + 1;
    }
    crate::text::push_char(&mut out, '\'');
    assert(cs@.skip(i as int) =~= Seq::<char>::empty());
    out
}

/// Reads a YAML single-quoted scalar back; other text is only trimmed.
pub fn parse_yaml_single_quoted(value: &str) -> (out: String)
    ensures
        out@ == yaml_unquote(value@),
{
    let cs = chars_of(value);
    assert(cs@.subrange(0, cs.len() as int) == cs@);
    yaml_unquote_range(&cs, 0, cs.len())
}

/// Digits needed for the largest id of `count` entries (at least one).
pub fn id_width_for_count(count: usize) -> (w: usize)
    ensures
        w == decimal(if count == 0 { 1nat } else { count as nat }).len(),
{
    let n: u64 = if count == 0 { 1 } else { count as u64 };
    crate::text::decimal_len(n)
}

} // verus!

verus! {

pub open spec fn dests_view(d: Option<&std::collections::HashMap<u64, String>>) -> Option<Map<u64, String>> {
    match d {
        Some(m) => Some(m@),
        None => None,
    }
}

pub open spec fn opt_view(o: Option<String>) -> Option<Seq<char>> {
    match o {
        Some(s) => Some(s@),
        None => None,
    }
}

fn push_line_str(out: &mut String, s: &str)
    ensures
        final(out)@ == old(out)@ + s@ + seq!['\n'],
{
    push_str(out, s);
    crate::text::push_char(out, '\n');
}

fn render_header(out: &mut String, session_id: &str, root: &str)
    ensures
        final(out)@ == old(out)@ + concat_lines(header_lines(session_id@, root@)),
{
    let ghost init = out@;
    push_line_str(out, "#> remodeco: 1");
    push_str(out, "#> id: ");
    push_line_str(out, session_id);
    push_str(out, "#> root: ");
    push_line_str(out, root);
    push_line_str(out, "# Edit the path after F#### <tab> : <tab> to rename or move.");
    push_line_str(out, "# Leave the path unchanged, or delete it, or comment out the line means do nothing.");
    push_line_str(out, "# Empty destination means move to trash or delete.");
    push_line_str(out, "# When done, save and return to remodeco (exit the editor if TUI).");
    crate::text::push_char(out, '\n');
    push_str(out, "# ");
    push_line_str(out, root);
    proof {
        let h = header_lines(session_id@, root@);
        reveal_with_fuel(concat_lines, 10);
        assert(h.len() == 9);
        assert(h.drop_last().drop_last().drop_last().drop_last().drop_last().drop_last().drop_last().drop_last().drop_last() =~= Seq::<Seq<char>>::empty());
        assert(out@ =~= init + concat_lines(h));
    }
}

proof fn lemma_concat3(a: Seq<Seq<char>>, line: Seq<char>, b: Seq<Seq<char>>)
    ensures
        concat_lines(a + seq![line] + b) == concat_lines(a) + line + seq!['\n'] + concat_lines(b),
{
    lemma_concat_lines_append(a + seq![line], b);
    lemma_concat_lines_append(a, seq![line]);
    reveal_with_fuel(concat_lines, 2);
    assert(seq![line].drop_last() =~= Seq::<Seq<char>>::empty());
    assert(concat_lines(seq![line]) =~= line + seq!['\n']);
    assert(concat_lines(a) + (line + seq!['\n']) + concat_lines(b) =~= concat_lines(a) + line
        + seq!['\n'] + concat_lines(b));
}

/// The plan text: the `#> ` header and editing notes, then one `F<id><tab>:<tab><destination>` line per entry,
/// grouped under `# ./<directory>` comments. With `destinations`, entries the map lacks
/// are left out and the others carry their mapped destination.
pub fn render_plan(
    session_id: &str,
    root: &str,
    entries: &Vec<ManifestEntry>,
    id_width: usize,
    destinations: Option<&std::collections::HashMap<u64, String>>,
) -> (out: String)
    ensures
        out@ == spec_render_plan(session_id@, root@, entries@, id_width as nat, dests_view(destinations)),
{
    broadcast use vstd::std_specs::hash::group_hash_axioms;

    let mut out = String::new();
    render_header(&mut out, session_id, root);
    let ghost total = spec_render_plan(session_id@, root@, entries@, id_width as nat, dests_view(destinations));
    let ghost dv = dests_view(destinations);
    proof {
        lemma_concat_lines_append(header_lines(session_id@, root@), entry_lines(root@, entries@, id_width as nat, dv, 0, None));
        assert(out@ =~= Seq::<char>::empty() + concat_lines(header_lines(session_id@, root@)));
    }
    let mut current: Option<String> = None;
    let mut i: usize = 0;
    while i < entries.len()
        invariant
            i <= entries.len(),
            dv == dests_view(destinations),
            out@ + concat_lines(entry_lines(root@, entries@, id_width as nat, dv, i as int, opt_view(current))) == total,
        decreases entries.len() - i,
    {
        let entry = &entries[i];
        let dest: &str = match destinations {
            Some(map) => match map.get(&entry.id) {
                Some(d) => d.as_str(),
                None => {
                    i = i + 1;
                    continue;
                },
            },
            None => entry.from.as_str(),
        };
        assert(dest_of(entries@[i as int], dv) == Some(dest@));
        let rel = crate::paths::parent_relative(entry.from.as_str(), root);
        let same = match &current {
            Some(c) => *c == rel,
            None => false,
        };
        let ghost before = out@;
        let ghost head = if opt_view(current) == Some(rel@) {
            Seq::<Seq<char>>::empty()
        } else {
            group_lines(rel@)
        };
        if !same {
            push_group(&mut out, &rel);
        }
        assert(out@ == before + concat_lines(head)) by {
            if same {
                assert(concat_lines(head) =~= Seq::<char>::empty());
            }
        }
        let ghost mid = out@;
        push_entry_line(&mut out, entry.id, id_width, dest);
        proof {
            let line = entry_line(entries@[i as int].id, id_width as nat, dest@);
            let rest = entry_lines(root@, entries@, id_width as nat, dv, i + 1, Some(rel@));
            lemma_concat3(head, line, rest);
            assert(entry_lines(root@, entries@, id_width as nat, dv, i as int, opt_view(current))
                == head + seq![line] + rest);
            assert(out@ + concat_lines(rest) =~= before + concat_lines(head + seq![line] + rest));
        }
        current = Some(rel);
        i = i + 1;
    }
    assert(entry_lines(root@, entries@, id_width as nat, dv, i as int, opt_view(current)) =~= Seq::<Seq<char>>::empty());
    assert(out@ + Seq::<char>::empty() == out@);
    out
}

fn push_group(out: &mut String, rel: &String)
    ensures
        final(out)@ == old(out)@ + concat_lines(group_lines(rel@)),
{
    crate::text::push_char(out, '\n');
    push_str(out, "# ./");
    push_line_str(out, rel.as_str());
    crate::text::push_char(out, '\n');
    proof {
        reveal_with_fuel(concat_lines, 4);
        assert(final(out)@ =~= old(out)@ + concat_lines(group_lines(rel@)));
    }
}

fn push_entry_line(out: &mut String, id: u64, width: usize, dest: &str)
    ensures
        final(out)@ == old(out)@ + entry_line(id, width as nat, dest@) + seq!['\n'],
{
    crate::text::push_char(out, 'F');
    push_padded(out, id, width);
    crate::text::push_char(out, '\t');
    crate::text::push_char(out, ':');
    crate::text::push_char(out, '\t');
    push_line_str(out, dest);
    assert(final(out)@ =~= old(out)@ + entry_line(id, width as nat, dest@) + seq!['\n']);
}

/// The plan as first generated: every entry keeps its source as destination.
pub fn generate_plan(session_id: &str, root: &str, entries: &Vec<ManifestEntry>, id_width: usize) -> (out: String)
    ensures
        out@ == spec_render_plan(session_id@, root@, entries@, id_width as nat, None),
        crate::readback::plan_readable(session_id@, root@, entries@, id_width as nat)
            && vstd::utf8::encode_utf8(out@).len() <= MAX_FILE_BYTES ==> (spec_parse_plan(
            out@,
            vstd::utf8::encode_utf8(out@).len(),
        ) matches Ok(p) && p.header == Some(HeaderV { remodeco: 1, id: session_id@, root: root@ })
            && p.unknown.len() == 0 && crate::readback::reads_entries(p.bullets, entries@, entries@.len() as int)),
{
    let out = render_plan(session_id, root, entries, id_width, None);
    proof {
        if crate::readback::plan_readable(session_id@, root@, entries@, id_width as nat)
            && vstd::utf8::encode_utf8(out@).len() <= MAX_FILE_BYTES {
            crate::readback::lemma_generated_plan_reads_back(
                session_id@,
                root@,
                entries@,
                id_width as nat,
                vstd::utf8::encode_utf8(out@).len(),
            );
        }
    }
    out
}

} // verus!

verus! {

// ---------------------------------------------------------------------------
// Legacy detection, classification and header checks.

pub open spec fn legacy_line(l: Seq<char>) -> bool {
    let t = crate::text::trim_start(l);
    ||| starts_with(t, seq!['-', ' ', '`', '{'])
    ||| starts_with(t, seq!['>'])
    ||| colon_space_entry(l) is Some
}

/// The pieces `str::lines` yields: one trailing CR is dropped from each piece that a
/// newline ended.
pub open spec fn lines_piece(pieces: Seq<Seq<char>>, k: int) -> Seq<char> {
    let p = pieces[k];
    if k < pieces.len() - 1 && p.len() > 0 && p.last() == '\r' {
        p.drop_last()
    } else {
        p
    }
}

pub open spec fn spec_is_legacy(raw: Seq<char>) -> bool {
    let pieces = split_on(raw, '\n');
    exists|k: int| 0 <= k < pieces.len() && legacy_line(#[trigger] lines_piece(pieces, k))
}

fn trim_start_index(cs: &Vec<char>, s: usize, e: usize) -> (a: usize)
    requires
        s <= e <= cs.len(),
    ensures
        s <= a <= e,
        cs@.subrange(a as int, e as int) == crate::text::trim_start(cs@.subrange(s as int, e as int)),
{
    let ghost t = cs@.subrange(s as int, e as int);
    let mut a = s;
    while a < e && crate::text::is_ws_exec(cs[a])
        invariant
            s <= a <= e <= cs.len(),
            forall|i: int| s <= i < a ==> crate::text::is_ws(#[trigger] cs@[i]),
        decreases e - a,
    {
        a = a + 1;
    }
    proof {
        assert forall|i: int| 0 <= i < a - s implies crate::text::is_ws(#[trigger] t[i]) by {
            assert(t[i] == cs@[s + i]);
        }
        if a < e {
            assert(t[a - s] == cs@[a as int]);
        }
        crate::text::lemma_trim_start_at(t, a - s);
        assert(t.skip(a - s) == cs@.subrange(a as int, e as int));
    }
    a
}

fn legacy_range(cs: &Vec<char>, s: usize, e: usize) -> (b: bool)
    requires
        s <= e <= cs.len(),
    ensures
        b == legacy_line(cs@.subrange(s as int, e as int)),
{
    let a = trim_start_index(cs, s, e);
    let open = chars_of("- `{");
    let quote = vec!['>'];
    proof {
        reveal_strlit("- `{");
        assert(open@ == seq!['-', ' ', '`', '{']);
        assert(quote@ == seq!['>']);
    }
    if range_starts_with(cs, a, e, &open) || range_starts_with(cs, a, e, &quote) {
        return true;
    }
    let r = colon_space_range(cs, s, e);
    r.is_some()
}

/// Whether the text still uses a legacy entry form (markdown bullets, `>` notes, or
/// `F<id>: <path>` lines).
pub fn is_legacy_plan_text(raw: &str) -> (b: bool)
    ensures
        b == spec_is_legacy(raw@),
{
    let cs = chars_of(raw);
    let bounds = split_bounds(&cs, '\n');
    let ghost pieces = split_on(cs@, '\n');
    let mut k: usize = 0;
    while k < bounds.len()
        invariant
            k <= bounds.len(),
            cs@ == raw@,
            pieces == split_on(cs@, '\n'),
            bounds.len() == pieces.len(),
            forall|j: int|
                0 <= j < bounds.len() ==> {
                    &&& (#[trigger] bounds[j]).0 <= bounds[j].1 <= cs.len()
                    &&& cs@.subrange(bounds[j].0 as int, bounds[j].1 as int) == pieces[j]
                },
            forall|j: int| 0 <= j < k ==> !legacy_line(#[trigger] lines_piece(pieces, j)),
        decreases bounds.len() - k,
    {
        let (s, e) = bounds[k];
        assert(cs@.subrange(s as int, e as int) == pieces[k as int]);
        let end = if k + 1 < bounds.len() && e > s && cs[e - 1] == '\r' {
            e - 1
        } else {
            e
        };
        proof {
            if k + 1 < bounds.len() && e > s {
                assert(pieces[k as int].last() == cs@[e - 1]);
            }
            assert(cs@.subrange(s as int, end as int) == lines_piece(pieces, k as int));
        }
        if legacy_range(&cs, s, end) {
            return true;
        }
        k = k + 1;
    }
    false
}

pub struct OpV {
    pub id: u64,
    pub from: Seq<char>,
    pub to: Seq<char>,
    pub kind: OpKind,
}

impl View for Operation {
    type V = OpV;

    open spec fn view(&self) -> OpV {
        OpV { id: self.id, from: self.from@, to: self.to@, kind: self.kind }
    }
}

/// Source of the last manifest entry with `id`.
pub open spec fn manifest_from(m: Seq<ManifestEntry>, id: u64) -> Option<Seq<char>>
    decreases m.len(),
{
    if m.len() == 0 {
        None
    } else if m.last().id == id {
        Some(m.last().from@)
    } else {
        manifest_from(m.drop_last(), id)
    }
}

/// The operation an entry asks for.
pub open spec fn op_for(b: BulletV, from: Seq<char>, mode: SessionMode) -> OpV {
    match b.kind {
        BulletKind::Trash => OpV { id: b.id, from, to: Seq::<char>::empty(), kind: OpKind::Trash },
        BulletKind::Destination => if b.destination == from {
            OpV { id: b.id, from, to: b.destination, kind: OpKind::Noop }
        } else {
            OpV {
                id: b.id,
                from,
                to: b.destination,
                kind: match mode {
                    SessionMode::Move => OpKind::Move,
                    SessionMode::Copy => OpKind::Copy,
                },
            }
        },
    }
}

pub open spec fn unknown_id_message(id: u64) -> Seq<char> {
    "id F"@ + decimal(id as nat) + " is not in the manifest"@
}

/// Operations for `bullets[i..]`, or the first id the manifest lacks.
pub open spec fn classify_from(bullets: Seq<BulletV>, m: Seq<ManifestEntry>, mode: SessionMode, i: int) -> Result<
    Seq<OpV>,
    u64,
>
    decreases bullets.len() - i,
{
    if i < 0 || i >= bullets.len() {
        Ok(Seq::empty())
    } else {
        match manifest_from(m, bullets[i].id) {
            None => Err(bullets[i].id),
            Some(from) => match classify_from(bullets, m, mode, i + 1) {
                Ok(rest) => Ok(seq![op_for(bullets[i], from, mode)] + rest),
                Err(id) => Err(id),
            },
        }
    }
}

/// Manifest ids that no entry names, in manifest order.
pub open spec fn skipped_ids(m: Seq<ManifestEntry>, bullets: Seq<BulletV>) -> Seq<u64>
    decreases m.len(),
{
    if m.len() == 0 {
        Seq::empty()
    } else if has_id(bullets, m.last().id) {
        skipped_ids(m.drop_last(), bullets)
    } else {
        skipped_ids(m.drop_last(), bullets).push(m.last().id)
    }
}

} // verus!

verus! {

/// Classification keeps the entries' order and ids and takes each source from the
/// manifest. An empty destination trashes; an unchanged one does nothing; a changed one
/// copies in a copy session and moves in a move session, to that destination: a copy
/// session never moves a file, and a move session never copies one.
pub proof fn lemma_classified_kinds(bullets: Seq<BulletV>, m: Seq<ManifestEntry>, mode: SessionMode, i: int)
    requires
        0 <= i <= bullets.len(),
    ensures
        classify_from(bullets, m, mode, i) matches Ok(ops) ==> {
            &&& ops.len() == bullets.len() - i
            &&& forall|k: int|
                0 <= k < ops.len() ==> {
                    let b = bullets[i + k];
                    let o = #[trigger] ops[k];
                    &&& o.id == b.id
                    &&& manifest_from(m, b.id) == Some(o.from)
                    &&& mode == SessionMode::Copy ==> o.kind != OpKind::Move
                    &&& mode == SessionMode::Move ==> o.kind != OpKind::Copy
                    &&& b.kind == BulletKind::Trash ==> o.kind == OpKind::Trash && o.to.len() == 0
                    &&& b.kind == BulletKind::Destination && b.destination == o.from ==> o.kind == OpKind::Noop
                    &&& b.kind == BulletKind::Destination && b.destination != o.from ==> {
                        &&& o.to == b.destination
                        &&& mode == SessionMode::Copy ==> o.kind == OpKind::Copy
                        &&& mode == SessionMode::Move ==> o.kind == OpKind::Move
                    }
                }
        },
    decreases bullets.len() - i,
{
    if i < bullets.len() {
        lemma_classified_kinds(bullets, m, mode, i + 1);
        if let Ok(ops) = classify_from(bullets, m, mode, i) {
            let rest = classify_from(bullets, m, mode, i + 1)->Ok_0;
            assert forall|k: int| 0 < k < ops.len() implies ops[k] == rest[k - 1] by {}
        }
    }
}

pub open spec fn ops_view(ops: Seq<Operation>) -> Seq<OpV> {
    ops.map_values(|o: Operation| o@)
}

/// Ties each entry to its manifest source and decides what it asks for: trash for an
/// empty destination, nothing for an unchanged one, else a move or copy by `mode`.
/// Also returns the manifest ids that no entry names (skipped).
pub fn classify_ops(parsed: &ParsedPlan, manifest: &Vec<ManifestEntry>, mode: SessionMode) -> (r: Result<
    (Vec<Operation>, Vec<u64>),
    PlanError,
>)
    ensures
        match (r, classify_from(parsed@.bullets, manifest@, mode, 0)) {
            (Ok((ops, skipped)), Ok(sops)) => ops_view(ops@) == sops && skipped@ == skipped_ids(
                manifest@,
                parsed@.bullets,
            ),
            (Err(e), Err(id)) => e.code == PlanErrorCode::UnknownId && e.message@
                == unknown_id_message(id),
            _ => false,
        },
{
    broadcast use vstd::std_specs::hash::group_hash_axioms;

    let ghost bv = parsed@.bullets;
    let mut by_id: std::collections::HashMap<u64, usize> = std::collections::HashMap::new();
    let mut j: usize = 0;
    while j < manifest.len()
        invariant
            j <= manifest.len(),
            forall|id: u64|
                #![trigger manifest_from(manifest@.take(j as int), id)]
                match manifest_from(manifest@.take(j as int), id) {
                    Some(from) => by_id@.contains_key(id) && by_id@[id] < j && manifest@[by_id@[id] as int].from@ == from,
                    None => !by_id@.contains_key(id),
                },
        decreases manifest.len() - j,
    {
        by_id.insert(manifest[j].id, j);
        proof {
            let t = manifest@.take(j + 1);
            assert(t.drop_last() == manifest@.take(j as int));
            assert(t.last() == manifest@[j as int]);
            assert forall|id: u64| #![trigger manifest_from(manifest@.take(j + 1), id)]
                match manifest_from(manifest@.take(j + 1), id) {
                    Some(from) => by_id@.contains_key(id) && by_id@[id] < j + 1 && manifest@[by_id@[id] as int].from@ == from,
                    None => !by_id@.contains_key(id),
                } by {
                assert(manifest_from(manifest@.take(j as int), id) == manifest_from(t.drop_last(), id));
            }
        }
        j = j + 1;
    }
    assert(manifest@.take(j as int) == manifest@);
    let mut active: std::collections::HashSet<u64> = std::collections::HashSet::new();
    let mut k: usize = 0;
    while k < parsed.bullets.len()
        invariant
            k <= parsed.bullets.len(),
            bv == parsed@.bullets,
            forall|id: u64| active@.contains(id) <==> has_id(bv.take(k as int), id),
        decreases parsed.bullets.len() - k,
    {
        active.insert(parsed.bullets[k].id);
        proof {
            let t = bv.take(k + 1);
            assert forall|id: u64| active@.contains(id) <==> has_id(t, id) by {
                if has_id(t, id) {
                    let x = choose|x: int| 0 <= x < t.len() && (#[trigger] t[x]).id == id;
                    if x < k {
                        assert(bv.take(k as int)[x] == t[x]);
                    }
                }
                if id != parsed.bullets[k as int].id && active@.contains(id) {
                    let x = choose|x: int| 0 <= x < bv.take(k as int).len() && (#[trigger] bv.take(k as int)[x]).id == id;
                    assert(t[x] == bv.take(k as int)[x]);
                }
                if id == parsed.bullets[k as int].id {
                    assert(t[k as int] == bv[k as int]);
                }
            }
        }
        k = k + 1;
    }
    assert(bv.take(k as int) == bv);
    let mut skipped: Vec<u64> = Vec::new();
    let mut j: usize = 0;
    while j < manifest.len()
        invariant
            j <= manifest.len(),
            forall|id: u64| active@.contains(id) <==> has_id(bv, id),
            skipped@ == skipped_ids(manifest@.take(j as int), bv),
        decreases manifest.len() - j,
    {
        let id = manifest[j].id;
        proof {
            let t = manifest@.take(j + 1);
            assert(t.drop_last() == manifest@.take(j as int));
            assert(t.last() == manifest@[j as int]);
        }
        if !active.contains(&id) {
            skipped.push(id);
        }
        j = j + 1;
    }
    assert(manifest@.take(j as int) == manifest@);
    let mut ops: Vec<Operation> = Vec::new();
    let mut i: usize = 0;
    while i < parsed.bullets.len()
        invariant
            i <= parsed.bullets.len(),
            bv == parsed@.bullets,
            forall|id: u64|
                #![trigger manifest_from(manifest@, id)]
                match manifest_from(manifest@, id) {
                    Some(from) => by_id@.contains_key(id) && by_id@[id] < manifest.len() && manifest@[by_id@[id] as int].from@ == from,
                    None => !by_id@.contains_key(id),
                },
            classify_from(bv, manifest@, mode, 0) == match classify_from(bv, manifest@, mode, i as int) {
                Ok(rest) => Ok(ops_view(ops@) + rest),
                Err(id) => Err::<Seq<OpV>, u64>(id),
            },
        decreases parsed.bullets.len() - i,
    {
        let bullet = &parsed.bullets[i];
        assert(bv[i as int] == bullet@);
        let ghost lookup = manifest_from(manifest@, bullet.id);
        match by_id.get(&bullet.id) {
            None => {
                let mut m = String::new();
                push_str(&mut m, "id F");
                push_decimal(&mut m, bullet.id);
                push_str(&mut m, " is not in the manifest");
                proof {
                    assert(classify_from(bv, manifest@, mode, i as int) == Err::<Seq<OpV>, u64>(bullet.id));
                }
                return Err(PlanError::new(PlanErrorCode::UnknownId, m));
            },
            Some(index) => {
                let from = manifest[*index].from.clone();
                let (to, kind) = match bullet.kind {
                    BulletKind::Trash => (String::new(), OpKind::Trash),
                    BulletKind::Destination => {
                        if bullet.destination == from {
                            (bullet.destination.clone(), OpKind::Noop)
                        } else {
                            (bullet.destination.clone(), match mode {
                                SessionMode::Move => OpKind::Move,
                                SessionMode::Copy => OpKind::Copy,
                            })
                        }
                    },
                };
                let op = Operation { id: bullet.id, from, to, kind };
                proof {
                    assert(lookup is Some);
                    assert(op@ == op_for(bv[i as int], lookup.unwrap(), mode));
                    assert(classify_from(bv, manifest@, mode, i as int) == match classify_from(bv, manifest@, mode, i + 1) {
                        Ok(rest) => Ok(seq![op@] + rest),
                        Err(id) => Err::<Seq<OpV>, u64>(id),
                    });
                }
                let ghost old_ops = ops@;
                ops.push(op);
                proof {
                    assert(ops_view(ops@) =~= ops_view(old_ops).push(op@));
                    match classify_from(bv, manifest@, mode, i + 1) {
                        Ok(rest) => {
                            assert(ops_view(old_ops) + (seq![op@] + rest) =~= ops_view(ops@) + rest);
                        },
                        Err(_) => {},
                    }
                }
            },
        }
        i = i + 1;
    }
    assert(classify_from(bv, manifest@, mode, i as int) == Ok::<Seq<OpV>, u64>(Seq::empty()));
    assert(ops_view(ops@) + Seq::<OpV>::empty() == ops_view(ops@));
    Ok((ops, skipped))
}

pub open spec fn header_matches(h: HeaderV, session_id: Seq<char>, root: Seq<char>) -> bool {
    h.remodeco == 1 && h.id == session_id && h.root == root
}

/// The plan's header must name format 1, this session and its root.
pub fn validate_plan_header(parsed: &ParsedPlan, session_id: &str, root: &str) -> (r: Result<(), PlanError>)
    ensures
        match parsed@.header {
            None => r matches Err(e) && e.code == PlanErrorCode::FrontMatter && e.message@
                == "missing front matter"@,
            Some(h) => if header_matches(h, session_id@, root@) {
                r is Ok
            } else {
                r matches Err(e) && e.code == PlanErrorCode::FrontMatter && e.message@
                    == "plan front matter does not match the session"@
            },
        },
{
    match &parsed.header {
        None => {
            let mut m = String::new();
            push_str(&mut m, "missing front matter");
            Err(PlanError::new(PlanErrorCode::FrontMatter, m))
        },
        Some(header) => {
            let id_ok = crate::text::str_eq(header.id.as_str(), session_id);
            let root_ok = crate::text::str_eq(header.root.as_str(), root);
            if header.remodeco != 1 || !id_ok || !root_ok {
                let mut m = String::new();
                push_str(&mut m, "plan front matter does not match the session");
                Err(PlanError::new(PlanErrorCode::FrontMatter, m))
            } else {
                Ok(())
            }
        },
    }
}

} // verus!

verus! {

/// The text after the leading `#> ` metadata lines.
pub open spec fn skip_meta(s: Seq<char>) -> Seq<char>
    decreases s.len(),
{
    if starts_with(s, "#> "@) {
        match find_pat(s, seq!['\n'], 0) {
            Some(i) => if 0 <= i < s.len() {
                skip_meta(s.skip(i + 1))
            } else {
                Seq::empty()
            },
            None => Seq::empty(),
        }
    } else {
        s
    }
}

/// The plan below its header: the text after the `#> ` metadata lines; for a legacy plan,
/// the text after the first `\n---\n` (the end of its front matter), or all of it when
/// there is none.
pub open spec fn plan_body(raw: Seq<char>) -> Seq<char> {
    if starts_with(raw, "#> "@) {
        skip_meta(raw)
    } else {
        match find_pat(raw, seq!['\n', '-', '-', '-', '\n'], 0) {
            Some(p) => raw.skip(p + 5),
            None => raw,
        }
    }
}

/// Where the text after the leading metadata lines of `cs` starts.
fn meta_body_start(cs: &Vec<char>) -> (r: usize)
    ensures
        r <= cs.len(),
        skip_meta(cs@) == cs@.skip(r as int),
{
    let marker = chars_of("#> ");
    let newline = vec!['\n'];
    assert(newline@ == seq!['\n']);
    let n = cs.len();
    let mut pos: usize = 0;
    assert(cs@.skip(0) =~= cs@);
    loop
        invariant
            pos <= n == cs.len(),
            marker@ == "#> "@,
            newline@ == seq!['\n'],
            skip_meta(cs@) == skip_meta(cs@.skip(pos as int)),
        decreases n - pos,
    {
        let ghost rest = cs@.skip(pos as int);
        assert(rest =~= cs@.subrange(pos as int, n as int));
        if !range_starts_with(cs, pos, n, &marker) {
            return pos;
        }
        match find_pat_range(cs, pos, pos, n, &newline) {
            Some(p) => {
                assert(rest.skip(p - pos + 1) =~= cs@.skip(p + 1));
                pos = p + 1;
            },
            None => {
                assert(cs@.skip(n as int) =~= Seq::<char>::empty());
                return n;
            },
        }
    }
}

/// Hash of the whole plan file.
pub fn whole_file_hash(raw: &str) -> (h: String)
    ensures
        h@ == crate::hashing::spec_sha256_hex(vstd::utf8::encode_utf8(raw@)),
        h@.len() == 71,
        h@.subrange(0, 7) == "sha256:"@,
        forall|i: int| 7 <= i < 71 ==> crate::hashing::is_hex_digit(#[trigger] h@[i]),
{
    crate::hashing::sha256_hex(raw.as_bytes())
}

/// Hash of the plan below its header.
pub fn body_hash(raw: &str) -> (h: String)
    ensures
        h@ == crate::hashing::spec_sha256_hex(vstd::utf8::encode_utf8(plan_body(raw@))),
        h@.len() == 71,
        h@.subrange(0, 7) == "sha256:"@,
        forall|i: int| 7 <= i < 71 ==> crate::hashing::is_hex_digit(#[trigger] h@[i]),
{
    let cs = chars_of(raw);
    let marker = vec!['\n', '-', '-', '-', '\n'];
    assert(marker@ == seq!['\n', '-', '-', '-', '\n']);
    assert(cs@.subrange(0, cs.len() as int) == cs@);
    let meta = chars_of("#> ");
    if range_starts_with(&cs, 0, cs.len(), &meta) {
        let start = meta_body_start(&cs);
        let b = string_from(&cs, start, cs.len());
        assert(cs@.skip(start as int) == cs@.subrange(start as int, cs.len() as int));
        return crate::hashing::sha256_hex(b.as_str().as_bytes());
    }
    let body = match find_pat_range(&cs, 0, 0, cs.len(), &marker) {
        Some(p) => {
            let b = string_from(&cs, p + 5, cs.len());
            assert(cs@.skip(p + 5) == cs@.subrange(p + 5, cs.len() as int));
            b
        },
        None => string_from(&cs, 0, cs.len()),
    };
    crate::hashing::sha256_hex(body.as_str().as_bytes())
}

/// Entries name files by id, never by path: each operation of a classified plan is the
/// entry's id with the source the manifest recorded for it, whatever destination the
/// entry was edited to.
pub proof fn lemma_sources_come_from_manifest(bullets: Seq<BulletV>, m: Seq<ManifestEntry>, mode: SessionMode)
    requires
        classify_from(bullets, m, mode, 0) is Ok,
    ensures
        classify_from(bullets, m, mode, 0)->Ok_0.len() == bullets.len(),
        forall|k: int|
            0 <= k < bullets.len() ==> {
                &&& (#[trigger] classify_from(bullets, m, mode, 0)->Ok_0[k]).id == bullets[k].id
                &&& manifest_from(m, bullets[k].id) == Some(classify_from(bullets, m, mode, 0)->Ok_0[k].from)
            },
{
    lemma_classify_sources(bullets, m, mode, 0);
    let ops = classify_from(bullets, m, mode, 0)->Ok_0;
    assert forall|k: int| 0 <= k < bullets.len() implies {
        &&& (#[trigger] ops[k]).id == bullets[k].id
        &&& manifest_from(m, bullets[k].id) == Some(ops[k].from)
    } by {
        assert(ops[k - 0] == ops[k]);
    }
}

proof fn lemma_classify_sources(bullets: Seq<BulletV>, m: Seq<ManifestEntry>, mode: SessionMode, i: int)
    requires
        0 <= i <= bullets.len(),
        classify_from(bullets, m, mode, i) is Ok,
    ensures
        classify_from(bullets, m, mode, i)->Ok_0.len() == bullets.len() - i,
        forall|k: int|
            i <= k < bullets.len() ==> {
                &&& (#[trigger] classify_from(bullets, m, mode, i)->Ok_0[k - i]).id == bullets[k].id
                &&& manifest_from(m, bullets[k].id) == Some(classify_from(bullets, m, mode, i)->Ok_0[k - i].from)
            },
    decreases bullets.len() - i,
{
    if i < bullets.len() {
        lemma_classify_sources(bullets, m, mode, i + 1);
        let ops = classify_from(bullets, m, mode, i)->Ok_0;
        let rest = classify_from(bullets, m, mode, i + 1)->Ok_0;
        let from = manifest_from(m, bullets[i].id)->Some_0;
        assert(ops == seq![op_for(bullets[i], from, mode)] + rest);
        assert forall|k: int| i <= k < bullets.len() implies {
            &&& (#[trigger] ops[k - i]).id == bullets[k].id
            &&& manifest_from(m, bullets[k].id) == Some(ops[k - i].from)
        } by {
            if k > i {
                assert(ops[k - i] == rest[k - (i + 1)]);
            }
        }
    }
}

/// Rendering with a map that gives every entry its own path writes the generated plan:
/// a plan whose destinations were all left unchanged is written back as it was made.
pub proof fn lemma_identity_map_renders_generated(
    session_id: Seq<char>,
    root: Seq<char>,
    entries: Seq<ManifestEntry>,
    width: nat,
    m: Map<u64, String>,
)
    requires
        forall|k: int|
            0 <= k < entries.len() ==> m.dom().contains(#[trigger] entries[k].id) && m[entries[k].id]@
                == entries[k].from@,
    ensures
        spec_render_plan(session_id, root, entries, width, Some(m)) == spec_render_plan(
            session_id,
            root,
            entries,
            width,
            None,
        ),
{
    lemma_entry_lines_identity(root, entries, width, m, 0, None);
}

proof fn lemma_entry_lines_identity(
    root: Seq<char>,
    entries: Seq<ManifestEntry>,
    width: nat,
    m: Map<u64, String>,
    i: int,
    current: Option<Seq<char>>,
)
    requires
        forall|k: int|
            0 <= k < entries.len() ==> m.dom().contains(#[trigger] entries[k].id) && m[entries[k].id]@
                == entries[k].from@,
    ensures
        entry_lines(root, entries, width, Some(m), i, current) == entry_lines(root, entries, width, None, i, current),
    decreases entries.len() - i,
{
    if 0 <= i < entries.len() {
        assert(m.dom().contains(entries[i].id));
        let rel = crate::paths::spec_parent_relative(entries[i].from@, root);
        lemma_entry_lines_identity(root, entries, width, m, i + 1, Some(rel));
    }
}

/// What the entries and unknown lines read from the first `upto` lines of a plan are:
/// entries with pairwise different ids, in line order, each read from its line; a
/// trash entry exactly when its destination is empty; other destinations safe for a
/// line, absolute, and within the size limit; unknown lines in order, each the text of
/// its line. Line numbers count from 1.
pub open spec fn body_well_formed(lines: Seq<Seq<char>>, b: BodyV, upto: int) -> bool {
    &&& forall|j: int, k: int|
        0 <= j < k < b.bullets.len() ==> (#[trigger] b.bullets[j]).id != (#[trigger] b.bullets[k]).id
            && b.bullets[j].line < b.bullets[k].line
    &&& forall|j: int|
        0 <= j < b.bullets.len() ==> {
            let x = #[trigger] b.bullets[j];
            &&& 1 <= x.line <= upto
            &&& x.line <= lines.len()
            &&& entry_of(lines[x.line - 1]) == Some((x.id, x.destination))
            &&& (x.kind == BulletKind::Trash <==> x.destination.len() == 0)
            &&& (x.kind == BulletKind::Destination ==> line_safe(x.destination) && abs_posix(x.destination))
            &&& utf8_len(x.destination) <= MAX_DEST_BYTES
        }
    &&& forall|j: int, k: int| 0 <= j < k < b.unknown.len() ==> (#[trigger] b.unknown[j]).0 < (#[trigger] b.unknown[k]).0
    &&& forall|j: int|
        0 <= j < b.unknown.len() ==> {
            let u = #[trigger] b.unknown[j];
            &&& 1 <= u.0 <= upto
            &&& u.0 <= lines.len()
            &&& lines[u.0 - 1] == u.1
        }
}

/// A plan that parses is well formed (see `body_well_formed`) over all its lines.
pub proof fn lemma_parsed_plan_well_formed(raw: Seq<char>, bytes: nat)
    requires
        spec_parse_plan(raw, bytes) is Ok,
    ensures
        body_well_formed(
            split_on(raw, '\n'),
            BodyV {
                bullets: spec_parse_plan(raw, bytes)->Ok_0.bullets,
                unknown: spec_parse_plan(raw, bytes)->Ok_0.unknown,
            },
            split_on(raw, '\n').len() as int,
        ),
{
    let lines = split_on(raw, '\n');
    crate::text::lemma_split_on_len(raw, '\n');
    if is_meta(lines[0]) {
        lemma_meta_end_bounds(lines, 0);
        lemma_body_well_formed(lines, meta_end(lines, 0), empty_body());
    } else if lines[0] == "---"@ {
        let j = find_line(lines, 1, "---"@)->Some_0;
        lemma_find_line_bounds(lines, 1, "---"@);
        lemma_body_well_formed(lines, j + 1, empty_body());
    } else {
        lemma_body_well_formed(lines, 0, empty_body());
    }
}

/// Every destination entry of a plan that parses names an absolute path: it starts
/// with `/` and is more than the `/` alone; a relative destination is never accepted.
pub proof fn lemma_parsed_destinations_absolute(raw: Seq<char>, bytes: nat)
    requires
        spec_parse_plan(raw, bytes) is Ok,
    ensures
        forall|k: int|
            0 <= k < spec_parse_plan(raw, bytes)->Ok_0.bullets.len() && (#[trigger] spec_parse_plan(
                raw,
                bytes,
            )->Ok_0.bullets[k]).kind == BulletKind::Destination ==> {
                let d = spec_parse_plan(raw, bytes)->Ok_0.bullets[k].destination;
                &&& d.len() > 1
                &&& d[0] == '/'
                &&& d.last() != '/'
            },
{
    lemma_parsed_plan_well_formed(raw, bytes);
}

proof fn lemma_meta_end_bounds(lines: Seq<Seq<char>>, i: int)
    requires
        0 <= i <= lines.len(),
    ensures
        i <= meta_end(lines, i) <= lines.len(),
    decreases lines.len() - i,
{
    if 0 <= i < lines.len() && is_meta(lines[i]) {
        lemma_meta_end_bounds(lines, i + 1);
    }
}

proof fn lemma_find_line_bounds(lines: Seq<Seq<char>>, from: int, t: Seq<char>)
    requires
        0 <= from,
    ensures
        find_line(lines, from, t) matches Some(j) ==> from <= j < lines.len(),
    decreases lines.len() - from,
{
    if 0 <= from < lines.len() && lines[from] != t {
        lemma_find_line_bounds(lines, from + 1, t);
    }
}

proof fn lemma_body_well_formed(lines: Seq<Seq<char>>, i: int, acc: BodyV)
    requires
        0 <= i <= lines.len(),
        body_well_formed(lines, acc, i),
    ensures
        parse_body(lines, i, acc) matches Ok(b) ==> body_well_formed(lines, b, lines.len() as int),
    decreases lines.len() - i,
{
    if i < lines.len() {
        match body_step(lines[i], i + 1, acc) {
            Ok(next) => {
                lemma_step_well_formed(lines, i, acc);
                lemma_body_well_formed(lines, i + 1, next);
            },
            Err(_) => {},
        }
    }
}

proof fn lemma_step_well_formed(lines: Seq<Seq<char>>, i: int, acc: BodyV)
    requires
        0 <= i < lines.len(),
        body_well_formed(lines, acc, i),
    ensures
        body_step(lines[i], i + 1, acc) matches Ok(next) ==> body_well_formed(lines, next, i + 1),
{
    let line = lines[i];
    if !is_ignorable(line) {
        match entry_of(line) {
            None => {
                let next = BodyV { bullets: acc.bullets, unknown: acc.unknown.push((i + 1, line)) };
                assert forall|j: int, k: int| 0 <= j < k < next.unknown.len() implies (#[trigger] next.unknown[j]).0
                    < (#[trigger] next.unknown[k]).0 by {
                    if k == next.unknown.len() - 1 {
                        assert(next.unknown[j] == acc.unknown[j]);
                    } else {
                        assert(next.unknown[j] == acc.unknown[j] && next.unknown[k] == acc.unknown[k]);
                    }
                }
                assert forall|j: int| 0 <= j < next.unknown.len() implies {
                    let u = #[trigger] next.unknown[j];
                    &&& 1 <= u.0 <= i + 1
                    &&& u.0 <= lines.len()
                    &&& lines[u.0 - 1] == u.1
                } by {
                    if j < acc.unknown.len() {
                        assert(next.unknown[j] == acc.unknown[j]);
                    }
                }
            },
            Some((id, dest)) => {
                if !has_id(acc.bullets, id) && utf8_len(dest) <= MAX_DEST_BYTES && (dest.len() == 0 || (line_safe(dest)
                    && abs_posix(dest))) {
                    let x = BulletV {
                        id,
                        destination: dest,
                        kind: if dest.len() == 0 {
                            BulletKind::Trash
                        } else {
                            BulletKind::Destination
                        },
                        line: i + 1,
                    };
                    let next = BodyV { bullets: acc.bullets.push(x), unknown: acc.unknown };
                    assert(body_step(line, i + 1, acc) == Ok::<BodyV, (PlanErrorCode, Seq<char>)>(next));
                    assert forall|j: int, k: int| 0 <= j < k < next.bullets.len() implies (#[trigger] next.bullets[j]).id
                        != (#[trigger] next.bullets[k]).id && next.bullets[j].line < next.bullets[k].line by {
                        if k == next.bullets.len() - 1 {
                            assert(next.bullets[j] == acc.bullets[j]);
                            if acc.bullets[j].id == id {
                                assert(has_id(acc.bullets, id));
                            }
                        } else {
                            assert(next.bullets[j] == acc.bullets[j] && next.bullets[k] == acc.bullets[k]);
                        }
                    }
                    assert forall|j: int| 0 <= j < next.bullets.len() implies {
                        let y = #[trigger] next.bullets[j];
                        &&& 1 <= y.line <= i + 1
                        &&& y.line <= lines.len()
                        &&& entry_of(lines[y.line - 1]) == Some((y.id, y.destination))
                        &&& (y.kind == BulletKind::Trash <==> y.destination.len() == 0)
                        &&& (y.kind == BulletKind::Destination ==> line_safe(y.destination) && abs_posix(y.destination))
                        &&& utf8_len(y.destination) <= MAX_DEST_BYTES
                    } by {
                        if j < acc.bullets.len() {
                            assert(next.bullets[j] == acc.bullets[j]);
                        }
                    }
                }
            },
        }
    }
}

/// A line that holds an entry: it starts with `F`.
pub open spec fn is_entry_text(l: Seq<char>) -> bool {
    l.len() > 0 && l[0] == 'F'
}

/// The lines of a rendered plan (the text is these lines, each ended by a newline).
pub open spec fn plan_lines(
    session_id: Seq<char>,
    root: Seq<char>,
    entries: Seq<ManifestEntry>,
    width: nat,
    dests: Option<Map<u64, String>>,
) -> Seq<Seq<char>> {
    header_lines(session_id, root) + entry_lines(root, entries, width, dests, 0, None)
}

/// One `F<id><tab>:<tab><destination>` line, with the id zero-padded to `width`, for each
/// of `entries[i..]` that has a destination (see `dest_of`), in entry order.
pub open spec fn mapped_entry_lines(
    entries: Seq<ManifestEntry>,
    width: nat,
    dests: Option<Map<u64, String>>,
    i: int,
) -> Seq<Seq<char>>
    decreases entries.len() - i,
{
    if i < 0 || i >= entries.len() {
        Seq::empty()
    } else {
        match dest_of(entries[i], dests) {
            None => mapped_entry_lines(entries, width, dests, i + 1),
            Some(d) => seq![entry_line(entries[i].id, width, d)] + mapped_entry_lines(entries, width, dests, i + 1),
        }
    }
}

/// The entry lines of a rendered plan are exactly one line per entry that has a
/// destination, in entry order: its id zero-padded to the width, a tab, `:`, a tab, and
/// its destination (the mapped one when a map is given, else its own path). No other
/// line of the plan starts with `F`.
pub proof fn lemma_rendered_entry_lines(
    session_id: Seq<char>,
    root: Seq<char>,
    entries: Seq<ManifestEntry>,
    width: nat,
    dests: Option<Map<u64, String>>,
)
    ensures
        spec_render_plan(session_id, root, entries, width, dests) == concat_lines(
            plan_lines(session_id, root, entries, width, dests),
        ),
        plan_lines(session_id, root, entries, width, dests).filter(|l: Seq<char>| is_entry_text(l))
            == mapped_entry_lines(entries, width, dests, 0),
{
    let p = |l: Seq<char>| is_entry_text(l);
    let h = header_lines(session_id, root);
    reveal_strlit("#> remodeco: 1");
    reveal_strlit("#> id: ");
    reveal_strlit("#> root: ");
    reveal_strlit("# Edit the path after F#### <tab> : <tab> to rename or move.");
    reveal_strlit("# Leave the path unchanged, or delete it, or comment out the line means do nothing.");
    reveal_strlit("# Empty destination means move to trash or delete.");
    reveal_strlit("# When done, save and return to remodeco (exit the editor if TUI).");
    reveal_strlit("# ");
    assert(h.all(|l: Seq<char>| !p(l))) by {
        assert forall|k: int| 0 <= k < h.len() implies !p(#[trigger] h[k]) by {
            if k != 7 {
                assert(h[k][0] == '#');
            }
        }
    }
    h.lemma_all_neg_filter_empty(p);
    lemma_entry_lines_filter(root, entries, width, dests, 0, None);
    Seq::filter_distributes_over_add(h, entry_lines(root, entries, width, dests, 0, None), p);
    assert(h.filter(p) =~= Seq::<Seq<char>>::empty());
    assert(Seq::<Seq<char>>::empty() + mapped_entry_lines(entries, width, dests, 0) =~= mapped_entry_lines(
        entries,
        width,
        dests,
        0,
    ));
}

proof fn lemma_entry_lines_filter(
    root: Seq<char>,
    entries: Seq<ManifestEntry>,
    width: nat,
    dests: Option<Map<u64, String>>,
    i: int,
    current: Option<Seq<char>>,
)
    ensures
        entry_lines(root, entries, width, dests, i, current).filter(|l: Seq<char>| is_entry_text(l))
            == mapped_entry_lines(entries, width, dests, i),
    decreases entries.len() - i,
{
    let p = |l: Seq<char>| is_entry_text(l);
    if i < 0 || i >= entries.len() {
        reveal(Seq::filter);
    } else {
        match dest_of(entries[i], dests) {
            None => lemma_entry_lines_filter(root, entries, width, dests, i + 1, current),
            Some(d) => {
                let rel = crate::paths::spec_parent_relative(entries[i].from@, root);
                lemma_entry_lines_filter(root, entries, width, dests, i + 1, Some(rel));
                let head = if current == Some(rel) {
                    Seq::<Seq<char>>::empty()
                } else {
                    group_lines(rel)
                };
                let line = entry_line(entries[i].id, width, d);
                let rest = entry_lines(root, entries, width, dests, i + 1, Some(rel));
                reveal_strlit("# ./");
                assert(head.all(|l: Seq<char>| !p(l))) by {
                    assert forall|k: int| 0 <= k < head.len() implies !p(#[trigger] head[k]) by {
                        if k == 1 {
                            assert(head[1][0] == '#');
                        }
                    }
                }
                head.lemma_all_neg_filter_empty(p);
                assert(line[0] == 'F');
                Seq::filter_distributes_over_add(head + seq![line], rest, p);
                Seq::filter_distributes_over_add(head, seq![line], p);
                Seq::<Seq<char>>::empty().lemma_filter_push(line, p);
                assert(seq![line] =~= Seq::<Seq<char>>::empty().push(line));
                reveal(Seq::filter);
                assert(Seq::<Seq<char>>::empty().filter(p) =~= Seq::<Seq<char>>::empty());
                assert(head.filter(p) =~= Seq::<Seq<char>>::empty());
                assert(head.filter(p) + seq![line].filter(p) + rest.filter(p) =~= seq![line]
                    + mapped_entry_lines(entries, width, dests, i + 1));
            },
        }
    }
}

} // verus!
