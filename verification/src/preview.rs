//! The preview of a plan: one line per operation, grouped under a header per source
//! directory, with filtering, searching and scrolling. Lines are spans of text with a
//! style kind; drawing them is left to the terminal front end.

use crate::diff::{path_diff_inline, parts_view, DiffPart, DiffTag};
use crate::model::{OpKind, Operation};
use crate::paths::{parent_relative, spec_parent_relative};
use crate::text::{push_padded, push_str, starts_with, zero_padded};
use vstd::prelude::*;

verus! {

/// What a span of a preview line shows.
#[derive(Clone, Copy, Debug, PartialEq, Eq, Structural)]
pub enum SpanStyle {
    Plain,
    Dim,
    Header,
    Trashed,
    Deleted,
    Inserted,
    Bold,
    Cursor,
    Warning,
    Error,
}

/// A run of text with one style; `matched` marks the part that a search found.
pub struct Span {
    pub text: String,
    pub style: SpanStyle,
    pub matched: bool,
}

pub struct SpanV {
    pub text: Seq<char>,
    pub style: SpanStyle,
    pub matched: bool,
}

pub open spec fn span_view(s: Span) -> SpanV {
    SpanV { text: s.text@, style: s.style, matched: s.matched }
}

pub open spec fn line_view(l: Seq<Span>) -> Seq<SpanV> {
    l.map_values(|s: Span| span_view(s))
}

/// The text of a line.
pub open spec fn text_of_line(l: Seq<SpanV>) -> Seq<char>
    decreases l.len(),
{
    if l.len() == 0 {
        Seq::empty()
    } else {
        text_of_line(l.drop_last()) + l.last().text
    }
}

fn copy_span(s: &Span) -> (r: Span)
    ensures
        span_view(r) == span_view(*s),
{
    Span { text: s.text.clone(), style: s.style, matched: s.matched }
}

/// A copy of a line.
pub fn copy_line(l: &Vec<Span>) -> (r: Vec<Span>)
    ensures
        line_view(r@) == line_view(l@),
{
    let mut r: Vec<Span> = Vec::new();
    let mut i: usize = 0;
    while i < l.len()
        invariant
            i <= l.len(),
            r.len() == i,
            line_view(r@) == line_view(l@.take(i as int)),
        decreases l.len() - i,
    {
        let ghost before = r@;
        r.push(copy_span(&l[i]));
        proof {
            assert(line_view(r@) =~= line_view(before).push(span_view(l@[i as int])));
            assert(line_view(l@.take(i + 1)) =~= line_view(l@.take(i as int)).push(span_view(l@[i as int])));
        }
        i += 1;
    }
    assert(l@.take(i as int) =~= l@);
    r
}

/// The text of a line.
pub fn line_text(line: &Vec<Span>) -> (r: String)
    ensures
        r@ == text_of_line(line_view(line@)),
{
    let mut out = String::new();
    let mut i: usize = 0;
    while i < line.len()
        invariant
            i <= line.len(),
            out@ == text_of_line(line_view(line@.take(i as int))),
        decreases line.len() - i,
    {
        push_str(&mut out, line[i].text.as_str());
        proof {
            let t = line_view(line@.take(i + 1));
            assert(t.drop_last() =~= line_view(line@.take(i as int)));
        }
        i += 1;
    }
    assert(line@.take(i as int) =~= line@);
    out
}

/// The number of characters of a line.
pub fn line_char_count(line: &Vec<Span>) -> (n: usize)
    ensures
        n == text_of_line(line_view(line@)).len(),
{
    let t = line_text(line);
    crate::text::chars_of(t.as_str()).len()
}

/// `value` moved by `delta`, stopping at zero and at the largest value.
pub open spec fn moved(value: usize, delta: isize) -> usize {
    if delta >= 0 {
        if value + delta > usize::MAX {
            usize::MAX
        } else {
            (value + delta) as usize
        }
    } else if value + delta < 0 {
        0
    } else {
        (value + delta) as usize
    }
}

/// Moves `value` by `delta` (see `moved`).
pub fn apply_delta(value: &mut usize, delta: isize)
    ensures
        *final(value) == moved(*old(value), delta),
{
    if delta >= 0 {
        *value = value.saturating_add(delta as usize);
    } else {
        let back: usize = if delta == isize::MIN {
            (isize::MAX as usize) + 1
        } else {
            (-delta) as usize
        };
        *value = value.saturating_sub(back);
    }
}

/// `s` without its trailing `/`s.
pub open spec fn trim_slashes(s: Seq<char>) -> Seq<char>
    decreases s.len(),
{
    if s.len() > 0 && s.last() == '/' {
        trim_slashes(s.drop_last())
    } else {
        s
    }
}

/// A path as shown in the preview: below the root, the part after it; elsewhere (and
/// for the root itself) the whole path.
pub open spec fn shown_path(path: Seq<char>, root: Seq<char>) -> Seq<char> {
    let r = trim_slashes(root);
    if starts_with(path, r.push('/')) && path.len() > r.len() + 1 {
        path.skip(r.len() as int + 1)
    } else {
        path
    }
}

/// See `shown_path`.
#[verifier::spinoff_prover]
#[verifier::rlimit(30)]
pub fn display_path(path: &str, root: &str) -> (r: String)
    ensures
        r@ == shown_path(path@, root@),
{
    let rc = crate::text::chars_of(root);
    let mut end = rc.len();
    assert(rc@.take(rc.len() as int) =~= rc@);
    while end > 0 && rc[end - 1] == '/'
        invariant
            end <= rc.len(),
            trim_slashes(rc@) == trim_slashes(rc@.take(end as int)),
        decreases end,
    {
        assert(rc@.take(end as int).drop_last() =~= rc@.take(end - 1));
        end -= 1;
    }
    let pc = crate::text::chars_of(path);
    let ghost r = rc@.take(end as int);
    assert(trim_slashes(rc@.take(end as int)) == rc@.take(end as int));
    assert(trim_slashes(rc@) == r);
    let lit = crate::text::vec_range(&rc, 0, end);
    let mut cond = false;
    if pc.len() > end && pc.len() - end > 1 {
        let same = crate::text::range_eq(&pc, 0, end, &lit);
        if same && pc[end] == '/' {
            cond = true;
        }
    }
    proof {
        assert(rc@.subrange(0, end as int) =~= r);
        if cond {
            assert(pc@.subrange(0, end as int) =~= r);
            assert(path@.subrange(0, end + 1) =~= r.push('/'));
        }
        if starts_with(path@, r.push('/')) && path@.len() > r.len() + 1 {
            assert(path@.subrange(0, end + 1) == r.push('/'));
            assert(pc@.subrange(0, end as int) =~= path@.subrange(0, end + 1).subrange(0, end as int));
            assert(pc@[end as int] == path@.subrange(0, end + 1)[end as int]);
            assert(r.len() == end);
            assert(pc.len() > end + 1);
            assert(pc@.subrange(0, end as int) == lit@);
            assert(pc@[end as int] == '/');
            assert(cond);
        }
    }
    if cond {
        let out = crate::text::string_from(&pc, end + 1, pc.len());
        assert(out@ =~= path@.skip(r.len() as int + 1));
        return out;
    }
    let mut out = String::new();
    push_str(&mut out, path);
    out
}


/// Whether `n` occurs in `h`, and where first.
pub open spec fn occurs_at(h: Seq<char>, n: Seq<char>, i: int) -> bool {
    0 <= i && i + n.len() <= h.len() && h.subrange(i, i + n.len()) == n
}

pub open spec fn has_text(h: Seq<char>, n: Seq<char>) -> bool {
    exists|i: int| occurs_at(h, n, i)
}

/// The first place `n` occurs in `h` at or after `i`, or -1.
pub open spec fn first_occurrence(h: Seq<char>, n: Seq<char>, i: int) -> int
    decreases h.len() + 1 - i,
{
    if i < 0 || i + n.len() > h.len() {
        -1
    } else if occurs_at(h, n, i) {
        i
    } else {
        first_occurrence(h, n, i + 1)
    }
}

proof fn lemma_first_occurrence(h: Seq<char>, n: Seq<char>, i: int)
    requires
        0 <= i,
    ensures
        first_occurrence(h, n, i) == -1 <==> !(exists|j: int| j >= i && occurs_at(h, n, j)),
        first_occurrence(h, n, i) != -1 ==> occurs_at(h, n, first_occurrence(h, n, i)),
    decreases h.len() + 1 - i,
{
    if i + n.len() <= h.len() && !occurs_at(h, n, i) {
        lemma_first_occurrence(h, n, i + 1);
        assert forall|j: int| j >= i && occurs_at(h, n, j) implies j >= i + 1 by {}
    }
}

/// The first place `n` occurs in `h` (see `first_occurrence`).
pub fn find_text(h: &Vec<char>, n: &Vec<char>) -> (r: Option<usize>)
    ensures
        match r {
            Some(i) => first_occurrence(h@, n@, 0) == i as int,
            None => first_occurrence(h@, n@, 0) == -1,
        },
{
    if n.len() > h.len() {
        return None;
    }
    if n.len() == 0 {
        assert(h@.subrange(0, 0) =~= n@);
        assert(occurs_at(h@, n@, 0));
        return Some(0);
    }
    let mut i: usize = 0;
    while i <= h.len() - n.len()
        invariant
            1 <= n.len() <= h.len(),
            i <= h.len() - n.len() + 1,
            first_occurrence(h@, n@, 0) == first_occurrence(h@, n@, i as int),
        decreases h.len() - i,
    {
        if crate::text::range_eq(h, i, i + n.len(), n) {
            return Some(i);
        }
        i += 1;
    }
    None
}

/// Whether `n` occurs in `h`.
pub fn contains_text(h: &str, n: &str) -> (b: bool)
    ensures
        b == has_text(h@, n@),
{
    let hc = crate::text::chars_of(h);
    let nc = crate::text::chars_of(n);
    let r = find_text(&hc, &nc);
    proof {
        lemma_first_occurrence(h@, n@, 0);
    }
    r.is_some()
}

/// ` directory count`, padded with spaces to `width` characters.
pub open spec fn header_text(directory: Seq<char>, count: nat, width: nat) -> Seq<char> {
    let t = seq![' '] + directory + seq![' '] + crate::text::decimal(count);
    if t.len() < width {
        t + Seq::new((width - t.len()) as nat, |i: int| ' ')
    } else {
        t
    }
}

/// The header line of a directory group.
pub fn directory_header(directory: &str, count: usize, width: u16) -> (r: Vec<Span>)
    ensures
        line_view(r@) == seq![SpanV { text: header_text(directory@, count as nat, width as nat), style: SpanStyle::Header, matched: false }],
{
    let mut t = String::new();
    push_str(&mut t, " ");
    push_str(&mut t, directory);
    push_str(&mut t, " ");
    crate::text::push_decimal(&mut t, count as u64);
    proof {
        reveal_strlit(" ");
        assert(t@ =~= seq![' '] + directory@ + seq![' '] + crate::text::decimal(count as nat));
    }
    let n = crate::text::chars_of(t.as_str()).len();
    let w = width as usize;
    if n < w {
        let mut k: usize = 0;
        let ghost base = t@;
        while k < w - n
            invariant
                k <= w - n,
                t@ == base + Seq::new(k as nat, |i: int| ' '),
            decreases w - n - k,
        {
            crate::text::push_char(&mut t, ' ');
            proof {
                assert(t@ =~= base + Seq::new((k + 1) as nat, |i: int| ' '));
            }
            k += 1;
        }
    }
    let mut v: Vec<Span> = Vec::new();
    v.push(Span { text: t, style: SpanStyle::Header, matched: false });
    proof {
        assert(line_view(v@) =~= seq![span_view(v@[0])]);
    }
    v
}

pub open spec fn part_style(t: DiffTag) -> SpanStyle {
    match t {
        DiffTag::Equal => SpanStyle::Plain,
        DiffTag::Delete => SpanStyle::Deleted,
        DiffTag::Insert => SpanStyle::Inserted,
    }
}

pub open spec fn id_width_of(w: nat) -> nat {
    if w == 0 {
        1
    } else {
        w
    }
}

/// The line of an operation: its padded id, then the trashed path, or the word diff
/// of its source and destination (as shown below the root).
pub open spec fn operation_spans(op: Operation, root: Seq<char>, id_width: nat) -> Seq<SpanV> {
    let head = SpanV {
        text: seq![' '] + zero_padded(op.id as nat, id_width_of(id_width)) + seq![' ', ' '],
        style: SpanStyle::Dim,
        matched: false,
    };
    match op.kind {
        OpKind::Trash => seq![head, SpanV { text: shown_path(op.from@, root), style: SpanStyle::Trashed, matched: false }],
        OpKind::Move | OpKind::Copy => seq![head] + crate::diff::inline_parts(
            crate::diff::diff_changes(shown_path(op.from@, root), shown_path(op.to@, root)),
        ).map_values(|p: (DiffTag, Seq<char>)| SpanV { text: p.1, style: part_style(p.0), matched: false }),
        OpKind::Noop | OpKind::Skip => seq![head],
    }
}

/// The texts of the spans not styled `skip`, one after the other.
pub open spec fn spans_text_without(v: Seq<SpanV>, skip: SpanStyle) -> Seq<char>
    decreases v.len(),
{
    if v.len() == 0 {
        Seq::empty()
    } else if v.last().style == skip {
        spans_text_without(v.drop_last(), skip)
    } else {
        spans_text_without(v.drop_last(), skip) + v.last().text
    }
}

proof fn lemma_spans_of_parts(pv: Seq<(DiffTag, Seq<char>)>)
    ensures
        spans_text_without(
            pv.map_values(|p: (DiffTag, Seq<char>)| SpanV { text: p.1, style: part_style(p.0), matched: false }),
            SpanStyle::Inserted,
        ) == crate::diff::text_without(pv, DiffTag::Insert),
        spans_text_without(
            pv.map_values(|p: (DiffTag, Seq<char>)| SpanV { text: p.1, style: part_style(p.0), matched: false }),
            SpanStyle::Deleted,
        ) == crate::diff::text_without(pv, DiffTag::Delete),
    decreases pv.len(),
{
    let f = |p: (DiffTag, Seq<char>)| SpanV { text: p.1, style: part_style(p.0), matched: false };
    if pv.len() > 0 {
        lemma_spans_of_parts(pv.drop_last());
        assert(pv.map_values(f).drop_last() =~= pv.drop_last().map_values(f));
        assert(pv.map_values(f).last() == f(pv.last()));
    } else {
        assert(pv.map_values(f) =~= Seq::<SpanV>::empty());
    }
}

/// See `operation_spans`. After the id, the line of a move or a copy spells the shown
/// source without its inserted spans and the shown destination without its deleted
/// spans; the line of a trash shows the trashed path.
pub fn operation_line(operation: &Operation, root: &str, id_width: usize) -> (r: Vec<Span>)
    ensures
        line_view(r@) == operation_spans(*operation, root@, id_width as nat),
        (operation.kind == OpKind::Move || operation.kind == OpKind::Copy) ==> {
            &&& r@.len() >= 1
            &&& spans_text_without(line_view(r@).skip(1), SpanStyle::Inserted) == shown_path(operation.from@, root@)
            &&& spans_text_without(line_view(r@).skip(1), SpanStyle::Deleted) == shown_path(operation.to@, root@)
        },
        operation.kind == OpKind::Trash ==> r@.len() == 2 && line_view(r@)[1].text == shown_path(operation.from@, root@)
            && line_view(r@)[1].style == SpanStyle::Trashed,
{
    let mut head = String::new();
    push_str(&mut head, " ");
    let w = if id_width == 0 {
        1
    } else {
        id_width
    };
    push_padded(&mut head, operation.id, w);
    push_str(&mut head, "  ");
    proof {
        reveal_strlit(" ");
        reveal_strlit("  ");
        assert(head@ =~= seq![' '] + zero_padded(operation.id as nat, id_width_of(id_width as nat)) + seq![' ', ' ']);
    }
    let mut spans: Vec<Span> = Vec::new();
    spans.push(Span { text: head, style: SpanStyle::Dim, matched: false });
    let ghost h = span_view(spans@[0]);
    assert(line_view(spans@) =~= seq![h]);
    match operation.kind {
        OpKind::Trash => {
            spans.push(Span { text: display_path(operation.from.as_str(), root), style: SpanStyle::Trashed, matched: false });
            proof {
                assert(line_view(spans@) =~= operation_spans(*operation, root@, id_width as nat));
            }
        },
        OpKind::Move | OpKind::Copy => {
            let from = display_path(operation.from.as_str(), root);
            let to = display_path(operation.to.as_str(), root);
            let parts = path_diff_inline(from.as_str(), to.as_str());
            let ghost pv = parts_view(parts@);
            let mut i: usize = 0;
            while i < parts.len()
                invariant
                    i <= parts.len(),
                    pv == parts_view(parts@),
                    line_view(spans@) == seq![h] + pv.take(i as int).map_values(
                        |p: (DiffTag, Seq<char>)| SpanV { text: p.1, style: part_style(p.0), matched: false },
                    ),
                decreases parts.len() - i,
            {
                let style = match parts[i].tag {
                    DiffTag::Equal => SpanStyle::Plain,
                    DiffTag::Delete => SpanStyle::Deleted,
                    DiffTag::Insert => SpanStyle::Inserted,
                };
                let ghost before = line_view(spans@);
                spans.push(Span { text: parts[i].text.clone(), style, matched: false });
                proof {
                    assert(line_view(spans@) =~= before.push(span_view(spans@[spans@.len() - 1])));
                    assert(pv.take(i + 1).map_values(
                        |p: (DiffTag, Seq<char>)| SpanV { text: p.1, style: part_style(p.0), matched: false },
                    ) =~= pv.take(i as int).map_values(
                        |p: (DiffTag, Seq<char>)| SpanV { text: p.1, style: part_style(p.0), matched: false },
                    ).push(SpanV { text: pv[i as int].1, style: part_style(pv[i as int].0), matched: false }));
                }
                i += 1;
            }
            proof {
                assert(pv.take(i as int) =~= pv);
                lemma_spans_of_parts(pv);
                assert(line_view(spans@).skip(1) =~= pv.map_values(
                    |p: (DiffTag, Seq<char>)| SpanV { text: p.1, style: part_style(p.0), matched: false },
                ));
            }
        },
        OpKind::Noop | OpKind::Skip => {
            proof {
                assert(line_view(spans@) =~= seq![h]);
            }
        },
    }
    spans
}


/// The line without its first `left` characters: spans used up are dropped, the span
/// where the cut falls keeps its style.
pub open spec fn skipped_spans(l: Seq<SpanV>, left: int) -> Seq<SpanV>
    decreases l.len(),
{
    if l.len() == 0 {
        Seq::empty()
    } else if left <= 0 {
        l
    } else if l[0].text.len() <= left {
        skipped_spans(l.drop_first(), left - l[0].text.len())
    } else {
        seq![SpanV { text: l[0].text.skip(left), style: l[0].style, matched: l[0].matched }] + l.drop_first()
    }
}

/// See `skipped_spans`.
pub fn skip_line_chars(line: Vec<Span>, skip: usize) -> (r: Vec<Span>)
    ensures
        line_view(r@) == skipped_spans(line_view(line@), skip as int),
{
    if skip == 0 {
        proof {
            if line@.len() > 0 {
                assert(skipped_spans(line_view(line@), 0) == line_view(line@));
            } else {
                assert(line_view(line@) =~= Seq::<SpanV>::empty());
            }
        }
        return line;
    }
    let ghost lv = line_view(line@);
    let mut left = skip;
    let mut out: Vec<Span> = Vec::new();
    let mut rest = line;
    let mut i: usize = 0;
    let n = rest.len();
    let mut done = false;
    proof {
        assert(lv.skip(0) =~= lv);
    }
    while !done && i < n
        invariant
            n == lv.len(),
            i <= n,
            rest.len() == n,
            line_view(rest@) == lv,
            !done ==> left > 0,
            !done ==> skipped_spans(lv, skip as int) == line_view(out@) + skipped_spans(lv.skip(i as int), left as int),
            done ==> skipped_spans(lv, skip as int) == line_view(out@) + lv.skip(i as int),
        decreases n - i + (if done { 0int } else { 1int }),
    {
        let ghost tail = lv.skip(i as int);
        assert(tail[0] == lv[i as int]);
        assert(tail.drop_first() =~= lv.skip(i + 1));
        let count = crate::text::chars_of(rest[i].text.as_str()).len();
        if count <= left {
            left = left - count;
            i += 1;
            if left == 0 {
                done = true;
                proof {
                    if lv.skip(i as int).len() > 0 {
                        assert(skipped_spans(lv.skip(i as int), 0) == lv.skip(i as int));
                    } else {
                        assert(skipped_spans(lv.skip(i as int), 0) =~= lv.skip(i as int));
                    }
                }
            }
        } else {
            let cs = crate::text::chars_of(rest[i].text.as_str());
            let kept = crate::text::string_from(&cs, left, count);
            let ghost before = line_view(out@);
            out.push(Span { text: kept, style: rest[i].style, matched: rest[i].matched });
            proof {
                assert(kept@ =~= lv[i as int].text.skip(left as int));
                assert(line_view(out@) =~= before.push(span_view(out@[out@.len() - 1])));
                assert(line_view(out@) + lv.skip(i + 1) =~= before + (seq![span_view(out@[out@.len() - 1])] + lv.skip(i + 1)));
            }
            i += 1;
            done = true;
        }
    }
    proof {
        if !done {
            assert(lv.skip(i as int) =~= Seq::<SpanV>::empty());
        }
    }
    let ghost prefix = line_view(out@);
    while i < n
        invariant
            n == lv.len(),
            i <= n,
            rest.len() == n,
            line_view(rest@) == lv,
            skipped_spans(lv, skip as int) == line_view(out@) + lv.skip(i as int),
        decreases n - i,
    {
        let ghost before = line_view(out@);
        out.push(copy_span(&rest[i]));
        proof {
            assert(line_view(out@) =~= before.push(lv[i as int]));
            assert(lv.skip(i as int) =~= seq![lv[i as int]] + lv.skip(i + 1));
            assert(line_view(out@) + lv.skip(i + 1) =~= before + lv.skip(i as int));
        }
        i += 1;
    }
    proof {
        assert(lv.skip(i as int) =~= Seq::<SpanV>::empty());
        assert(line_view(out@) =~= line_view(out@) + Seq::<SpanV>::empty());
    }
    out
}

/// Where a search for `query` falls in an already lowercased text: the first place the
/// lowercased query occurs, and its length; nothing for an empty query.
pub open spec fn ignore_case_match(haystack_lower: Seq<char>, query: Seq<char>) -> Option<(int, int)> {
    let needle = crate::schedule::lowercase_of(query);
    if needle.len() == 0 {
        None
    } else {
        let i = first_occurrence(haystack_lower, needle, 0);
        if i < 0 {
            None
        } else {
            Some((i, needle.len() as int))
        }
    }
}

/// See `ignore_case_match`.
pub fn find_ignore_case(haystack_lower: &str, query: &str) -> (r: Option<(usize, usize)>)
    ensures
        match (r, ignore_case_match(haystack_lower@, query@)) {
            (Some((a, b)), Some((x, y))) => a as int == x && b as int == y,
            (None, None) => true,
            _ => false,
        },
{
    let needle = crate::schedule::to_lowercase(query);
    let nc = crate::text::chars_of(needle.as_str());
    if nc.len() == 0 {
        return None;
    }
    let hc = crate::text::chars_of(haystack_lower);
    match find_text(&hc, &nc) {
        Some(i) => Some((i, nc.len())),
        None => None,
    }
}

/// The line with characters `start..end` marked as matched, cutting spans where the
/// range begins and ends; `pos` is where the line's first span starts.
pub open spec fn highlighted(l: Seq<SpanV>, pos: int, start: int, end: int) -> Seq<SpanV>
    decreases l.len(),
{
    if l.len() == 0 {
        Seq::empty()
    } else {
        let s = l[0];
        let n = s.text.len() as int;
        let se = pos + n;
        let head = if se <= start || pos >= end {
            seq![s]
        } else {
            let ls = if start - pos > 0 {
                start - pos
            } else {
                0
            };
            let le = (if end < se {
                end
            } else {
                se
            }) - pos;
            (if ls > 0 {
                seq![SpanV { text: s.text.take(ls), style: s.style, matched: s.matched }]
            } else {
                Seq::empty()
            }) + (if le > ls {
                seq![SpanV { text: s.text.subrange(ls, le), style: s.style, matched: true }]
            } else {
                Seq::empty()
            }) + (if le < n {
                seq![SpanV { text: s.text.skip(le), style: s.style, matched: s.matched }]
            } else {
                Seq::empty()
            })
        };
        head + highlighted(l.drop_first(), se, start, end)
    }
}

pub open spec fn saturating_end(start: usize, len: usize) -> int {
    if start + len > usize::MAX {
        usize::MAX as int
    } else {
        start + len
    }
}

/// Marks characters `start..start + len` of the line as matched (see `highlighted`).
pub fn highlight_range(line: Vec<Span>, start: usize, len: usize) -> (r: Vec<Span>)
    requires
        text_of_line(line_view(line@)).len() <= usize::MAX,
    ensures
        len == 0 ==> line_view(r@) == line_view(line@),
        len > 0 ==> line_view(r@) == highlighted(line_view(line@), 0, start as int, saturating_end(start, len)),
{
    if len == 0 {
        return line;
    }
    let end = start.saturating_add(len);
    let ghost lv = line_view(line@);
    let mut out: Vec<Span> = Vec::new();
    let mut pos: usize = 0;
    let mut i: usize = 0;
    proof {
        assert(lv.skip(0) =~= lv);
        assert(line_view(out@) =~= Seq::<SpanV>::empty());
    }
    while i < line.len()
        invariant
            i <= line.len(),
            lv == line_view(line@),
            end as int == saturating_end(start, len),
            pos as int + text_of_line(lv.skip(i as int)).len() == text_of_line(lv).len(),
            text_of_line(lv).len() <= usize::MAX,
            highlighted(lv, 0, start as int, end as int) == line_view(out@) + highlighted(
                lv.skip(i as int),
                pos as int,
                start as int,
                end as int,
            ),
        decreases line.len() - i,
    {
        let ghost tail = lv.skip(i as int);
        proof {
            assert(tail[0] == lv[i as int]);
            assert(tail.drop_first() =~= lv.skip(i + 1));
            lemma_text_of_line_first(tail);
        }
        let chars = crate::text::chars_of(line[i].text.as_str());
        let n = chars.len();
        let span_end = pos + n;
        let style = line[i].style;
        let m = line[i].matched;
        let ghost before = line_view(out@);
        if span_end <= start || pos >= end {
            out.push(copy_span(&line[i]));
            proof {
                assert(line_view(out@) =~= before + seq![lv[i as int]]);
            }
        } else {
            let local_start = start.saturating_sub(pos);
            let local_end = (if end < span_end {
                end
            } else {
                span_end
            }) - pos;
            if local_start > 0 {
                out.push(Span { text: crate::text::string_from(&chars, 0, local_start), style, matched: m });
            }
            let ghost b1 = line_view(out@);
            if local_end > local_start {
                out.push(Span { text: crate::text::string_from(&chars, local_start, local_end), style, matched: true });
            }
            let ghost b2 = line_view(out@);
            if local_end < n {
                out.push(Span { text: crate::text::string_from(&chars, local_end, n), style, matched: m });
            }
            proof {
                let s0 = lv[i as int];
                let ls = if start - pos > 0 {
                    start - pos
                } else {
                    0
                };
                assert(ls == local_start);
                assert(chars@.subrange(0, local_start as int) =~= s0.text.take(ls));
                assert(chars@.subrange(local_end as int, n as int) =~= s0.text.skip(local_end as int));
                if local_start > 0 {
                    assert(b1 =~= before + seq![SpanV { text: s0.text.take(ls), style: s0.style, matched: s0.matched }]);
                } else {
                    assert(b1 =~= before);
                }
                if local_end > local_start {
                    assert(b2 =~= b1 + seq![SpanV { text: s0.text.subrange(ls, local_end as int), style: s0.style, matched: true }]);
                } else {
                    assert(b2 =~= b1);
                }
                if local_end < n {
                    assert(line_view(out@) =~= b2 + seq![SpanV { text: s0.text.skip(local_end as int), style: s0.style, matched: s0.matched }]);
                } else {
                    assert(line_view(out@) =~= b2);
                }
            }
        }
        proof {
            assert(line_view(out@) + highlighted(lv.skip(i + 1), span_end as int, start as int, end as int)
                =~= before + highlighted(tail, pos as int, start as int, end as int));
        }
        pos = span_end;
        i += 1;
    }
    proof {
        assert(lv.skip(i as int) =~= Seq::<SpanV>::empty());
        assert(line_view(out@) =~= line_view(out@) + Seq::<SpanV>::empty());
    }
    out
}

proof fn lemma_text_of_line_first(l: Seq<SpanV>)
    requires
        l.len() > 0,
    ensures
        text_of_line(l) == l[0].text + text_of_line(l.drop_first()),
    decreases l.len(),
{
    if l.len() > 1 {
        lemma_text_of_line_first(l.drop_last());
        assert(l.drop_last().drop_first() =~= l.drop_first().drop_last());
        assert(l.drop_last()[0] == l[0]);
    } else {
        assert(l.drop_first() =~= Seq::<SpanV>::empty());
        assert(l.drop_last() =~= Seq::<SpanV>::empty());
    }
}


/// One operation ready to show: its directory label, the lowercase text searched and
/// filtered on, and its line.
pub struct PreparedOp {
    pub directory: String,
    pub haystack_lower: String,
    pub line: Vec<Span>,
}

pub struct PreparedV {
    pub directory: Seq<char>,
    pub haystack: Seq<char>,
    pub line: Seq<SpanV>,
}

pub open spec fn prepared_view(p: PreparedOp) -> PreparedV {
    PreparedV { directory: p.directory@, haystack: p.haystack_lower@, line: line_view(p.line@) }
}

pub open spec fn prepared_views(v: Seq<PreparedOp>) -> Seq<PreparedV> {
    v.map_values(|p: PreparedOp| prepared_view(p))
}

/// The prepared form of an operation: the label of its source directory, its line, and
/// the lowercase text made of its padded id, its paths as shown, the label and the line.
pub open spec fn prepared_of(op: Operation, root: Seq<char>, id_width: nat) -> PreparedV {
    let directory = spec_parent_relative(op.from@, root);
    let line = operation_spans(op, root, id_width);
    PreparedV {
        directory,
        haystack: crate::schedule::lowercase_of(
            zero_padded(op.id as nat, id_width_of(id_width)) + seq![' '] + shown_path(op.from@, root) + seq![' ']
                + shown_path(op.to@, root) + seq![' '] + directory + seq![' '] + text_of_line(line),
        ),
        line,
    }
}

pub open spec fn shown(k: OpKind) -> bool {
    k != OpKind::Noop && k != OpKind::Skip
}

/// The prepared operations that are shown (not no-ops or skips), in order.
pub open spec fn prepared_list(ops: Seq<Operation>, root: Seq<char>, id_width: nat) -> Seq<PreparedV>
    decreases ops.len(),
{
    if ops.len() == 0 {
        Seq::empty()
    } else if shown(ops.last().kind) {
        prepared_list(ops.drop_last(), root, id_width).push(prepared_of(ops.last(), root, id_width))
    } else {
        prepared_list(ops.drop_last(), root, id_width)
    }
}

fn prepare_op(operation: &Operation, root: &str, id_width: usize) -> (r: PreparedOp)
    ensures
        prepared_view(r) == prepared_of(*operation, root@, id_width as nat),
{
    let directory = parent_relative(operation.from.as_str(), root);
    let line = operation_line(operation, root, id_width);
    let from = display_path(operation.from.as_str(), root);
    let to = display_path(operation.to.as_str(), root);
    let mut hay = String::new();
    let w = if id_width == 0 {
        1
    } else {
        id_width
    };
    push_padded(&mut hay, operation.id, w);
    push_str(&mut hay, " ");
    push_str(&mut hay, from.as_str());
    push_str(&mut hay, " ");
    push_str(&mut hay, to.as_str());
    push_str(&mut hay, " ");
    push_str(&mut hay, directory.as_str());
    push_str(&mut hay, " ");
    push_str(&mut hay, line_text(&line).as_str());
    proof {
        reveal_strlit(" ");
        assert(hay@ =~= zero_padded(operation.id as nat, id_width_of(id_width as nat)) + seq![' '] + shown_path(
            operation.from@,
            root@,
        ) + seq![' '] + shown_path(operation.to@, root@) + seq![' '] + directory@ + seq![' '] + text_of_line(
            line_view(line@),
        ));
    }
    let haystack_lower = crate::schedule::to_lowercase(hay.as_str());
    PreparedOp { directory, haystack_lower, line }
}

/// The prepared operations (see `prepared_list`).
pub fn prepare_ops(operations: &[Operation], root: &str, id_width: usize) -> (r: Vec<PreparedOp>)
    ensures
        prepared_views(r@) == prepared_list(operations@, root@, id_width as nat),
{
    let mut out: Vec<PreparedOp> = Vec::new();
    let mut i: usize = 0;
    while i < operations.len()
        invariant
            i <= operations.len(),
            prepared_views(out@) == prepared_list(operations@.take(i as int), root@, id_width as nat),
        decreases operations.len() - i,
    {
        proof {
            let t = operations@.take(i + 1);
            assert(t.drop_last() =~= operations@.take(i as int));
            assert(t.last() == operations@[i as int]);
        }
        let k = operations[i].kind;
        if k != OpKind::Noop && k != OpKind::Skip {
            let ghost before = prepared_views(out@);
            out.push(prepare_op(&operations[i], root, id_width));
            proof {
                assert(prepared_views(out@) =~= before.push(prepared_view(out@[out@.len() - 1])));
            }
        }
        i += 1;
    }
    assert(operations@.take(i as int) =~= operations@);
    out
}

/// A row of the preview: a directory header with the number of operations under it, or
/// an operation (by its index among the prepared ones).
pub enum Row {
    Header { directory: String, count: usize },
    Op(usize),
}

pub enum RowV {
    Header(Seq<char>, nat),
    Op(int),
}

pub open spec fn row_view(r: Row) -> RowV {
    match r {
        Row::Header { directory, count } => RowV::Header(directory@, count as nat),
        Row::Op(i) => RowV::Op(i as int),
    }
}

pub open spec fn rows_view(v: Seq<Row>) -> Seq<RowV> {
    v.map_values(|r: Row| row_view(r))
}

pub open spec fn passes(p: PreparedV, needle: Seq<char>) -> bool {
    needle.len() == 0 || has_text(p.haystack, needle)
}

/// The rows for the first `n` prepared operations that pass the filter `needle`, and
/// the index of the last header: a passing operation joins the last group when it is
/// of the same directory, else it opens a new group under a new header.
pub open spec fn rows_upto(p: Seq<PreparedV>, needle: Seq<char>, n: int) -> (Seq<RowV>, int)
    decreases n,
{
    if n <= 0 || n > p.len() {
        (Seq::empty(), -1)
    } else {
        let (rows, h) = rows_upto(p, needle, n - 1);
        let op = p[n - 1];
        if !passes(op, needle) {
            (rows, h)
        } else if 0 <= h < rows.len() && rows[h] is Header && rows[h]->Header_0 == op.directory {
            (rows.update(h, RowV::Header(op.directory, rows[h]->Header_1 + 1)).push(RowV::Op(n - 1)), h)
        } else {
            (rows.push(RowV::Header(op.directory, 1)).push(RowV::Op(n - 1)), rows.len() as int)
        }
    }
}

proof fn lemma_rows_upto(p: Seq<PreparedV>, needle: Seq<char>, n: int)
    requires
        0 <= n <= p.len(),
    ensures
        ({
            let (rows, h) = rows_upto(p, needle, n);
            &&& -1 <= h < rows.len()
            &&& (rows.len() > 0 ==> 0 <= h && rows[h] is Header)
            &&& forall|k: int| 0 <= k < rows.len() ==> (#[trigger] rows[k] matches RowV::Op(i) ==> 0 <= i < n)
            &&& forall|k: int| 0 <= k < rows.len() ==> (#[trigger] rows[k] matches RowV::Header(_, c) ==> c <= n)
        }),
    decreases n,
{
    if n > 0 {
        lemma_rows_upto(p, needle, n - 1);
    }
}

/// The rows of the preview (see `rows_upto`), filtered by the lowercased `filter`.
pub fn build_rows(prepared: &Vec<PreparedOp>, filter: &str) -> (r: Vec<Row>)
    ensures
        rows_view(r@) == rows_upto(
            prepared_views(prepared@),
            crate::schedule::lowercase_of(filter@),
            prepared@.len() as int,
        ).0,
{
    let needle = crate::schedule::to_lowercase(filter);
    let ghost pv = prepared_views(prepared@);
    let empty = crate::text::chars_of(needle.as_str()).len() == 0;
    let mut rows: Vec<Row> = Vec::new();
    let mut last: usize = 0;
    let mut has_last = false;
    let mut i: usize = 0;
    proof {
        assert(rows_view(rows@) =~= Seq::<RowV>::empty());
    }
    while i < prepared.len()
        invariant
            i <= prepared.len(),
            pv == prepared_views(prepared@),
            empty == (needle@.len() == 0),
            needle@ == crate::schedule::lowercase_of(filter@),
            rows_view(rows@) == rows_upto(pv, needle@, i as int).0,
            has_last ==> last as int == rows_upto(pv, needle@, i as int).1 && last < rows.len(),
            !has_last ==> rows_upto(pv, needle@, i as int).1 == -1,
            rows.len() <= 2 * i,
        decreases prepared.len() - i,
    {
        proof {
            lemma_rows_upto(pv, needle@, i as int);
        }
        let op = &prepared[i];
        if empty || contains_text(op.haystack_lower.as_str(), needle.as_str()) {
            let mut joined = false;
            if has_last {
                let same = match &rows[last] {
                    Row::Header { directory, .. } => *directory == op.directory,
                    Row::Op(_) => false,
                };
                if same {
                    let old_row = rows.remove(last);
                    let (d, c) = match old_row {
                        Row::Header { directory, count } => (directory, count),
                        Row::Op(_) => {
                            proof {
                                assert(false);
                            }
                            (String::new(), 0)
                        },
                    };
                    assert(c <= i);
                    rows.insert(last, Row::Header { directory: d, count: c + 1 });
                    rows.push(Row::Op(i));
                    joined = true;
                    proof {
                        let (rr, h) = rows_upto(pv, needle@, i as int);
                        assert(rows_view(rows@) =~= rr.update(h, RowV::Header(op.directory@, (c + 1) as nat)).push(RowV::Op(i as int)));
                    }
                }
            }
            if !joined {
                let ghost before = rows_view(rows@);
                rows.push(Row::Header { directory: op.directory.clone(), count: 1 });
                last = rows.len() - 1;
                has_last = true;
                rows.push(Row::Op(i));
                proof {
                    assert(rows_view(rows@) =~= before.push(RowV::Header(op.directory@, 1)).push(RowV::Op(i as int)));
                }
            }
        }
        i += 1;
    }
    rows
}


/// Whether a row shows `needle`: a header by its lowercased directory, an operation by
/// its lowercase text.
pub open spec fn row_matches(r: RowV, p: Seq<PreparedV>, needle: Seq<char>) -> bool {
    match r {
        RowV::Header(d, _) => has_text(crate::schedule::lowercase_of(d), needle),
        RowV::Op(i) => has_text(p[i].haystack, needle),
    }
}

/// The indices of the rows that show `needle`, in order.
pub open spec fn match_list(rows: Seq<RowV>, p: Seq<PreparedV>, needle: Seq<char>) -> Seq<usize>
    decreases rows.len(),
{
    if rows.len() == 0 {
        Seq::empty()
    } else if row_matches(rows.last(), p, needle) {
        match_list(rows.drop_last(), p, needle).push((rows.len() - 1) as usize)
    } else {
        match_list(rows.drop_last(), p, needle)
    }
}

/// The rows found by a search for `query` (none for an empty query).
pub open spec fn search_list(rows: Seq<RowV>, p: Seq<PreparedV>, query: Seq<char>) -> Seq<usize> {
    let needle = crate::schedule::lowercase_of(query);
    if needle.len() == 0 {
        Seq::empty()
    } else {
        match_list(rows, p, needle)
    }
}

/// Operation rows point at prepared operations.
pub open spec fn rows_ok(rows: Seq<RowV>, n: int) -> bool {
    forall|k: int| 0 <= k < rows.len() ==> (#[trigger] rows[k] matches RowV::Op(i) ==> 0 <= i < n)
}

proof fn lemma_match_list(rows: Seq<RowV>, p: Seq<PreparedV>, needle: Seq<char>)
    ensures
        forall|k: int| 0 <= k < match_list(rows, p, needle).len() ==> (#[trigger] match_list(rows, p, needle)[k]) < rows.len(),
        match_list(rows, p, needle).len() <= rows.len(),
    decreases rows.len(),
{
    if rows.len() > 0 {
        lemma_match_list(rows.drop_last(), p, needle);
    }
}

/// See `search_list`.
pub fn search_matches(rows: &Vec<Row>, prepared: &Vec<PreparedOp>, query: &str) -> (r: Vec<usize>)
    requires
        rows_ok(rows_view(rows@), prepared@.len() as int),
    ensures
        r@ == search_list(rows_view(rows@), prepared_views(prepared@), query@),
{
    let needle = crate::schedule::to_lowercase(query);
    let mut out: Vec<usize> = Vec::new();
    if crate::text::chars_of(needle.as_str()).len() == 0 {
        assert(out@ =~= Seq::<usize>::empty());
        return out;
    }
    let ghost rv = rows_view(rows@);
    let ghost pv = prepared_views(prepared@);
    let mut i: usize = 0;
    while i < rows.len()
        invariant
            i <= rows.len(),
            rv == rows_view(rows@),
            pv == prepared_views(prepared@),
            rows_ok(rv, prepared@.len() as int),
            needle@ == crate::schedule::lowercase_of(query@),
            out@ == match_list(rv.take(i as int), pv, needle@),
        decreases rows.len() - i,
    {
        proof {
            let t = rv.take(i + 1);
            assert(t.drop_last() =~= rv.take(i as int));
            assert(t.last() == rv[i as int]);
        }
        let matched = match &rows[i] {
            Row::Header { directory, .. } => {
                let d = crate::schedule::to_lowercase(directory.as_str());
                contains_text(d.as_str(), needle.as_str())
            },
            Row::Op(index) => {
                assert(rv[i as int] matches RowV::Op(j) && j == *index as int);
                contains_text(prepared[*index].haystack_lower.as_str(), needle.as_str())
            },
        };
        if matched {
            out.push(i);
        }
        i += 1;
    }
    assert(rv.take(i as int) =~= rv);
    out
}

/// The preview of a plan and where it is scrolled to.
pub struct Preview {
    pub prepared: Vec<PreparedOp>,
    pub rows: Vec<Row>,
    pub scroll: usize,
    pub h_scroll: usize,
    pub page: usize,
    pub list_width: usize,
    pub max_line_chars: usize,
    pub search: String,
    pub filter: String,
    pub matches: Vec<usize>,
    pub match_i: usize,
    pub no_color: bool,
}

pub open spec fn at_least_one(v: usize) -> usize {
    if v == 0 {
        1
    } else {
        v
    }
}

pub open spec fn minus(a: usize, b: usize) -> usize {
    if a >= b {
        (a - b) as usize
    } else {
        0
    }
}

/// The last scroll position that still fills the page.
pub open spec fn max_scroll(p: Preview) -> usize {
    minus(p.rows@.len() as usize, at_least_one(p.page))
}

pub open spec fn max_h_scroll(p: Preview) -> usize {
    minus(p.max_line_chars, at_least_one(p.list_width))
}

pub open spec fn clamped_scroll(p: Preview) -> usize {
    if p.scroll == usize::MAX || p.scroll > max_scroll(p) {
        max_scroll(p)
    } else {
        p.scroll
    }
}

pub open spec fn clamped_h(p: Preview) -> usize {
    if p.h_scroll > max_h_scroll(p) {
        max_h_scroll(p)
    } else {
        p.h_scroll
    }
}

/// The parts of the preview that its operations and its filter fix.
pub open spec fn same_content(a: Preview, b: Preview) -> bool {
    &&& prepared_views(a.prepared@) == prepared_views(b.prepared@)
    &&& rows_view(a.rows@) == rows_view(b.rows@)
    &&& a.search@ == b.search@
    &&& a.filter@ == b.filter@
    &&& a.max_line_chars == b.max_line_chars
    &&& a.page == b.page
    &&& a.list_width == b.list_width
    &&& a.no_color == b.no_color
}

/// Operation rows point at prepared operations, and matches at rows.
pub open spec fn wf(p: Preview) -> bool {
    &&& rows_ok(rows_view(p.rows@), p.prepared@.len() as int)
    &&& forall|k: int| 0 <= k < p.matches@.len() ==> (#[trigger] p.matches@[k]) < p.rows@.len()
    &&& (p.matches@.len() > 0 ==> p.match_i < p.matches@.len())
}

impl Preview {
    /// Keeps the scroll positions within the rows and the longest line.
    pub fn clamp_scroll(&mut self)
        ensures
            same_content(*old(self), *final(self)),
            final(self).matches@ == old(self).matches@,
            final(self).match_i == old(self).match_i,
            final(self).scroll == clamped_scroll(*old(self)),
            final(self).h_scroll == clamped_h(*old(self)),
    {
        let page = if self.page == 0 {
            1
        } else {
            self.page
        };
        let max = self.rows.len().saturating_sub(page);
        if self.scroll == usize::MAX || self.scroll > max {
            self.scroll = max;
        }
        let width = if self.list_width == 0 {
            1
        } else {
            self.list_width
        };
        let max_h = self.max_line_chars.saturating_sub(width);
        if self.h_scroll > max_h {
            self.h_scroll = max_h;
        }
    }

    /// Recomputes the search matches; the current match is kept when it still exists.
    pub fn rebuild_matches(&mut self)
        requires
            rows_ok(rows_view(old(self).rows@), old(self).prepared@.len() as int),
        ensures
            same_content(*old(self), *final(self)),
            final(self).scroll == old(self).scroll,
            final(self).h_scroll == old(self).h_scroll,
            final(self).matches@ == search_list(rows_view(old(self).rows@), prepared_views(old(self).prepared@), old(self).search@),
            final(self).match_i == (if final(self).matches@.len() == 0 || old(self).match_i >= final(self).matches@.len() {
                0
            } else {
                old(self).match_i
            }),
            wf(*final(self)),
    {
        self.matches = search_matches(&self.rows, &self.prepared, self.search.as_str());
        proof {
            let needle = crate::schedule::lowercase_of(old(self).search@);
            lemma_match_list(rows_view(self.rows@), prepared_views(self.prepared@), needle);
            assert forall|k: int| 0 <= k < self.matches@.len() implies (#[trigger] self.matches@[k]) < self.rows@.len() by {
                if needle.len() > 0 {
                    assert(rows_view(self.rows@).len() == self.rows@.len());
                }
            }
        }
        if self.matches.len() == 0 || self.match_i >= self.matches.len() {
            self.match_i = 0;
        }
    }

    /// Rebuilds the rows from the filter, then the matches, and clamps the scroll.
    pub fn rebuild_rows(&mut self)
        ensures
            prepared_views(final(self).prepared@) == prepared_views(old(self).prepared@),
            rows_view(final(self).rows@) == rows_upto(
                prepared_views(old(self).prepared@),
                crate::schedule::lowercase_of(old(self).filter@),
                old(self).prepared@.len() as int,
            ).0,
            final(self).search@ == old(self).search@,
            final(self).filter@ == old(self).filter@,
            final(self).page == old(self).page,
            final(self).list_width == old(self).list_width,
            final(self).max_line_chars == old(self).max_line_chars,
            final(self).no_color == old(self).no_color,
            final(self).matches@ == search_list(rows_view(final(self).rows@), prepared_views(final(self).prepared@), final(self).search@),
            final(self).scroll == minus_clamp(old(self).scroll, final(self).rows@.len(), final(self).page),
            final(self).h_scroll == clamped_h(*old(self)),
            final(self).match_i == (if final(self).matches@.len() == 0 || old(self).match_i >= final(self).matches@.len() {
                0
            } else {
                old(self).match_i
            }),
            wf(*final(self)),
    {
        self.rows = build_rows(&self.prepared, self.filter.as_str());
        proof {
            let pv = prepared_views(self.prepared@);
            let needle = crate::schedule::lowercase_of(self.filter@);
            lemma_rows_upto(pv, needle, pv.len() as int);
        }
        self.rebuild_matches();
        self.clamp_scroll();
    }
}

/// `scroll` kept within `len` rows of pages of `page`.
pub open spec fn minus_clamp(scroll: usize, len: nat, page: usize) -> usize {
    let max = minus(len as usize, at_least_one(page));
    if scroll == usize::MAX || scroll > max {
        max
    } else {
        scroll
    }
}


/// The longest line, in characters.
pub open spec fn max_chars(p: Seq<PreparedV>) -> nat
    decreases p.len(),
{
    if p.len() == 0 {
        0
    } else {
        let rest = max_chars(p.drop_last());
        let n = text_of_line(p.last().line).len();
        if n > rest {
            n
        } else {
            rest
        }
    }
}

pub open spec fn saturating_sum(a: usize, b: usize) -> usize {
    if a + b > usize::MAX {
        usize::MAX
    } else {
        (a + b) as usize
    }
}

/// Where the scroll goes to show `row`: up to it when above, down so that it is the last
/// visible row when below, unchanged when visible; then clamped.
pub open spec fn scroll_to_row(p: Preview, row: usize) -> usize {
    scroll_target(p.scroll, p.page, p.rows@.len(), row)
}

/// `scroll_to_row` for a scroll position, a page height and a number of rows.
pub open spec fn scroll_target(scroll: usize, page: usize, len: nat, row: usize) -> usize {
    let s1 = if row < scroll {
        row
    } else if row >= saturating_sum(scroll, page) {
        minus(row, minus(page, 1))
    } else {
        scroll
    };
    minus_clamp(s1, len, page)
}

/// The first match at or after row `from`, or the first match.
pub open spec fn first_from(m: Seq<usize>, from: usize, k: int) -> int
    decreases m.len() - k,
{
    if k < 0 || k >= m.len() {
        0
    } else if m[k] >= from {
        k
    } else {
        first_from(m, from, k + 1)
    }
}

pub open spec fn match_message(i: nat, n: nat) -> Seq<char> {
    "match "@ + crate::text::decimal(i) + " / "@ + crate::text::decimal(n)
}

fn match_text(i: usize, n: usize) -> (r: String)
    ensures
        r@ == match_message(i as nat, n as nat),
{
    let mut out = String::new();
    push_str(&mut out, "match ");
    crate::text::push_decimal(&mut out, i as u64);
    push_str(&mut out, " / ");
    crate::text::push_decimal(&mut out, n as u64);
    out
}

fn no_matches() -> (r: String)
    ensures
        r@ == "no matches"@,
{
    let mut out = String::new();
    push_str(&mut out, "no matches");
    out
}

/// The line of a row as it is drawn: a header padded to the list width, or the
/// operation's line with the search's first match marked, scrolled sideways.
pub open spec fn row_line_of(p: Preview, r: RowV) -> Seq<SpanV> {
    match r {
        RowV::Header(d, c) => seq![SpanV {
            text: header_text(d, c, (p.list_width as u16) as nat),
            style: SpanStyle::Header,
            matched: false,
        }],
        RowV::Op(i) => {
            let line = prepared_views(p.prepared@)[i].line;
            let marked = if p.search@.len() > 0 {
                match ignore_case_match(crate::schedule::lowercase_of(text_of_line(line)), p.search@) {
                    Some((start, len)) => highlighted(line, 0, start, saturating_end(start as usize, len as usize)),
                    None => line,
                }
            } else {
                line
            };
            skipped_spans(marked, p.h_scroll as int)
        },
    }
}

impl Preview {
    /// An empty preview of one line's page, then loaded with `operations`.
    pub fn from_operations(operations: &[Operation], root: &str, id_width: usize, no_color: bool) -> (r: Preview)
        ensures
            prepared_views(r.prepared@) == prepared_list(operations@, root@, id_width as nat),
            r.max_line_chars == max_chars(prepared_views(r.prepared@)),
            rows_view(r.rows@) == rows_upto(prepared_views(r.prepared@), crate::schedule::lowercase_of(Seq::empty()), r.prepared@.len() as int).0,
            r.scroll == 0,
            r.h_scroll == 0,
            r.page == 1,
            r.list_width == 1,
            r.search@.len() == 0,
            r.filter@.len() == 0,
            r.matches@ == search_list(rows_view(r.rows@), prepared_views(r.prepared@), Seq::empty()),
            r.no_color == no_color,
            wf(r),
    {
        let mut p = Preview {
            prepared: Vec::new(),
            rows: Vec::new(),
            scroll: 0,
            h_scroll: 0,
            page: 1,
            list_width: 1,
            max_line_chars: 0,
            search: String::new(),
            filter: String::new(),
            matches: Vec::new(),
            match_i: 0,
            no_color,
        };
        p.reload(operations, root, id_width);
        proof {
            reveal_with_fuel(rows_upto, 1);
        }
        p
    }

    /// Loads `operations`, keeping the filter and search.
    pub fn reload(&mut self, operations: &[Operation], root: &str, id_width: usize)
        ensures
            prepared_views(final(self).prepared@) == prepared_list(operations@, root@, id_width as nat),
            final(self).max_line_chars == max_chars(prepared_views(final(self).prepared@)),
            rows_view(final(self).rows@) == rows_upto(
                prepared_views(final(self).prepared@),
                crate::schedule::lowercase_of(old(self).filter@),
                final(self).prepared@.len() as int,
            ).0,
            final(self).search@ == old(self).search@,
            final(self).filter@ == old(self).filter@,
            final(self).page == old(self).page,
            final(self).list_width == old(self).list_width,
            final(self).no_color == old(self).no_color,
            final(self).matches@ == search_list(rows_view(final(self).rows@), prepared_views(final(self).prepared@), final(self).search@),
            final(self).scroll == minus_clamp(old(self).scroll, final(self).rows@.len(), final(self).page),
            old(self).h_scroll == 0 ==> final(self).h_scroll == 0,
            wf(*final(self)),
    {
        self.prepared = prepare_ops(operations, root, id_width);
        let ghost pv = prepared_views(self.prepared@);
        let mut m: usize = 0;
        let mut i: usize = 0;
        while i < self.prepared.len()
            invariant
                i <= self.prepared.len(),
                pv == prepared_views(self.prepared@),
                m as nat == max_chars(pv.take(i as int)),
            decreases self.prepared.len() - i,
        {
            proof {
                let t = pv.take(i + 1);
                assert(t.drop_last() =~= pv.take(i as int));
                assert(t.last() == pv[i as int]);
            }
            let n = line_char_count(&self.prepared[i].line);
            if n > m {
                m = n;
            }
            i += 1;
        }
        assert(pv.take(i as int) =~= pv);
        self.max_line_chars = m;
        self.rebuild_rows();
    }

    /// Clears the search and the filter and scrolls back to the top left.
    pub fn reset_view(&mut self)
        ensures
            final(self).search@.len() == 0,
            final(self).filter@.len() == 0,
            prepared_views(final(self).prepared@) == prepared_views(old(self).prepared@),
            rows_view(final(self).rows@) == rows_upto(
                prepared_views(old(self).prepared@),
                crate::schedule::lowercase_of(Seq::empty()),
                old(self).prepared@.len() as int,
            ).0,
            final(self).scroll == 0,
            final(self).h_scroll == 0,
            wf(*final(self)),
    {
        self.search = String::new();
        self.filter = String::new();
        self.scroll = 0;
        self.h_scroll = 0;
        self.rebuild_rows();
    }

    /// Sets the page height and the list width (at least one each).
    pub fn set_viewport(&mut self, height: usize, width: usize)
        ensures
            final(self).page == at_least_one(height),
            final(self).list_width == at_least_one(width),
            final(self).scroll == minus_clamp(old(self).scroll, old(self).rows@.len(), at_least_one(height)),
            rows_view(final(self).rows@) == rows_view(old(self).rows@),
            prepared_views(final(self).prepared@) == prepared_views(old(self).prepared@),
            final(self).matches@ == old(self).matches@,
            final(self).match_i == old(self).match_i,
            final(self).search@ == old(self).search@,
            final(self).filter@ == old(self).filter@,
            wf(*old(self)) ==> wf(*final(self)),
    {
        self.page = if height == 0 {
            1
        } else {
            height
        };
        self.list_width = if width == 0 {
            1
        } else {
            width
        };
        self.clamp_scroll();
        proof {
            lemma_wf_same(*old(self), *self);
        }
    }

    pub fn search(&self) -> (r: &str)
        ensures
            r@ == self.search@,
    {
        self.search.as_str()
    }

    pub fn filter(&self) -> (r: &str)
        ensures
            r@ == self.filter@,
    {
        self.filter.as_str()
    }

    pub fn row_count(&self) -> (n: usize)
        ensures
            n == self.rows@.len(),
    {
        self.rows.len()
    }

    pub fn scroll(&self) -> (n: usize)
        ensures
            n == self.scroll,
    {
        self.scroll
    }

    pub fn h_scroll(&self) -> (n: usize)
        ensures
            n == self.h_scroll,
    {
        self.h_scroll
    }

    pub fn page(&self) -> (n: usize)
        ensures
            n == self.page,
    {
        self.page
    }

    pub fn match_count(&self) -> (n: usize)
        ensures
            n == self.matches@.len(),
    {
        self.matches.len()
    }

    pub fn match_index(&self) -> (n: usize)
        ensures
            n == self.match_i,
    {
        self.match_i
    }

    pub fn max_line_chars(&self) -> (n: usize)
        ensures
            n == self.max_line_chars,
    {
        self.max_line_chars
    }

    pub fn list_width(&self) -> (n: usize)
        ensures
            n == self.list_width,
    {
        self.list_width
    }

    /// Scrolls so that `row` is visible (see `scroll_to_row`).
    pub fn jump_to_row(&mut self, row: usize)
        ensures
            final(self).scroll == scroll_to_row(*old(self), row),
            final(self).h_scroll == clamped_h(*old(self)),
            same_content(*old(self), *final(self)),
            final(self).matches@ == old(self).matches@,
            final(self).match_i == old(self).match_i,
            wf(*old(self)) ==> wf(*final(self)),
    {
        if row < self.scroll {
            self.scroll = row;
        } else if row >= self.scroll.saturating_add(self.page) {
            self.scroll = row.saturating_sub(self.page.saturating_sub(1));
        }
        self.clamp_scroll();
        proof {
            lemma_wf_same(*old(self), *self);
        }
    }

    /// Goes to the next (or previous) match, wrapping around, and reports where it is.
    pub fn jump_match(&mut self, next: bool) -> (msg: String)
        requires
            wf(*old(self)),
        ensures
            old(self).matches@.len() == 0 ==> msg@ == "no matches"@ && *final(self) == *old(self),
            old(self).matches@.len() > 0 ==> {
                let n = old(self).matches@.len();
                let i = if next {
                    (old(self).match_i + 1) % (n as int)
                } else if old(self).match_i == 0 {
                    n - 1
                } else {
                    old(self).match_i - 1
                };
                &&& final(self).match_i == i
                &&& final(self).scroll == scroll_to_row(*old(self), old(self).matches@[i])
                &&& msg@ == match_message((i + 1) as nat, n)
            },
            same_content(*old(self), *final(self)),
            final(self).matches@ == old(self).matches@,
            wf(*final(self)),
    {
        if self.matches.len() == 0 {
            return no_matches();
        }
        let n = self.matches.len();
        if next {
            self.match_i = (self.match_i + 1) % n;
        } else if self.match_i == 0 {
            self.match_i = n - 1;
        } else {
            self.match_i = self.match_i - 1;
        }
        let row = self.matches[self.match_i];
        let ghost mid = *self;
        self.jump_to_row(row);
        proof {
            assert(scroll_to_row(mid, row) == scroll_to_row(*old(self), row));
        }
        match_text(self.match_i + 1, n)
    }

    /// Recomputes the matches and goes to the first one at or below the top of the page.
    pub fn sync_search_from_current(&mut self) -> (msg: String)
        requires
            rows_ok(rows_view(old(self).rows@), old(self).prepared@.len() as int),
        ensures
            final(self).matches@ == search_list(rows_view(old(self).rows@), prepared_views(old(self).prepared@), old(self).search@),
            same_content(*old(self), *final(self)),
            wf(*final(self)),
            clamped_h(*old(self)) == old(self).h_scroll ==> final(self).h_scroll == old(self).h_scroll,
            old(self).search@.len() == 0 ==> msg@.len() == 0 && final(self).scroll == old(self).scroll
                && final(self).match_i == (if final(self).matches@.len() == 0 || old(self).match_i >= final(self).matches@.len() {
                    0
                } else {
                    old(self).match_i
                }),
            old(self).search@.len() > 0 && final(self).matches@.len() == 0 ==> msg@ == "no matches"@
                && final(self).scroll == old(self).scroll && final(self).match_i == 0,
            old(self).search@.len() > 0 && final(self).matches@.len() > 0 ==> {
                let k = first_from(final(self).matches@, old(self).scroll, 0);
                &&& final(self).match_i == k
                &&& final(self).scroll == scroll_target(old(self).scroll, old(self).page, old(self).rows@.len(), final(self).matches@[k])
                &&& msg@ == match_message((k + 1) as nat, final(self).matches@.len())
            },
    {
        self.rebuild_matches();
        if crate::text::chars_of(self.search.as_str()).len() == 0 {
            return String::new();
        }
        if self.matches.len() == 0 {
            return no_matches();
        }
        let from = self.scroll;
        let mut k: usize = 0;
        while k < self.matches.len() && self.matches[k] < from
            invariant
                k <= self.matches.len(),
                first_from(self.matches@, from, 0) == first_from(self.matches@, from, k as int),
            decreases self.matches.len() - k,
        {
            k += 1;
        }
        if k == self.matches.len() {
            k = 0;
        }
        self.match_i = k;
        let row = self.matches[k];
        self.jump_to_row(row);
        match_text(k + 1, self.matches.len())
    }
}

/// `a * b`, stopping at the smallest and the largest value.
pub open spec fn sat_mul(a: isize, b: isize) -> isize {
    if a * b > isize::MAX {
        isize::MAX
    } else if a * b < isize::MIN {
        isize::MIN
    } else {
        (a * b) as isize
    }
}

fn saturating_mul(a: isize, b: isize) -> (r: isize)
    ensures
        r == sat_mul(a, b),
{
    let x: i128 = a as i128;
    let y: i128 = b as i128;
    assert(-0x8000_0000_0000_0000 <= x <= 0x7fff_ffff_ffff_ffff);
    assert(-0x8000_0000_0000_0000 <= y <= 0x7fff_ffff_ffff_ffff);
    assert(-0x4000_0000_0000_0000_0000_0000_0000_0000 <= x * y <= 0x4000_0000_0000_0000_0000_0000_0000_0000) by (nonlinear_arith)
        requires
            -0x8000_0000_0000_0000 <= x <= 0x7fff_ffff_ffff_ffff,
            -0x8000_0000_0000_0000 <= y <= 0x7fff_ffff_ffff_ffff,
    ;
    let p: i128 = x * y;
    if p > isize::MAX as i128 {
        isize::MAX
    } else if p < isize::MIN as i128 {
        isize::MIN
    } else {
        p as isize
    }
}

/// The rows on the page: from the scroll position, at most a page of them.
pub open spec fn visible_rows(p: Preview) -> Seq<RowV> {
    let len = p.rows@.len();
    let start = if p.scroll < len {
        p.scroll as int
    } else {
        len as int
    };
    let end = if start + p.page < len {
        start + p.page
    } else {
        len as int
    };
    rows_view(p.rows@).subrange(start, end)
}

/// The scroll after moving it by `delta` rows: clamped when it moved down.
pub open spec fn scrolled(p: Preview, delta: isize) -> usize {
    if delta > 0 {
        minus_clamp(moved(p.scroll, delta), p.rows@.len(), p.page)
    } else {
        moved(p.scroll, delta)
    }
}

impl Preview {
    /// Sets the filter, goes back to the top and, when a search is active, to its first match.
    pub fn set_filter(&mut self, filter: String)
        ensures
            final(self).filter@ == filter@,
            final(self).search@ == old(self).search@,
            prepared_views(final(self).prepared@) == prepared_views(old(self).prepared@),
            rows_view(final(self).rows@) == rows_upto(
                prepared_views(old(self).prepared@),
                crate::schedule::lowercase_of(filter@),
                old(self).prepared@.len() as int,
            ).0,
            final(self).matches@ == search_list(rows_view(final(self).rows@), prepared_views(final(self).prepared@), final(self).search@),
            final(self).h_scroll == clamped_h(*old(self)),
            old(self).search@.len() == 0 ==> final(self).scroll == 0 && final(self).match_i == (
                if final(self).matches@.len() == 0 || old(self).match_i >= final(self).matches@.len() {
                    0
                } else {
                    old(self).match_i
                }),
            old(self).search@.len() > 0 ==> final(self).match_i == 0,
            old(self).search@.len() > 0 && final(self).matches@.len() == 0 ==> final(self).scroll == 0,
            old(self).search@.len() > 0 && final(self).matches@.len() > 0 ==> final(self).scroll == scroll_target(
                0,
                final(self).page,
                final(self).rows@.len(),
                final(self).matches@[0],
            ),
            final(self).page == old(self).page,
            wf(*final(self)),
    {
        self.filter = filter;
        self.scroll = 0;
        self.rebuild_rows();
        if crate::text::chars_of(self.search.as_str()).len() > 0 {
            let ghost mid = *self;
            let _ = self.sync_search_from_current();
            proof {
                if self.matches@.len() > 0 {
                    assert(mid.matches@ == self.matches@);
                    assert(self.matches@[0] >= 0usize);
                }
            }
        }
    }

    /// Clears the filter.
    pub fn clear_filter(&mut self)
        ensures
            final(self).filter@.len() == 0,
            final(self).search@ == old(self).search@,
            prepared_views(final(self).prepared@) == prepared_views(old(self).prepared@),
            rows_view(final(self).rows@) == rows_upto(
                prepared_views(old(self).prepared@),
                crate::schedule::lowercase_of(Seq::empty()),
                old(self).prepared@.len() as int,
            ).0,
            final(self).matches@ == search_list(rows_view(final(self).rows@), prepared_views(final(self).prepared@), final(self).search@),
            final(self).scroll == minus_clamp(old(self).scroll, final(self).rows@.len(), final(self).page),
            final(self).h_scroll == clamped_h(*old(self)),
            final(self).page == old(self).page,
            wf(*final(self)),
    {
        self.filter = String::new();
        self.rebuild_rows();
    }

    /// Sets the search and goes to its first match at or below the top of the page.
    pub fn set_search(&mut self, search: String) -> (msg: String)
        requires
            wf(*old(self)),
        ensures
            final(self).search@ == search@,
            final(self).filter@ == old(self).filter@,
            prepared_views(final(self).prepared@) == prepared_views(old(self).prepared@),
            rows_view(final(self).rows@) == rows_view(old(self).rows@),
            final(self).matches@ == search_list(rows_view(old(self).rows@), prepared_views(old(self).prepared@), search@),
            wf(*final(self)),
            search@.len() == 0 ==> msg@.len() == 0 && final(self).scroll == old(self).scroll,
            search@.len() > 0 && final(self).matches@.len() == 0 ==> msg@ == "no matches"@
                && final(self).scroll == old(self).scroll && final(self).match_i == 0,
            search@.len() > 0 && final(self).matches@.len() > 0 ==> {
                let k = first_from(final(self).matches@, old(self).scroll, 0);
                &&& final(self).match_i == k
                &&& final(self).scroll == scroll_target(old(self).scroll, old(self).page, old(self).rows@.len(), final(self).matches@[k])
                &&& msg@ == match_message((k + 1) as nat, final(self).matches@.len())
            },
    {
        self.search = search;
        self.sync_search_from_current()
    }

    /// Clears the search and its matches.
    pub fn clear_search(&mut self)
        requires
            wf(*old(self)),
        ensures
            final(self).search@.len() == 0,
            final(self).filter@ == old(self).filter@,
            prepared_views(final(self).prepared@) == prepared_views(old(self).prepared@),
            rows_view(final(self).rows@) == rows_view(old(self).rows@),
            final(self).matches@ == search_list(rows_view(old(self).rows@), prepared_views(old(self).prepared@), Seq::empty()),
            final(self).scroll == old(self).scroll,
            final(self).h_scroll == old(self).h_scroll,
            wf(*final(self)),
    {
        self.search = String::new();
        self.rebuild_matches();
    }

    /// Scrolls by `delta` rows (see `scrolled`).
    pub fn scroll_lines(&mut self, delta: isize)
        ensures
            final(self).scroll == scrolled(*old(self), delta),
            final(self).h_scroll == (if delta > 0 {
                clamped_h(*old(self))
            } else {
                old(self).h_scroll
            }),
            same_content(*old(self), *final(self)),
            final(self).matches@ == old(self).matches@,
            final(self).match_i == old(self).match_i,
            wf(*old(self)) ==> wf(*final(self)),
    {
        apply_delta(&mut self.scroll, delta);
        if delta > 0 {
            self.clamp_scroll();
        }
        proof {
            lemma_wf_same(*old(self), *self);
        }
    }

    /// Scrolls by `delta` pages.
    pub fn scroll_pages(&mut self, delta: isize)
        ensures
            final(self).scroll == scrolled(*old(self), sat_mul(delta, at_least_one(old(self).page) as isize)),
            same_content(*old(self), *final(self)),
            final(self).matches@ == old(self).matches@,
            final(self).match_i == old(self).match_i,
            wf(*old(self)) ==> wf(*final(self)),
    {
        let page: usize = if self.page == 0 {
            1
        } else {
            self.page
        };
        let amount = page as isize;
        self.scroll_lines(saturating_mul(delta, amount));
    }

    /// Scrolls by `delta` half pages.
    pub fn scroll_half_pages(&mut self, delta: isize)
        ensures
            final(self).scroll == scrolled(*old(self), sat_mul(delta, at_least_one(old(self).page / 2) as isize)),
            same_content(*old(self), *final(self)),
            final(self).matches@ == old(self).matches@,
            final(self).match_i == old(self).match_i,
            wf(*old(self)) ==> wf(*final(self)),
    {
        let half: usize = if self.page / 2 == 0 {
            1
        } else {
            self.page / 2
        };
        let amount = half as isize;
        self.scroll_lines(saturating_mul(delta, amount));
    }

    /// Scrolls sideways by `delta` steps of four characters.
    pub fn pan(&mut self, delta: isize)
        ensures
            delta > 0 ==> final(self).h_scroll == clamped_h(Preview { h_scroll: moved(old(self).h_scroll, sat_mul(delta, 4)), ..*old(self) })
                && final(self).scroll == clamped_scroll(*old(self)),
            delta <= 0 ==> final(self).h_scroll == moved(old(self).h_scroll, sat_mul(delta, 4))
                && final(self).scroll == old(self).scroll,
            same_content(*old(self), *final(self)),
            final(self).matches@ == old(self).matches@,
            final(self).match_i == old(self).match_i,
            wf(*old(self)) ==> wf(*final(self)),
    {
        let step = saturating_mul(delta, 4);
        apply_delta(&mut self.h_scroll, step);
        if delta > 0 {
            self.clamp_scroll();
        }
        proof {
            lemma_wf_same(*old(self), *self);
        }
    }

    /// Goes to the first row.
    pub fn goto_start(&mut self)
        ensures
            *final(self) == (Preview { scroll: 0, ..*old(self) }),
    {
        self.scroll = 0;
    }

    /// Goes to the last page.
    pub fn goto_end(&mut self)
        ensures
            final(self).scroll == max_scroll(*old(self)),
            final(self).h_scroll == clamped_h(*old(self)),
            same_content(*old(self), *final(self)),
            final(self).matches@ == old(self).matches@,
            final(self).match_i == old(self).match_i,
            wf(*old(self)) ==> wf(*final(self)),
    {
        self.scroll = usize::MAX;
        self.clamp_scroll();
        proof {
            lemma_wf_same(*old(self), *self);
        }
    }

    /// The line drawn for `row` (see `row_line_of`).
    pub fn row_line(&self, row: &Row) -> (r: Vec<Span>)
        requires
            row_view(*row) matches RowV::Op(i) ==> 0 <= i < self.prepared@.len(),
        ensures
            line_view(r@) == row_line_of(*self, row_view(*row)),
    {
        match row {
            Row::Header { directory, count } => directory_header(directory.as_str(), *count, self.list_width as u16),
            Row::Op(index) => {
                let ghost pv = prepared_views(self.prepared@);
                let mut marked = copy_line(&self.prepared[*index].line);
                assert(line_view(marked@) == pv[*index as int].line);
                if crate::text::chars_of(self.search.as_str()).len() > 0 {
                    let text = line_text(&marked);
                    let _ = crate::text::chars_of(text.as_str()).len();
                    let visible = crate::schedule::to_lowercase(text.as_str());
                    match find_ignore_case(visible.as_str(), self.search.as_str()) {
                        Some((start, len)) => {
                            marked = highlight_range(marked, start, len);
                        },
                        None => {},
                    }
                }
                skip_line_chars(marked, self.h_scroll)
            },
        }
    }

    /// The lines of the rows on the page (see `visible_rows`).
    pub fn visible_lines(&self) -> (r: Vec<Vec<Span>>)
        requires
            wf(*self),
        ensures
            r@.len() == visible_rows(*self).len(),
            forall|k: int| 0 <= k < r@.len() ==> line_view(#[trigger] r@[k]@) == row_line_of(*self, visible_rows(*self)[k]),
    {
        let mut out: Vec<Vec<Span>> = Vec::new();
        if self.rows.len() == 0 {
            return out;
        }
        let start = if self.scroll < self.rows.len() {
            self.scroll
        } else {
            self.rows.len()
        };
        let end = if self.page < self.rows.len() - start {
            start + self.page
        } else {
            self.rows.len()
        };
        let ghost vis = visible_rows(*self);
        let mut i = start;
        while i < end
            invariant
                start <= i <= end <= self.rows@.len(),
                wf(*self),
                vis == visible_rows(*self),
                vis == rows_view(self.rows@).subrange(start as int, end as int),
                out@.len() == i - start,
                forall|k: int| 0 <= k < out@.len() ==> line_view(#[trigger] out@[k]@) == row_line_of(*self, vis[k]),
            decreases end - i,
        {
            proof {
                assert(rows_view(self.rows@)[i as int] == row_view(self.rows@[i as int]));
            }
            let line = self.row_line(&self.rows[i]);
            out.push(line);
            i += 1;
        }
        out
    }
}

/// Well-formedness depends only on the rows, the prepared operations and the matches.
proof fn lemma_wf_same(a: Preview, b: Preview)
    requires
        rows_view(a.rows@) == rows_view(b.rows@),
        prepared_views(a.prepared@) == prepared_views(b.prepared@),
        a.matches@ == b.matches@,
        a.match_i == b.match_i,
    ensures
        wf(a) ==> wf(b),
{
    assert(a.rows@.len() == rows_view(a.rows@).len());
    assert(b.rows@.len() == rows_view(b.rows@).len());
    assert(a.prepared@.len() == prepared_views(a.prepared@).len());
    assert(b.prepared@.len() == prepared_views(b.prepared@).len());
}


} // verus!
