//! A generated plan reads back as the plan of its session: the parser finds the header
//! it was given and one unchanged entry per manifest entry.
use vstd::prelude::*;

use crate::model::ManifestEntry;
use crate::plan::{
    abs_posix, body_step, concat_lines, digit_run_end, digits_u64, entry_line, entry_lines, entry_of,
    find_pat, group_lines, has_id, header_lines, is_meta, meta_end, meta_field, meta_header_of, meta_value,
    is_ignorable, line_safe, parse_body, spec_parse_plan, split_f_id, tab_colon_entry, BodyV, BulletKind, HeaderV, MAX_DEST_BYTES, MAX_FILE_BYTES,
    MAX_LINES, MAX_LINE_BYTES,
};
use crate::text::{
    all_digits, decimal, digits_value, has_char, is_digit, is_ws, lemma_decimal_digits, split_on,
    trim, trim_end, trim_start, utf8_len, zero_padded,
};

verus! {

/// Splitting text at newlines after a piece without newlines extends the last piece.
proof fn lemma_split_extend(s: Seq<char>, w: Seq<char>)
    requires
        !has_char(w, '\n'),
    ensures
        split_on(s + w, '\n') == split_on(s, '\n').update(
            split_on(s, '\n').len() - 1,
            split_on(s, '\n').last() + w,
        ),
    decreases w.len(),
{
    crate::text::lemma_split_on_len(s, '\n');
    if w.len() == 0 {
        assert(s + w =~= s);
        assert(split_on(s, '\n').last() + w =~= split_on(s, '\n').last());
        assert(split_on(s, '\n').update(split_on(s, '\n').len() - 1, split_on(s, '\n').last())
            =~= split_on(s, '\n'));
    } else {
        let w0 = w.drop_last();
        assert(!has_char(w0, '\n')) by {
            if has_char(w0, '\n') {
                let i = choose|i: int| 0 <= i < w0.len() && w0[i] == '\n';
                assert(w[i] == '\n');
            }
        }
        lemma_split_extend(s, w0);
        assert((s + w).drop_last() =~= s + w0);
        assert((s + w).last() == w.last());
        assert(w.last() != '\n') by {
            assert(w[w.len() - 1] == w.last());
        }
        crate::text::lemma_split_on_len(s + w0, '\n');
        let init = split_on(s + w0, '\n');
        let a = split_on(s, '\n');
        assert(split_on(s + w, '\n') == init.update(init.len() - 1, init.last().push(w.last())));
        assert(init.len() == a.len());
        assert(init.last() == a.last() + w0);
        assert((a.last() + w0).push(w.last()) =~= a.last() + w);
        assert(split_on(s + w, '\n') =~= split_on(s, '\n').update(
            split_on(s, '\n').len() - 1,
            split_on(s, '\n').last() + w,
        ));
    }
}

/// The lines of a text of newline-ended lines, and the empty piece after the last newline.
proof fn lemma_split_concat(ls: Seq<Seq<char>>)
    requires
        forall|k: int| 0 <= k < ls.len() ==> !has_char(#[trigger] ls[k], '\n'),
    ensures
        split_on(concat_lines(ls), '\n') == ls.push(Seq::<char>::empty()),
    decreases ls.len(),
{
    if ls.len() == 0 {
        assert(split_on(Seq::<char>::empty(), '\n') == seq![Seq::<char>::empty()]);
        assert(ls.push(Seq::<char>::empty()) =~= seq![Seq::<char>::empty()]);
    } else {
        let init = ls.drop_last();
        assert forall|k: int| 0 <= k < init.len() implies !has_char(#[trigger] init[k], '\n') by {
            assert(init[k] == ls[k]);
        }
        lemma_split_concat(init);
        let x = concat_lines(init);
        assert(!has_char(ls.last(), '\n')) by {
            assert(ls[ls.len() - 1] == ls.last());
        }
        lemma_split_extend(x, ls.last());
        let y = x + ls.last();
        assert(concat_lines(ls) == y + seq!['\n']);
        assert((y + seq!['\n']).drop_last() =~= y);
        assert((y + seq!['\n']).last() == '\n');
        assert(split_on(y, '\n') =~= init.push(ls.last()));
        assert(split_on(concat_lines(ls), '\n') == split_on(y, '\n').push(Seq::<char>::empty()));
        assert(init.push(ls.last()) =~= ls);
    }
}

/// A character occurs in the text of newline-ended lines only where it occurs in a line.
proof fn lemma_concat_has_char(ls: Seq<Seq<char>>, c: char)
    requires
        c != '\n',
        forall|k: int| 0 <= k < ls.len() ==> !has_char(#[trigger] ls[k], c),
    ensures
        !has_char(concat_lines(ls), c),
    decreases ls.len(),
{
    if ls.len() > 0 {
        let init = ls.drop_last();
        assert forall|k: int| 0 <= k < init.len() implies !has_char(#[trigger] init[k], c) by {
            assert(init[k] == ls[k]);
        }
        lemma_concat_has_char(init, c);
        let x = concat_lines(init);
        let l = ls.last();
        assert(!has_char(l, c)) by {
            assert(ls[ls.len() - 1] == l);
        }
        let t = x + l + seq!['\n'];
        assert(concat_lines(ls) == t);
        if has_char(t, c) {
            let i = choose|i: int| 0 <= i < t.len() && t[i] == c;
            if i < x.len() {
                assert(t[i] == x[i]);
            } else if i < x.len() + l.len() {
                assert(t[i] == l[i - x.len()]);
            } else {
                assert(t[i] == '\n');
            }
        }
    }
}

/// Trimming the end keeps a first character that is not whitespace.
proof fn lemma_trim_end_first(l: Seq<char>)
    requires
        l.len() > 0,
        !is_ws(l[0]),
    ensures
        trim_end(l).len() > 0,
        trim_end(l)[0] == l[0],
    decreases l.len(),
{
    if is_ws(l.last()) {
        assert(l.len() > 1);
        assert(l.drop_last()[0] == l[0]);
        lemma_trim_end_first(l.drop_last());
    }
}

/// The trimmed line starts with the line's first character when that is not whitespace.
proof fn lemma_trim_first(l: Seq<char>)
    requires
        l.len() > 0,
        !is_ws(l[0]),
    ensures
        trim(l).len() > 0,
        trim(l)[0] == l[0],
{
    assert(trim_start(l) == l);
    lemma_trim_end_first(l);
}

/// A line that starts with `#` is a comment.
proof fn lemma_comment_ignorable(l: Seq<char>)
    requires
        l.len() > 0,
        l[0] == '#',
    ensures
        is_ignorable(l),
{
    lemma_trim_first(l);
    let t = trim(l);
    assert(t.subrange(0, 1) =~= seq!['#']);
}

/// A line that starts with a letter carries an entry or is unknown, never a comment.
proof fn lemma_letter_not_ignorable(l: Seq<char>)
    requires
        l.len() > 0,
        'A' <= l[0] <= 'Z' || 'a' <= l[0] <= 'z',
    ensures
        !is_ignorable(l),
{
    lemma_trim_first(l);
    let t = trim(l);
    assert(t[0] != '-');
    assert(t.subrange(0, 1) != seq!['#']) by {
        assert(t.subrange(0, 1)[0] == t[0]);
    }
    assert(t.subrange(0, 1) != seq!['>']) by {
        assert(t.subrange(0, 1)[0] == t[0]);
    }
    if t.len() >= 4 {
        assert(t.subrange(0, 4) != seq!['<', '!', '-', '-']) by {
            assert(t.subrange(0, 4)[0] == t[0]);
        }
    }
}

/// A text without whitespace at either end is its own trim.
proof fn lemma_trim_plain(x: Seq<char>)
    requires
        x.len() > 0 ==> !is_ws(x[0]) && !is_ws(x.last()),
    ensures
        trim(x) == x,
{
    if x.len() > 0 {
        assert(trim_start(x) == x);
        assert(trim_end(x) == x);
    } else {
        assert(trim_start(x) == x);
        assert(trim_end(x) == x);
    }
}


/// Zeros before digits do not change their value.
proof fn lemma_zeros_value(z: nat, d: Seq<char>)
    ensures
        digits_value(Seq::new(z, |i: int| '0') + d) == digits_value(d),
    decreases d.len(), z,
{
    let zs = Seq::new(z, |i: int| '0');
    if d.len() == 0 {
        assert(zs + d =~= zs);
        if z > 0 {
            let zs1 = Seq::new((z - 1) as nat, |i: int| '0');
            assert(zs.drop_last() =~= zs1 + d);
            lemma_zeros_value((z - 1) as nat, d);
            assert(zs.last() == '0');
        }
    } else {
        assert((zs + d).drop_last() =~= zs + d.drop_last());
        assert((zs + d).last() == d.last());
        lemma_zeros_value(z, d.drop_last());
    }
}

/// The zero-padded numeral is a run of digits worth the number.
proof fn lemma_padded_digits(n: nat, width: nat)
    ensures
        all_digits(zero_padded(n, width)),
        digits_value(zero_padded(n, width)) == n,
        zero_padded(n, width).len() >= 1,
{
    lemma_decimal_digits(n);
    let d = decimal(n);
    if d.len() < width {
        let z = (width - d.len()) as nat;
        let zs = Seq::new(z, |i: int| '0');
        lemma_zeros_value(z, d);
        let p = zs + d;
        assert forall|i: int| 0 <= i < p.len() implies is_digit(#[trigger] p[i]) by {
            if i < z {
                assert(p[i] == '0');
            } else {
                assert(p[i] == d[i - z]);
            }
        }
    }
}

/// A run of digits from `k` ends at `e`.
proof fn lemma_digit_run_end(s: Seq<char>, k: int, e: int)
    requires
        0 <= k <= e < s.len(),
        forall|j: int| k <= j < e ==> is_digit(#[trigger] s[j]),
        !is_digit(s[e]),
    ensures
        digit_run_end(s, k) == e,
    decreases e - k,
{
    if k < e {
        lemma_digit_run_end(s, k + 1, e);
    }
}

/// The first `:` of a line.
proof fn lemma_find_colon(s: Seq<char>, from: int, k: int)
    requires
        0 <= from <= k < s.len(),
        s[k] == ':',
        forall|j: int| from <= j < k ==> s[j] != ':',
    ensures
        find_pat(s, seq![':'], from) == Some(k),
    decreases k - from,
{
    if from < k {
        assert(s.subrange(from, from + 1) != seq![':']) by {
            assert(s.subrange(from, from + 1)[0] == s[from]);
        }
        lemma_find_colon(s, from + 1, k);
    } else {
        assert(s.subrange(from, from + 1) =~= seq![':']);
    }
}



/// An entry line carries its id and destination.
proof fn lemma_entry_line(id: u64, width: nat, dest: Seq<char>)
    ensures
        !is_ignorable(entry_line(id, width, dest)),
        entry_of(entry_line(id, width, dest)) == Some((id, dest)),
{
    let z = zero_padded(id as nat, width);
    let l = entry_line(id, width, dest);
    lemma_padded_digits(id as nat, width);
    lemma_letter_not_ignorable(l);
    let e = (z.len() + 1) as int;
    assert forall|j: int| 1 <= j < e implies is_digit(#[trigger] l[j]) by {
        assert(l[j] == z[j - 1]);
    }
    assert(l[e] == '\t');
    lemma_digit_run_end(l, 1, e);
    assert(l.subrange(1, e) =~= z);
    assert(digits_u64(z) == Some(id));
    assert(split_f_id(l) == Some((id, e)));
    assert(l.skip(e).subrange(0, 3) =~= seq!['\t', ':', '\t']);
    assert(l.skip(e + 3) =~= dest);
    assert(tab_colon_entry(l) == Some((id, dest)));
}

/// The body lines `i..j`, read from `acc` on, stopping at the first error.
pub open spec fn parse_range(lines: Seq<Seq<char>>, i: int, j: int, acc: BodyV) -> Result<
    BodyV,
    (crate::plan::PlanErrorCode, Seq<char>),
>
    decreases j - i,
{
    if i >= j {
        Ok(acc)
    } else {
        match body_step(lines[i], i + 1, acc) {
            Ok(next) => parse_range(lines, i + 1, j, next),
            Err(e) => Err(e),
        }
    }
}

pub open spec fn then_range(
    r: Result<BodyV, (crate::plan::PlanErrorCode, Seq<char>)>,
    lines: Seq<Seq<char>>,
    j: int,
    k: int,
) -> Result<BodyV, (crate::plan::PlanErrorCode, Seq<char>)> {
    match r {
        Ok(a) => parse_range(lines, j, k, a),
        Err(e) => Err(e),
    }
}

/// Reading `i..k` is reading `i..j`, then `j..k`.
proof fn lemma_range_chain(lines: Seq<Seq<char>>, i: int, j: int, k: int, acc: BodyV)
    requires
        i <= j <= k,
    ensures
        parse_range(lines, i, k, acc) == then_range(parse_range(lines, i, j, acc), lines, j, k),
    decreases j - i,
{
    if i < j {
        match body_step(lines[i], i + 1, acc) {
            Ok(next) => lemma_range_chain(lines, i + 1, j, k, next),
            Err(e) => {},
        }
    }
}

/// Reading the body from `i` is reading lines `i..` to the end.
proof fn lemma_body_range(lines: Seq<Seq<char>>, i: int, acc: BodyV)
    requires
        0 <= i <= lines.len(),
    ensures
        parse_body(lines, i, acc) == parse_range(lines, i, lines.len() as int, acc),
    decreases lines.len() - i,
{
    if i < lines.len() {
        match body_step(lines[i], i + 1, acc) {
            Ok(next) => lemma_body_range(lines, i + 1, next),
            Err(e) => {},
        }
    }
}

/// Comment and blank lines leave what was read alone.
proof fn lemma_ignorable_range(lines: Seq<Seq<char>>, i: int, j: int, acc: BodyV)
    requires
        0 <= i <= j <= lines.len(),
        forall|k: int| i <= k < j ==> is_ignorable(#[trigger] lines[k]),
    ensures
        parse_range(lines, i, j, acc) == Ok::<BodyV, (crate::plan::PlanErrorCode, Seq<char>)>(acc),
    decreases j - i,
{
    if i < j {
        assert(is_ignorable(lines[i]));
        lemma_ignorable_range(lines, i + 1, j, acc);
    }
}

/// What manifest entries need for their plan to read back: each path fits a plan line,
/// is absolute and short enough for a destination, and no id occurs twice.
pub open spec fn entries_plannable(entries: Seq<ManifestEntry>) -> bool {
    &&& forall|k: int|
        0 <= k < entries.len() ==> {
            let p = (#[trigger] entries[k]).from@;
            line_safe(p) && abs_posix(p) && utf8_len(p) <= MAX_DEST_BYTES
        }
    &&& forall|a: int, b: int| 0 <= a < b < entries.len() ==> (#[trigger] entries[a]).id != (#[trigger] entries[b]).id
}

/// The first `n` entries read back: one destination entry per manifest entry, in order,
/// with its id and its own path.
pub open spec fn reads_entries(bullets: Seq<crate::plan::BulletV>, entries: Seq<ManifestEntry>, n: int) -> bool {
    &&& bullets.len() == n
    &&& forall|k: int|
        0 <= k < n ==> {
            &&& (#[trigger] bullets[k]).id == entries[k].id
            &&& bullets[k].destination == entries[k].from@
            &&& bullets[k].kind == BulletKind::Destination
        }
}

/// The lines of entries `k..` read after the first `k` entries add the rest of them.
proof fn lemma_entry_segment(
    lines: Seq<Seq<char>>,
    base: int,
    root: Seq<char>,
    entries: Seq<ManifestEntry>,
    width: nat,
    k: int,
    current: Option<Seq<char>>,
    acc: BodyV,
)
    requires
        0 <= k <= entries.len(),
        entries_plannable(entries),
        0 <= base,
        base + entry_lines(root, entries, width, None, k, current).len() <= lines.len(),
        lines.subrange(base, base + entry_lines(root, entries, width, None, k, current).len())
            == entry_lines(root, entries, width, None, k, current),
        reads_entries(acc.bullets, entries, k),
    ensures
        parse_range(lines, base, base + entry_lines(root, entries, width, None, k, current).len(), acc) matches Ok(
            b,
        ) && reads_entries(b.bullets, entries, entries.len() as int) && b.unknown == acc.unknown,
    decreases entries.len() - k,
{
    let seg = entry_lines(root, entries, width, None, k, current);
    if k == entries.len() {
        assert(seg.len() == 0);
    } else {
        let e = entries[k];
        let rel = crate::paths::spec_parent_relative(e.from@, root);
        let head = if current == Some(rel) {
            Seq::<Seq<char>>::empty()
        } else {
            group_lines(rel)
        };
        let line = entry_line(e.id, width, e.from@);
        let rest = entry_lines(root, entries, width, None, k + 1, Some(rel));
        assert(seg == head + seq![line] + rest);
        let h = head.len() as int;
        let end = base + seg.len();
        assert forall|j: int| base <= j < base + h implies is_ignorable(#[trigger] lines[j]) by {
            assert(lines[j] == seg[j - base]);
            assert(seg[j - base] == head[j - base]);
            if j - base == 1 {
                assert(head[1] == "# ./"@ + rel);
                reveal_strlit("# ./");
                assert(head[1][0] == '#');
                lemma_comment_ignorable(head[1]);
            } else {
                assert(head[j - base].len() == 0);
            }
        }
        lemma_range_chain(lines, base, base + h, end, acc);
        lemma_ignorable_range(lines, base, base + h, acc);
        assert(lines[base + h] == seg[h]);
        assert(seg[h] == line);
        lemma_entry_line(e.id, width, e.from@);
        assert(line_safe(e.from@) && abs_posix(e.from@) && utf8_len(e.from@) <= MAX_DEST_BYTES);
        assert(!has_id(acc.bullets, e.id)) by {
            if has_id(acc.bullets, e.id) {
                let j = choose|j: int| 0 <= j < acc.bullets.len() && (#[trigger] acc.bullets[j]).id == e.id;
                assert(entries[j].id == e.id);
            }
        }
        let next = BodyV {
            bullets: acc.bullets.push(
                crate::plan::BulletV { id: e.id, destination: e.from@, kind: BulletKind::Destination, line: base + h + 1 },
            ),
            unknown: acc.unknown,
        };
        assert(body_step(line, base + h + 1, acc) == Ok::<BodyV, (crate::plan::PlanErrorCode, Seq<char>)>(next));
        assert(parse_range(lines, base + h, end, acc) == parse_range(lines, base + h + 1, end, next));
        assert(reads_entries(next.bullets, entries, k + 1)) by {
            assert forall|j: int| 0 <= j < k + 1 implies {
                &&& (#[trigger] next.bullets[j]).id == entries[j].id
                &&& next.bullets[j].destination == entries[j].from@
                &&& next.bullets[j].kind == BulletKind::Destination
            } by {
                if j < k {
                    assert(next.bullets[j] == acc.bullets[j]);
                }
            }
        }
        assert(lines.subrange(base + h + 1, base + h + 1 + rest.len()) =~= rest) by {
            assert forall|j: int| 0 <= j < rest.len() implies lines.subrange(base + h + 1, base + h + 1 + rest.len())[j]
                == rest[j] by {
                assert(lines[base + h + 1 + j] == seg[h + 1 + j]);
                assert(seg[h + 1 + j] == rest[j]);
            }
        }
        lemma_entry_segment(lines, base + h + 1, root, entries, width, k + 1, Some(rel), next);
    }
}



/// A `#> key: value` metadata line, with the key's first colon ending it.
proof fn lemma_meta_line(key: Seq<char>, rest: Seq<char>)
    requires
        key.len() > 0,
        !is_ws(key[0]),
        !is_ws(key.last()),
        forall|j: int| 0 <= j < key.len() ==> #[trigger] key[j] != ':',
    ensures
        is_meta("#> "@ + key + seq![':', ' '] + rest),
        meta_field("#> "@ + key + seq![':', ' '] + rest) == Some((key, rest)),
{
    reveal_strlit("#> ");
    let l = "#> "@ + key + seq![':', ' '] + rest;
    assert(l.subrange(0, 3) =~= "#> "@);
    let r = l.skip(3);
    assert(r =~= key + seq![':', ' '] + rest);
    let p = key.len() as int;
    assert forall|j: int| 0 <= j < p implies r[j] != ':' by {
        assert(r[j] == key[j]);
    }
    lemma_find_colon(r, 0, p);
    assert(r.take(p) =~= key);
    lemma_trim_plain(key);
    assert(r.skip(p + 1) =~= seq![' '] + rest);
    assert((seq![' '] + rest).skip(1) =~= rest);
}

/// The header of a generated plan reads back as format 1, the session and the root, and
/// the lines after it up to the entries are comments or blank.
proof fn lemma_generated_header(lines: Seq<Seq<char>>, sid: Seq<char>, root: Seq<char>)
    requires
        lines.len() >= 9,
        lines.subrange(0, 9) == header_lines(sid, root),
    ensures
        is_meta(lines[0]),
        meta_end(lines, 0) == 3,
        meta_header_of(lines, 3) == (HeaderV { remodeco: 1, id: sid, root }),
        forall|j: int| 3 <= j < 9 ==> is_ignorable(#[trigger] lines[j]),
{
    let h = header_lines(sid, root);
    assert forall|j: int| 0 <= j < 9 implies lines[j] == #[trigger] h[j] by {
        assert(lines.subrange(0, 9)[j] == lines[j]);
    }
    reveal_strlit("#> remodeco: 1");
    reveal_strlit("#> id: ");
    reveal_strlit("#> root: ");
    reveal_strlit("#> ");
    reveal_strlit("# Edit the path after F#### <tab> : <tab> to rename or move.");
    reveal_strlit("# Leave the path unchanged, or delete it, or comment out the line means do nothing.");
    reveal_strlit("# Empty destination means move to trash or delete.");
    reveal_strlit("# When done, save and return to remodeco (exit the editor if TUI).");
    reveal_strlit("# ");
    reveal_strlit("remodeco");
    reveal_strlit("id");
    reveal_strlit("root");
    reveal_strlit("1");
    let rk = "root"@;
    let ik = "id"@;
    let mk = "remodeco"@;
    assert(h[0] =~= "#> "@ + mk + seq![':', ' '] + "1"@);
    assert(h[1] =~= "#> "@ + ik + seq![':', ' '] + sid);
    assert(h[2] =~= "#> "@ + rk + seq![':', ' '] + root);
    lemma_meta_line(mk, "1"@);
    lemma_meta_line(ik, sid);
    lemma_meta_line(rk, root);
    // The line after the metadata is a comment, not metadata.
    assert(!is_meta(lines[3])) by {
        assert(h[3][1] == ' ');
        if is_meta(h[3]) {
            assert(h[3].subrange(0, 3)[1] == "#> "@[1]);
        }
    }
    assert(meta_end(lines, 3) == 3);
    assert(meta_end(lines, 2) == 3);
    assert(meta_end(lines, 1) == 3);
    assert(meta_end(lines, 0) == 3);
    assert(meta_field(lines[2]) == Some((rk, root)));
    assert(meta_field(lines[1]) == Some((ik, sid)));
    assert(meta_field(lines[0]) == Some((mk, "1"@)));
    assert(rk != ik && rk != mk && ik != mk) by {
        assert(rk.len() != ik.len());
        assert(rk[1] != mk[1]);
        assert(ik.len() != mk.len());
    }
    assert(meta_value(lines, 0, 3, rk) == Some(root));
    assert(meta_value(lines, 0, 3, ik) == meta_value(lines, 0, 2, ik));
    assert(meta_value(lines, 0, 2, ik) == Some(sid));
    assert(meta_value(lines, 0, 3, mk) == meta_value(lines, 0, 2, mk));
    assert(meta_value(lines, 0, 2, mk) == meta_value(lines, 0, 1, mk));
    assert(meta_value(lines, 0, 1, mk) == Some("1"@));
    assert(crate::text::parse_u64("1"@) == Some(1u64)) by {
        assert("1"@[0] != '+');
        assert(all_digits("1"@));
        assert(digits_value("1"@) == 1) by {
            let one = "1"@;
            assert(one.len() == 1 && one[0] == '1');
            assert(one.last() == '1');
            assert(one.drop_last() =~= Seq::<char>::empty());
            assert(digits_value(one.drop_last()) == 0);
            assert(crate::text::digit_value('1') == 1);
        }
    }
    assert forall|j: int| 3 <= j < 9 implies is_ignorable(#[trigger] lines[j]) by {
        assert(lines[j] == h[j]);
        if j == 7 {
            assert(h[7].len() == 0);
        } else {
            assert(h[j][0] == '#');
            lemma_comment_ignorable(h[j]);
        }
    }
}

/// The lines of a generated plan.
pub open spec fn generated_lines(
    session_id: Seq<char>,
    root: Seq<char>,
    entries: Seq<ManifestEntry>,
    width: nat,
) -> Seq<Seq<char>> {
    header_lines(session_id, root) + entry_lines(root, entries, width, None, 0, None)
}

/// When a generated plan reads back: no line of it breaks or holds a carriage return,
/// each fits the line limit and they fit the line count; and the entries are plannable.
pub open spec fn plan_readable(session_id: Seq<char>, root: Seq<char>, entries: Seq<ManifestEntry>, width: nat) -> bool {
    let ls = generated_lines(session_id, root, entries, width);
    &&& forall|k: int|
        0 <= k < ls.len() ==> {
            &&& !has_char(#[trigger] ls[k], '\n')
            &&& !has_char(ls[k], '\r')
            &&& utf8_len(ls[k]) <= MAX_LINE_BYTES
        }
    &&& ls.len() + 1 <= MAX_LINES
    &&& entries_plannable(entries)
}

/// A generated plan reads back as the plan of its session: the header names format
/// 1, the session and the root; there is one entry per manifest entry, in order, with
/// its id and its own path as destination (so nothing would change); and no line is
/// unknown. `bytes` is the plan's size, within the file limit.
pub proof fn lemma_generated_plan_reads_back(
    session_id: Seq<char>,
    root: Seq<char>,
    entries: Seq<ManifestEntry>,
    width: nat,
    bytes: nat,
)
    requires
        plan_readable(session_id, root, entries, width),
        bytes <= MAX_FILE_BYTES,
    ensures
        spec_parse_plan(crate::plan::spec_render_plan(session_id, root, entries, width, None), bytes) matches Ok(p)
            && p.header == Some(HeaderV { remodeco: 1, id: session_id, root })
            && p.unknown.len() == 0
            && reads_entries(p.bullets, entries, entries.len() as int),
{
    let ls = generated_lines(session_id, root, entries, width);
    let raw = concat_lines(ls);
    assert(crate::plan::spec_render_plan(session_id, root, entries, width, None) == raw);
    lemma_split_concat(ls);
    let lines = split_on(raw, '\n');
    assert(lines == ls.push(Seq::<char>::empty()));
    lemma_concat_has_char(ls, '\r');
    assert forall|i: int| 0 <= i < lines.len() implies utf8_len(#[trigger] lines[i]) <= MAX_LINE_BYTES by {
        if i < ls.len() {
            assert(lines[i] == ls[i]);
        } else {
            assert(lines[i].len() == 0);
        }
    }
    let hl = header_lines(session_id, root);
    let el = entry_lines(root, entries, width, None, 0, None);
    assert(hl.len() == 9);
    assert(lines.subrange(0, 9) =~= hl) by {
        assert forall|j: int| 0 <= j < 9 implies lines.subrange(0, 9)[j] == hl[j] by {
            assert(lines[j] == ls[j]);
            assert(ls[j] == hl[j]);
        }
    }
    lemma_generated_header(lines, session_id, root);
    // The body: the notes, a blank line, the root comment, the entries, and the empty
    // last piece.
    let n = lines.len() as int;
    let end = (el.len() + 9) as int;
    assert(n == end + 1);
    lemma_body_range(lines, 3, crate::plan::empty_body());
    lemma_range_chain(lines, 3, 9, n, crate::plan::empty_body());
    lemma_ignorable_range(lines, 3, 9, crate::plan::empty_body());
    lemma_range_chain(lines, 9, end, n, crate::plan::empty_body());
    assert(lines.subrange(9, end) =~= el) by {
        assert forall|j: int| 0 <= j < el.len() implies lines.subrange(9, end)[j] == el[j] by {
            assert(lines[9 + j] == ls[9 + j]);
            assert(ls[9 + j] == el[j]);
        }
    }
    assert(reads_entries(crate::plan::empty_body().bullets, entries, 0));
    lemma_entry_segment(lines, 9, root, entries, width, 0, None, crate::plan::empty_body());
    let b = parse_range(lines, 9, end, crate::plan::empty_body())->Ok_0;
    assert(lines[end] == Seq::<char>::empty());
    assert(is_ignorable(lines[end]));
    lemma_ignorable_range(lines, end, n, b);
}

/// With distinct ids, an entry's id leads to its own path.
proof fn lemma_manifest_from_own(m: Seq<ManifestEntry>, k: int)
    requires
        0 <= k < m.len(),
        forall|a: int, b: int| 0 <= a < b < m.len() ==> (#[trigger] m[a]).id != (#[trigger] m[b]).id,
    ensures
        crate::plan::manifest_from(m, m[k].id) == Some(m[k].from@),
    decreases m.len(),
{
    if k < m.len() - 1 {
        let init = m.drop_last();
        assert(m.last().id != m[k].id) by {
            assert(m[m.len() - 1] == m.last());
        }
        assert forall|a: int, b: int| 0 <= a < b < init.len() implies (#[trigger] init[a]).id != (#[trigger] init[b]).id by {
            assert(init[a] == m[a] && init[b] == m[b]);
        }
        assert(init[k] == m[k]);
        lemma_manifest_from_own(init, k);
    }
}

/// Entries that read back their own paths ask for nothing.
proof fn lemma_classify_unchanged(bs: Seq<crate::plan::BulletV>, m: Seq<ManifestEntry>, mode: crate::model::SessionMode, i: int)
    requires
        0 <= i <= m.len(),
        reads_entries(bs, m, m.len() as int),
        forall|a: int, b: int| 0 <= a < b < m.len() ==> (#[trigger] m[a]).id != (#[trigger] m[b]).id,
    ensures
        crate::plan::classify_from(bs, m, mode, i) matches Ok(ops) && ops.len() == m.len() - i && forall|j: int|
            0 <= j < ops.len() ==> (#[trigger] ops[j]).kind == crate::model::OpKind::Noop && ops[j].id == m[i + j].id,
    decreases m.len() - i,
{
    if i < m.len() {
        assert(bs[i].id == m[i].id);
        lemma_manifest_from_own(m, i);
        lemma_classify_unchanged(bs, m, mode, i + 1);
        let rest = crate::plan::classify_from(bs, m, mode, i + 1)->Ok_0;
        let op = crate::plan::op_for(bs[i], m[i].from@, mode);
        assert(op.kind == crate::model::OpKind::Noop);
        let ops = seq![op] + rest;
        assert forall|j: int| 0 <= j < ops.len() implies (#[trigger] ops[j]).kind == crate::model::OpKind::Noop
            && ops[j].id == m[i + j].id by {
            if j > 0 {
                assert(ops[j] == rest[j - 1]);
            }
        }
    }
}

/// Every manifest entry that an entry names is skipped by none.
proof fn lemma_none_skipped(m: Seq<ManifestEntry>, bs: Seq<crate::plan::BulletV>)
    requires
        forall|k: int| 0 <= k < m.len() ==> has_id(bs, #[trigger] m[k].id),
    ensures
        crate::plan::skipped_ids(m, bs).len() == 0,
    decreases m.len(),
{
    if m.len() > 0 {
        let init = m.drop_last();
        assert forall|k: int| 0 <= k < init.len() implies has_id(bs, #[trigger] init[k].id) by {
            assert(init[k] == m[k]);
        }
        lemma_none_skipped(init, bs);
        assert(has_id(bs, m[m.len() - 1].id));
    }
}

/// A generated plan that is saved unchanged asks for nothing: every entry of it is a
/// no-op for its manifest entry, in order, and no manifest entry is skipped.
pub proof fn lemma_unchanged_plan_is_noop(
    session_id: Seq<char>,
    root: Seq<char>,
    entries: Seq<ManifestEntry>,
    width: nat,
    bytes: nat,
    mode: crate::model::SessionMode,
)
    requires
        plan_readable(session_id, root, entries, width),
        bytes <= MAX_FILE_BYTES,
    ensures
        spec_parse_plan(crate::plan::spec_render_plan(session_id, root, entries, width, None), bytes) matches Ok(p)
            && crate::plan::classify_from(p.bullets, entries, mode, 0) matches Ok(ops)
            && ops.len() == entries.len()
            && (forall|k: int| 0 <= k < ops.len() ==> (#[trigger] ops[k]).kind == crate::model::OpKind::Noop && ops[k].id == entries[k].id)
            && crate::plan::skipped_ids(entries, p.bullets).len() == 0,
{
    lemma_generated_plan_reads_back(session_id, root, entries, width, bytes);
    let p = spec_parse_plan(crate::plan::spec_render_plan(session_id, root, entries, width, None), bytes)->Ok_0;
    lemma_classify_unchanged(p.bullets, entries, mode, 0);
    assert forall|k: int| 0 <= k < entries.len() implies has_id(p.bullets, #[trigger] entries[k].id) by {
        assert(p.bullets[k].id == entries[k].id);
    }
    lemma_none_skipped(entries, p.bullets);
}

} // verus!
