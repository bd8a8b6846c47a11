//! Reading BibTeX text: the header of an entry, the value of a field, and the
//! division of a file into entries.
use vstd::prelude::*;

use crate::text::{
    chars_of, count_until, eq_ignore_ascii_case, eq_ignore_case_range, find_from, is_space,
    join_with, lemma_count_until, lemma_count_until_absent, lemma_count_until_is, lemma_lines_cons,
    lemma_strip_back_concat, lemma_strip_back_keeps, lemma_strip_front_concat, lemma_strip_idempotent, strip_back,
    strip_cr, strip_front, strips, lemma_strip_shape, lemma_strip_unchanged, lemma_trim_strip_cr, lines,
    string_of, strip, strip_range, trim, Strip,
};

verus! {

/// What a line yields for `field`: on a trimmed line `key = value` whose key
/// equals `field` up to ASCII case, the value trimmed, stripped of the
/// delimiters `{`, `}` and `,` at both ends, and trimmed again.
pub open spec fn field_value(line: Seq<char>, field: Seq<char>) -> Option<Seq<char>> {
    let t = trim(line);
    let e = count_until(t, '=');
    if e >= t.len() {
        None
    } else if eq_ignore_ascii_case(trim(t.take(e as int)), field) {
        Some(trim(strip(trim(t.skip(e + 1int)), Strip::Delimiters)))
    } else {
        None
    }
}

/// The value of `field` on the first of `ls` that yields one.
pub open spec fn first_field_value(ls: Seq<Seq<char>>, field: Seq<char>) -> Option<Seq<char>>
    decreases ls.len(),
{
    if ls.len() == 0 {
        None
    } else {
        match field_value(ls[0], field) {
            Some(v) => Some(v),
            None => first_field_value(ls.drop_first(), field),
        }
    }
}

/// The value of `field` in a BibTeX entry: that of the first line that yields one.
pub open spec fn field_of(bibtex: Seq<char>, field: Seq<char>) -> Option<Seq<char>> {
    first_field_value(lines(bibtex), field)
}

/// The header read from the trimmed first line of an entry: the line starts
/// with `@`; the entry type is the text after it up to the first `{`,
/// trimmed, and the entry key the text after that `{` up to the first `,`,
/// trimmed. There is none when the line does not start with `@` or has no `{`.
pub open spec fn header_of_line(first: Seq<char>) -> Option<(Seq<char>, Seq<char>)> {
    if first.len() == 0 || first[0] != '@' {
        None
    } else {
        let after = first.skip(1);
        let b = count_until(after, '{');
        if b >= after.len() {
            None
        } else {
            let rest = after.skip(b + 1int);
            Some((trim(after.take(b as int)), trim(rest.take(count_until(rest, ',') as int))))
        }
    }
}

/// The header of an entry, read from its first line, trimmed. An empty text
/// has none.
pub open spec fn header_of(bibtex: Seq<char>) -> Option<(Seq<char>, Seq<char>)> {
    if bibtex.len() == 0 {
        None
    } else {
        header_of_line(trim(lines(bibtex)[0]))
    }
}

/// The state of the scan that divides a text into entries.
pub struct ScanState {
    /// The entries completed so far.
    pub entries: Seq<Seq<char>>,
    /// The text of the entry being read, from its `@`.
    pub current: Seq<char>,
    /// The brace depth: `{` seen minus `}` seen inside entries.
    pub level: int,
    /// Whether an entry is being read.
    pub in_entry: bool,
}

pub open spec fn scan_start() -> ScanState {
    ScanState { entries: Seq::empty(), current: Seq::empty(), level: 0, in_entry: false }
}

/// One character of the scan. Outside an entry an `@` opens one; inside, the
/// character is kept, braces move the depth, and a `}` that brings the depth
/// to zero closes the entry, which is kept trimmed.
pub open spec fn scan_step(st: ScanState, c: char) -> ScanState {
    let st1 = if c == '@' && !st.in_entry {
        ScanState { in_entry: true, current: Seq::empty(), ..st }
    } else {
        st
    };
    if st1.in_entry {
        let cur = st1.current.push(c);
        if c == '{' {
            ScanState { current: cur, level: st1.level + 1, ..st1 }
        } else if c == '}' {
            if st1.level - 1 == 0 {
                ScanState {
                    entries: st1.entries.push(trim(cur)),
                    current: cur,
                    level: 0,
                    in_entry: false,
                }
            } else {
                ScanState { current: cur, level: st1.level - 1, ..st1 }
            }
        } else {
            ScanState { current: cur, ..st1 }
        }
    } else {
        st1
    }
}

/// The scan of `s` from the state `st`, one character after the other.
pub open spec fn scan_from(st: ScanState, s: Seq<char>) -> ScanState
    decreases s.len(),
{
    if s.len() == 0 {
        st
    } else {
        scan_step(scan_from(st, s.drop_last()), s.last())
    }
}

/// The entries of a BibTeX text, in order.
pub open spec fn entries_of(s: Seq<char>) -> Seq<Seq<char>> {
    scan_from(scan_start(), s).entries
}

proof fn lemma_no_char_concat(a: Seq<char>, b: Seq<char>, c: char)
    requires
        !a.contains(c),
        !b.contains(c),
    ensures
        !(a + b).contains(c),
{
    if (a + b).contains(c) {
        let j = choose|j: int| 0 <= j < (a + b).len() && (a + b)[j] == c;
        if j < a.len() {
            assert(a[j] == c);
        } else {
            assert(b[j - a.len()] == c);
        }
    }
}

/// A line without `=` yields no field value.
proof fn lemma_no_value_without_equals(line: Seq<char>, field: Seq<char>)
    requires
        !line.contains('='),
    ensures
        field_value(line, field) is None,
{
    let t = trim(line);
    lemma_strip_shape(line, Strip::Space);
    let (a, b) = choose|a: int, b: int| 0 <= a <= b <= line.len() && t == line.subrange(a, b);
    assert(!t.contains('=')) by {
        if t.contains('=') {
            let j = choose|j: int| 0 <= j < t.len() && t[j] == '=';
            assert(line[a + j] == '=');
        }
    }
    lemma_count_until_absent(t, '=');
}

/// The value of a braced field line: on the line `key = {v},` (indented by
/// spaces, after a first line without `=`), where `key` equals `field` up to
/// ASCII case, the value of `field` is exactly `v` -- the whole text between
/// the braces, commas included -- when `v` is on one line and neither starts
/// nor ends with whitespace or a delimiter.
pub proof fn lemma_field_of_braced_value(
    head: Seq<char>,
    indent: Seq<char>,
    key: Seq<char>,
    field: Seq<char>,
    v: Seq<char>,
    rest: Seq<char>,
)
    requires
        !head.contains('\n'),
        !head.contains('='),
        forall|j: int| 0 <= j < indent.len() ==> #[trigger] indent[j] == ' ',
        eq_ignore_ascii_case(key, field),
        key.len() > 0,
        !key.contains('='),
        !key.contains('\n'),
        !is_space(key[0]),
        !is_space(key.last()),
        v.len() > 0,
        !v.contains('\n'),
        !is_space(v[0]),
        !is_space(v.last()),
        !strips(Strip::Delimiters, v[0]),
        !strips(Strip::Delimiters, v.last()),
    ensures
        field_of(
            head + seq!['\n'] + indent + key + seq![' ', '=', ' ', '{'] + v + seq!['}', ',']
                + seq!['\n'] + rest,
            field,
        ) == Some(v),
{
    let k = seq![' ', '=', ' ', '{'];
    let e = seq!['}', ','];
    let nl = seq!['\n'];
    let b = key + k + v + e;
    let line = indent + b;
    let s = head + nl + indent + key + k + v + e + nl + rest;
    assert(s =~= head + nl + (line + nl + rest));
    assert(indent + key + k + v + e =~= line);
    assert(!indent.contains('\n')) by {
        if indent.contains('\n') {
            let j = choose|j: int| 0 <= j < indent.len() && indent[j] == '\n';
            assert(indent[j] == ' ');
        }
    }
    assert(!k.contains('\n')) by {
        if k.contains('\n') {
            let j = choose|j: int| 0 <= j < k.len() && k[j] == '\n';
        }
    }
    assert(!e.contains('\n')) by {
        if e.contains('\n') {
            let j = choose|j: int| 0 <= j < e.len() && e[j] == '\n';
        }
    }
    lemma_no_char_concat(key, k, '\n');
    lemma_no_char_concat(key + k, v, '\n');
    lemma_no_char_concat(key + k + v, e, '\n');
    lemma_no_char_concat(indent, b, '\n');
    lemma_lines_cons(head, line + nl + rest);
    lemma_lines_cons(line, rest);
    let ls = lines(s);
    assert(ls[0] == strip_cr(head));
    assert(!strip_cr(head).contains('=')) by {
        if strip_cr(head).contains('=') {
            let j = choose|j: int| 0 <= j < strip_cr(head).len() && strip_cr(head)[j] == '=';
            assert(head[j] == '=');
        }
    }
    lemma_no_value_without_equals(strip_cr(head), field);
    assert(ls.drop_first() =~= lines(line + nl + rest));
    assert(line.last() == ',');
    assert(strip_cr(line) == line);
    assert(lines(line + nl + rest)[0] == line);
    // The trimmed line is `field = {v},`.
    assert(b[0] == key[0]);
    lemma_strip_front_concat(indent, b, Strip::Space);
    assert(b.last() == ',');
    assert(strip_back(b, Strip::Space) == b);
    assert(trim(line) == b);
    // Its first `=` follows the field and one space.
    let f: int = key.len() as int;
    assert forall|j: int| 0 <= j < f + 1 implies b[j] != '=' by {
        if j < f {
            assert(b[j] == key[j]);
            if key[j] == '=' {
                assert(key.contains('='));
            }
        } else {
            assert(b[j] == ' ');
        }
    }
    assert(b[f + 1] == '=');
    lemma_count_until_is(b, '=', f + 1);
    // The text before the `=` is the key.
    let before = b.take(f + 1);
    assert(before =~= key + seq![' ']);
    assert(before[0] == key[0]);
    assert(strip_front(before, Strip::Space) == before);
    lemma_strip_back_concat(key, seq![' '], Strip::Space);
    assert(trim(before) == key);
    // The value is the text between the braces.
    let after = b.skip(f + 2);
    let braced = seq!['{'] + v + e;
    assert(after =~= seq![' '] + braced);
    lemma_strip_front_concat(seq![' '], braced, Strip::Space);
    assert(braced.last() == ',');
    assert(strip_back(braced, Strip::Space) == braced);
    assert(trim(after) == braced);
    assert(braced =~= seq!['{'] + (v + e));
    assert((v + e)[0] == v[0]);
    lemma_strip_front_concat(seq!['{'], v + e, Strip::Delimiters);
    lemma_strip_back_concat(v, e, Strip::Delimiters);
    assert(strip(braced, Strip::Delimiters) == v);
    lemma_strip_unchanged(v, Strip::Space);
    assert(field_value(line, field) == Some(v));
    let ls2 = lines(line + nl + rest);
    assert(first_field_value(ls2, field) == Some(v));
    assert(first_field_value(ls, field) == first_field_value(ls.drop_first(), field));
    assert(field_of(s, field) == first_field_value(ls, field));
}

/// The header of an entry whose first line reads `@type{key,` (indented by
/// spaces, anything after the comma): the entry type is `type` and the
/// entry key is `key`, when both are on that line, neither starts nor ends
/// with whitespace, the type holds no `{` and the key no `,`.
pub proof fn lemma_header_of_formatted_line(
    indent: Seq<char>,
    ty: Seq<char>,
    key: Seq<char>,
    tail: Seq<char>,
    rest: Seq<char>,
)
    requires
        forall|j: int| 0 <= j < indent.len() ==> #[trigger] indent[j] == ' ',
        ty.len() > 0,
        !ty.contains('{'),
        !ty.contains('\n'),
        !is_space(ty[0]),
        !is_space(ty.last()),
        key.len() > 0,
        !key.contains(','),
        !key.contains('\n'),
        !is_space(key[0]),
        !is_space(key.last()),
        !tail.contains('\n'),
        tail.len() > 0 ==> !is_space(tail.last()),
    ensures
        header_of(indent + seq!['@'] + ty + seq!['{'] + key + seq![','] + tail + seq!['\n'] + rest)
            == Some((ty, key)),
{
    let x = seq!['@'] + ty + seq!['{'] + key + seq![','] + tail;
    let line = indent + x;
    let s = indent + seq!['@'] + ty + seq!['{'] + key + seq![','] + tail + seq!['\n'] + rest;
    assert(s =~= line + seq!['\n'] + rest);
    assert(!line.contains('\n')) by {
        if line.contains('\n') {
            let j = choose|j: int| 0 <= j < line.len() && line[j] == '\n';
            let a = indent.len() as int;
            let t1 = a + 1 + ty.len();
            let k1 = t1 + 1 + key.len();
            if j < a {
                assert(line[j] == indent[j]);
            } else if j == a || j == t1 || j == k1 {
            } else if j < t1 {
                assert(line[j] == ty[j - a - 1]);
                assert(ty.contains('\n'));
            } else if j < k1 {
                assert(line[j] == key[j - t1 - 1]);
                assert(key.contains('\n'));
            } else {
                assert(line[j] == tail[j - k1 - 1]);
                assert(tail.contains('\n'));
            }
        }
    }
    lemma_lines_cons(line, rest);
    assert(lines(s)[0] == strip_cr(line));
    assert(x.last() != '\r') by {
        if tail.len() > 0 {
            assert(x.last() == tail.last());
        }
    }
    assert(line.last() == x.last());
    assert(strip_cr(line) == line);
    lemma_strip_front_concat(indent, x, Strip::Space);
    assert(!is_space(x.last())) by {
        if tail.len() > 0 {
            assert(x.last() == tail.last());
        }
    }
    assert(strip_back(x, Strip::Space) == x);
    assert(trim(line) == x);
    let after = x.skip(1);
    assert(after =~= ty + seq!['{'] + key + seq![','] + tail);
    assert forall|j: int| 0 <= j < ty.len() implies after[j] != '{' by {
        assert(after[j] == ty[j]);
        if ty[j] == '{' {
            assert(ty.contains('{'));
        }
    }
    lemma_count_until_is(after, '{', ty.len() as int);
    assert(after.take(ty.len() as int) =~= ty);
    lemma_strip_unchanged(ty, Strip::Space);
    let r = after.skip(ty.len() + 1int);
    assert(r =~= key + seq![','] + tail);
    assert forall|j: int| 0 <= j < key.len() implies r[j] != ',' by {
        assert(r[j] == key[j]);
        if key[j] == ',' {
            assert(key.contains(','));
        }
    }
    lemma_count_until_is(r, ',', key.len() as int);
    assert(r.take(key.len() as int) =~= key);
    lemma_strip_unchanged(key, Strip::Space);
}

/// A text whose first character is neither whitespace nor `@` has no header.
pub proof fn lemma_no_header_without_at(s: Seq<char>)
    requires
        s.len() > 0,
        !is_space(s[0]),
        s[0] != '@',
    ensures
        header_of(s) is None,
{
    let k = count_until(s, '\n');
    lemma_count_until(s, '\n');
    let line = lines(s)[0];
    if k >= s.len() {
        assert(line == s);
    } else {
        assert(k > 0);
        assert(line == strip_cr(s.take(k as int)));
        assert(s.take(k as int)[0] == s[0]);
        if k == 1 {
            assert(s.take(k as int).last() == s[0]);
        }
    }
    assert(line.len() > 0 && line[0] == s[0]);
    assert(strip_front(line, Strip::Space) == line);
    lemma_strip_back_keeps(line, Strip::Space, 0);
    assert(trim(line)[0] == s[0]);
}

/// Every entry of a text starts with `@`, ends with `}`, and is left
/// unchanged by trimming.
pub proof fn lemma_entries_delimited(s: Seq<char>)
    ensures
        forall|i: int|
            0 <= i < entries_of(s).len() ==> {
                let e = #[trigger] entries_of(s)[i];
                &&& e.len() >= 2
                &&& e[0] == '@'
                &&& e.last() == '}'
                &&& trim(e) == e
            },
{
    lemma_scan_delimited(s);
}

pub open spec fn delimited_state(st: ScanState) -> bool {
    &&& forall|i: int|
        0 <= i < st.entries.len() ==> {
            let e = #[trigger] st.entries[i];
            &&& e.len() >= 2
            &&& e[0] == '@'
            &&& e.last() == '}'
            &&& trim(e) == e
        }
    &&& st.in_entry ==> st.current.len() > 0 && st.current[0] == '@'
}

proof fn lemma_scan_delimited(s: Seq<char>)
    ensures
        delimited_state(scan_from(scan_start(), s)),
    decreases s.len(),
{
    if s.len() > 0 {
        lemma_scan_delimited(s.drop_last());
        let st = scan_from(scan_start(), s.drop_last());
        let c = s.last();
        let st1 = if c == '@' && !st.in_entry {
            ScanState { in_entry: true, current: Seq::empty(), ..st }
        } else {
            st
        };
        if st1.in_entry {
            let cur = st1.current.push(c);
            assert(cur[0] == '@');
            if c == '}' && st1.level - 1 == 0 {
                lemma_strip_unchanged(cur, Strip::Space);
                let next = scan_step(st, c);
                assert forall|i: int| 0 <= i < next.entries.len() implies {
                    let e = #[trigger] next.entries[i];
                    &&& e.len() >= 2
                    &&& e[0] == '@'
                    &&& e.last() == '}'
                    &&& trim(e) == e
                } by {
                    if i < st1.entries.len() {
                        assert(next.entries[i] == st1.entries[i]);
                    } else {
                        assert(next.entries[i] == cur);
                    }
                }
            }
        }
    }
}

/// Every entry of a text is a piece of it: a run of consecutive characters.
pub proof fn lemma_entries_are_pieces(s: Seq<char>)
    ensures
        forall|i: int| 0 <= i < entries_of(s).len() ==> is_piece_of(#[trigger] entries_of(s)[i], s),
{
    lemma_scan_pieces(s);
}

/// `e` occurs in `s` as a run of consecutive characters.
pub open spec fn is_piece_of(e: Seq<char>, s: Seq<char>) -> bool {
    exists|a: int| 0 <= a && a + e.len() <= s.len() && #[trigger] s.subrange(a, a + e.len()) == e
}

pub open spec fn pieces_state(st: ScanState, s: Seq<char>) -> bool {
    &&& forall|i: int| 0 <= i < st.entries.len() ==> is_piece_of(#[trigger] st.entries[i], s)
    &&& st.in_entry ==> st.current.len() <= s.len() && s.subrange(
        s.len() - st.current.len(),
        s.len() as int,
    ) == st.current
}

proof fn lemma_piece_extends(e: Seq<char>, s: Seq<char>, c: char)
    requires
        is_piece_of(e, s),
    ensures
        is_piece_of(e, s.push(c)),
{
    let a = choose|a: int| 0 <= a && a + e.len() <= s.len() && #[trigger] s.subrange(a, a + e.len()) == e;
    assert(s.push(c).subrange(a, a + e.len()) =~= s.subrange(a, a + e.len()));
}

proof fn lemma_scan_pieces(s: Seq<char>)
    ensures
        pieces_state(scan_from(scan_start(), s), s),
        delimited_state(scan_from(scan_start(), s)),
    decreases s.len(),
{
    lemma_scan_delimited(s);
    if s.len() > 0 {
        let p = s.drop_last();
        let c = s.last();
        lemma_scan_pieces(p);
        assert(p.push(c) =~= s);
        let st = scan_from(scan_start(), p);
        let next = scan_step(st, c);
        assert(next == scan_from(scan_start(), s));
        let st1 = if c == '@' && !st.in_entry {
            ScanState { in_entry: true, current: Seq::empty(), ..st }
        } else {
            st
        };
        assert forall|i: int| 0 <= i < st.entries.len() implies is_piece_of(
            #[trigger] st.entries[i],
            s,
        ) by {
            lemma_piece_extends(st.entries[i], p, c);
        }
        if st1.in_entry {
            let cur = st1.current.push(c);
            if c == '@' && !st.in_entry {
                assert(s.subrange(s.len() - 1, s.len() as int) =~= cur);
            } else {
                assert(s.subrange(s.len() - cur.len(), s.len() as int) =~= p.subrange(
                    p.len() - st.current.len(),
                    p.len() as int,
                ).push(c));
            }
            assert(s.subrange(s.len() - cur.len(), s.len() as int) == cur);
            if c == '}' && st1.level - 1 == 0 {
                assert(cur[0] == '@');
                lemma_strip_unchanged(cur, Strip::Space);
                let a = s.len() - cur.len();
                assert(s.subrange(a, a + cur.len()) == cur);
                assert(is_piece_of(cur, s));
                assert forall|i: int| 0 <= i < next.entries.len() implies is_piece_of(
                    #[trigger] next.entries[i],
                    s,
                ) by {
                    if i < st1.entries.len() {
                        assert(next.entries[i] == st1.entries[i]);
                    } else {
                        assert(next.entries[i] == cur);
                    }
                }
            }
        }
    }
}

/// The entry type and entry key of a header are trimmed; the type holds no
/// `{` and the key no `,`.
pub proof fn lemma_header_fields(s: Seq<char>)
    ensures
        header_of(s) matches Some((t, k)) ==> {
            &&& trim(t) == t
            &&& trim(k) == k
            &&& !t.contains('{')
            &&& !k.contains(',')
        },
{
    if let Some((t, k)) = header_of(s) {
        let first = trim(lines(s)[0]);
        let after = first.skip(1);
        let b = count_until(after, '{');
        let rest = after.skip(b + 1int);
        let c = count_until(rest, ',');
        lemma_count_until(after, '{');
        lemma_count_until(rest, ',');
        let tt = after.take(b as int);
        let kk = rest.take(c as int);
        lemma_strip_idempotent(tt, Strip::Space);
        lemma_strip_idempotent(kk, Strip::Space);
        lemma_strip_shape(tt, Strip::Space);
        lemma_strip_shape(kk, Strip::Space);
        let (a1, b1) = choose|a: int, b: int| 0 <= a <= b <= tt.len() && trim(tt) == tt.subrange(a, b);
        let (a2, b2) = choose|a: int, b: int| 0 <= a <= b <= kk.len() && trim(kk) == kk.subrange(a, b);
        assert forall|j: int| 0 <= j < t.len() implies t[j] != '{' by {
            assert(t[j] == tt[a1 + j]);
        }
        assert forall|j: int| 0 <= j < k.len() implies k[j] != ',' by {
            assert(k[j] == kk[a2 + j]);
        }
    }
}

/// The brace depth at the end of `s`: `{` seen minus `}` seen.
pub open spec fn depth(s: Seq<char>) -> int
    decreases s.len(),
{
    if s.len() == 0 {
        0
    } else {
        depth(s.drop_last()) + if s.last() == '{' {
            1int
        } else if s.last() == '}' {
            -1int
        } else {
            0int
        }
    }
}

/// A complete BibTeX entry: it starts with `@`, ends with the `}` that brings
/// its brace depth back to zero, and no earlier `}` does so.
pub open spec fn is_complete_entry(b: Seq<char>) -> bool {
    &&& b.len() >= 2
    &&& b[0] == '@'
    &&& b.last() == '}'
    &&& depth(b) == 0
    &&& forall|k: int| 1 <= k < b.len() && b[k - 1] == '}' ==> depth(#[trigger] b.take(k)) != 0
}

pub proof fn lemma_scan_concat(st: ScanState, p: Seq<char>, q: Seq<char>)
    ensures
        scan_from(st, p + q) == scan_from(scan_from(st, p), q),
    decreases q.len(),
{
    if q.len() == 0 {
        assert(p + q =~= p);
    } else {
        assert((p + q).drop_last() =~= p + q.drop_last());
        assert((p + q).last() == q.last());
        lemma_scan_concat(st, p, q.drop_last());
    }
}

pub proof fn lemma_scan_entry_prefix(st: ScanState, b: Seq<char>, k: int)
    requires
        !st.in_entry,
        st.level == 0,
        is_complete_entry(b),
        1 <= k <= b.len(),
    ensures
        k < b.len() ==> scan_from(st, b.take(k)) == (ScanState {
            entries: st.entries,
            current: b.take(k),
            level: depth(b.take(k)),
            in_entry: true,
        }),
        k == b.len() ==> scan_from(st, b.take(k)).entries == st.entries.push(b),
        k == b.len() ==> scan_from(st, b.take(k)).level == 0,
        k == b.len() ==> !scan_from(st, b.take(k)).in_entry,
    decreases k,
{
    let pre = b.take(k);
    assert(pre.drop_last() =~= b.take(k - 1));
    assert(pre.last() == b[k - 1]);
    if k == 1 {
        assert(b.take(0) =~= Seq::<char>::empty());
        assert(scan_from(st, b.take(0)) == st);
        assert(scan_from(st, pre) == scan_step(st, '@'));
        assert(Seq::<char>::empty().push(b[0]) =~= pre);
        assert(depth(pre) == 0) by {
            assert(depth(b.take(0)) == 0);
        }
        if b.len() == 1 {
            assert(false);
        }
    } else {
        lemma_scan_entry_prefix(st, b, k - 1);
        let c = b[k - 1];
        assert(b.take(k - 1).push(c) =~= pre);
        if k == b.len() {
            assert(pre =~= b);
            assert(c == '}');
            lemma_strip_unchanged(b, Strip::Space);
        } else if c == '}' {
            assert(depth(b.take(k)) != 0);
        }
    }
}

pub proof fn lemma_scan_entry(st: ScanState, b: Seq<char>)
    requires
        !st.in_entry,
        st.level == 0,
        is_complete_entry(b),
    ensures
        scan_from(st, b).entries == st.entries.push(b),
        scan_from(st, b).level == 0,
        !scan_from(st, b).in_entry,
{
    lemma_scan_entry_prefix(st, b, b.len() as int);
    assert(b.take(b.len() as int) =~= b);
}

/// An entry being read: it starts with `@`, and no `}` in it has yet brought
/// its brace depth back to zero.
pub open spec fn is_open_entry(cur: Seq<char>) -> bool {
    &&& cur.len() >= 1
    &&& cur[0] == '@'
    &&& forall|k: int| 1 <= k <= cur.len() && cur[k - 1] == '}' ==> depth(#[trigger] cur.take(k)) != 0
}

pub open spec fn complete_state(st: ScanState) -> bool {
    &&& forall|i: int| 0 <= i < st.entries.len() ==> is_complete_entry(#[trigger] st.entries[i])
    &&& st.in_entry ==> is_open_entry(st.current) && st.level == depth(st.current)
    &&& !st.in_entry ==> st.level == 0
}

proof fn lemma_scan_complete(s: Seq<char>)
    ensures
        complete_state(scan_from(scan_start(), s)),
    decreases s.len(),
{
    if s.len() > 0 {
        let p = s.drop_last();
        let c = s.last();
        lemma_scan_complete(p);
        let st = scan_from(scan_start(), p);
        let next = scan_step(st, c);
        assert(next == scan_from(scan_start(), s));
        let st1 = if c == '@' && !st.in_entry {
            ScanState { in_entry: true, current: Seq::empty(), ..st }
        } else {
            st
        };
        if st1.in_entry {
            let cur = st1.current.push(c);
            assert(cur.drop_last() =~= st1.current);
            if c == '@' && !st.in_entry {
                assert(st1.current =~= Seq::<char>::empty());
                assert(depth(st1.current) == 0);
                assert forall|k: int| 1 <= k <= cur.len() && cur[k - 1] == '}' implies depth(
                    #[trigger] cur.take(k),
                ) != 0 by {}
            } else {
                assert forall|k: int| 1 <= k <= cur.len() - 1 && cur[k - 1] == '}' implies depth(
                    #[trigger] cur.take(k),
                ) != 0 by {
                    assert(cur.take(k) =~= st1.current.take(k));
                    assert(st1.current[k - 1] == cur[k - 1]);
                }
            }
            assert(cur.take(cur.len() as int) =~= cur);
            if c == '}' && st1.level - 1 == 0 {
                lemma_strip_unchanged(cur, Strip::Space);
                assert(is_complete_entry(cur));
                assert forall|i: int| 0 <= i < next.entries.len() implies is_complete_entry(
                    #[trigger] next.entries[i],
                ) by {
                    if i < st1.entries.len() {
                        assert(next.entries[i] == st1.entries[i]);
                    } else {
                        assert(next.entries[i] == cur);
                    }
                }
            } else {
                assert(is_open_entry(cur));
            }
        }
    }
}

/// Every entry of a text is a complete entry.
pub proof fn lemma_entries_complete(s: Seq<char>)
    ensures
        forall|i: int| 0 <= i < entries_of(s).len() ==> is_complete_entry(#[trigger] entries_of(s)[i]),
{
    lemma_scan_complete(s);
}

/// A text that splits into itself alone is a complete entry.
pub proof fn lemma_self_split_is_complete(b: Seq<char>)
    requires
        entries_of(b) == seq![b],
    ensures
        is_complete_entry(b),
{
    lemma_entries_complete(b);
    assert(entries_of(b)[0] == b);
}

/// Scanning text without `@` outside an entry changes nothing.
pub proof fn lemma_scan_without_at(st: ScanState, q: Seq<char>)
    requires
        !st.in_entry,
        !q.contains('@'),
    ensures
        scan_from(st, q) == st,
    decreases q.len(),
{
    if q.len() > 0 {
        assert(!q.drop_last().contains('@')) by {
            if q.drop_last().contains('@') {
                let j = choose|j: int| 0 <= j < q.drop_last().len() && q.drop_last()[j] == '@';
                assert(q[j] == '@');
            }
        }
        lemma_scan_without_at(st, q.drop_last());
        assert(q[q.len() - 1] != '@');
    }
}

proof fn lemma_scan_joined(st: ScanState, bibs: Seq<Seq<char>>, sep: Seq<char>)
    requires
        !st.in_entry,
        st.level == 0,
        !sep.contains('@'),
        forall|i: int| 0 <= i < bibs.len() ==> is_complete_entry(#[trigger] bibs[i]),
    ensures
        scan_from(st, join_with(bibs, sep)).entries == st.entries + bibs,
        scan_from(st, join_with(bibs, sep)).level == 0,
        !scan_from(st, join_with(bibs, sep)).in_entry,
    decreases bibs.len(),
{
    if bibs.len() == 0 {
        assert(join_with(bibs, sep) =~= Seq::<char>::empty());
        assert(st.entries + bibs =~= st.entries);
    } else if bibs.len() == 1 {
        assert(bibs[0] == bibs[0]);
        lemma_scan_entry(st, bibs[0]);
        assert(st.entries + bibs =~= st.entries.push(bibs[0]));
    } else {
        let b = bibs[0];
        let rest = bibs.drop_first();
        assert(is_complete_entry(bibs[0]));
        assert forall|i: int| 0 <= i < rest.len() implies is_complete_entry(#[trigger] rest[i]) by {
            assert(rest[i] == bibs[i + 1]);
        }
        lemma_scan_concat(st, b + sep, join_with(rest, sep));
        lemma_scan_concat(st, b, sep);
        lemma_scan_entry(st, b);
        let st1 = scan_from(st, b);
        lemma_scan_without_at(st1, sep);
        lemma_scan_joined(st1, rest, sep);
        assert(st.entries.push(b) + rest =~= st.entries + bibs);
    }
}

/// Joining complete entries with a separator that holds no `@` and splitting
/// the result gives back the entries, in order.
pub proof fn lemma_split_joined_entries(bibs: Seq<Seq<char>>, sep: Seq<char>)
    requires
        !sep.contains('@'),
        forall|i: int| 0 <= i < bibs.len() ==> is_complete_entry(#[trigger] bibs[i]),
    ensures
        entries_of(join_with(bibs, sep)) == bibs,
{
    lemma_scan_joined(scan_start(), bibs, sep);
    assert(Seq::<Seq<char>>::empty() + bibs =~= bibs);
}

/// Splitting a text into entries, joining them with a separator that holds
/// no `@`, and splitting again gives the same entries.
pub proof fn lemma_resplit_entries(s: Seq<char>, sep: Seq<char>)
    requires
        !sep.contains('@'),
    ensures
        entries_of(join_with(entries_of(s), sep)) == entries_of(s),
{
    lemma_entries_complete(s);
    lemma_split_joined_entries(entries_of(s), sep);
}

/// Extracts the value of `field` from a BibTeX entry: on the first line of
/// the form `key = value` whose key matches `field` regardless of ASCII case,
/// the value with surrounding whitespace and braces removed.
pub fn extract_field_bibtex(bibtex: &str, field: &str) -> (r: Option<String>)
    ensures
        match r {
            Some(v) => field_of(bibtex@, field@) == Some(v@),
            None => field_of(bibtex@, field@) is None,
        },
{
    let v = chars_of(bibtex);
    let f = chars_of(field);
    let n = v.len();
    let mut pos: usize = 0;
    proof {
        assert(v@.skip(0) =~= v@);
    }
    while pos < n
        invariant
            pos <= n == v.len(),
            v@ == bibtex@,
            f@ == field@,
            field_of(bibtex@, field@) == first_field_value(lines(v@.skip(pos as int)), f@),
        decreases n - pos,
    {
        let nl = find_from(&v, pos, n, '\n');
        let ghost s = v@.skip(pos as int);
        let ghost raw = v@.subrange(pos as int, nl as int);
        proof {
            assert(s =~= v@.subrange(pos as int, n as int));
            lemma_count_until(s, '\n');
            if nl < n {
                assert(s.take(nl - pos) =~= raw);
                assert(s.skip(nl - pos + 1) =~= v@.skip(nl + 1));
                lemma_trim_strip_cr(raw);
            } else {
                assert(s =~= raw);
            }
            assert(trim(lines(s)[0]) == trim(raw));
        }
        let (a, b) = strip_range(&v, pos, nl, Strip::Space);
        let e = find_from(&v, a, b, '=');
        if e < b {
            let ghost t = v@.subrange(a as int, b as int);
            proof {
                assert(t.take(e - a) =~= v@.subrange(a as int, e as int));
                assert(t.skip(e - a + 1) =~= v@.subrange(e + 1, b as int));
            }
            let (ka, kb) = strip_range(&v, a, e, Strip::Space);
            if eq_ignore_case_range(&v, ka, kb, &f) {
                let (x1, y1) = strip_range(&v, e + 1, b, Strip::Space);
                let (x2, y2) = strip_range(&v, x1, y1, Strip::Delimiters);
                let (x3, y3) = strip_range(&v, x2, y2, Strip::Space);
                return Some(string_of(&v, x3, y3));
            }
        }
        proof {
            if nl < n {
                assert(lines(s).drop_first() =~= lines(v@.skip(nl + 1)));
            } else {
                assert(lines(s).drop_first() =~= lines(v@.skip(n as int)));
            }
        }
        pos = if nl < n {
            nl + 1
        } else {
            n
        };
    }
    proof {
        assert(v@.skip(pos as int) =~= Seq::<char>::empty());
    }
    None
}

/// The header read from the line `v[a..b]`.
fn header_in_range(v: &Vec<char>, a: usize, b: usize) -> (r: Option<(String, String)>)
    requires
        a <= b <= v.len(),
    ensures
        match r {
            Some((t, k)) => header_of_line(v@.subrange(a as int, b as int)) == Some((t@, k@)),
            None => header_of_line(v@.subrange(a as int, b as int)) is None,
        },
{
    let ghost first = v@.subrange(a as int, b as int);
    if a == b || v[a] != '@' {
        return None;
    }
    let br = find_from(v, a + 1, b, '{');
    let ghost after = first.skip(1);
    proof {
        assert(after =~= v@.subrange(a + 1, b as int));
    }
    if br >= b {
        return None;
    }
    let cm = find_from(v, br + 1, b, ',');
    let ghost rest = after.skip(br - a);
    proof {
        assert(after.take(br - a - 1) =~= v@.subrange(a + 1, br as int));
        assert(rest =~= v@.subrange(br + 1, b as int));
        assert(rest.take(cm - br - 1) =~= v@.subrange(br + 1, cm as int));
    }
    let (ta, tb) = strip_range(v, a + 1, br, Strip::Space);
    let (ka, kb) = strip_range(v, br + 1, cm, Strip::Space);
    Some((string_of(v, ta, tb), string_of(v, ka, kb)))
}

/// Reads the header of a BibTeX entry, such as `@book{key,`, into its entry
/// type and entry key.
pub fn parse_bibtex_header(bibtex: &str) -> (r: Option<(String, String)>)
    ensures
        match r {
            Some((t, k)) => header_of(bibtex@) == Some((t@, k@)),
            None => header_of(bibtex@) is None,
        },
{
    let v = chars_of(bibtex);
    let n = v.len();
    if n == 0 {
        return None;
    }
    let nl = find_from(&v, 0, n, '\n');
    let ghost raw = v@.subrange(0, nl as int);
    proof {
        assert(v@.subrange(0, n as int) =~= v@);
        lemma_count_until(v@, '\n');
        if nl < n {
            assert(v@.take(nl as int) =~= raw);
            lemma_trim_strip_cr(raw);
        } else {
            assert(v@ =~= raw);
        }
        assert(trim(lines(v@)[0]) == trim(raw));
    }
    let (a, b) = strip_range(&v, 0, nl, Strip::Space);
    header_in_range(&v, a, b)
}

/// Divides a BibTeX text into its entries. An entry runs from an `@` to the
/// `}` that closes its braces; text between entries is skipped.
#[verifier::rlimit(40)]
#[verifier::spinoff_prover]
pub fn split_bibtex_entries(input: &str) -> (r: Vec<String>)
    ensures
        r.deep_view() == entries_of(input@),
{
    let v = chars_of(input);
    let n = v.len();
    let mut entries: Vec<String> = Vec::new();
    let mut current: Vec<char> = Vec::new();
    let mut brace_level: i128 = 0;
    let mut in_entry = false;
    let mut i: usize = 0;
    while i < n
        invariant
            i <= n == v.len(),
            v@ == input@,
            -(i as int) <= brace_level <= i,
            ({
                let st = scan_from(scan_start(), v@.take(i as int));
                &&& entries.deep_view() == st.entries
                &&& current@ == st.current
                &&& brace_level == st.level
                &&& in_entry == st.in_entry
            }),
        decreases n - i,
    {
        let c = v[i];
        let ghost st0 = scan_from(scan_start(), v@.take(i as int));
        proof {
            assert(v@.take(i + 1).drop_last() =~= v@.take(i as int));
            assert(v@.take(i + 1).last() == c);
        }
        if c == '@' && !in_entry {
            in_entry = true;
            current.clear();
        }
        if in_entry {
            current.push(c);
            if c == '{' {
                brace_level += 1;
            } else if c == '}' {
                brace_level -= 1;
                if brace_level == 0 {
                    let (a, b) = strip_range(&current, 0, current.len(), Strip::Space);
                    proof {
                        assert(current@.subrange(0, current@.len() as int) =~= current@);
                    }
                    let ghost before = entries.deep_view();
                    entries.push(string_of(&current, a, b));
                    proof {
                        assert(entries.deep_view() =~= before.push(trim(current@)));
                    }
                    in_entry = false;
                }
            }
        }
        i += 1;
    }
    proof {
        assert(v@.take(n as int) =~= v@);
    }
    entries
}

} // verus!
