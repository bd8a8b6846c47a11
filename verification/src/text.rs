//! Character-level text operations used by the BibTeX reader: whitespace and
//! delimiter stripping, line splitting, searching and ASCII case folding.
//!
//! Text is handled as a sequence of `char`s. Each executable helper works on a
//! character range `[lo, hi)` of a `Vec<char>` and is tied by its contract to
//! a spec function over `Seq<char>`.
use vstd::prelude::*;

verus! {

/// `String::push` appends one character to the string.
pub assume_specification[ String::push ](s: &mut String, ch: char)
    ensures
        final(s)@ == old(s)@.push(ch),
;

/// The characters with the Unicode `White_Space` property: exactly the
/// characters for which `char::is_whitespace` holds, and so the characters
/// that `str::trim` removes.
pub open spec fn is_space(c: char) -> bool {
    let x = c as u32;
    ||| 0x09 <= x <= 0x0D
    ||| x == 0x20
    ||| x == 0x85
    ||| x == 0xA0
    ||| x == 0x1680
    ||| 0x2000 <= x <= 0x200A
    ||| x == 0x2028
    ||| x == 0x2029
    ||| x == 0x202F
    ||| x == 0x205F
    ||| x == 0x3000
}

/// Which characters a stripping operation removes from the two ends of a text.
#[derive(Clone, Copy, PartialEq, Eq, Debug)]
pub enum Strip {
    /// Whitespace, as removed by `str::trim`.
    Space,
    /// The BibTeX value delimiters `{`, `}` and `,`.
    Delimiters,
}

pub open spec fn strips(p: Strip, c: char) -> bool {
    match p {
        Strip::Space => is_space(c),
        Strip::Delimiters => c == '{' || c == '}' || c == ',',
    }
}

/// `s` without its leading characters that `p` strips.
pub open spec fn strip_front(s: Seq<char>, p: Strip) -> Seq<char>
    decreases s.len(),
{
    if s.len() > 0 && strips(p, s[0]) {
        strip_front(s.drop_first(), p)
    } else {
        s
    }
}

/// `s` without its trailing characters that `p` strips.
pub open spec fn strip_back(s: Seq<char>, p: Strip) -> Seq<char>
    decreases s.len(),
{
    if s.len() > 0 && strips(p, s.last()) {
        strip_back(s.drop_last(), p)
    } else {
        s
    }
}

/// `s` without the characters that `p` strips at either end.
pub open spec fn strip(s: Seq<char>, p: Strip) -> Seq<char> {
    strip_back(strip_front(s, p), p)
}

/// `s` without leading and trailing whitespace (`str::trim`).
pub open spec fn trim(s: Seq<char>) -> Seq<char> {
    strip(s, Strip::Space)
}

/// The number of characters of `s` before the first `c`; `s.len()` when `s`
/// holds no `c`.
pub open spec fn count_until(s: Seq<char>, c: char) -> nat
    decreases s.len(),
{
    if s.len() == 0 {
        0
    } else if s[0] == c {
        0
    } else {
        1 + count_until(s.drop_first(), c)
    }
}

/// `s` without one final carriage return.
pub open spec fn strip_cr(s: Seq<char>) -> Seq<char> {
    if s.len() > 0 && s.last() == '\r' {
        s.drop_last()
    } else {
        s
    }
}

/// The lines of `s` as `str::lines` yields them: split at each `\n`, a `\r`
/// right before the `\n` removed, and no empty line after a final `\n`.
pub open spec fn lines(s: Seq<char>) -> Seq<Seq<char>>
    decreases s.len(),
{
    if s.len() == 0 {
        Seq::empty()
    } else {
        let k = count_until(s, '\n');
        if k >= s.len() {
            seq![s]
        } else {
            seq![strip_cr(s.take(k as int))] + lines(s.skip(k + 1int))
        }
    }
}

/// The pieces of `s` between occurrences of `d`, as `str::split` yields them:
/// one more piece than there are `d`s, empty pieces included.
pub open spec fn split_on(s: Seq<char>, d: char) -> Seq<Seq<char>>
    decreases s.len(),
{
    let k = count_until(s, d);
    if k >= s.len() {
        seq![s]
    } else {
        seq![s.take(k as int)] + split_on(s.skip(k + 1int), d)
    }
}

/// The pieces joined with `sep` between neighbours (`[T]::join`).
pub open spec fn join_with(parts: Seq<Seq<char>>, sep: Seq<char>) -> Seq<char>
    decreases parts.len(),
{
    if parts.len() == 0 {
        Seq::empty()
    } else if parts.len() == 1 {
        parts[0]
    } else {
        parts[0] + sep + join_with(parts.drop_first(), sep)
    }
}

/// The code of `c` after ASCII lower-casing (`char::to_ascii_lowercase`).
pub open spec fn lower_code(c: char) -> u32 {
    let x = c as u32;
    if 65 <= x <= 90 {
        (x + 32) as u32
    } else {
        x
    }
}

/// Equality up to ASCII case (`str::eq_ignore_ascii_case`).
pub open spec fn eq_ignore_ascii_case(a: Seq<char>, b: Seq<char>) -> bool {
    &&& a.len() == b.len()
    &&& forall|i: int| 0 <= i < a.len() ==> lower_code(#[trigger] a[i]) == lower_code(b[i])
}

pub proof fn lemma_count_until(s: Seq<char>, c: char)
    ensures
        count_until(s, c) <= s.len(),
        count_until(s, c) < s.len() ==> s[count_until(s, c) as int] == c,
        forall|j: int| 0 <= j < count_until(s, c) ==> s[j] != c,
    decreases s.len(),
{
    if s.len() > 0 && s[0] != c {
        lemma_count_until(s.drop_first(), c);
        assert forall|j: int| 0 <= j < count_until(s, c) implies s[j] != c by {
            if j > 0 {
                assert(s[j] == s.drop_first()[j - 1]);
            }
        }
    }
}

pub proof fn lemma_count_until_is(s: Seq<char>, c: char, k: int)
    requires
        0 <= k <= s.len(),
        forall|j: int| 0 <= j < k ==> s[j] != c,
        k == s.len() || s[k] == c,
    ensures
        count_until(s, c) == k,
    decreases s.len(),
{
    if s.len() > 0 && k > 0 {
        lemma_count_until_is(s.drop_first(), c, k - 1);
    }
}

/// Removing a stripped final character does not change the result of stripping.
pub proof fn lemma_strip_drop_last(s: Seq<char>, p: Strip)
    requires
        s.len() > 0,
        strips(p, s.last()),
    ensures
        strip(s.drop_last(), p) == strip(s, p),
    decreases s.len(),
{
    if strips(p, s[0]) {
        if s.len() == 1 {
            assert(s.drop_last() =~= Seq::<char>::empty());
            assert(s.drop_first() =~= Seq::<char>::empty());
        } else {
            assert(s.drop_last().drop_first() =~= s.drop_first().drop_last());
            lemma_strip_drop_last(s.drop_first(), p);
        }
    } else {
        assert(s.len() >= 2);
        assert(s.drop_last()[0] == s[0]);
    }
}

/// `str::lines` removing a `\r` makes no difference once the line is trimmed.
pub proof fn lemma_trim_strip_cr(s: Seq<char>)
    ensures
        trim(strip_cr(s)) == trim(s),
{
    if s.len() > 0 && s.last() == '\r' {
        lemma_strip_drop_last(s, Strip::Space);
    }
}

/// A text that begins and ends with characters `p` does not strip is left
/// unchanged by stripping.
pub proof fn lemma_strip_unchanged(s: Seq<char>, p: Strip)
    requires
        s.len() > 0,
        !strips(p, s[0]),
        !strips(p, s.last()),
    ensures
        strip(s, p) == s,
{
}

pub proof fn lemma_strip_front_shape(s: Seq<char>, p: Strip)
    ensures
        strip_front(s, p).len() <= s.len(),
        strip_front(s, p) == s.skip(s.len() - strip_front(s, p).len()),
        strip_front(s, p).len() > 0 ==> !strips(p, strip_front(s, p)[0]),
    decreases s.len(),
{
    if s.len() > 0 && strips(p, s[0]) {
        lemma_strip_front_shape(s.drop_first(), p);
        let r = strip_front(s, p);
        assert(s.drop_first().skip(s.len() - 1 - r.len()) =~= s.skip(s.len() - r.len()));
    } else {
        assert(s.skip(0) =~= s);
    }
}

pub proof fn lemma_strip_back_shape(s: Seq<char>, p: Strip)
    ensures
        strip_back(s, p).len() <= s.len(),
        strip_back(s, p) == s.take(strip_back(s, p).len() as int),
        strip_back(s, p).len() > 0 ==> !strips(p, strip_back(s, p).last()),
    decreases s.len(),
{
    if s.len() > 0 && strips(p, s.last()) {
        lemma_strip_back_shape(s.drop_last(), p);
        let r = strip_back(s, p);
        assert(s.drop_last().take(r.len() as int) =~= s.take(r.len() as int));
    } else {
        assert(s.take(s.len() as int) =~= s);
    }
}

/// Stripping keeps a contiguous piece of the text whose end characters are
/// not stripped.
pub proof fn lemma_strip_shape(s: Seq<char>, p: Strip)
    ensures
        exists|a: int, b: int| 0 <= a <= b <= s.len() && strip(s, p) == s.subrange(a, b),
        strip(s, p).len() > 0 ==> !strips(p, strip(s, p)[0]) && !strips(p, strip(s, p).last()),
{
    let x = strip_front(s, p);
    lemma_strip_front_shape(s, p);
    lemma_strip_back_shape(x, p);
    let r = strip(s, p);
    let a = s.len() - x.len();
    let b = a + r.len();
    assert(r =~= s.subrange(a, b));
    if r.len() > 0 {
        assert(r[0] == x[0]);
    }
}

/// Stripping twice strips no more than stripping once.
pub proof fn lemma_strip_idempotent(s: Seq<char>, p: Strip)
    ensures
        strip(strip(s, p), p) == strip(s, p),
{
    lemma_strip_shape(s, p);
    let r = strip(s, p);
    if r.len() > 0 {
        lemma_strip_unchanged(r, p);
    }
}

/// Stripping the front of `a + b`, where `p` strips every character of `a`
/// and not the first of `b`, leaves `b`.
pub proof fn lemma_strip_front_concat(a: Seq<char>, b: Seq<char>, p: Strip)
    requires
        forall|j: int| 0 <= j < a.len() ==> strips(p, #[trigger] a[j]),
        b.len() > 0 ==> !strips(p, b[0]),
    ensures
        strip_front(a + b, p) == b,
    decreases a.len(),
{
    if a.len() == 0 {
        assert(a + b =~= b);
    } else {
        assert((a + b)[0] == a[0]);
        assert((a + b).drop_first() =~= a.drop_first() + b);
        assert forall|j: int| 0 <= j < a.drop_first().len() implies strips(
            p,
            #[trigger] a.drop_first()[j],
        ) by {
            assert(a.drop_first()[j] == a[j + 1]);
        }
        lemma_strip_front_concat(a.drop_first(), b, p);
    }
}

/// Stripping the back of `a + b`, where `p` strips every character of `b`
/// and not the last of `a`, leaves `a`.
pub proof fn lemma_strip_back_concat(a: Seq<char>, b: Seq<char>, p: Strip)
    requires
        forall|j: int| 0 <= j < b.len() ==> strips(p, #[trigger] b[j]),
        a.len() > 0 ==> !strips(p, a.last()),
    ensures
        strip_back(a + b, p) == a,
    decreases b.len(),
{
    if b.len() == 0 {
        assert(a + b =~= a);
    } else {
        assert((a + b).last() == b.last());
        assert((a + b).drop_last() =~= a + b.drop_last());
        assert forall|j: int| 0 <= j < b.drop_last().len() implies strips(
            p,
            #[trigger] b.drop_last()[j],
        ) by {
            assert(b.drop_last()[j] == b[j]);
        }
        lemma_strip_back_concat(a, b.drop_last(), p);
    }
}

/// Stripping the back keeps every character up to one that is not stripped.
pub proof fn lemma_strip_back_keeps(s: Seq<char>, p: Strip, j: int)
    requires
        0 <= j < s.len(),
        !strips(p, s[j]),
    ensures
        strip_back(s, p).len() > j,
        strip_back(s, p)[j] == s[j],
    decreases s.len(),
{
    if strips(p, s.last()) {
        assert(s.drop_last()[j] == s[j]);
        lemma_strip_back_keeps(s.drop_last(), p, j);
    }
}

/// A text holding no `c` has all of itself before the first `c`.
pub proof fn lemma_count_until_absent(s: Seq<char>, c: char)
    requires
        !s.contains(c),
    ensures
        count_until(s, c) == s.len(),
{
    assert forall|j: int| 0 <= j < s.len() implies s[j] != c by {
        if s[j] == c {
            assert(s.contains(c));
        }
    }
    lemma_count_until_is(s, c, s.len() as int);
}

/// The lines of a line without `\n` followed by `\n` and more text: that
/// line, then the lines of the rest.
pub proof fn lemma_lines_cons(a: Seq<char>, rest: Seq<char>)
    requires
        !a.contains('\n'),
    ensures
        lines(a + seq!['\n'] + rest) == seq![strip_cr(a)] + lines(rest),
{
    let s = a + seq!['\n'] + rest;
    assert forall|j: int| 0 <= j < a.len() implies s[j] != '\n' by {
        assert(s[j] == a[j]);
        if a[j] == '\n' {
            assert(a.contains('\n'));
        }
    }
    assert(s[a.len() as int] == '\n');
    lemma_count_until_is(s, '\n', a.len() as int);
    assert(s.take(a.len() as int) =~= a);
    assert(s.skip(a.len() + 1int) =~= rest);
}

pub fn is_space_char(c: char) -> (b: bool)
    ensures
        b == is_space(c),
{
    let x = c as u32;
    (0x09 <= x && x <= 0x0D) || x == 0x20 || x == 0x85 || x == 0xA0 || x == 0x1680 || (0x2000
        <= x && x <= 0x200A) || x == 0x2028 || x == 0x2029 || x == 0x202F || x == 0x205F || x
        == 0x3000
}

pub fn strips_char(p: Strip, c: char) -> (b: bool)
    ensures
        b == strips(p, c),
{
    match p {
        Strip::Space => is_space_char(c),
        Strip::Delimiters => c == '{' || c == '}' || c == ',',
    }
}

/// The characters of `s`, in order.
pub fn chars_of(s: &str) -> (v: Vec<char>)
    ensures
        v@ == s@,
{
    broadcast use vstd::string::group_string_axioms;

    let mut v: Vec<char> = Vec::new();
    for c in it: s.chars()
        invariant
            it.seq() == s@,
            v@ == it.seq().take(it.index()),
            v@.len() == s@.len() ==> v@ == s@,
    {
        proof {
            assert(it.seq().take(it.index() + 1) =~= it.seq().take(it.index()).push(c));
        }
        v.push(c);
        proof {
            if v@.len() == s@.len() {
                assert(v@ =~= s@);
            }
        }
    }
    proof {
        if s@.len() == 0 {
            assert(v@ =~= s@);
        }
    }
    v
}

/// Whether two texts are equal.
pub fn same_text(a: &str, b: &str) -> (r: bool)
    ensures
        r == (a@ == b@),
{
    let x = chars_of(a);
    let y = chars_of(b);
    if x.len() != y.len() {
        return false;
    }
    let mut i: usize = 0;
    while i < x.len()
        invariant
            x@ == a@,
            y@ == b@,
            x.len() == y.len(),
            i <= x.len(),
            forall|j: int| 0 <= j < i ==> x@[j] == y@[j],
        decreases x.len() - i,
    {
        if x[i] != y[i] {
            proof {
                assert(x@[i as int] != y@[i as int]);
            }
            return false;
        }
        i += 1;
    }
    proof {
        assert(x@ =~= y@);
    }
    true
}

/// A string holding the characters `v[lo..hi]`.
pub fn string_of(v: &Vec<char>, lo: usize, hi: usize) -> (r: String)
    requires
        lo <= hi <= v.len(),
    ensures
        r@ == v@.subrange(lo as int, hi as int),
{
    let mut r = String::new();
    let mut i = lo;
    while i < hi
        invariant
            lo <= i <= hi <= v.len(),
            r@ == v@.subrange(lo as int, i as int),
        decreases hi - i,
    {
        r.push(v[i]);
        proof {
            assert(v@.subrange(lo as int, i + 1) =~= v@.subrange(lo as int, i as int).push(v@[i as int]));
        }
        i += 1;
    }
    r
}

/// The position of the first `c` in `v[lo..hi]`, or `hi` when there is none.
pub fn find_from(v: &Vec<char>, lo: usize, hi: usize, c: char) -> (k: usize)
    requires
        lo <= hi <= v.len(),
    ensures
        lo <= k <= hi,
        k - lo == count_until(v@.subrange(lo as int, hi as int), c),
{
    let mut k = lo;
    while k < hi && v[k] != c
        invariant
            lo <= k <= hi <= v.len(),
            forall|j: int| lo <= j < k ==> v@[j] != c,
        decreases hi - k,
    {
        k += 1;
    }
    proof {
        let s = v@.subrange(lo as int, hi as int);
        assert forall|j: int| 0 <= j < k - lo implies s[j] != c by {
            assert(s[j] == v@[lo + j]);
        }
        if k < hi {
            assert(s[k - lo] == v@[k as int]);
        }
        lemma_count_until_is(s, c, k - lo);
    }
    k
}

/// The bounds of `v[lo..hi]` once the characters that `p` strips are removed
/// from both ends.
pub fn strip_range(v: &Vec<char>, lo: usize, hi: usize, p: Strip) -> (r: (usize, usize))
    requires
        lo <= hi <= v.len(),
    ensures
        lo <= r.0 <= r.1 <= hi,
        v@.subrange(r.0 as int, r.1 as int) == strip(v@.subrange(lo as int, hi as int), p),
{
    let mut a = lo;
    while a < hi && strips_char(p, v[a])
        invariant
            lo <= a <= hi <= v.len(),
            strip_front(v@.subrange(lo as int, hi as int), p) == strip_front(
                v@.subrange(a as int, hi as int),
                p,
            ),
        decreases hi - a,
    {
        proof {
            assert(v@.subrange(a as int, hi as int).drop_first() =~= v@.subrange(
                a + 1,
                hi as int,
            ));
        }
        a += 1;
    }
    assert(strip_front(v@.subrange(lo as int, hi as int), p) == v@.subrange(a as int, hi as int));
    let mut b = hi;
    while b > a && strips_char(p, v[b - 1])
        invariant
            lo <= a <= b <= hi <= v.len(),
            strip_back(v@.subrange(a as int, hi as int), p) == strip_back(
                v@.subrange(a as int, b as int),
                p,
            ),
        decreases b - a,
    {
        proof {
            assert(v@.subrange(a as int, b as int).drop_last() =~= v@.subrange(
                a as int,
                b - 1,
            ));
        }
        b -= 1;
    }
    (a, b)
}

pub fn lower_code_of(c: char) -> (r: u32)
    ensures
        r == lower_code(c),
{
    let x = c as u32;
    if 65 <= x && x <= 90 {
        x + 32
    } else {
        x
    }
}

/// Whether `v[lo..hi]` equals `f` up to ASCII case.
pub fn eq_ignore_case_range(v: &Vec<char>, lo: usize, hi: usize, f: &Vec<char>) -> (r: bool)
    requires
        lo <= hi <= v.len(),
    ensures
        r == eq_ignore_ascii_case(v@.subrange(lo as int, hi as int), f@),
{
    if hi - lo != f.len() {
        return false;
    }
    let mut i: usize = 0;
    while i < f.len()
        invariant
            lo <= hi <= v.len(),
            hi - lo == f.len(),
            i <= f.len(),
            forall|j: int| 0 <= j < i ==> lower_code(v@[lo + j]) == lower_code(f@[j]),
        decreases f.len() - i,
    {
        if lower_code_of(v[lo + i]) != lower_code_of(f[i]) {
            proof {
                let s = v@.subrange(lo as int, hi as int);
                assert(s[i as int] == v@[lo + i]);
            }
            return false;
        }
        i += 1;
    }
    proof {
        let s = v@.subrange(lo as int, hi as int);
        assert forall|j: int| 0 <= j < s.len() implies lower_code(#[trigger] s[j]) == lower_code(
            f@[j],
        ) by {
            assert(s[j] == v@[lo + j]);
        }
    }
    true
}

} // verus!
