//! The command line of `bark`: its commands, the rows of a listing, and what
//! opening an attached content does.
use vstd::prelude::*;
use vstd::utf8::{decode_utf8, encode_utf8, is_char_boundary};

use crate::reference::{opt_view, Reference};
use crate::text::{chars_of, count_until, find_from, join_with, lemma_count_until, same_text};

verus! {

/// The command line: one command.
pub struct Cli {
    pub command: Commands,
}

/// The commands of `bark`.
#[allow(inconsistent_fields)]
pub enum Commands {
    /// Add a new reference (reads BibTeX from stdin).
    Add,
    /// List stored references, optionally those with a tag.
    List { tag: Option<String> },
    /// Show the full BibTeX entry of a reference (entry key, full id or short id).
    Show { input: String },
    /// Export references to the file `references.bib`, optionally those with a tag.
    Export { tag: Option<String> },
    /// Import references from a `.bib` file.
    Import { filename: String },
    /// Add a tag to a reference.
    Tag { input: String, tag: String },
    /// Attach a content location to a reference.
    Attach { input: String, location: String },
    /// Open the content attached to a reference.
    Open { input: String },
}

/// `s` padded with spaces on the right to at least `w` characters, as the
/// formatter pads a string given a width.
pub open spec fn pad_to(s: Seq<char>, w: nat) -> Seq<char> {
    if s.len() >= w {
        s
    } else {
        s + Seq::new((w - s.len()) as nat, |i: int| ' ')
    }
}

/// The short id shown in a listing: the first 8 bytes of the id.
pub open spec fn short_id_of(id: Seq<char>) -> Seq<char> {
    decode_utf8(encode_utf8(id).take(8))
}

/// The byte length of a text, as `str::len` gives it.
pub open spec fn byte_len(s: Seq<char>) -> usize {
    encode_utf8(s).len() as usize
}

/// The width of the key column: the largest byte length of a key, 0 for none.
pub open spec fn key_width_of(keys: Seq<Seq<char>>) -> usize
    decreases keys.len(),
{
    if keys.len() == 0 {
        0
    } else {
        let w = key_width_of(keys.drop_last());
        let l = byte_len(keys.last());
        if l > w {
            l
        } else {
            w
        }
    }
}

/// The tags shown after the title: nothing for no tags, else ` [a, b]`.
pub open spec fn tag_suffix(tags: Seq<Seq<char>>) -> Seq<char> {
    if tags.len() == 0 {
        Seq::empty()
    } else {
        " ["@ + join_with(tags, ", "@) + "]"@
    }
}

/// A row of the listing: the short id padded to 8 characters, the key padded
/// to the key column width, the title (or `<no title>`) and the tags, with
/// two spaces between the first three columns.
pub open spec fn listing_row(
    short_id: Seq<char>,
    key: Seq<char>,
    title: Option<Seq<char>>,
    tags: Seq<Seq<char>>,
    key_width: nat,
) -> Seq<char> {
    pad_to(short_id, 8) + "  "@ + pad_to(key, key_width) + "  "@ + match title {
        Some(t) => t,
        None => "<no title>"@,
    } + tag_suffix(tags)
}

pub open spec fn keys_of(refs: Seq<Reference>) -> Seq<Seq<char>> {
    refs.map_values(|r: Reference| r.key@)
}

/// The width of the key column of a listing of `refs`.
pub fn key_column_width(refs: &Vec<Reference>) -> (w: usize)
    ensures
        w == key_width_of(keys_of(refs@)),
{
    let mut w: usize = 0;
    let mut i: usize = 0;
    while i < refs.len()
        invariant
            i <= refs.len(),
            w == key_width_of(keys_of(refs@.take(i as int))),
        decreases refs.len() - i,
    {
        proof {
            assert(keys_of(refs@.take(i + 1)).drop_last() =~= keys_of(refs@.take(i as int)));
            assert(keys_of(refs@.take(i + 1)).last() == refs@[i as int].key@);
        }
        let l = refs[i].key.as_str().len();
        if l > w {
            w = l;
        }
        i += 1;
    }
    proof {
        assert(refs@.take(refs.len() as int) =~= refs@);
    }
    w
}

/// Appends `s` padded with spaces to at least `w` characters.
pub fn push_padded(out: &mut String, s: &str, w: usize)
    ensures
        final(out)@ == old(out)@ + pad_to(s@, w as nat),
{
    out.append(s);
    let n = chars_of(s).len();
    if n < w {
        let ghost base = out@;
        let mut k = n;
        while k < w
            invariant
                n <= k <= w,
                n == s@.len(),
                out@ == base + Seq::new((k - n) as nat, |i: int| ' '),
            decreases w - k,
        {
            out.push(' ');
            proof {
                assert(Seq::new((k - n) as nat, |i: int| ' ').push(' ') =~= Seq::new(
                    (k + 1 - n) as nat,
                    |i: int| ' ',
                ));
            }
            k += 1;
        }
        proof {
            assert(base + Seq::new((w - n) as nat, |i: int| ' ') =~= old(out)@ + pad_to(
                s@,
                w as nat,
            ));
        }
    } else {
        proof {
            assert(pad_to(s@, w as nat) == s@);
        }
    }
}

/// Appends the tags joined with `, `.
pub fn push_joined(out: &mut String, tags: &Vec<String>)
    ensures
        final(out)@ == old(out)@ + join_with(tags.deep_view(), ", "@),
{
    let ghost base = out@;
    let ghost all = tags.deep_view();
    let mut i: usize = 0;
    while i < tags.len()
        invariant
            i <= tags.len(),
            all == tags.deep_view(),
            out@ == base + join_with(all.take(i as int), ", "@),
        decreases tags.len() - i,
    {
        proof {
            lemma_join_push(all.take(i as int), all[i as int], ", "@);
            assert(all.take(i as int).push(all[i as int]) =~= all.take(i + 1));
            assert(all[i as int] == tags@[i as int]@);
        }
        if i > 0 {
            out.append(", ");
        }
        out.append(tags[i].as_str());
        i += 1;
    }
    proof {
        assert(all.take(tags.len() as int) =~= all);
    }
}

pub proof fn lemma_join_push(parts: Seq<Seq<char>>, p: Seq<char>, sep: Seq<char>)
    ensures
        join_with(parts.push(p), sep) == if parts.len() == 0 {
            p
        } else {
            join_with(parts, sep) + sep + p
        },
    decreases parts.len(),
{
    if parts.len() == 0 {
        assert(parts.push(p) =~= seq![p]);
    } else if parts.len() == 1 {
        assert(parts.push(p).drop_first() =~= seq![p]);
        assert(join_with(seq![p], sep) == p);
        assert(parts.push(p)[0] == parts[0]);
    } else {
        let rest = parts.drop_first();
        lemma_join_push(rest, p, sep);
        assert(parts.push(p).drop_first() =~= rest.push(p));
        assert(parts.push(p)[0] == parts[0]);
        assert(parts[0] + sep + (join_with(rest, sep) + sep + p) =~= (parts[0] + sep
            + join_with(rest, sep)) + sep + p);
    }
}

/// The listing row of a reference, with the key column `key_width` wide.
/// The id must have a character boundary at its 8th byte, as slicing it there
/// requires.
pub fn format_reference_line(r: &Reference, key_width: usize) -> (line: String)
    requires
        is_char_boundary(encode_utf8(r.id@), 8),
    ensures
        line@ == listing_row(
            short_id_of(r.id@),
            r.key@,
            opt_view(r.title),
            r.tags.deep_view(),
            key_width as nat,
        ),
{
    let (short_id, _) = r.id.as_str().split_at(8);
    proof {
        broadcast use vstd::utf8::encode_utf8_decode_utf8;

        assert(decode_utf8(encode_utf8(short_id@)) == short_id@);
    }
    let mut line = String::new();
    push_padded(&mut line, short_id, 8);
    line.append("  ");
    push_padded(&mut line, r.key.as_str(), key_width);
    line.append("  ");
    match &r.title {
        Some(t) => line.append(t.as_str()),
        None => line.append("<no title>"),
    }
    if r.tags.len() > 0 {
        line.append(" [");
        push_joined(&mut line, &r.tags);
        line.append("]");
    }
    line
}

/// The title shown in a listing row: the title, or `<no title>`.
pub open spec fn title_text(title: Option<Seq<char>>) -> Seq<char> {
    match title {
        Some(t) => t,
        None => "<no title>"@,
    }
}

proof fn lemma_encode_len_ge(s: Seq<char>)
    ensures
        encode_utf8(s).len() >= s.len(),
    decreases s.len(),
{
    if s.len() > 0 {
        lemma_encode_len_ge(s.drop_first());
    }
}

proof fn lemma_key_width_bound(keys: Seq<Seq<char>>, j: int)
    requires
        0 <= j < keys.len(),
    ensures
        byte_len(keys[j]) <= key_width_of(keys),
    decreases keys.len(),
{
    if j < keys.len() - 1 {
        lemma_key_width_bound(keys.drop_last(), j);
        assert(keys.drop_last()[j] == keys[j]);
    }
}

/// Padding keeps the text and adds spaces up to the width: the result has
/// `max(len, w)` characters, begins with the text, and the rest are spaces.
pub proof fn lemma_pad_to(s: Seq<char>, w: nat)
    ensures
        pad_to(s, w).len() == if s.len() >= w {
            s.len()
        } else {
            w
        },
        pad_to(s, w).take(s.len() as int) == s,
        forall|j: int| s.len() <= j < pad_to(s, w).len() ==> #[trigger] pad_to(s, w)[j] == ' ',
{
    assert(pad_to(s, w).take(s.len() as int) =~= s);
}

/// The layout of a listing row: the short id padded to 8 characters, two
/// spaces, the key padded to the key width, two spaces, the title or
/// `<no title>`, then, when there are tags, a space and the tags joined with
/// `, ` in brackets.
pub proof fn lemma_listing_row_layout(
    short_id: Seq<char>,
    key: Seq<char>,
    title: Option<Seq<char>>,
    tags: Seq<Seq<char>>,
    w: nat,
)
    ensures
        listing_row(short_id, key, title, tags, w) == pad_to(short_id, 8) + seq![' ', ' '] + pad_to(
            key,
            w,
        ) + seq![' ', ' '] + title_text(title) + tag_suffix(tags),
        title matches Some(t) ==> title_text(title) == t,
        title is None ==> title_text(title) == seq!['<', 'n', 'o', ' ', 't', 'i', 't', 'l', 'e', '>'],
        tags.len() == 0 ==> tag_suffix(tags) == Seq::<char>::empty(),
        tags.len() > 0 ==> tag_suffix(tags) == seq![' ', '['] + join_with(tags, seq![',', ' '])
            + seq![']'],
{
    reveal_strlit("  ");
    reveal_strlit("<no title>");
    reveal_strlit(" [");
    reveal_strlit(", ");
    reveal_strlit("]");
    assert("  "@ =~= seq![' ', ' ']);
    assert("<no title>"@ =~= seq!['<', 'n', 'o', ' ', 't', 'i', 't', 'l', 'e', '>']);
    assert(" ["@ =~= seq![' ', '[']);
    assert(", "@ =~= seq![',', ' ']);
    assert("]"@ =~= seq![']']);
}

/// Joining pieces: none give nothing, one gives itself, and one more piece
/// comes after the separator.
pub proof fn lemma_join_steps(parts: Seq<Seq<char>>, p: Seq<char>, sep: Seq<char>)
    ensures
        join_with(Seq::<Seq<char>>::empty(), sep) == Seq::<char>::empty(),
        join_with(seq![p], sep) == p,
        parts.len() > 0 ==> join_with(parts.push(p), sep) == join_with(parts, sep) + sep + p,
{
    lemma_join_push(parts, p, sep);
}

/// The key column is as wide as the longest key of the listing, in bytes:
/// no key is wider, some key is exactly as wide, and with no references the
/// width is 0.
pub proof fn lemma_key_width_is_longest(refs: Seq<Reference>)
    ensures
        forall|i: int|
            0 <= i < refs.len() ==> byte_len((#[trigger] refs[i]).key@) <= key_width_of(keys_of(refs)),
        refs.len() == 0 ==> key_width_of(keys_of(refs)) == 0,
        refs.len() > 0 ==> exists|i: int|
            0 <= i < refs.len() && key_width_of(keys_of(refs)) == byte_len((#[trigger] refs[i]).key@),
    decreases refs.len(),
{
    let keys = keys_of(refs);
    assert forall|i: int| 0 <= i < refs.len() implies byte_len((#[trigger] refs[i]).key@)
        <= key_width_of(keys_of(refs)) by {
        lemma_key_width_bound(keys, i);
        assert(keys[i] == refs[i].key@);
    }
    if refs.len() > 0 {
        let init = refs.drop_last();
        lemma_key_width_is_longest(init);
        assert(keys.drop_last() =~= keys_of(init));
        assert(keys.last() == refs[refs.len() - 1].key@);
        if init.len() == 0 || byte_len(keys.last()) > key_width_of(keys_of(init)) {
            assert(key_width_of(keys) == byte_len(refs[refs.len() - 1].key@));
        } else {
            let j = choose|j: int|
                0 <= j < init.len() && key_width_of(keys_of(init)) == byte_len((#[trigger] init[j]).key@);
            assert(init[j] == refs[j]);
        }
    }
}

/// In every row of a listing, the title starts at the same column: the short
/// id column (8 wide), the key column (as wide as the longest key in bytes,
/// which is at least its number of characters) and their separators. It
/// holds of every row that can be formatted, for keys whose byte length fits
/// in a `usize`.
pub proof fn lemma_rows_aligned(refs: Seq<Reference>, i: int)
    requires
        0 <= i < refs.len(),
        forall|j: int| 0 <= j < refs.len() ==> encode_utf8(#[trigger] refs[j].key@).len() <= usize::MAX,
        is_char_boundary(encode_utf8(refs[i].id@), 8),
    ensures
        ({
            let w = key_width_of(keys_of(refs));
            let r = refs[i];
            listing_row(
                short_id_of(r.id@),
                r.key@,
                opt_view(r.title),
                r.tags.deep_view(),
                w as nat,
            ).skip(w + 12) == title_text(opt_view(r.title)) + tag_suffix(r.tags.deep_view())
        }),
{
    broadcast use vstd::utf8::encode_utf8_valid_utf8, vstd::utf8::valid_utf8_split,
        vstd::utf8::decode_utf8_encode_utf8;

    let keys = keys_of(refs);
    let w = key_width_of(keys);
    let r = refs[i];
    lemma_key_width_bound(keys, i);
    assert(keys[i] == r.key@);
    lemma_encode_len_ge(r.key@);
    let bytes = encode_utf8(r.id@);
    let head = bytes.take(8);
    assert(head == bytes.subrange(0, 8));
    assert(vstd::utf8::valid_utf8(head));
    let short = short_id_of(r.id@);
    assert(encode_utf8(short) == head);
    lemma_encode_len_ge(short);
    reveal_strlit("  ");
    let front = pad_to(short, 8) + "  "@ + pad_to(r.key@, w as nat) + "  "@;
    assert(front.len() == w + 12);
    let row = listing_row(short, r.key@, opt_view(r.title), r.tags.deep_view(), w as nat);
    let tail = title_text(opt_view(r.title)) + tag_suffix(r.tags.deep_view());
    assert(row =~= front + tail);
    assert(row.skip(w + 12) =~= tail);
}

/// What opening the content of a reference does.
#[derive(Debug, PartialEq, Eq)]
pub enum OpenPlan {
    /// Open the location with the desktop's opener.
    Open(String),
    /// Copy the file at `path` from `host` with `scp`, then open the copy.
    FetchOverSsh { host: String, path: String },
    /// An `ssh` location without `:`.
    InvalidSshLocation,
    /// A content kind that cannot be opened.
    UnknownKind,
}

/// The plan for an `ssh` location `host:path`: split at its first `:`, or
/// refused when it has none.
pub fn ssh_plan(location: &str) -> (r: OpenPlan)
    ensures
        r is FetchOverSsh || r is InvalidSshLocation,
        match r {
            OpenPlan::FetchOverSsh { host, path } => {
                let k = count_until(location@, ':');
                &&& k < location@.len()
                &&& host@ == location@.take(k as int)
                &&& path@ == location@.skip(k + 1int)
                &&& host@ + seq![':'] + path@ == location@
            },
            OpenPlan::InvalidSshLocation => !location@.contains(':'),
            _ => true,
        },
{
    let v = chars_of(location);
    let n = v.len();
    let k = find_from(&v, 0, n, ':');
    proof {
        assert(v@.subrange(0, n as int) =~= v@);
        lemma_count_until(v@, ':');
    }
    if k >= n {
        proof {
            assert forall|j: int| 0 <= j < n implies v@[j] != ':' by {}
        }
        return OpenPlan::InvalidSshLocation;
    }
    let host = crate::text::string_of(&v, 0, k);
    let path = crate::text::string_of(&v, k + 1, n);
    proof {
        assert(v@.subrange(0, k as int) =~= v@.take(k as int));
        assert(v@.subrange(k + 1, n as int) =~= v@.skip(k + 1));
        assert(v@.take(k as int) + seq![':'] + v@.skip(k + 1) =~= v@);
    }
    OpenPlan::FetchOverSsh { host, path }
}

/// Decides how to open content of kind `kind` stored at `location`: `url`,
/// `pdf` and `local` locations are opened directly; an `ssh` location
/// `host:path` is split at its first `:` and fetched first.
pub fn open_plan(kind: &str, location: &str) -> (r: OpenPlan)
    ensures
        match r {
            OpenPlan::Open(l) => (kind@ == "url"@ || kind@ == "pdf"@ || kind@ == "local"@) && l@
                == location@,
            OpenPlan::FetchOverSsh { host, path } => {
                let k = count_until(location@, ':');
                &&& kind@ == "ssh"@
                &&& k < location@.len()
                &&& host@ == location@.take(k as int)
                &&& path@ == location@.skip(k + 1int)
                &&& host@ + seq![':'] + path@ == location@
            },
            OpenPlan::InvalidSshLocation => kind@ == "ssh"@ && !location@.contains(':'),
            OpenPlan::UnknownKind => kind@ != "url"@ && kind@ != "pdf"@ && kind@ != "local"@
                && kind@ != "ssh"@,
        },
{
    if same_text(kind, "url") || same_text(kind, "pdf") || same_text(kind, "local") {
        OpenPlan::Open(location.to_owned())
    } else if same_text(kind, "ssh") {
        ssh_plan(location)
    } else {
        OpenPlan::UnknownKind
    }
}

} // verus!
