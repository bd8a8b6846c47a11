//! The command line of `bark` with editing, TOML snapshots and synchronisation
//! through a git repository; and its choice of import format.
use vstd::prelude::*;

use crate::cli::{byte_len, pad_to, push_joined, push_padded, ssh_plan, title_text, OpenPlan};
use crate::reference::opt_view;
use crate::text::{count_until, join_with, same_text};

verus! {

/// The command line: one command.
pub struct Cli {
    pub command: Commands,
}

/// The commands of `bark` with synchronisation.
#[allow(inconsistent_fields)]
pub enum Commands {
    /// Add a new reference (edited as a TOML template).
    Add,
    /// Remove a reference (entry key, full id or short id).
    Rm { input: String },
    /// Edit a reference (entry key, full id or short id).
    Edit { input: String },
    /// List stored references, optionally those with a tag.
    List { tag: Option<String> },
    /// Show the full BibTeX entry (entry key, full id or short id).
    Show { input: String },
    /// Export one reference (`input`) or those with a tag, as BibTeX or as a
    /// TOML snapshot.
    Export { input: Option<String>, tag: Option<String>, toml: bool },
    /// Import references from a file.
    Import { filename: String, toml: bool },
    /// Add a tag to a reference.
    Tag { input: String, tag: String },
    /// Attach content to a reference.
    Attach { input: String, location: String },
    /// Open reference content.
    Open { input: String },
    /// Sync the library using a git repository.
    Sync { action: SyncAction },
}

/// The two directions of a synchronisation.
pub enum SyncAction {
    /// Force pull the database from the remote sync repository.
    Restore,
    /// Push the local database to the remote sync repository.
    Push,
}

/// The format of a file to import.
#[derive(Debug, Clone, Copy, PartialEq, Eq)]
pub enum ImportFormat {
    Toml,
    Bibtex,
}

/// The extension of the file named by a path, as `std::path::Path::extension`
/// gives it with the path syntax of the platform the crate is built for: the
/// part of the file name after its last `.`, if the path has a file name with
/// a `.` that does not start it.
pub uninterp spec fn path_extension(path: Seq<char>) -> Option<Seq<char>>;

/// Calls `std::path::Path::extension` on the path `path` and gives the
/// extension as text. The contract names the result (`path_extension`) and
/// states nothing more of it; a path given as text has a text extension, so
/// the conversion cannot fail.
#[verifier::external_body]
fn file_extension(path: &str) -> (r: Option<String>)
    ensures
        match r {
            Some(e) => path_extension(path@) == Some(e@),
            None => path_extension(path@) is None,
        },
{
    match std::path::Path::new(path).extension() {
        Some(e) => match e.to_str() {
            Some(s) => Some(s.to_string()),
            None => None,
        },
        None => None,
    }
}

/// The import format for the `--toml` flag and the file's extension: TOML
/// when the flag is set or the extension is `toml`, BibTeX when the flag is
/// not set and the extension is `bib`, and no format otherwise.
pub open spec fn import_format_of(toml: bool, ext: Option<Seq<char>>) -> Option<ImportFormat> {
    if toml || ext == Some("toml"@) {
        Some(ImportFormat::Toml)
    } else if ext == Some("bib"@) {
        Some(ImportFormat::Bibtex)
    } else {
        None
    }
}

/// The import format rule: with `--toml` the format is TOML whatever the
/// extension; without it the extension `toml` gives TOML, `bib` gives
/// BibTeX, and any other extension, or none, gives no format.
pub proof fn lemma_import_format_rule(ext: Option<Seq<char>>)
    ensures
        import_format_of(true, ext) == Some(ImportFormat::Toml),
        import_format_of(false, Some(seq!['t', 'o', 'm', 'l'])) == Some(ImportFormat::Toml),
        import_format_of(false, Some(seq!['b', 'i', 'b'])) == Some(ImportFormat::Bibtex),
        ext != Some(seq!['t', 'o', 'm', 'l']) && ext != Some(seq!['b', 'i', 'b']) ==> import_format_of(
            false,
            ext,
        ) is None,
{
    reveal_strlit("toml");
    reveal_strlit("bib");
    assert("toml"@ =~= seq!['t', 'o', 'm', 'l']);
    assert("bib"@ =~= seq!['b', 'i', 'b']);
}

/// The import format for the `--toml` flag and an extension.
pub fn import_format(toml: bool, ext: Option<String>) -> (r: Option<ImportFormat>)
    ensures
        r == import_format_of(
            toml,
            match ext {
                Some(e) => Some(e@),
                None => None,
            },
        ),
{
    if toml {
        return Some(ImportFormat::Toml);
    }
    match ext {
        None => None,
        Some(e) => {
            if crate::text::same_text(e.as_str(), "toml") {
                Some(ImportFormat::Toml)
            } else if crate::text::same_text(e.as_str(), "bib") {
                Some(ImportFormat::Bibtex)
            } else {
                None
            }
        },
    }
}

/// The import format for the `--toml` flag and the file `filename`.
pub fn choose_import_format(toml: bool, filename: &str) -> (r: Option<ImportFormat>)
    ensures
        r == import_format_of(toml, path_extension(filename@)),
{
    import_format(toml, file_extension(filename))
}

/// A reference as the full listing shows it.
pub struct ReferenceData {
    pub entry_type: String,
    pub entry_key: String,
    pub title: Option<String>,
    pub tags: Vec<String>,
}

/// The widths of the four columns of the full listing.
#[derive(Debug, Clone, Copy, PartialEq, Eq)]
pub struct ListingWidths {
    pub entry_type: usize,
    pub entry_key: usize,
    pub title: usize,
    pub tags: usize,
}

/// The largest of the numbers, 0 for none.
pub open spec fn max_of(xs: Seq<usize>) -> usize
    decreases xs.len(),
{
    if xs.len() == 0 {
        0
    } else {
        let m = max_of(xs.drop_last());
        if xs.last() > m {
            xs.last()
        } else {
            m
        }
    }
}

/// The tags cell: nothing for no tags, else `[a, b]`.
pub open spec fn tags_cell(tags: Seq<Seq<char>>) -> Seq<char> {
    if tags.len() == 0 {
        Seq::empty()
    } else {
        "["@ + join_with(tags, ", "@) + "]"@
    }
}

pub open spec fn type_lens(refs: Seq<ReferenceData>) -> Seq<usize> {
    refs.map_values(|r: ReferenceData| byte_len(r.entry_type@))
}

pub open spec fn key_lens(refs: Seq<ReferenceData>) -> Seq<usize> {
    refs.map_values(|r: ReferenceData| byte_len(r.entry_key@))
}

pub open spec fn title_lens(refs: Seq<ReferenceData>) -> Seq<usize> {
    refs.map_values(|r: ReferenceData| byte_len(title_text(opt_view(r.title))))
}

pub open spec fn tag_lens(refs: Seq<ReferenceData>) -> Seq<usize> {
    refs.map_values(|r: ReferenceData| byte_len(join_with(r.tags.deep_view(), ", "@)))
}

/// The column widths of a listing: for each column the largest byte length
/// of its texts, the title column counting `<no title>` for a missing title,
/// and the tags column two more than the longest tags joined with `, `.
pub open spec fn widths_of(refs: Seq<ReferenceData>) -> ListingWidths {
    ListingWidths {
        entry_type: max_of(type_lens(refs)),
        entry_key: max_of(key_lens(refs)),
        title: max_of(title_lens(refs)),
        tags: (max_of(tag_lens(refs)) + 2) as usize,
    }
}

/// A row of the full listing: the entry type, key, title and tags cell, each
/// padded to its column width and followed by two spaces.
pub open spec fn data_row(r: ReferenceData, w: ListingWidths) -> Seq<char> {
    pad_to(r.entry_type@, w.entry_type as nat) + "  "@ + pad_to(r.entry_key@, w.entry_key as nat)
        + "  "@ + pad_to(title_text(opt_view(r.title)), w.title as nat) + "  "@ + pad_to(
        tags_cell(r.tags.deep_view()),
        w.tags as nat,
    ) + "  "@
}

proof fn lemma_max_of(xs: Seq<usize>)
    ensures
        forall|i: int| 0 <= i < xs.len() ==> #[trigger] xs[i] <= max_of(xs),
        xs.len() == 0 ==> max_of(xs) == 0,
        xs.len() > 0 ==> exists|i: int| 0 <= i < xs.len() && max_of(xs) == #[trigger] xs[i],
    decreases xs.len(),
{
    if xs.len() > 0 {
        let init = xs.drop_last();
        lemma_max_of(init);
        assert forall|i: int| 0 <= i < xs.len() implies #[trigger] xs[i] <= max_of(xs) by {
            if i < init.len() {
                assert(init[i] == xs[i]);
            }
        }
        if xs.last() > max_of(init) || init.len() == 0 {
            assert(max_of(xs) == xs[xs.len() - 1]);
        } else {
            let j = choose|j: int| 0 <= j < init.len() && max_of(init) == #[trigger] init[j];
            assert(xs[j] == init[j]);
        }
    }
}

/// The column widths of a listing fit every row, the last included, and each
/// is reached by some row: every width is the largest byte length of its
/// column's texts (for the tags column, of the joined tags, plus two for the
/// brackets). With no rows the widths are 0, and 2 for the tags.
pub proof fn lemma_widths_fit_rows(refs: Seq<ReferenceData>)
    requires
        forall|i: int|
            0 <= i < refs.len() ==> byte_len(join_with((#[trigger] refs[i]).tags.deep_view(), ", "@))
                <= usize::MAX - 2,
    ensures
        ({
            let w = widths_of(refs);
            &&& forall|i: int|
                0 <= i < refs.len() ==> {
                    let r = #[trigger] refs[i];
                    &&& byte_len(r.entry_type@) <= w.entry_type
                    &&& byte_len(r.entry_key@) <= w.entry_key
                    &&& byte_len(title_text(opt_view(r.title))) <= w.title
                    &&& byte_len(join_with(r.tags.deep_view(), ", "@)) + 2 <= w.tags
                }
            &&& refs.len() == 0 ==> w == ListingWidths { entry_type: 0, entry_key: 0, title: 0, tags: 2 }
            &&& refs.len() > 0 ==> exists|i: int|
                0 <= i < refs.len() && w.entry_type == byte_len((#[trigger] refs[i]).entry_type@)
            &&& refs.len() > 0 ==> exists|i: int|
                0 <= i < refs.len() && w.entry_key == byte_len((#[trigger] refs[i]).entry_key@)
            &&& refs.len() > 0 ==> exists|i: int|
                0 <= i < refs.len() && w.title == byte_len(title_text(opt_view((#[trigger] refs[i]).title)))
            &&& refs.len() > 0 ==> exists|i: int|
                0 <= i < refs.len() && w.tags == byte_len(join_with((#[trigger] refs[i]).tags.deep_view(), ", "@)) + 2
        }),
{
    lemma_max_of(type_lens(refs));
    lemma_max_of(key_lens(refs));
    lemma_max_of(title_lens(refs));
    lemma_max_of(tag_lens(refs));
    let w = widths_of(refs);
    assert forall|i: int| 0 <= i < refs.len() implies {
        let r = #[trigger] refs[i];
        &&& byte_len(r.entry_type@) <= w.entry_type
        &&& byte_len(r.entry_key@) <= w.entry_key
        &&& byte_len(title_text(opt_view(r.title))) <= w.title
        &&& byte_len(join_with(r.tags.deep_view(), ", "@)) + 2 <= w.tags
    } by {
        assert(type_lens(refs)[i] == byte_len(refs[i].entry_type@));
        assert(key_lens(refs)[i] == byte_len(refs[i].entry_key@));
        assert(title_lens(refs)[i] == byte_len(title_text(opt_view(refs[i].title))));
        assert(tag_lens(refs)[i] == byte_len(join_with(refs[i].tags.deep_view(), ", "@)));
    }
    if refs.len() > 0 {
        let a = choose|j: int| 0 <= j < refs.len() && max_of(type_lens(refs)) == #[trigger] type_lens(refs)[j];
        assert(w.entry_type == byte_len(refs[a].entry_type@));
        let b = choose|j: int| 0 <= j < refs.len() && max_of(key_lens(refs)) == #[trigger] key_lens(refs)[j];
        assert(w.entry_key == byte_len(refs[b].entry_key@));
        let c = choose|j: int| 0 <= j < refs.len() && max_of(title_lens(refs)) == #[trigger] title_lens(refs)[j];
        assert(w.title == byte_len(title_text(opt_view(refs[c].title))));
        let d = choose|j: int| 0 <= j < refs.len() && max_of(tag_lens(refs)) == #[trigger] tag_lens(refs)[j];
        assert(w.tags == byte_len(join_with(refs[d].tags.deep_view(), ", "@)) + 2);
    }
}

/// The layout of a full listing row: entry type, key, title (or
/// `<no title>`) and tags cell (nothing for no tags, else the tags joined
/// with `, ` in brackets), each padded to its column width and followed by
/// two spaces.
pub proof fn lemma_data_row_layout(r: ReferenceData, w: ListingWidths)
    ensures
        data_row(r, w) == pad_to(r.entry_type@, w.entry_type as nat) + seq![' ', ' '] + pad_to(
            r.entry_key@,
            w.entry_key as nat,
        ) + seq![' ', ' '] + pad_to(title_text(opt_view(r.title)), w.title as nat) + seq![' ', ' ']
            + pad_to(tags_cell(r.tags.deep_view()), w.tags as nat) + seq![' ', ' '],
        r.tags.len() == 0 ==> tags_cell(r.tags.deep_view()) == Seq::<char>::empty(),
        r.tags.len() > 0 ==> tags_cell(r.tags.deep_view()) == seq!['['] + join_with(
            r.tags.deep_view(),
            seq![',', ' '],
        ) + seq![']'],
{
    reveal_strlit("  ");
    reveal_strlit("[");
    reveal_strlit(", ");
    reveal_strlit("]");
    assert("  "@ =~= seq![' ', ' ']);
    assert("["@ =~= seq!['[']);
    assert(", "@ =~= seq![',', ' ']);
    assert("]"@ =~= seq![']']);
    assert(r.tags.deep_view().len() == r.tags.len());
}

fn joined_tags(tags: &Vec<String>) -> (s: String)
    ensures
        s@ == join_with(tags.deep_view(), ", "@),
{
    let mut s = String::new();
    push_joined(&mut s, tags);
    s
}

/// The column widths of a listing of `refs`. The longest tags, joined, must
/// leave room for the two brackets in a `usize`.
pub fn listing_widths(refs: &Vec<ReferenceData>) -> (w: ListingWidths)
    requires
        max_of(tag_lens(refs@)) <= usize::MAX - 2,
    ensures
        w == widths_of(refs@),
{
    let mut wt: usize = 0;
    let mut wk: usize = 0;
    let mut wi: usize = 0;
    let mut wg: usize = 0;
    let mut i: usize = 0;
    while i < refs.len()
        invariant
            i <= refs.len(),
            wt == max_of(type_lens(refs@.take(i as int))),
            wk == max_of(key_lens(refs@.take(i as int))),
            wi == max_of(title_lens(refs@.take(i as int))),
            wg == max_of(tag_lens(refs@.take(i as int))),
        decreases refs.len() - i,
    {
        let ghost pre = refs@.take(i as int);
        let ghost next = refs@.take(i + 1);
        proof {
            assert(next.drop_last() =~= pre);
            assert(type_lens(next).drop_last() =~= type_lens(pre));
            assert(key_lens(next).drop_last() =~= key_lens(pre));
            assert(title_lens(next).drop_last() =~= title_lens(pre));
            assert(tag_lens(next).drop_last() =~= tag_lens(pre));
            assert(next.last() == refs@[i as int]);
        }
        let r = &refs[i];
        let lt = r.entry_type.as_str().len();
        let lk = r.entry_key.as_str().len();
        let li = match &r.title {
            Some(t) => t.as_str().len(),
            None => "<no title>".len(),
        };
        let joined = joined_tags(&r.tags);
        let lg = joined.as_str().len();
        if lt > wt {
            wt = lt;
        }
        if lk > wk {
            wk = lk;
        }
        if li > wi {
            wi = li;
        }
        if lg > wg {
            wg = lg;
        }
        i += 1;
    }
    proof {
        assert(refs@.take(refs.len() as int) =~= refs@);
    }
    ListingWidths { entry_type: wt, entry_key: wk, title: wi, tags: wg + 2 }
}

/// The row of the full listing for `r` with the column widths `w`.
pub fn format_listing_row(r: &ReferenceData, w: &ListingWidths) -> (line: String)
    ensures
        line@ == data_row(*r, *w),
{
    let mut line = String::new();
    push_padded(&mut line, r.entry_type.as_str(), w.entry_type);
    line.append("  ");
    push_padded(&mut line, r.entry_key.as_str(), w.entry_key);
    line.append("  ");
    match &r.title {
        Some(t) => push_padded(&mut line, t.as_str(), w.title),
        None => push_padded(&mut line, "<no title>", w.title),
    }
    line.append("  ");
    let mut cell = String::new();
    if r.tags.len() > 0 {
        cell.append("[");
        push_joined(&mut cell, &r.tags);
        cell.append("]");
    }
    push_padded(&mut line, cell.as_str(), w.tags);
    line.append("  ");
    line
}

/// Decides how to open content of kind `kind` stored at `location`, as this
/// command line does: `url` and `local` locations are opened directly; an
/// `ssh` location `host:path` is split at its first `:` and fetched first;
/// every other kind, `pdf` among them, cannot be opened.
pub fn open_plan(kind: &str, location: &str) -> (r: OpenPlan)
    ensures
        match r {
            OpenPlan::Open(l) => (kind@ == "url"@ || kind@ == "local"@) && l@ == location@,
            OpenPlan::FetchOverSsh { host, path } => {
                let k = count_until(location@, ':');
                &&& kind@ == "ssh"@
                &&& k < location@.len()
                &&& host@ == location@.take(k as int)
                &&& path@ == location@.skip(k + 1int)
                &&& host@ + seq![':'] + path@ == location@
            },
            OpenPlan::InvalidSshLocation => kind@ == "ssh"@ && !location@.contains(':'),
            OpenPlan::UnknownKind => kind@ != "url"@ && kind@ != "local"@ && kind@ != "ssh"@,
        },
{
    if same_text(kind, "url") || same_text(kind, "local") {
        OpenPlan::Open(location.to_owned())
    } else if same_text(kind, "ssh") {
        ssh_plan(location)
    } else {
        OpenPlan::UnknownKind
    }
}

} // verus!
