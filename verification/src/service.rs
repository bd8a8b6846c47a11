//! The rules of the reference service: what is stored for a new reference,
//! how an import is counted, what an export writes, and how the kind of an
//! attached content location is told.
use vstd::prelude::*;

use crate::bibtex::{
    entries_of, extract_field_bibtex, field_of, header_of, is_complete_entry,
    lemma_entries_complete, lemma_scan_concat, lemma_scan_entry, parse_bibtex_header, scan_from,
    scan_start, scan_step, split_bibtex_entries,
};
use crate::text::{chars_of, find_from, lemma_count_until};

verus! {

/// The outcome of importing a BibTeX file.
#[derive(Debug, Clone, Copy)]
pub struct ImportResult {
    /// Entries stored.
    pub added: usize,
    /// Entries skipped: without a readable header, or refused by the store.
    pub skipped: usize,
}

/// Why the service refuses a request.
#[derive(Debug, Clone, Copy, PartialEq, Eq)]
pub enum ServiceError {
    /// The BibTeX text has no readable header.
    InvalidBibtex,
}

/// Everything stored for a new reference.
#[derive(Debug)]
pub struct NewReference {
    pub id: String,
    pub bibtex: String,
    pub entry_type: String,
    pub entry_key: String,
    pub title: Option<String>,
}

pub open spec fn is_lower_hex(c: char) -> bool {
    ('0' <= c <= '9') || ('a' <= c <= 'f')
}

/// The text of a random (version 4) UUID in hyphenated lower-case form, such
/// as `67e55044-10b1-426f-9247-bb680e5fe0c8`: 36 characters, hyphens at
/// positions 8, 13, 18 and 23, lower-case hexadecimal digits elsewhere, the
/// version digit `4` at position 14 and a variant digit in `8`, `9`, `a`, `b`
/// at position 19.
pub open spec fn is_v4_uuid_text(s: Seq<char>) -> bool {
    &&& s.len() == 36
    &&& forall|i: int|
        0 <= i < 36 ==> if i == 8 || i == 13 || i == 18 || i == 23 {
            #[trigger] s[i] == '-'
        } else {
            is_lower_hex(s[i])
        }
    &&& s[14] == '4'
    &&& (s[19] == '8' || s[19] == '9' || s[19] == 'a' || s[19] == 'b')
}

/// Calls `uuid::Uuid::new_v4` and formats the id with its `Display` impl.
/// `new_v4` takes 128 random bits from the operating system, sets the version
/// to 4 and the variant to RFC 4122; `Display` writes the hyphenated
/// lower-case form. What is claimed: the text has that form. The digits are
/// random, so nothing is claimed of them, nor that two ids differ. `new_v4`
/// panics when the operating system gives no random bytes.
#[verifier::external_body]
fn new_v4_id() -> (id: String)
    ensures
        is_v4_uuid_text(id@),
{
    uuid::Uuid::new_v4().to_string()
}

/// What is stored for the BibTeX text `bibtex` under the id `id`: `None`
/// when the text has no header.
pub open spec fn stored_fields(id: Seq<char>, bibtex: Seq<char>) -> Option<
    (Seq<char>, Seq<char>, Seq<char>, Seq<char>, Option<Seq<char>>),
> {
    match header_of(bibtex) {
        None => None,
        Some((t, k)) => Some((id, bibtex, t, k, field_of(bibtex, "title"@))),
    }
}

pub open spec fn fields_of(r: NewReference) -> (
    Seq<char>,
    Seq<char>,
    Seq<char>,
    Seq<char>,
    Option<Seq<char>>,
) {
    (
        r.id@,
        r.bibtex@,
        r.entry_type@,
        r.entry_key@,
        match r.title {
            Some(t) => Some(t@),
            None => None,
        },
    )
}

/// The new reference stored for `bibtex` under `id`: its entry type and key
/// from the header, and its title field. Refused when the text has no header.
pub fn build_new_reference(id: String, bibtex: &str) -> (r: Result<NewReference, ServiceError>)
    ensures
        match r {
            Ok(nr) => stored_fields(id@, bibtex@) == Some(fields_of(nr)),
            Err(e) => e == ServiceError::InvalidBibtex && stored_fields(id@, bibtex@) is None,
        },
{
    match parse_bibtex_header(bibtex) {
        None => Err(ServiceError::InvalidBibtex),
        Some((entry_type, entry_key)) => {
            let title = extract_field_bibtex(bibtex, "title");
            let nr = NewReference {
                id,
                bibtex: bibtex.to_owned(),
                entry_type,
                entry_key,
                title,
            };
            Ok(nr)
        },
    }
}

/// A new reference for `bibtex` under a fresh random id.
pub fn prepare_reference(bibtex: &str) -> (r: Result<NewReference, ServiceError>)
    ensures
        match r {
            Ok(nr) => is_v4_uuid_text(nr.id@) && stored_fields(nr.id@, bibtex@) == Some(
                fields_of(nr),
            ),
            Err(e) => e == ServiceError::InvalidBibtex && header_of(bibtex@) is None,
        },
{
    let id = new_v4_id();
    build_new_reference(id, bibtex)
}

/// What an import of `content` stores: for each of its entries, in order, the
/// new reference, or the refusal of an entry without a header.
pub fn prepare_import(content: &str) -> (r: Vec<Result<NewReference, ServiceError>>)
    ensures
        r.len() == entries_of(content@).len(),
        forall|i: int|
            0 <= i < r.len() ==> match #[trigger] r[i] {
                Ok(nr) => is_v4_uuid_text(nr.id@) && stored_fields(
                    nr.id@,
                    entries_of(content@)[i],
                ) == Some(fields_of(nr)),
                Err(e) => e == ServiceError::InvalidBibtex && header_of(entries_of(content@)[i]) is None,
            },
{
    let entries = split_bibtex_entries(content);
    let mut r: Vec<Result<NewReference, ServiceError>> = Vec::new();
    let mut i: usize = 0;
    while i < entries.len()
        invariant
            i <= entries.len(),
            entries.deep_view() == entries_of(content@),
            r.len() == i,
            forall|j: int|
                0 <= j < i ==> match #[trigger] r[j] {
                    Ok(nr) => is_v4_uuid_text(nr.id@) && stored_fields(
                        nr.id@,
                        entries_of(content@)[j],
                    ) == Some(fields_of(nr)),
                    Err(e) => e == ServiceError::InvalidBibtex && header_of(
                        entries_of(content@)[j],
                    ) is None,
                },
        decreases entries.len() - i,
    {
        proof {
            assert(entries.deep_view()[i as int] == entries@[i as int]@);
        }
        let item = prepare_reference(entries[i].as_str());
        r.push(item);
        i += 1;
    }
    r
}

/// The number of `true` outcomes.
pub open spec fn count_added(outcomes: Seq<bool>) -> nat
    decreases outcomes.len(),
{
    if outcomes.len() == 0 {
        0
    } else {
        count_added(outcomes.drop_last()) + if outcomes.last() {
            1nat
        } else {
            0nat
        }
    }
}

/// Counting the stored entries: none among no outcomes; one more for a
/// stored entry; the same for a skipped one; never more than the outcomes.
pub proof fn lemma_count_added_steps(s: Seq<bool>)
    ensures
        count_added(Seq::<bool>::empty()) == 0,
        count_added(s.push(true)) == count_added(s) + 1,
        count_added(s.push(false)) == count_added(s),
        count_added(s) <= s.len(),
    decreases s.len(),
{
    assert(s.push(true).drop_last() =~= s);
    assert(s.push(false).drop_last() =~= s);
    if s.len() > 0 {
        lemma_count_added_steps(s.drop_last());
    }
}

/// The added count of an import splits over the two halves of its outcomes.
pub proof fn lemma_count_added_concat(a: Seq<bool>, b: Seq<bool>)
    ensures
        count_added(a + b) == count_added(a) + count_added(b),
    decreases b.len(),
{
    if b.len() == 0 {
        assert(a + b =~= a);
    } else {
        assert((a + b).drop_last() =~= a + b.drop_last());
        assert((a + b).last() == b.last());
        lemma_count_added_concat(a, b.drop_last());
    }
}

/// The count of an import, given for each entry whether it was stored.
pub fn tally_import(outcomes: &Vec<bool>) -> (r: ImportResult)
    ensures
        r.added == count_added(outcomes@),
        r.added + r.skipped == outcomes.len(),
{
    let mut added: usize = 0;
    let mut skipped: usize = 0;
    let mut i: usize = 0;
    while i < outcomes.len()
        invariant
            i <= outcomes.len(),
            added == count_added(outcomes@.take(i as int)),
            added + skipped == i,
        decreases outcomes.len() - i,
    {
        proof {
            assert(outcomes@.take(i + 1).drop_last() =~= outcomes@.take(i as int));
        }
        if outcomes[i] {
            added += 1;
        } else {
            skipped += 1;
        }
        i += 1;
    }
    proof {
        assert(outcomes@.take(outcomes.len() as int) =~= outcomes@);
    }
    ImportResult { added, skipped }
}

/// The text of an export: each BibTeX text followed by a blank line.
pub open spec fn export_text(bibs: Seq<Seq<char>>) -> Seq<char>
    decreases bibs.len(),
{
    if bibs.len() == 0 {
        Seq::empty()
    } else {
        export_text(bibs.drop_last()) + bibs.last() + seq!['\n', '\n']
    }
}

/// What an export writes: nothing for no texts; for one more text, that
/// text, whatever it ends with, and a blank line after what was written; and
/// for two lists, the export of the first followed by that of the second.
pub proof fn lemma_export_steps(bibs: Seq<Seq<char>>, b: Seq<char>, more: Seq<Seq<char>>)
    ensures
        export_text(Seq::<Seq<char>>::empty()) == Seq::<char>::empty(),
        export_text(bibs.push(b)) == export_text(bibs) + b + seq!['\n', '\n'],
        export_text(bibs + more) == export_text(bibs) + export_text(more),
    decreases more.len(),
{
    assert(bibs.push(b).drop_last() =~= bibs);
    if more.len() == 0 {
        assert(bibs + more =~= bibs);
        assert(export_text(bibs) + export_text(more) =~= export_text(bibs));
    } else {
        lemma_export_steps(bibs, b, more.drop_last());
        assert((bibs + more).drop_last() =~= bibs + more.drop_last());
        assert((bibs + more).last() == more.last());
        assert(export_text(bibs) + export_text(more.drop_last()) + more.last() + seq!['\n', '\n']
            =~= export_text(bibs) + (export_text(more.drop_last()) + more.last() + seq!['\n', '\n']));
    }
}

/// The contents of an export file for the given BibTeX texts, in order.
pub fn export_content(bibtexs: &Vec<String>) -> (r: String)
    ensures
        r@ == export_text(bibtexs.deep_view()),
{
    let mut content = String::new();
    let mut i: usize = 0;
    while i < bibtexs.len()
        invariant
            i <= bibtexs.len(),
            content@ == export_text(bibtexs.deep_view().take(i as int)),
        decreases bibtexs.len() - i,
    {
        proof {
            let bs = bibtexs.deep_view();
            assert(bs.take(i + 1).drop_last() =~= bs.take(i as int));
            assert(bs.take(i + 1).last() == bibtexs@[i as int]@);
        }
        content.append(bibtexs[i].as_str());
        content.push('\n');
        content.push('\n');
        i += 1;
    }
    proof {
        assert(bibtexs.deep_view().take(bibtexs.len() as int) =~= bibtexs.deep_view());
    }
    content
}

proof fn lemma_export_scan(bibs: Seq<Seq<char>>)
    requires
        forall|i: int| 0 <= i < bibs.len() ==> is_complete_entry(#[trigger] bibs[i]),
    ensures
        scan_from(scan_start(), export_text(bibs)).entries == bibs,
        scan_from(scan_start(), export_text(bibs)).level == 0,
        !scan_from(scan_start(), export_text(bibs)).in_entry,
    decreases bibs.len(),
{
    if bibs.len() == 0 {
        assert(export_text(bibs) =~= Seq::<char>::empty());
        assert(bibs =~= Seq::<Seq<char>>::empty());
    } else {
        let init = bibs.drop_last();
        let b = bibs.last();
        assert forall|i: int| 0 <= i < init.len() implies is_complete_entry(#[trigger] init[i]) by {
            assert(init[i] == bibs[i]);
        }
        lemma_export_scan(init);
        let e0 = export_text(init);
        let sep = seq!['\n', '\n'];
        lemma_scan_concat(scan_start(), e0 + b, sep);
        lemma_scan_concat(scan_start(), e0, b);
        let st0 = scan_from(scan_start(), e0);
        lemma_scan_entry(st0, b);
        let st1 = scan_from(st0, b);
        assert(sep.drop_last() =~= seq!['\n']);
        assert(seq!['\n'].drop_last() =~= Seq::<char>::empty());
        let one = seq!['\n'];
        assert(scan_from(st1, Seq::<char>::empty()) == st1);
        assert(scan_from(st1, one) == scan_step(st1, '\n'));
        assert(scan_step(st1, '\n') == st1);
        assert(scan_from(st1, sep) == scan_step(scan_from(st1, one), '\n'));
        assert(init.push(b) =~= bibs);
    }
}

/// Splitting an export into entries gives back the exported texts, in order,
/// when each of them is a complete entry.
pub proof fn lemma_export_then_split(bibs: Seq<Seq<char>>)
    requires
        forall|i: int| 0 <= i < bibs.len() ==> is_complete_entry(#[trigger] bibs[i]),
    ensures
        entries_of(export_text(bibs)) == bibs,
{
    lemma_export_scan(bibs);
}

/// Importing an export brings back every exported text: when each stored
/// text splits into itself alone, splitting the export gives the texts back,
/// in order, and so the import prepares one reference per text, storing that
/// text, wherever its header is readable.
pub proof fn lemma_import_of_export(bibs: Seq<Seq<char>>)
    requires
        forall|i: int| 0 <= i < bibs.len() ==> entries_of(#[trigger] bibs[i]) == seq![bibs[i]],
    ensures
        entries_of(export_text(bibs)) == bibs,
        forall|id: Seq<char>, i: int|
            0 <= i < bibs.len() && header_of(bibs[i]) is Some ==> (#[trigger] stored_fields(
                id,
                entries_of(export_text(bibs))[i],
            ) matches Some(f) && f.1 == bibs[i]),
{
    assert forall|i: int| 0 <= i < bibs.len() implies is_complete_entry(#[trigger] bibs[i]) by {
        crate::bibtex::lemma_self_split_is_complete(bibs[i]);
    }
    lemma_export_then_split(bibs);
}

/// When every entry of an import is stored, all are counted as added and
/// none as skipped.
pub proof fn lemma_tally_all_stored(outcomes: Seq<bool>)
    requires
        forall|i: int| 0 <= i < outcomes.len() ==> #[trigger] outcomes[i],
    ensures
        count_added(outcomes) == outcomes.len(),
    decreases outcomes.len(),
{
    if outcomes.len() > 0 {
        let init = outcomes.drop_last();
        assert forall|i: int| 0 <= i < init.len() implies #[trigger] init[i] by {
            assert(init[i] == outcomes[i]);
        }
        lemma_tally_all_stored(init);
        assert(outcomes.last() == outcomes[outcomes.len() - 1]);
    }
}

pub open spec fn starts_with(s: Seq<char>, p: Seq<char>) -> bool {
    p.len() <= s.len() && s.take(p.len() as int) == p
}

/// The kind of a content location: `url` for `http://` and `https://`
/// addresses, `ssh` for a location holding both `@` and `:` (as in
/// `user@host:/path`), and `local` for anything else.
pub open spec fn kind_of(location: Seq<char>) -> Seq<char> {
    if starts_with(location, "http://"@) || starts_with(location, "https://"@) {
        "url"@
    } else if location.contains('@') && location.contains(':') {
        "ssh"@
    } else {
        "local"@
    }
}

/// The kind rule: every `http://` or `https://` address is a `url`; any other
/// location is `ssh` exactly when it holds both `@` and `:`, and `local`
/// otherwise.
pub proof fn lemma_kind_rule(rest: Seq<char>, s: Seq<char>)
    ensures
        kind_of(seq!['h', 't', 't', 'p', ':', '/', '/'] + rest) == seq!['u', 'r', 'l'],
        kind_of(seq!['h', 't', 't', 'p', 's', ':', '/', '/'] + rest) == seq!['u', 'r', 'l'],
        !(s.len() >= 7 && s.take(7) == seq!['h', 't', 't', 'p', ':', '/', '/']) && !(s.len() >= 8
            && s.take(8) == seq!['h', 't', 't', 'p', 's', ':', '/', '/']) ==> {
            &&& s.contains('@') && s.contains(':') ==> kind_of(s) == seq!['s', 's', 'h']
            &&& !(s.contains('@') && s.contains(':')) ==> kind_of(s) == seq![
                'l',
                'o',
                'c',
                'a',
                'l',
            ]
        },
{
    reveal_strlit("http://");
    reveal_strlit("https://");
    reveal_strlit("url");
    reveal_strlit("ssh");
    reveal_strlit("local");
    let h = seq!['h', 't', 't', 'p', ':', '/', '/'];
    let hs = seq!['h', 't', 't', 'p', 's', ':', '/', '/'];
    assert("http://"@ =~= h);
    assert("https://"@ =~= hs);
    assert("url"@ =~= seq!['u', 'r', 'l']);
    assert("ssh"@ =~= seq!['s', 's', 'h']);
    assert("local"@ =~= seq!['l', 'o', 'c', 'a', 'l']);
    assert((h + rest).take(7) =~= h);
    assert((hs + rest).take(8) =~= hs);
}

fn starts_with_chars(v: &Vec<char>, p: &str) -> (b: bool)
    ensures
        b == starts_with(v@, p@),
{
    let pv = chars_of(p);
    if pv.len() > v.len() {
        return false;
    }
    let mut i: usize = 0;
    while i < pv.len()
        invariant
            pv@ == p@,
            pv.len() <= v.len(),
            i <= pv.len(),
            forall|j: int| 0 <= j < i ==> v@[j] == pv@[j],
        decreases pv.len() - i,
    {
        if v[i] != pv[i] {
            proof {
                assert(v@.take(pv.len() as int)[i as int] == v@[i as int]);
            }
            return false;
        }
        i += 1;
    }
    proof {
        assert(v@.take(pv.len() as int) =~= pv@);
    }
    true
}

fn contains_char(v: &Vec<char>, c: char) -> (b: bool)
    ensures
        b == v@.contains(c),
{
    let k = find_from(v, 0, v.len(), c);
    proof {
        let s = v@.subrange(0, v.len() as int);
        assert(s =~= v@);
        lemma_count_until(s, c);
        if k < v.len() {
            assert(v@[k as int] == c);
        } else {
            assert forall|j: int| 0 <= j < v.len() implies v@[j] != c by {}
        }
    }
    k < v.len()
}

/// Tells the kind of a content location.
pub fn infer_kind(location: &str) -> (r: &str)
    ensures
        r@ == kind_of(location@),
{
    let v = chars_of(location);
    if starts_with_chars(&v, "http://") || starts_with_chars(&v, "https://") {
        "url"
    } else if contains_char(&v, '@') && contains_char(&v, ':') {
        "ssh"
    } else {
        "local"
    }
}

} // verus!
