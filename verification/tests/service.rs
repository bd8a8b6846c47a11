use bark::bibtex::split_bibtex_entries;
use bark::reference::{reference_from_row, split_tags};
use bark::service::{
    build_new_reference, export_content, infer_kind, prepare_import, prepare_reference,
    tally_import, ServiceError,
};

fn is_v4_uuid(s: &str) -> bool {
    let c: Vec<char> = s.chars().collect();
    if c.len() != 36 {
        return false;
    }
    for (i, ch) in c.iter().enumerate() {
        if i == 8 || i == 13 || i == 18 || i == 23 {
            if *ch != '-' {
                return false;
            }
        } else if !(ch.is_ascii_digit() || ('a'..='f').contains(ch)) {
            return false;
        }
    }
    c[14] == '4' && matches!(c[19], '8' | '9' | 'a' | 'b')
}

#[test]
fn kind_of_locations() {
    assert_eq!(infer_kind("https://arxiv.org/abs/1"), "url");
    assert_eq!(infer_kind("http://x.org"), "url");
    assert_eq!(infer_kind("user@host:/papers/a.pdf"), "ssh");
    assert_eq!(infer_kind("/home/u/a.pdf"), "local");
    assert_eq!(infer_kind("user@host"), "local");
    assert_eq!(infer_kind("ftp://x.org"), "local");
    assert_eq!(infer_kind("HTTP://x.org"), "local");
    assert_eq!(infer_kind("https:/x"), "local");
    assert_eq!(infer_kind("https://u@h:1"), "url");
    assert_eq!(infer_kind(""), "local");
}

#[test]
fn new_reference_fields() {
    let bib = "@book{k,\n title = {T}\n}";
    let r = build_new_reference("id1".to_string(), bib).unwrap();
    assert_eq!(r.id, "id1");
    assert_eq!(r.bibtex, bib);
    assert_eq!(r.entry_type, "book");
    assert_eq!(r.entry_key, "k");
    assert_eq!(r.title, Some("T".to_string()));
}

#[test]
fn new_reference_without_title() {
    let r = build_new_reference("x".to_string(), "@book{k, title={T}}").unwrap();
    assert_eq!(r.title, None);
    assert_eq!(r.entry_key, "k");
}

#[test]
fn new_reference_refused_without_header() {
    assert!(matches!(
        build_new_reference("x".to_string(), "no header"),
        Err(ServiceError::InvalidBibtex)
    ));
    assert!(matches!(prepare_reference(""), Err(ServiceError::InvalidBibtex)));
}

#[test]
fn prepared_reference_has_random_uuid() {
    let r = prepare_reference("@misc{z,\n}").unwrap();
    assert!(is_v4_uuid(&r.id), "{}", r.id);
    assert_eq!(r.entry_type, "misc");
    assert_eq!(r.entry_key, "z");
    let s = prepare_reference("@misc{z,\n}").unwrap();
    assert!(is_v4_uuid(&s.id));
}

#[test]
fn import_prepares_each_entry() {
    let content = "@book{a,\n title={A}\n}\n@misc\n{z}\n@article{b, x}";
    let items = prepare_import(content);
    assert_eq!(items.len(), 3);
    let first = items[0].as_ref().unwrap();
    assert_eq!(first.entry_key, "a");
    assert_eq!(first.title, Some("A".to_string()));
    assert!(matches!(items[1], Err(ServiceError::InvalidBibtex)));
    let third = items[2].as_ref().unwrap();
    assert_eq!(third.entry_type, "article");
    assert_eq!(third.entry_key, "b");
}

#[test]
fn import_tally_counts() {
    let r = tally_import(&vec![true, false, true]);
    assert_eq!(r.added, 2);
    assert_eq!(r.skipped, 1);
    let e = tally_import(&vec![]);
    assert_eq!((e.added, e.skipped), (0, 0));
}

#[test]
fn import_tally_covers_every_entry() {
    let outcomes = vec![false, false, true, true, true];
    let r = tally_import(&outcomes);
    assert_eq!(r.added + r.skipped, outcomes.len());
}

#[test]
fn export_blank_line_after_each() {
    let bibs = vec!["@a{x}".to_string(), "@b{y}".to_string()];
    assert_eq!(export_content(&bibs), "@a{x}\n\n@b{y}\n\n");
    assert_eq!(export_content(&vec![]), "");
}

#[test]
fn export_then_split_round_trip() {
    let bibs = vec![
        "@book{a,\n  title = {The {TeX}book},\n}".to_string(),
        "@misc{b, note={x@y}}".to_string(),
        "@article{c}".to_string(),
    ];
    assert_eq!(split_bibtex_entries(&export_content(&bibs)), bibs);
}

#[test]
fn tags_split_on_commas() {
    assert_eq!(split_tags(Some("a,b,c")), vec!["a", "b", "c"]);
    assert_eq!(split_tags(Some("")), vec![""]);
    assert_eq!(split_tags(None), Vec::<String>::new());
    assert_eq!(split_tags(Some("a,,b")), vec!["a", "", "b"]);
    assert_eq!(split_tags(Some("x,")), vec!["x", ""]);
    assert_eq!(split_tags(Some(" a , b ")), vec![" a ", " b "]);
}

#[test]
fn tags_join_split_round_trip() {
    let column = "ml,to read,,x";
    assert_eq!(split_tags(Some(column)).join(","), column);
    let tags = vec!["ml".to_string(), "to read".to_string(), "2024".to_string()];
    assert_eq!(split_tags(Some(&tags.join(","))), tags);
}

#[test]
fn reference_from_stored_row() {
    let r = reference_from_row(
        "id".to_string(),
        "key".to_string(),
        Some("Title".to_string()),
        Some("a,b".to_string()),
    );
    assert_eq!(r.id, "id");
    assert_eq!(r.key, "key");
    assert_eq!(r.title, Some("Title".to_string()));
    assert_eq!(r.tags, vec!["a", "b"]);
    let s = reference_from_row("i".to_string(), "k".to_string(), None, None);
    assert_eq!(s.title, None);
    assert!(s.tags.is_empty());
}

#[test]
fn import_of_export_prepares_every_text() {
    let bibs = vec![
        "@book{a,\n  title = {First},\n}".to_string(),
        "@article{b, x={@}}".to_string(),
        "@misc{c,\n}".to_string(),
    ];
    let content = export_content(&bibs);
    let items = prepare_import(&content);
    assert_eq!(items.len(), bibs.len());
    for (item, b) in items.iter().zip(bibs.iter()) {
        assert_eq!(&item.as_ref().unwrap().bibtex, b);
    }
    let outcomes: Vec<bool> = items.iter().map(|i| i.is_ok()).collect();
    let r = tally_import(&outcomes);
    assert_eq!((r.added, r.skipped), (3, 0));
}
