use bark::cli::{format_reference_line, key_column_width, open_plan, OpenPlan};
use bark::reference::Reference;
use bark::sync_cli::{
    choose_import_format, format_listing_row, import_format, listing_widths, ImportFormat, ListingWidths,
};

fn reference(id: &str, key: &str, title: Option<&str>, tags: &[&str]) -> Reference {
    Reference {
        id: id.to_string(),
        key: key.to_string(),
        title: title.map(|t| t.to_string()),
        tags: tags.iter().map(|t| t.to_string()).collect(),
    }
}

#[test]
fn key_width_is_longest_key_in_bytes() {
    let refs = vec![
        reference("0123456789", "ab", None, &[]),
        reference("0123456789", "knuth1984", None, &[]),
        reference("0123456789", "\u{e9}", None, &[]),
    ];
    assert_eq!(key_column_width(&refs), 9);
    assert_eq!(key_column_width(&vec![]), 0);
    let wide = vec![reference("0123456789", "\u{e9}\u{e9}\u{e9}\u{e9}\u{e9}", None, &[])];
    assert_eq!(key_column_width(&wide), 10);
}

#[test]
fn listing_row_with_title_and_tags() {
    let r = reference("0123456789abcdef", "k", Some("T"), &["a", "b"]);
    assert_eq!(format_reference_line(&r, 3), "01234567  k    T [a, b]");
}

#[test]
fn listing_row_without_title_or_tags() {
    let r = reference("0123456789abcdef", "key", None, &[]);
    assert_eq!(format_reference_line(&r, 3), "01234567  key  <no title>");
}

#[test]
fn listing_row_key_wider_than_column() {
    let r = reference("abcdefgh", "abc", Some("X"), &["t"]);
    assert_eq!(format_reference_line(&r, 1), "abcdefgh  abc  X [t]");
}

#[test]
fn listing_row_matches_formatter() {
    let r = reference("67e55044-10b1-426f-9247-bb680e5fe0c8", "k\u{e9}y", Some("A title"), &["x"]);
    let refs = vec![r.clone(), reference("0123456789", "longer-key", None, &[])];
    let w = key_column_width(&refs);
    let expected = format!("{:8}  {:width$}  {}{}", &r.id[..8], r.key, "A title", " [x]", width = w);
    assert_eq!(format_reference_line(&r, w), expected);
}

#[test]
fn listing_row_short_id_multibyte() {
    let r = reference("\u{e9}\u{e9}\u{e9}\u{e9}rest", "k", None, &[]);
    assert_eq!(format_reference_line(&r, 1), "\u{e9}\u{e9}\u{e9}\u{e9}      k  <no title>");
}

#[test]
fn open_plans() {
    assert_eq!(open_plan("url", "https://x"), OpenPlan::Open("https://x".to_string()));
    assert_eq!(open_plan("pdf", "/a.pdf"), OpenPlan::Open("/a.pdf".to_string()));
    assert_eq!(open_plan("local", "/a.pdf"), OpenPlan::Open("/a.pdf".to_string()));
    assert_eq!(
        open_plan("ssh", "u@h:/p/f.pdf"),
        OpenPlan::FetchOverSsh { host: "u@h".to_string(), path: "/p/f.pdf".to_string() }
    );
    assert_eq!(
        open_plan("ssh", "u@h:a:b"),
        OpenPlan::FetchOverSsh { host: "u@h".to_string(), path: "a:b".to_string() }
    );
    assert_eq!(open_plan("ssh", "u@h"), OpenPlan::InvalidSshLocation);
    assert_eq!(open_plan("ftp", "x"), OpenPlan::UnknownKind);
    assert_eq!(open_plan("URL", "x"), OpenPlan::UnknownKind);
}

#[test]
fn ssh_fetch_rebuilds_location() {
    let location = "me@server:/srv/papers/x.pdf";
    match open_plan("ssh", location) {
        OpenPlan::FetchOverSsh { host, path } => assert_eq!(format!("{}:{}", host, path), location),
        other => panic!("unexpected plan {:?}", other),
    }
}

#[test]
fn import_format_choices() {
    assert_eq!(choose_import_format(false, "refs.bib"), Some(ImportFormat::Bibtex));
    assert_eq!(choose_import_format(false, "refs.toml"), Some(ImportFormat::Toml));
    assert_eq!(choose_import_format(true, "refs.bib"), Some(ImportFormat::Toml));
    assert_eq!(choose_import_format(false, "refs.txt"), None);
    assert_eq!(choose_import_format(false, "refs"), None);
    assert_eq!(choose_import_format(false, ".bib"), None);
    assert_eq!(choose_import_format(false, "dir.bib/refs"), None);
    assert_eq!(choose_import_format(false, "a.tar.bib"), Some(ImportFormat::Bibtex));
    assert_eq!(choose_import_format(false, "REFS.BIB"), None);
    assert_eq!(import_format(false, Some("bib".to_string())), Some(ImportFormat::Bibtex));
    assert_eq!(import_format(false, None), None);
    assert_eq!(import_format(true, None), Some(ImportFormat::Toml));
}

#[test]
fn listing_titles_aligned() {
    let refs = vec![
        reference("aaaaaaaa-1", "k", Some("First"), &[]),
        reference("bbbbbbbb-2", "a-longer-key", None, &["t"]),
        reference("cccccccc-3", "mid", Some("Third"), &["x", "y"]),
    ];
    let w = key_column_width(&refs);
    assert_eq!(w, 12);
    let rows: Vec<String> = refs.iter().map(|r| format_reference_line(r, w)).collect();
    assert_eq!(&rows[0][w + 12..], "First");
    assert_eq!(&rows[1][w + 12..], "<no title> [t]");
    assert_eq!(&rows[2][w + 12..], "Third [x, y]");
}

#[test]
fn listing_titles_aligned_with_multibyte_keys() {
    let refs = vec![
        reference("\u{e9}\u{e9}\u{e9}\u{e9}-1", "\u{e9}\u{e9}", Some("One"), &[]),
        reference("aaaaaaaa-2", "abc", Some("Two"), &["t"]),
    ];
    let w = key_column_width(&refs);
    assert_eq!(w, 4);
    for (r, tail) in refs.iter().zip(["One", "Two [t]"]) {
        let row = format_reference_line(r, w);
        let rest: String = row.chars().skip(w + 12).collect();
        assert_eq!(rest, tail);
    }
}

fn data(t: &str, k: &str, title: Option<&str>, tags: &[&str]) -> bark::sync_cli::ReferenceData {
    bark::sync_cli::ReferenceData {
        entry_type: t.to_string(),
        entry_key: k.to_string(),
        title: title.map(|s| s.to_string()),
        tags: tags.iter().map(|s| s.to_string()).collect(),
    }
}

#[test]
fn full_listing_matches_formatter() {
    let refs = vec![
        data("book", "knuth1984", Some("The TeXbook"), &["tex", "classic"]),
        data("article", "k\u{e9}", None, &[]),
        data("misc", "x", Some("Short"), &["a"]),
    ];
    let w = listing_widths(&refs);
    let max_type = refs.iter().map(|r| r.entry_type.len()).max().unwrap_or(0);
    let max_key = refs.iter().map(|r| r.entry_key.len()).max().unwrap_or(0);
    let max_tags = refs.iter().map(|r| r.tags.join(", ").len()).max().unwrap_or(0) + 2;
    let max_title = refs
        .iter()
        .map(|r| r.title.as_deref().unwrap_or("<no title>").len())
        .max()
        .unwrap_or(0);
    assert_eq!((w.entry_type, w.entry_key, w.title, w.tags), (max_type, max_key, max_title, max_tags));
    assert_eq!(w.tags, 14);
    for r in &refs {
        let title = r.title.clone().unwrap_or_else(|| "<no title>".to_string());
        let tags = if r.tags.is_empty() { String::new() } else { format!("[{}]", r.tags.join(", ")) };
        let expected = format!(
            "{:type_width$}  {:key_width$}  {:title_width$}  {:tags_width$}  ",
            r.entry_type,
            r.entry_key,
            title,
            tags,
            type_width = max_type,
            key_width = max_key,
            title_width = max_title,
            tags_width = max_tags,
        );
        assert_eq!(format_listing_row(r, &w), expected);
    }
}

#[test]
fn full_listing_empty_widths() {
    let w = listing_widths(&vec![]);
    assert_eq!((w.entry_type, w.entry_key, w.title, w.tags), (0, 0, 0, 2));
}

#[test]
fn full_listing_row_exact() {
    let w = ListingWidths { entry_type: 5, entry_key: 2, title: 3, tags: 4 };
    let r = data("book", "k", Some("T"), &["a"]);
    assert_eq!(format_listing_row(&r, &w), "book   k   T    [a]   ");
}

#[test]
fn sync_open_plans() {
    use_sync_open();
}

fn use_sync_open() {
    assert_eq!(bark::sync_cli::open_plan("url", "https://x"), OpenPlan::Open("https://x".to_string()));
    assert_eq!(bark::sync_cli::open_plan("local", "/a.pdf"), OpenPlan::Open("/a.pdf".to_string()));
    assert_eq!(bark::sync_cli::open_plan("pdf", "/a.pdf"), OpenPlan::UnknownKind);
    assert_eq!(
        bark::sync_cli::open_plan("ssh", "u@h:/p"),
        OpenPlan::FetchOverSsh { host: "u@h".to_string(), path: "/p".to_string() }
    );
    assert_eq!(bark::sync_cli::open_plan("ssh", "u@h"), OpenPlan::InvalidSshLocation);
}
