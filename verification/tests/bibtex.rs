use bark::bibtex::{extract_field_bibtex, parse_bibtex_header, split_bibtex_entries};

fn pair(a: &str, b: &str) -> Option<(String, String)> {
    Some((a.to_string(), b.to_string()))
}

#[test]
fn header_of_book_entry() {
    let bib = "@book{knuth1984,\n  title = {The TeXbook},\n}";
    assert_eq!(parse_bibtex_header(bib), pair("book", "knuth1984"));
}

#[test]
fn header_fields_are_trimmed() {
    assert_eq!(parse_bibtex_header("  @Article { key ,\n  x = y\n}"), pair("Article", "key"));
}

#[test]
fn header_with_crlf_line_end() {
    assert_eq!(parse_bibtex_header("@book{k,\r\n title = {T}\r\n}"), pair("book", "k"));
}

#[test]
fn header_without_comma_keeps_rest_of_line() {
    assert_eq!(parse_bibtex_header("@book{key}"), pair("book", "key}"));
}

#[test]
fn header_refused_inputs() {
    assert_eq!(parse_bibtex_header(""), None);
    assert_eq!(parse_bibtex_header("book{x}"), None);
    assert_eq!(parse_bibtex_header("@misc"), None);
    assert_eq!(parse_bibtex_header("\n@book{x,}"), None);
    assert_eq!(parse_bibtex_header("@misc\n{z}"), None);
}

#[test]
fn header_empty_type_and_key() {
    assert_eq!(parse_bibtex_header("@{,"), pair("", ""));
}

#[test]
fn field_title_found() {
    let bib = "@book{k,\n  title = {The TeXbook},\n  author = {Knuth}\n}";
    assert_eq!(extract_field_bibtex(bib, "title"), Some("The TeXbook".to_string()));
    assert_eq!(extract_field_bibtex(bib, "author"), Some("Knuth".to_string()));
    assert_eq!(extract_field_bibtex(bib, "year"), None);
}

#[test]
fn field_name_ignores_ascii_case() {
    let bib = "@book{k,\n  Title = {T},\n}";
    assert_eq!(extract_field_bibtex(bib, "TITLE"), Some("T".to_string()));
    assert_eq!(extract_field_bibtex(bib, "title"), Some("T".to_string()));
}

#[test]
fn field_nested_braces_stripped() {
    let bib = "@book{k,\n title = {{Nested}},\n}";
    assert_eq!(extract_field_bibtex(bib, "title"), Some("Nested".to_string()));
}

#[test]
fn field_quotes_kept() {
    let bib = "@book{k,\n  Title= \"Quoted\",\n}";
    assert_eq!(extract_field_bibtex(bib, "title"), Some("\"Quoted\"".to_string()));
}

#[test]
fn field_first_line_wins() {
    assert_eq!(extract_field_bibtex("title = A\ntitle = B", "title"), Some("A".to_string()));
}

#[test]
fn field_other_key_not_matched() {
    assert_eq!(extract_field_bibtex("booktitle = X\n", "title"), None);
}

#[test]
fn field_on_header_line_not_matched() {
    assert_eq!(extract_field_bibtex("@book{k, title={T}}", "title"), None);
}

#[test]
fn field_value_keeps_later_equals() {
    let bib = "url = {http://x.org/?a=b},";
    assert_eq!(extract_field_bibtex(bib, "url"), Some("http://x.org/?a=b".to_string()));
}

#[test]
fn field_value_inner_spaces() {
    assert_eq!(extract_field_bibtex("  title  =  { a b } ,", "title"), Some("a b }".to_string()));
}

#[test]
fn field_empty_value() {
    assert_eq!(extract_field_bibtex("note = ,", "note"), Some(String::new()));
}

#[test]
fn field_crlf_lines() {
    let bib = "@book{k,\r\n  title = {T},\r\n}\r\n";
    assert_eq!(extract_field_bibtex(bib, "title"), Some("T".to_string()));
}

#[test]
fn split_two_entries() {
    let input = "@book{a, title={T}}\n\n@article{b, x={y}}";
    assert_eq!(
        split_bibtex_entries(input),
        vec!["@book{a, title={T}}".to_string(), "@article{b, x={y}}".to_string()]
    );
}

#[test]
fn split_skips_text_between_entries() {
    assert_eq!(split_bibtex_entries("junk @misc{c} more junk"), vec!["@misc{c}".to_string()]);
}

#[test]
fn split_at_inside_entry() {
    assert_eq!(
        split_bibtex_entries("@misc{a, email={x@y.org}}"),
        vec!["@misc{a, email={x@y.org}}".to_string()]
    );
    assert_eq!(
        split_bibtex_entries("@comment text @book{x}"),
        vec!["@comment text @book{x}".to_string()]
    );
}

#[test]
fn split_unterminated_entry_dropped() {
    assert_eq!(split_bibtex_entries("@book{a, "), Vec::<String>::new());
    assert_eq!(split_bibtex_entries(""), Vec::<String>::new());
}

#[test]
fn split_depth_carries_across_stray_close() {
    assert_eq!(split_bibtex_entries("@a}{{}"), vec!["@a}{{}".to_string()]);
}

#[test]
fn split_multiline_entry() {
    let input = "% comment\n@book{k,\n  title = {A {B} C},\n}\n";
    assert_eq!(
        split_bibtex_entries(input),
        vec!["@book{k,\n  title = {A {B} C},\n}".to_string()]
    );
}

#[test]
fn split_entries_are_delimited() {
    let input = "x @a{1} y @b{ {2} } @c}{{} @d{unfinished";
    let entries = split_bibtex_entries(input);
    assert_eq!(entries.len(), 3);
    for e in &entries {
        assert!(e.starts_with('@'));
        assert!(e.ends_with('}'));
        assert_eq!(e.trim(), e);
        assert!(input.contains(e.as_str()));
    }
}

#[test]
fn header_fields_trimmed_without_delimiters() {
    for bib in ["@ book { a b , c", "@x{{y,", "@t{k{,}", "  @a\t{\tk\t}\r\n"] {
        if let Some((t, k)) = parse_bibtex_header(bib) {
            assert_eq!(t.trim(), t);
            assert_eq!(k.trim(), k);
            assert!(!t.contains('{'));
            assert!(!k.contains(','));
        } else {
            panic!("no header for {:?}", bib);
        }
    }
    assert_eq!(parse_bibtex_header("@x{{y,"), pair("x", "{y"));
    assert_eq!(parse_bibtex_header("  @a\t{\tk\t}\r\n"), pair("a", "k\t}"));
}

#[test]
fn resplit_joined_entries_gives_same_list() {
    let input = "junk @book{a, t={x}} mid @misc{b}\n@c}{{} tail @d{open";
    let r = split_bibtex_entries(input);
    assert_eq!(r.len(), 3);
    for sep in ["", "\n", "\n\n", " , ", "}"] {
        assert_eq!(split_bibtex_entries(&r.join(sep)), r);
    }
}

#[test]
fn self_splitting_text_stays_whole() {
    for b in ["@book{k,\n title = {T}\n}", "@a}{{}", "@x{@y{}}"] {
        assert_eq!(split_bibtex_entries(b), vec![b.to_string()]);
        assert_eq!(split_bibtex_entries(&format!("{}\n\n{}\n\n", b, b)), vec![b.to_string(), b.to_string()]);
    }
}
