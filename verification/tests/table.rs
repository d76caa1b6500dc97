use xlxscraper::cell::CellValue;
use xlxscraper::dom::{Document, DomNode, HtmlElement};
use xlxscraper::table::{extract_cell, find_form, find_table, parse_table, table_in, ParseError, Selectors};

const PAGE: &str = r#"<!DOCTYPE html>
<html><head><title>XLX</title></head><body>
<table class="table table-striped table-hover">
  <tr><td colspan="4"><form name="frmFilterCallSign" method="post"><input name="txtCallSign"></form></td></tr>
  <tr><th>#</th><th>Flag</th><th>Callsign</th><th></th></tr>
  <tr>
    <td> 1 </td>
    <td><a href="https://example.org"><img src="/img/flags/us.png" alt="US"></a></td>
    <td><a href="https://qrz.com/W1AW">W1AW</a></td>
    <td>Online</td>
  </tr>
  <tr>
    <td>2</td>
    <td><img src="/img/flags/fr.png" alt="FR"></td>
    <td>F4JDN</td>
  </tr>
  <tr><td></td><td></td></tr>
  <tr><th>only header</th></tr>
</table>
</body></html>"#;

fn text(s: &str) -> CellValue {
    CellValue::Text(s.to_string())
}

fn entry(k: &str, v: CellValue) -> (String, CellValue) {
    (k.to_string(), v)
}

#[test]
fn dashboard_table_is_extracted() {
    let sel = Selectors::build();
    let t = parse_table(PAGE, &sel).expect("table");
    assert_eq!(t.headers, vec!["#", "Flag", "Callsign", "column_3"]);
    assert_eq!(t.rows.len(), 2);
    assert_eq!(
        t.rows[0],
        vec![
            entry("#", CellValue::Number(1)),
            entry("Callsign", text("W1AW")),
            entry("Flag", text("US")),
            entry("Flag_img", text("/img/flags/us.png")),
            entry("column_3", text("Online")),
        ]
    );
    assert_eq!(
        t.rows[1],
        vec![
            entry("#", CellValue::Number(2)),
            entry("Callsign", text("F4JDN")),
            entry("Flag", text("FR")),
            entry("Flag_img", text("/img/flags/fr.png")),
        ]
    );
}

#[test]
fn keys_of_every_row_are_sorted() {
    let t = parse_table(PAGE, &Selectors::build()).unwrap();
    assert!(t.headers.len() >= 2);
    for row in &t.rows {
        assert!(!row.is_empty());
        for w in row.windows(2) {
            assert!(w[0].0 < w[1].0);
        }
        for (k, _) in row {
            assert!(t.headers.iter().any(|h| k == h || *k == format!("{h}_img")));
        }
    }
}

#[test]
fn missing_form_is_reported() {
    let page = "<table class=\"table\"><tr><th>a</th><th>b</th></tr></table>";
    assert_eq!(parse_table(page, &Selectors::build()).err(), Some(ParseError::FormNotFound));
}

#[test]
fn form_with_another_name_is_not_the_anchor() {
    let page = "<table class=\"table\"><tr><td><form name=\"other\"></form></td></tr><tr><th>a</th><th>b</th></tr></table>";
    assert_eq!(parse_table(page, &Selectors::build()).err(), Some(ParseError::FormNotFound));
}

#[test]
fn form_outside_a_table_is_reported() {
    let page = "<div><form name=\"frmFilterCallSign\"></form></div>";
    assert_eq!(parse_table(page, &Selectors::build()).err(), Some(ParseError::TableNotFound));
}

#[test]
fn table_class_must_contain_table() {
    let page = "<table class=\"grid\"><tr><td><form name=\"frmFilterCallSign\"></form></td></tr><tr><th>a</th><th>b</th></tr></table>";
    assert_eq!(parse_table(page, &Selectors::build()).err(), Some(ParseError::TableNotFound));
    let page = "<table><tr><td><form name=\"frmFilterCallSign\"></form></td></tr><tr><th>a</th><th>b</th></tr></table>";
    assert_eq!(parse_table(page, &Selectors::build()).err(), Some(ParseError::TableNotFound));
}

#[test]
fn class_word_containing_table_matches() {
    let page = "<table class=\"x mytables\"><tr><td><form name=\"frmFilterCallSign\"></form></td></tr><tr><th>a</th><th>b</th></tr><tr><td>1</td><td>2</td></tr></table>";
    let t = parse_table(page, &Selectors::build()).unwrap();
    assert_eq!(t.rows, vec![vec![entry("a", CellValue::Number(1)), entry("b", CellValue::Number(2))]]);
}

#[test]
fn nearest_matching_ancestor_table_is_used() {
    let page = "<table class=\"table outer\"><tr><th>o1</th><th>o2</th></tr><tr><td>\
        <table class=\"inner-table\"><tr><td><form name=\"frmFilterCallSign\"></form></td></tr>\
        <tr><th>i1</th><th>i2</th></tr><tr><td>x</td><td>y</td></tr></table>\
        </td></tr></table>";
    let t = parse_table(page, &Selectors::build()).unwrap();
    assert_eq!(t.headers, vec!["i1", "i2"]);
    assert_eq!(t.rows, vec![vec![entry("i1", text("x")), entry("i2", text("y"))]]);
}

#[test]
fn single_header_cell_rows_give_no_headers() {
    let page = "<table class=\"table\"><tr><td><form name=\"frmFilterCallSign\"></form></td></tr><tr><th>only</th></tr><tr><td>1</td></tr></table>";
    assert_eq!(parse_table(page, &Selectors::build()).err(), Some(ParseError::NoHeaders));
}

#[test]
fn only_the_first_header_row_names_the_columns() {
    let page = "<table class=\"table\"><tr><td><form name=\"frmFilterCallSign\"></form></td></tr>\
        <tr><th>a</th><th>b</th></tr><tr><td>1</td><td>2</td></tr>\
        <tr><th>c</th><th>d</th></tr><tr><td>3</td><td>4</td><td>5</td></tr></table>";
    let t = parse_table(page, &Selectors::build()).unwrap();
    assert_eq!(t.headers, vec!["a", "b"]);
    assert_eq!(
        t.rows,
        vec![
            vec![entry("a", CellValue::Number(1)), entry("b", CellValue::Number(2))],
            vec![entry("a", CellValue::Number(3)), entry("b", CellValue::Number(4))],
        ]
    );
}

#[test]
fn rows_without_values_are_dropped() {
    let page = "<table class=\"table\"><tr><td><form name=\"frmFilterCallSign\"></form></td></tr>\
        <tr><th>a</th><th>b</th></tr><tr><td> </td><td></td></tr><tr></tr></table>";
    let t = parse_table(page, &Selectors::build()).unwrap();
    assert!(t.rows.is_empty());
}

#[test]
fn cell_text_priorities() {
    let page = "<table class=\"table\"><tr><td><form name=\"frmFilterCallSign\"></form></td></tr>\
        <tr><th>direct</th><th>link</th><th>linkalt</th><th>alt</th><th>noalt</th></tr>\
        <tr><td>text <img src=\"a.png\" alt=\"A\"></td>\
        <td><a>  </a><img alt=\"later\"></td>\
        <td><a><img alt=\"inlink\"></a><img src=\"s.png\" alt=\"outer\"></td>\
        <td><img alt=\"alone\"></td>\
        <td><img src=\"only.png\"></td></tr></table>";
    let t = parse_table(page, &Selectors::build()).unwrap();
    assert_eq!(
        t.rows,
        vec![vec![
            entry("alt", text("alone")),
            entry("direct", text("text")),
            entry("direct_img", text("a.png")),
            entry("link", text("later")),
            entry("linkalt", text("inlink")),
            entry("noalt", text("")),
            entry("noalt_img", text("only.png")),
        ]]
    );
}

#[test]
fn document_navigation() {
    let doc = Document::parse("<div class=\"c\"><p>a<b>b</b></p><p>c</p></div>");
    let sel = Selectors::build();
    assert_eq!(find_form(&doc, &sel), None);
    let body = (0..doc.len())
        .find(|&i| doc.element(i).map(|e| e.name == "div").unwrap_or(false))
        .unwrap();
    let ps = doc.select(body, &"p".to_string());
    assert_eq!(ps.len(), 2);
    assert_eq!(doc.text(body), "abc".chars().collect::<Vec<_>>());
    assert_eq!(doc.text(ps[1]), vec!['c']);
    assert_eq!(doc.select_first(body, &"b".to_string()).map(|b| doc.parent(b)), Some(Some(ps[0])));
    assert_eq!(doc.ancestors(ps[0])[0], body);
    let names: Vec<String> = doc.ancestors(ps[0]).iter().map(|&a| doc.element(a).unwrap().name.clone()).collect();
    assert_eq!(names, vec!["div", "body", "html"]);
    assert!(doc.is_layered());
    assert_eq!(doc.subtree(ps[1]).len(), 2);
    assert_eq!(doc.element(body).unwrap().attr(&"class".to_string()).map(|s| s.as_str()), Some("c"));
    assert_eq!(doc.element(body).unwrap().attrs, vec![("class".to_string(), "c".to_string())]);
}

#[test]
fn extract_cell_reads_text_and_image() {
    let doc = Document::parse("<table><tr><td> <a href=\"#\"> W1AW </a> <img src=\"x.png\" alt=\"X\"></td></tr></table>");
    let sel = Selectors::build();
    let td = (0..doc.len())
        .find(|&i| doc.element(i).map(|e| e.name == "td").unwrap_or(false))
        .unwrap();
    let c = extract_cell(&doc, td, &sel);
    assert_eq!(c.text, Some("W1AW".chars().collect()));
    assert_eq!(c.img_src, Some("x.png".to_string()));
}

#[test]
fn table_in_and_find_table_agree_with_parse_table() {
    let doc = Document::parse(PAGE);
    let sel = Selectors::build();
    let form = find_form(&doc, &sel).unwrap();
    assert!(find_table(&doc, form).is_some());
    let a = table_in(&doc, &sel).unwrap();
    let b = parse_table(PAGE, &sel).unwrap();
    assert_eq!(a.headers, b.headers);
    assert_eq!(a.rows, b.rows);
}

fn element(name: &str, attrs: &[(&str, &str)], children: Vec<usize>) -> DomNode {
    DomNode {
        children,
        element: Some(HtmlElement {
            name: name.to_string(),
            attrs: attrs.iter().map(|(k, v)| (k.to_string(), v.to_string())).collect(),
        }),
        text: None,
    }
}

fn text_node(t: &str) -> DomNode {
    DomNode { children: vec![], element: None, text: Some(t.to_string()) }
}

#[test]
fn hand_built_document_gives_its_table() {
    // 0 root, 1 table, 2 tr(form), 3 td, 4 form, 5 tr(header), 6 th a, 7 "a",
    // 8 th b, 9 "b", 10 tr(data), 11 td, 12 "1", 13 td, 14 "x", 15 td, 16 "extra"
    let none: &[(&str, &str)] = &[];
    let nodes = vec![
        DomNode { children: vec![1], element: None, text: None },
        element("table", &[("id", "t"), ("class", "table")], vec![2, 5, 10]),
        element("tr", none, vec![3]),
        element("td", none, vec![4]),
        element("form", &[("method", "post"), ("name", "frmFilterCallSign")], vec![]),
        element("tr", none, vec![6, 8]),
        element("th", none, vec![7]),
        text_node("a"),
        element("th", none, vec![9]),
        text_node("b"),
        element("tr", none, vec![11, 13, 15]),
        element("td", none, vec![12]),
        text_node("1"),
        element("td", none, vec![14]),
        text_node("x"),
        element("td", none, vec![16]),
        text_node("extra"),
    ];
    let doc = Document::from_nodes(nodes).expect("positions in bounds");
    let t = table_in(&doc, &Selectors::build()).unwrap();
    assert_eq!(t.headers, vec!["a", "b"]);
    assert_eq!(t.rows, vec![vec![entry("a", CellValue::Number(1)), entry("b", text("x"))]]);
}

#[test]
fn hand_built_document_with_a_dangling_child_is_refused() {
    let nodes = vec![DomNode { children: vec![1, 7], element: None, text: None }, text_node("t")];
    assert!(Document::from_nodes(nodes).is_none());
    assert!(Document::from_nodes(vec![]).is_some());
}

#[test]
fn extra_cells_beyond_the_columns_are_ignored() {
    let sel = Selectors::build();
    let base = "<table class=\"table\"><tr><td><form name=\"frmFilterCallSign\"></form></td></tr>\
        <tr><th>a</th><th>b</th></tr><tr><td>1</td><td>2</td>";
    let a = parse_table(&format!("{base}</tr></table>"), &sel).unwrap();
    let b = parse_table(&format!("{base}<td>x</td><td><img src=\"i.png\"></td></tr></table>"), &sel).unwrap();
    assert_eq!(a.rows, b.rows);
    assert_eq!(a.headers, b.headers);
}

#[test]
fn attribute_lookup_takes_the_first_match() {
    let e = HtmlElement {
        name: "img".to_string(),
        attrs: vec![("src".to_string(), "a".to_string()), ("alt".to_string(), "b".to_string())],
    };
    assert_eq!(e.attr(&"alt".to_string()).map(|s| s.as_str()), Some("b"));
    assert_eq!(e.attr(&"src".to_string()).map(|s| s.as_str()), Some("a"));
    assert_eq!(e.attr(&"class".to_string()), None);
}

#[test]
fn text_under_a_node_lies_within_its_ancestors_text() {
    let doc = Document::parse("<div>x<p>a<b>b</b>c</p>y</div>");
    let div = (0..doc.len())
        .find(|&i| doc.element(i).map(|e| e.name == "div").unwrap_or(false))
        .unwrap();
    let p = doc.select_first(div, &"p".to_string()).unwrap();
    let outer: String = doc.text(div).into_iter().collect();
    let inner: String = doc.text(p).into_iter().collect();
    assert_eq!(inner, "abc");
    assert!(outer.contains(&inner));
}

#[test]
fn image_column_without_alt_has_both_keys() {
    let page = r#"<table class="table"><tr><th>Callsign</th><th>Flag</th></tr><tr><td>W1AW</td><td><img src="/us.png"></td></tr><tr><td><form name="frmFilterCallSign"></form></td></tr></table>"#;
    let t = parse_table(page, &Selectors::build()).unwrap();
    assert_eq!(
        t.rows,
        vec![vec![
            entry("Callsign", text("W1AW")),
            entry("Flag", text("")),
            entry("Flag_img", text("/us.png")),
        ]]
    );
}

#[test]
fn cyclic_hand_built_document_is_not_layered() {
    let nodes = vec![
        DomNode { children: vec![1], element: None, text: None },
        DomNode { children: vec![0], element: None, text: None },
    ];
    let doc = Document::from_nodes(nodes).unwrap();
    assert!(!doc.is_layered());
    assert!(Document::parse(PAGE).is_layered());
}
