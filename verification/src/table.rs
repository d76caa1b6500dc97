//! Extraction of the data table anchored by the call-sign filter form.
use vstd::prelude::*;

use crate::cell::{cell_value_of, CellValue, CellView};
use crate::laws::{lemma_table_well_formed, table_well_formed};
use crate::dom::{attr_of, html_tree, ancestors, first_of, opt_chars, parent_of, select, text_of, Document, NodeView};
use crate::row::{row_insert, row_set, row_view, RowSpec};
use crate::text::{string_from_chars, contains_chars, is_solid, lemma_word_contains_iff_contains, some_word_contains, chars_of, copy_chars, decimal, push_decimal, trim, trim_chars};

verus! {

/// The element names and the form name that locate and read the table.
pub struct Selectors {
    /// Tag of the anchor form.
    pub form: String,
    /// Value of the anchor form's `name` attribute.
    pub form_name: String,
    pub row: String,
    pub th: String,
    pub td: String,
    pub img: String,
    pub a: String,
}

pub struct SelectorsView {
    pub form: Seq<char>,
    pub form_name: Seq<char>,
    pub row: Seq<char>,
    pub th: Seq<char>,
    pub td: Seq<char>,
    pub img: Seq<char>,
    pub a: Seq<char>,
}

impl View for Selectors {
    type V = SelectorsView;

    open spec fn view(&self) -> SelectorsView {
        SelectorsView {
            form: self.form@,
            form_name: self.form_name@,
            row: self.row@,
            th: self.th@,
            td: self.td@,
            img: self.img@,
            a: self.a@,
        }
    }
}

/// The selectors of an XLX dashboard: `form[name="frmFilterCallSign"]`, `tr`,
/// `th`, `td`, `img` and `a`.
pub open spec fn dashboard_selectors() -> SelectorsView {
    SelectorsView {
        form: seq!['f', 'o', 'r', 'm'],
        form_name: seq![
            'f', 'r', 'm', 'F', 'i', 'l', 't', 'e', 'r', 'C', 'a', 'l', 'l', 'S', 'i', 'g', 'n'
        ],
        row: seq!['t', 'r'],
        th: seq!['t', 'h'],
        td: seq!['t', 'd'],
        img: seq!['i', 'm', 'g'],
        a: seq!['a'],
    }
}

impl Selectors {
    /// The selectors of an XLX dashboard.
    pub fn build() -> (s: Selectors)
        ensures
            s@ == dashboard_selectors(),
    {
        let s = Selectors {
            form: "form".to_owned(),
            form_name: "frmFilterCallSign".to_owned(),
            row: "tr".to_owned(),
            th: "th".to_owned(),
            td: "td".to_owned(),
            img: "img".to_owned(),
            a: "a".to_owned(),
        };
        proof {
            reveal_strlit("form");
            reveal_strlit("frmFilterCallSign");
            reveal_strlit("tr");
            reveal_strlit("th");
            reveal_strlit("td");
            reveal_strlit("img");
            reveal_strlit("a");
        }
        assert(s@.form =~= dashboard_selectors().form);
        assert(s@.form_name =~= dashboard_selectors().form_name);
        assert(s@.row =~= dashboard_selectors().row);
        assert(s@.th =~= dashboard_selectors().th);
        assert(s@.td =~= dashboard_selectors().td);
        assert(s@.img =~= dashboard_selectors().img);
        assert(s@.a =~= dashboard_selectors().a);
        s
    }
}

/// `name`.
pub open spec fn name_key() -> Seq<char> {
    seq!['n', 'a', 'm', 'e']
}

/// `class`.
pub open spec fn class_key() -> Seq<char> {
    seq!['c', 'l', 'a', 's', 's']
}

/// `src`.
pub open spec fn src_key() -> Seq<char> {
    seq!['s', 'r', 'c']
}

/// `alt`.
pub open spec fn alt_key() -> Seq<char> {
    seq!['a', 'l', 't']
}

/// The attributes that the extraction reads.
pub enum AttrKey {
    Name,
    Class,
    Src,
    Alt,
}

/// The name of an attribute that the extraction reads.
pub open spec fn attr_key(k: AttrKey) -> Seq<char> {
    match k {
        AttrKey::Name => name_key(),
        AttrKey::Class => class_key(),
        AttrKey::Src => src_key(),
        AttrKey::Alt => alt_key(),
    }
}

/// The name of attribute `k`, as a string.
pub fn key_string(k: AttrKey) -> (s: String)
    ensures
        s@ == attr_key(k),
{
    let s = match k {
        AttrKey::Name => "name".to_owned(),
        AttrKey::Class => "class".to_owned(),
        AttrKey::Src => "src".to_owned(),
        AttrKey::Alt => "alt".to_owned(),
    };
    proof {
        reveal_strlit("name");
        reveal_strlit("class");
        reveal_strlit("src");
        reveal_strlit("alt");
    }
    assert(s@ =~= attr_key(k));
    s
}

/// The `src` attribute of node `j`, when there is such an element.
pub open spec fn src_of(t: Seq<NodeView>, j: Option<usize>) -> Option<Seq<char>> {
    match j {
        Some(j) => match t[j as int].element {
            Some(e) => attr_of(e, src_key()),
            None => None,
        },
        None => None,
    }
}

/// The `alt` attribute of node `j`, when there is such an element.
pub open spec fn alt_of(t: Seq<NodeView>, j: Option<usize>) -> Option<Seq<char>> {
    match j {
        Some(j) => match t[j as int].element {
            Some(e) => attr_of(e, alt_key()),
            None => None,
        },
        None => None,
    }
}

/// What is read from one cell: its visible text and the `src` of its image.
pub struct CellDataView {
    pub text: Option<Seq<char>>,
    pub img_src: Option<Seq<char>>,
}

/// What cell `cell` yields. The image is the first `img` anywhere in the cell.
/// The text is, in this order of preference: the cell's own text, trimmed, if
/// not empty; the trimmed text of the first link in the cell, if not empty; the
/// `alt` of the first image in that link, if it has one; the `alt` of the
/// cell's first image.
pub open spec fn cell_data(t: Seq<NodeView>, sel: SelectorsView, cell: usize) -> CellDataView {
    let img = first_of(select(t, cell, sel.img));
    let direct = trim(text_of(t, cell));
    let fallback = alt_of(t, img);
    let text = if direct.len() > 0 {
        Some(direct)
    } else {
        match first_of(select(t, cell, sel.a)) {
            Some(link) => {
                let link_text = trim(text_of(t, link));
                if link_text.len() > 0 {
                    Some(link_text)
                } else {
                    match alt_of(t, first_of(select(t, link, sel.img))) {
                        Some(alt) => Some(alt),
                        None => fallback,
                    }
                }
            },
            None => fallback,
        }
    };
    CellDataView { text, img_src: src_of(t, img) }
}

/// Everything read from a single cell.
pub struct CellData {
    /// Visible text (direct text, link text, or image alt, in that order).
    pub text: Option<Vec<char>>,
    /// `src` of the first `<img>` anywhere in the cell.
    pub img_src: Option<String>,
}

/// The characters of an optional character vector.
pub open spec fn opt_vec_chars(o: Option<Vec<char>>) -> Option<Seq<char>> {
    match o {
        Some(v) => Some(v@),
        None => None,
    }
}

impl View for CellData {
    type V = CellDataView;

    open spec fn view(&self) -> CellDataView {
        CellDataView { text: opt_vec_chars(self.text), img_src: opt_chars(self.img_src) }
    }
}

fn src_attr(doc: &Document, j: Option<usize>) -> (r: Option<String>)
    requires
        j matches Some(k) ==> k < doc@.len(),
    ensures
        opt_chars(r) == src_of(doc@, j),
{
    match j {
        Some(k) => match doc.element(k) {
            Some(e) => match e.attr(&key_string(AttrKey::Src)) {
                Some(s) => Some(s.clone()),
                None => None,
            },
            None => None,
        },
        None => None,
    }
}

fn alt_attr(doc: &Document, j: Option<usize>) -> (r: Option<Vec<char>>)
    requires
        j matches Some(k) ==> k < doc@.len(),
    ensures
        opt_vec_chars(r) == alt_of(doc@, j),
{
    match j {
        Some(k) => match doc.element(k) {
            Some(e) => match e.attr(&key_string(AttrKey::Alt)) {
                Some(s) => Some(chars_of(s.as_str())),
                None => None,
            },
            None => None,
        },
        None => None,
    }
}

/// Reads the text and the image source of cell `cell`.
pub fn extract_cell(doc: &Document, cell: usize, sel: &Selectors) -> (c: CellData)
    requires
        cell < doc@.len(),
    ensures
        c@ == cell_data(doc@, sel@, cell),
{
    let img = doc.select_first(cell, &sel.img);
    let img_src = src_attr(doc, img);
    let direct = trim_chars(doc.text(cell).as_slice());
    if direct.len() > 0 {
        return CellData { text: Some(direct), img_src };
    }
    if let Some(link) = doc.select_first(cell, &sel.a) {
        let link_text = trim_chars(doc.text(link).as_slice());
        if link_text.len() > 0 {
            return CellData { text: Some(link_text), img_src };
        }
        let link_img = doc.select_first(link, &sel.img);
        if let Some(alt) = alt_attr(doc, link_img) {
            return CellData { text: Some(alt), img_src };
        }
    }
    CellData { text: alt_attr(doc, img), img_src }
}

/// `column_`, the prefix of the names given to header cells without text.
pub open spec fn column_prefix() -> Seq<char> {
    seq!['c', 'o', 'l', 'u', 'm', 'n', '_']
}

/// `_img`, the suffix of the key under which a column's image source is stored.
pub open spec fn img_suffix() -> Seq<char> {
    seq!['_', 'i', 'm', 'g']
}

/// The name of the `i`-th column, read from header cell `th`: its text if that
/// is not empty, else `column_<i>`.
pub open spec fn header_name(t: Seq<NodeView>, sel: SelectorsView, th: usize, i: nat) -> Seq<char> {
    match cell_data(t, sel, th).text {
        Some(s) => if s.len() > 0 {
            s
        } else {
            column_prefix() + decimal(i)
        },
        None => column_prefix() + decimal(i),
    }
}

/// The column names read from the header cells `ths`.
pub open spec fn header_names(t: Seq<NodeView>, sel: SelectorsView, ths: Seq<usize>) -> Seq<Seq<char>> {
    Seq::new(ths.len(), |i: int| header_name(t, sel, ths[i], i as nat))
}

/// The value that cell data `c` gives its column: the value of its text; or,
/// when the text gives none but the cell has an image, empty text, so that a
/// column holding an image always yields both keys, `<column>` and
/// `<column>_img`.
pub open spec fn column_value(c: CellDataView) -> Option<CellView> {
    let from_text = match c.text {
        Some(s) => cell_value_of(s),
        None => None,
    };
    match from_text {
        Some(v) => Some(v),
        None => if c.img_src is Some {
            Some(CellView::Text(seq![]))
        } else {
            None
        },
    }
}

/// The row built from the first `k` data cells `tds`, each paired with the
/// column of the same position: a cell's column value (see [`column_value`]) is
/// set under the column's name, and its image source under the name followed by
/// `_img`.
pub open spec fn row_upto(
    t: Seq<NodeView>,
    sel: SelectorsView,
    tds: Seq<usize>,
    headers: Seq<Seq<char>>,
    k: nat,
) -> RowSpec
    decreases k,
{
    if k == 0 {
        seq![]
    } else {
        let prev = row_upto(t, sel, tds, headers, (k - 1) as nat);
        let cell = cell_data(t, sel, tds[k - 1]);
        let h = headers[k - 1];
        let with_text = match column_value(cell) {
            Some(v) => row_insert(prev, h, v),
            None => prev,
        };
        match cell.img_src {
            Some(src) => row_insert(with_text, h + img_suffix(), CellView::Text(src)),
            None => with_text,
        }
    }
}

/// The row that the data cells `tds` give under the columns `headers` (cells and
/// columns paired by position, the surplus of either ignored).
pub open spec fn build_row(
    t: Seq<NodeView>,
    sel: SelectorsView,
    tds: Seq<usize>,
    headers: Seq<Seq<char>>,
) -> RowSpec {
    row_upto(t, sel, tds, headers, if tds.len() < headers.len() { tds.len() } else { headers.len() })
}

/// The characters of each of `v`.
pub open spec fn chars_seqs(v: Seq<Vec<char>>) -> Seq<Seq<char>> {
    v.map_values(|x: Vec<char>| x@)
}

/// The entries of each of `v`.
pub open spec fn row_views(v: Seq<Vec<(Vec<char>, CellValue)>>) -> Seq<RowSpec> {
    v.map_values(|r: Vec<(Vec<char>, CellValue)>| row_view(r@))
}

fn header_cell_name(doc: &Document, sel: &Selectors, th: usize, i: usize) -> (h: Vec<char>)
    requires
        th < doc@.len(),
    ensures
        h@ == header_name(doc@, sel@, th, i as nat),
{
    let cell = extract_cell(doc, th, sel);
    match cell.text {
        Some(s) => {
            if s.len() > 0 {
                return s;
            }
        },
        None => {},
    }
    let mut name: Vec<char> = vec!['c', 'o', 'l', 'u', 'm', 'n', '_'];
    assert(name@ =~= column_prefix());
    push_decimal(i, &mut name);
    name
}

fn read_headers(doc: &Document, sel: &Selectors, ths: &Vec<usize>) -> (hs: Vec<Vec<char>>)
    requires
        forall|k: int| 0 <= k < ths@.len() ==> #[trigger] ths@[k] < doc@.len(),
    ensures
        chars_seqs(hs@) == header_names(doc@, sel@, ths@),
{
    let mut hs: Vec<Vec<char>> = Vec::new();
    let mut i: usize = 0;
    while i < ths.len()
        invariant
            i <= ths@.len(),
            forall|k: int| 0 <= k < ths@.len() ==> #[trigger] ths@[k] < doc@.len(),
            chars_seqs(hs@) == header_names(doc@, sel@, ths@).take(i as int),
        decreases ths@.len() - i,
    {
        let h = header_cell_name(doc, sel, ths[i], i);
        let ghost prev = hs@;
        assert(chars_seqs(prev).len() == prev.len());
        assert(prev.len() == i);
        hs.push(h);
        assert(hs@.len() == i + 1);
        assert(header_names(doc@, sel@, ths@)[i as int] == header_name(
            doc@,
            sel@,
            ths@[i as int],
            i as nat,
        ));
        assert forall|k: int| 0 <= k < i implies #[trigger] chars_seqs(hs@)[k] == chars_seqs(prev)[k] by {
            assert(hs@[k] == prev[k]);
        }
        assert(chars_seqs(hs@) =~= header_names(doc@, sel@, ths@).take(i + 1));
        i = i + 1;
    }
    assert(header_names(doc@, sel@, ths@).take(ths@.len() as int) =~= header_names(
        doc@,
        sel@,
        ths@,
    ));
    hs
}

fn read_row(doc: &Document, sel: &Selectors, tds: &Vec<usize>, headers: &Vec<Vec<char>>) -> (row: Vec<
    (Vec<char>, CellValue),
>)
    requires
        forall|k: int| 0 <= k < tds@.len() ==> #[trigger] tds@[k] < doc@.len(),
    ensures
        row_view(row@) == build_row(doc@, sel@, tds@, chars_seqs(headers@)),
{
    let ghost hv = chars_seqs(headers@);
    let m = if tds.len() < headers.len() { tds.len() } else { headers.len() };
    let mut row: Vec<(Vec<char>, CellValue)> = Vec::new();
    let mut k: usize = 0;
    assert(row_view(row@) =~= row_upto(doc@, sel@, tds@, hv, 0));
    while k < m
        invariant
            m <= tds@.len(),
            m <= headers@.len(),
            hv == chars_seqs(headers@),
            k <= m,
            forall|j: int| 0 <= j < tds@.len() ==> #[trigger] tds@[j] < doc@.len(),
            row_view(row@) == row_upto(doc@, sel@, tds@, hv, k as nat),
        decreases m - k,
    {
        let cell = extract_cell(doc, tds[k], sel);
        assert(hv[k as int] == headers@[k as int]@);
        let from_text = match &cell.text {
            Some(s) => CellValue::from_chars(s.as_slice()),
            None => None,
        };
        let value = match from_text {
            Some(v) => Some(v),
            None => if cell.img_src.is_some() {
                Some(CellValue::Text(String::new()))
            } else {
                None
            },
        };
        match value {
            Some(v) => {
                row_set(&mut row, copy_chars(headers[k].as_slice()), v);
            },
            None => {},
        }
        match cell.img_src {
            Some(src) => {
                let mut key = copy_chars(headers[k].as_slice());
                key.push('_');
                key.push('i');
                key.push('m');
                key.push('g');
                assert(key@ =~= hv[k as int] + img_suffix());
                row_set(&mut row, key, CellValue::Text(src));
            },
            None => {},
        }
        k = k + 1;
    }
    row
}

/// What the scan of the table's rows has gathered so far.
pub struct ScanState {
    pub headers: Seq<Seq<char>>,
    pub rows: Seq<RowSpec>,
    pub found: bool,
}

/// The scan after row `tr`. The first row with two or more header cells gives
/// the column names; other header rows, and rows before the column names, are
/// skipped; a later row with data cells adds the row they build, unless it is
/// empty.
pub open spec fn scan_step(t: Seq<NodeView>, sel: SelectorsView, st: ScanState, tr: usize) -> ScanState {
    let ths = select(t, tr, sel.th);
    if ths.len() > 0 {
        if !st.found && ths.len() > 1 {
            ScanState { headers: header_names(t, sel, ths), rows: st.rows, found: true }
        } else {
            st
        }
    } else if !st.found {
        st
    } else {
        let tds = select(t, tr, sel.td);
        if tds.len() == 0 {
            st
        } else {
            let row = build_row(t, sel, tds, st.headers);
            if row.len() > 0 {
                ScanState { headers: st.headers, rows: st.rows.push(row), found: st.found }
            } else {
                st
            }
        }
    }
}

/// The scan of the rows `trs`, in order.
pub open spec fn scan_rows(t: Seq<NodeView>, sel: SelectorsView, trs: Seq<usize>) -> ScanState
    decreases trs.len(),
{
    if trs.len() == 0 {
        ScanState { headers: seq![], rows: seq![], found: false }
    } else {
        scan_step(t, sel, scan_rows(t, sel, trs.drop_last()), trs.last())
    }
}

/// `table`: the tag name, and the word sought in the class, of the table element.
pub open spec fn table_word() -> Seq<char> {
    seq!['t', 'a', 'b', 'l', 'e']
}

/// Node `j` is a `<table>` with a class attribute one of whose words contains
/// `table`.
pub open spec fn is_table_box(t: Seq<NodeView>, j: usize) -> bool {
    &&& t[j as int].element matches Some(e)
    &&& e.name == table_word()
    &&& attr_of(e, class_key()) matches Some(c)
    &&& some_word_contains(c, table_word())
}

/// The first of `ids` that is a table box.
pub open spec fn first_table_among(t: Seq<NodeView>, ids: Seq<usize>) -> Option<usize>
    decreases ids.len(),
{
    if ids.len() == 0 {
        None
    } else if is_table_box(t, ids[0]) {
        Some(ids[0])
    } else {
        first_table_among(t, ids.drop_first())
    }
}

/// Node `j` is an attached element with the anchor form's tag and name.
pub open spec fn is_anchor(t: Seq<NodeView>, sel: SelectorsView, j: usize) -> bool {
    &&& t[j as int].element matches Some(e)
    &&& e.name == sel.form
    &&& attr_of(e, name_key()) == Some(sel.form_name)
    &&& parent_of(t, j) is Some
}

/// The first anchor among the first `p` nodes of the arena.
pub open spec fn first_anchor_below(t: Seq<NodeView>, sel: SelectorsView, p: nat) -> Option<usize>
    decreases p,
{
    if p == 0 {
        None
    } else {
        match first_anchor_below(t, sel, (p - 1) as nat) {
            Some(q) => Some(q),
            None => if is_anchor(t, sel, (p - 1) as usize) {
                Some((p - 1) as usize)
            } else {
                None
            },
        }
    }
}

/// The anchor form: the first matching element in arena order, as
/// `Html::select` finds it.
pub open spec fn form_anchor(t: Seq<NodeView>, sel: SelectorsView) -> Option<usize> {
    first_anchor_below(t, sel, t.len())
}

/// Why a page yields no table.
#[derive(Debug, PartialEq, Eq)]
pub enum ParseError {
    /// No `form[name=frmFilterCallSign]`.
    FormNotFound,
    /// No ancestor `<table>` of the form with a class containing `table`.
    TableNotFound,
    /// No header row with two or more header cells.
    NoHeaders,
}

/// The column names and the rows of a table.
pub struct TableView {
    pub headers: Seq<Seq<char>>,
    pub rows: Seq<RowSpec>,
}

/// The table that the document `t` holds, or why it holds none.
pub open spec fn table_of(t: Seq<NodeView>, sel: SelectorsView) -> Result<TableView, ParseError> {
    match form_anchor(t, sel) {
        None => Err(ParseError::FormNotFound),
        Some(form) => match first_table_among(t, ancestors(t, form, t.len())) {
            None => Err(ParseError::TableNotFound),
            Some(table) => {
                let st = scan_rows(t, sel, select(t, table, sel.row));
                if st.headers.len() == 0 {
                    Err(ParseError::NoHeaders)
                } else {
                    Ok(TableView { headers: st.headers, rows: st.rows })
                }
            },
        },
    }
}

/// A parsed table: its column names and its rows, each row's entries sorted by
/// key.
pub struct ParsedTable {
    pub headers: Vec<String>,
    pub rows: Vec<Vec<(String, CellValue)>>,
}

/// The entries of a public row.
pub open spec fn entries_view(row: Seq<(String, CellValue)>) -> RowSpec {
    row.map_values(|e: (String, CellValue)| (e.0@, e.1@))
}

impl View for ParsedTable {
    type V = TableView;

    open spec fn view(&self) -> TableView {
        TableView {
            headers: self.headers@.map_values(|h: String| h@),
            rows: self.rows@.map_values(|r: Vec<(String, CellValue)>| entries_view(r@)),
        }
    }
}

/// The anchor form of `doc`.
pub fn find_form(doc: &Document, sel: &Selectors) -> (r: Option<usize>)
    ensures
        r == form_anchor(doc@, sel@),
        r matches Some(j) ==> j < doc@.len(),
{
    let n = doc.len();
    let mut p: usize = 0;
    while p < n
        invariant
            n == doc@.len(),
            p <= n,
            first_anchor_below(doc@, sel@, p as nat) is None,
        decreases n - p,
    {
        let hit = match doc.element(p) {
            Some(e) => e.name == sel.form && match e.attr(&key_string(AttrKey::Name)) {
                Some(v) => *v == sel.form_name,
                None => false,
            },
            None => false,
        };
        if hit && doc.parent(p).is_some() {
            assert(first_anchor_below(doc@, sel@, (p + 1) as nat) == Some(p));
            proof { lemma_first_anchor_stable(doc@, sel@, (p + 1) as nat, n as nat); }
            return Some(p);
        }
        p = p + 1;
    }
    None
}

proof fn lemma_first_anchor_stable(t: Seq<NodeView>, sel: SelectorsView, p: nat, q: nat)
    requires
        p <= q,
        first_anchor_below(t, sel, p) is Some,
    ensures
        first_anchor_below(t, sel, q) == first_anchor_below(t, sel, p),
    decreases q - p,
{
    if p < q {
        lemma_first_anchor_stable(t, sel, p, (q - 1) as nat);
    }
}

/// Whether node `j` is a table box.
fn table_box(doc: &Document, j: usize) -> (r: bool)
    requires
        j < doc@.len(),
    ensures
        r == is_table_box(doc@, j),
{
    let table = "table".to_owned();
    proof {
        reveal_strlit("table");
    }
    assert(table@ =~= table_word());
    match doc.element(j) {
        Some(e) => {
            if e.name != table {
                return false;
            }
            match e.attr(&key_string(AttrKey::Class)) {
                Some(c) => {
                    let chars = chars_of(c.as_str());
                    let word: Vec<char> = vec!['t', 'a', 'b', 'l', 'e'];
                    assert(word@ =~= table_word());
                    proof {
                        assert(is_solid(table_word()));
                        lemma_word_contains_iff_contains(c@, table_word());
                    }
                    contains_chars(chars.as_slice(), word.as_slice())
                },
                None => false,
            }
        },
        None => false,
    }
}

/// The nearest ancestor of `form` that is a table box.
pub fn find_table(doc: &Document, form: usize) -> (r: Option<usize>)
    requires
        form < doc@.len(),
    ensures
        r == first_table_among(doc@, ancestors(doc@, form, doc@.len())),
        r matches Some(j) ==> j < doc@.len(),
{
    let ids = doc.ancestors(form);
    let mut k: usize = 0;
    assert(ids@.skip(0) =~= ids@);
    while k < ids.len()
        invariant
            ids@ == ancestors(doc@, form, doc@.len()),
            k <= ids@.len(),
            forall|j: int| 0 <= j < ids@.len() ==> #[trigger] ids@[j] < doc@.len(),
            first_table_among(doc@, ids@) == first_table_among(doc@, ids@.skip(k as int)),
        decreases ids@.len() - k,
    {
        assert(ids@.skip(k as int)[0] == ids@[k as int]);
        if table_box(doc, ids[k]) {
            return Some(ids[k]);
        }
        assert(ids@.skip(k as int).drop_first() =~= ids@.skip(k + 1));
        k = k + 1;
    }
    None
}

/// Scans the rows of table `table`.
fn scan_table(doc: &Document, sel: &Selectors, table: usize) -> (res: (
    Vec<Vec<char>>,
    Vec<Vec<(Vec<char>, CellValue)>>,
))
    requires
        table < doc@.len(),
    ensures
        chars_seqs(res.0@) == scan_rows(doc@, sel@, select(doc@, table, sel@.row)).headers,
        row_views(res.1@) == scan_rows(doc@, sel@, select(doc@, table, sel@.row)).rows,
{
    let trs = doc.select(table, &sel.row);
    let mut headers: Vec<Vec<char>> = Vec::new();
    let mut rows: Vec<Vec<(Vec<char>, CellValue)>> = Vec::new();
    let mut found = false;
    let mut k: usize = 0;
    assert(chars_seqs(headers@) =~= Seq::<Seq<char>>::empty());
    assert(row_views(rows@) =~= Seq::<RowSpec>::empty());
    assert(trs@.take(0) =~= Seq::<usize>::empty());
    while k < trs.len()
        invariant
            trs@ == select(doc@, table, sel@.row),
            k <= trs@.len(),
            forall|j: int| 0 <= j < trs@.len() ==> #[trigger] trs@[j] < doc@.len(),
            chars_seqs(headers@) == scan_rows(doc@, sel@, trs@.take(k as int)).headers,
            row_views(rows@) == scan_rows(doc@, sel@, trs@.take(k as int)).rows,
            found == scan_rows(doc@, sel@, trs@.take(k as int)).found,
        decreases trs@.len() - k,
    {
        let tr = trs[k];
        assert(trs@.take(k + 1).drop_last() =~= trs@.take(k as int));
        assert(trs@.take(k + 1).last() == tr);
        let ths = doc.select(tr, &sel.th);
        if ths.len() > 0 {
            if !found && ths.len() > 1 {
                headers = read_headers(doc, sel, &ths);
                found = true;
            }
        } else if found {
            let tds = doc.select(tr, &sel.td);
            if tds.len() > 0 {
                let row = read_row(doc, sel, &tds, &headers);
                if row.len() > 0 {
                    let ghost before = rows@;
                    let ghost rv = row_view(row@);
                    assert(rv.len() == row@.len());
                    rows.push(row);
                    assert(row_views(rows@) =~= row_views(before).push(rv));
                }
            }
        }
        k = k + 1;
    }
    assert(trs@.take(trs@.len() as int) =~= trs@);
    (headers, rows)
}

fn publish_row(row: &Vec<(Vec<char>, CellValue)>) -> (out: Vec<(String, CellValue)>)
    ensures
        entries_view(out@) == row_view(row@),
{
    let mut out: Vec<(String, CellValue)> = Vec::new();
    let mut i: usize = 0;
    while i < row.len()
        invariant
            i <= row@.len(),
            entries_view(out@) == row_view(row@).take(i as int),
        decreases row@.len() - i,
    {
        let key = string_from_chars(row[i].0.as_slice());
        let value = row[i].1.duplicate();
        let ghost before = out@;
        out.push((key, value));
        assert(entries_view(out@) =~= row_view(row@).take(i + 1)) by {
            assert(entries_view(out@) =~= entries_view(before).push((row@[i as int].0@, row@[i as int].1@)));
        }
        i = i + 1;
    }
    assert(row_view(row@).take(row@.len() as int) =~= row_view(row@));
    out
}

fn publish(headers: &Vec<Vec<char>>, rows: &Vec<Vec<(Vec<char>, CellValue)>>) -> (t: ParsedTable)
    ensures
        t@.headers == chars_seqs(headers@),
        t@.rows == row_views(rows@),
{
    let mut hs: Vec<String> = Vec::new();
    let mut i: usize = 0;
    while i < headers.len()
        invariant
            i <= headers@.len(),
            hs@.map_values(|h: String| h@) == chars_seqs(headers@).take(i as int),
        decreases headers@.len() - i,
    {
        let ghost before = hs@;
        hs.push(string_from_chars(headers[i].as_slice()));
        assert(hs@.map_values(|h: String| h@) =~= chars_seqs(headers@).take(i + 1)) by {
            assert(hs@.map_values(|h: String| h@) =~= before.map_values(|h: String| h@).push(
                headers@[i as int]@,
            ));
        }
        i = i + 1;
    }
    assert(chars_seqs(headers@).take(headers@.len() as int) =~= chars_seqs(headers@));
    let mut rs: Vec<Vec<(String, CellValue)>> = Vec::new();
    let mut j: usize = 0;
    while j < rows.len()
        invariant
            j <= rows@.len(),
            rs@.map_values(|r: Vec<(String, CellValue)>| entries_view(r@)) == row_views(
                rows@,
            ).take(j as int),
        decreases rows@.len() - j,
    {
        let ghost before = rs@;
        let r = publish_row(&rows[j]);
        let ghost rv = entries_view(r@);
        rs.push(r);
        assert(rs@.map_values(|r: Vec<(String, CellValue)>| entries_view(r@)) =~= row_views(
            rows@,
        ).take(j + 1)) by {
            assert(rs@.map_values(|r: Vec<(String, CellValue)>| entries_view(r@)) =~= before.map_values(
                |r: Vec<(String, CellValue)>| entries_view(r@),
            ).push(rv));
        }
        j = j + 1;
    }
    assert(row_views(rows@).take(rows@.len() as int) =~= row_views(rows@));
    ParsedTable { headers: hs, rows: rs }
}

/// The table of the parsed document `doc`, or why it has none.
pub fn table_in(doc: &Document, sel: &Selectors) -> (res: Result<ParsedTable, ParseError>)
    ensures
        match res {
            Ok(table) => table_of(doc@, sel@) == Ok::<TableView, ParseError>(table@)
                && table_well_formed(table@),
            Err(e) => table_of(doc@, sel@) == Err::<TableView, ParseError>(e),
        },
{
    proof {
        lemma_table_well_formed(doc@, sel@);
    }
    let form = match find_form(doc, sel) {
        Some(f) => f,
        None => return Err(ParseError::FormNotFound),
    };
    let table = match find_table(doc, form) {
        Some(t) => t,
        None => return Err(ParseError::TableNotFound),
    };
    let (headers, rows) = scan_table(doc, sel, table);
    if headers.len() == 0 {
        return Err(ParseError::NoHeaders);
    }
    let t = publish(&headers, &rows);
    assert(t@ == table_of(doc@, sel@).unwrap());
    Ok(t)
}

/// Parses the HTML page `html` and extracts its table: the columns named by the
/// first header row, and one row per data row.
pub fn parse_table(html: &str, sel: &Selectors) -> (res: Result<ParsedTable, ParseError>)
    ensures
        match res {
            Ok(table) => table_of(html_tree(html@), sel@) == Ok::<TableView, ParseError>(table@)
                && table_well_formed(table@),
            Err(e) => table_of(html_tree(html@), sel@) == Err::<TableView, ParseError>(e),
        },
{
    let doc = Document::parse(html);
    table_in(&doc, sel)
}

} // verus!
