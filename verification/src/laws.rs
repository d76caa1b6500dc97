//! Properties of the library as a whole.
use vstd::prelude::*;

use crate::cell::{all_digits, cell_value_of, digit_value, digits_value, is_digit, CellView};
use crate::digest::{hex_digit, hex_lower, lemma_hex_lower_shape, sha256_hex, sha256_of};
use vstd::utf8::{encode_scalar, encode_utf8, has_width_1_encoding, is_scalar, leading_byte_width_1};
use crate::config::{header_byte_ok, header_value_ok};
use crate::dom::{
    ancestors, attr_of, is_named, parent_of, depths_ok, is_layered, descendants, first_of, links_in_bounds, named_among, preorder, preorder_list, select, subtree,
    text_of, texts_of, NodeView,
};
use crate::target::{backoff_secs, may_scrape, must_write, pow2, sat_add, TargetStateView};
use crate::text::{contains, decimal, digit_char, is_solid, is_ws, lemma_word_contains_iff_contains, trim, trim_end, trim_start};
use crate::row::{key_lt, keys_sorted, lemma_row_get_insert, lemma_row_insert_keys, row_get, row_insert, RowSpec};
use crate::table::{
    alt_key, build_row, cell_data, class_key, first_anchor_below, name_key, src_key, column_prefix, column_value, header_name, header_names, first_table_among, form_anchor, img_suffix, is_table_box, row_upto, scan_rows,
    scan_step, table_of, table_word, ParseError, ScanState, SelectorsView, TableView,
};

verus! {

/// Every key of `row` is one of `headers`, or one of them followed by `_img`.
pub open spec fn keys_from_headers(row: RowSpec, headers: Seq<Seq<char>>) -> bool {
    forall|i: int|
        0 <= i < row.len() ==> exists|j: int|
            0 <= j < headers.len() && ((#[trigger] row[i]).0 == headers[j] || row[i].0 == headers[j]
                + img_suffix())
}

/// A well-formed row under `headers`: not empty, keys strictly increasing, each
/// key a column name or a column name followed by `_img`.
pub open spec fn good_row(row: RowSpec, headers: Seq<Seq<char>>) -> bool {
    &&& row.len() > 0
    &&& keys_sorted(row)
    &&& keys_from_headers(row, headers)
}

proof fn lemma_row_upto_good(
    t: Seq<NodeView>,
    sel: SelectorsView,
    tds: Seq<usize>,
    headers: Seq<Seq<char>>,
    k: nat,
)
    requires
        k <= tds.len(),
        k <= headers.len(),
    ensures
        keys_sorted(row_upto(t, sel, tds, headers, k)),
        keys_from_headers(row_upto(t, sel, tds, headers, k), headers),
    decreases k,
{
    if k > 0 {
        lemma_row_upto_good(t, sel, tds, headers, (k - 1) as nat);
        let prev = row_upto(t, sel, tds, headers, (k - 1) as nat);
        let cell = crate::table::cell_data(t, sel, tds[k - 1]);
        let h = headers[k - 1];
        let with_text = match crate::table::column_value(cell) {
            Some(v) => crate::row::row_insert(prev, h, v),
            None => prev,
        };
        {
            if let Some(v) = crate::table::column_value(cell) {
                lemma_row_insert_keys(prev, h, v);
                assert forall|i: int| 0 <= i < with_text.len() implies exists|j: int|
                    0 <= j < headers.len() && ((#[trigger] with_text[i]).0 == headers[j]
                        || with_text[i].0 == headers[j] + img_suffix()) by {
                    if with_text[i].0 == h {
                        assert(headers[k - 1] == h);
                    } else {
                        let j = choose|j: int| 0 <= j < prev.len() && prev[j].0 == with_text[i].0;
                        assert(0 <= j < prev.len() && prev[j].0 == with_text[i].0);
                        let h2 = choose|h2: int|
                            0 <= h2 < headers.len() && ((#[trigger] prev[j]).0 == headers[h2]
                                || prev[j].0 == headers[h2] + img_suffix());
                        assert(0 <= h2 < headers.len());
                    }
                }
            }
        }
        let r = row_upto(t, sel, tds, headers, k);
        if let Some(src) = cell.img_src {
            let v = crate::cell::CellView::Text(src);
            lemma_row_insert_keys(with_text, h + img_suffix(), v);
            assert forall|i: int| 0 <= i < r.len() implies exists|j: int|
                0 <= j < headers.len() && ((#[trigger] r[i]).0 == headers[j] || r[i].0 == headers[j]
                    + img_suffix()) by {
                if r[i].0 == h + img_suffix() {
                    assert(headers[k - 1] == h);
                } else {
                    let j = choose|j: int| 0 <= j < with_text.len() && with_text[j].0 == r[i].0;
                    assert(0 <= j < with_text.len() && with_text[j].0 == r[i].0);
                    let h2 = choose|h2: int|
                        0 <= h2 < headers.len() && ((#[trigger] with_text[j]).0 == headers[h2]
                            || with_text[j].0 == headers[h2] + img_suffix());
                    assert(0 <= h2 < headers.len());
                }
            }
        }
    }
}

/// The invariant of the row scan.
pub open spec fn scan_ok(st: ScanState) -> bool {
    &&& !st.found ==> st.headers.len() == 0 && st.rows.len() == 0
    &&& st.found ==> st.headers.len() >= 2
    &&& forall|r: int| 0 <= r < st.rows.len() ==> good_row(#[trigger] st.rows[r], st.headers)
}

proof fn lemma_scan_ok(t: Seq<NodeView>, sel: SelectorsView, trs: Seq<usize>)
    ensures
        scan_ok(scan_rows(t, sel, trs)),
    decreases trs.len(),
{
    if trs.len() > 0 {
        lemma_scan_ok(t, sel, trs.drop_last());
        let st = scan_rows(t, sel, trs.drop_last());
        let tr = trs.last();
        let tds = crate::dom::select(t, tr, sel.td);
        if st.found && crate::dom::select(t, tr, sel.th).len() == 0 && tds.len() > 0 {
            let m = if tds.len() < st.headers.len() {
                tds.len()
            } else {
                st.headers.len()
            };
            lemma_row_upto_good(t, sel, tds, st.headers, m as nat);
            let row = build_row(t, sel, tds, st.headers);
            let next = scan_step(t, sel, st, tr);
            assert forall|r: int| 0 <= r < next.rows.len() implies good_row(
                #[trigger] next.rows[r],
                next.headers,
            ) by {
                if r < st.rows.len() {
                    assert(next.rows[r] == st.rows[r]);
                }
            }
        }
    }
}

/// `tv` has at least two columns, and each of its rows is non-empty, has its
/// keys in strictly increasing order, and keys each value by a column name or a
/// column name followed by `_img`.
pub open spec fn table_well_formed(tv: TableView) -> bool {
    &&& tv.headers.len() >= 2
    &&& forall|r: int| 0 <= r < tv.rows.len() ==> good_row(#[trigger] tv.rows[r], tv.headers)
}

/// A table read from any page has at least two columns, and each of its rows
/// is non-empty, has its keys in strictly increasing order (the order in which
/// the JSON output lists them), and keys each value by a column name or by a
/// column name followed by `_img`.
pub proof fn lemma_table_well_formed(t: Seq<NodeView>, sel: SelectorsView)
    ensures
        table_of(t, sel) matches Ok(tv) ==> table_well_formed(tv),
{
    if let Some(form) = crate::table::form_anchor(t, sel) {
        if let Some(table) = crate::table::first_table_among(
            t,
            crate::dom::ancestors(t, form, t.len()),
        ) {
            lemma_scan_ok(t, sel, crate::dom::select(t, table, sel.row));
        }
    }
}

/// A target that has written nothing yet writes whatever it scrapes first.
pub proof fn lemma_first_content_written(st: TargetStateView, hash: Seq<char>)
    requires
        st.last_hash is None,
    ensures
        must_write(st, hash),
{
}

/// Once the content `json` has been written, scraping the same content again
/// does not write it again: the output file keeps its date while the data is
/// unchanged.
pub proof fn lemma_same_content_skipped(st: TargetStateView, json: Seq<char>)
    ensures
        !must_write(
            TargetStateView {
                consecutive_errors: st.consecutive_errors,
                last_hash: Some(sha256_hex(json)),
                resume_at: st.resume_at,
            },
            sha256_hex(json),
        ),
{
}

/// Content whose fingerprint differs from that of the content last written is
/// written.
pub proof fn lemma_changed_fingerprint_written(st: TargetStateView, prev: Seq<char>, json: Seq<char>)
    requires
        st.last_hash == Some(sha256_hex(prev)),
        sha256_hex(json) != sha256_hex(prev),
    ensures
        must_write(st, sha256_hex(json)),
{
}

proof fn lemma_pow2_monotone(a: nat, b: nat)
    requires
        a <= b,
    ensures
        1 <= pow2(a) <= pow2(b),
    decreases b,
{
    if b > a {
        lemma_pow2_monotone(a, (b - 1) as nat);
    } else if a > 0 {
        lemma_pow2_monotone((a - 1) as nat, (a - 1) as nat);
    }
}

/// The back-off is `2^n` seconds after `n` consecutive errors: one second for
/// none, doubling with each further error (4 seconds at the second, when the
/// target first backs off), and 32 seconds from the fifth on.
pub proof fn lemma_backoff_grows_then_caps(e1: u32, e2: u32)
    requires
        e1 <= e2,
    ensures
        backoff_secs(0) == 1,
        1 <= backoff_secs(e1) <= backoff_secs(e2) <= 32,
        e2 >= 5 ==> backoff_secs(e2) == 32,
        e2 < 5 ==> backoff_secs((e2 + 1) as u32) == 2 * backoff_secs(e2),
{
    let c1: nat = if e1 < 5 { e1 as nat } else { 5 };
    let c2: nat = if e2 < 5 { e2 as nat } else { 5 };
    lemma_pow2_monotone(c1, c2);
    lemma_pow2_monotone(c2, 5);
    assert(pow2(5) == 32) by {
        reveal_with_fuel(pow2, 6);
    }
}

proof fn lemma_decimal_digits(n: nat)
    ensures
        decimal(n).len() > 0,
        all_digits(decimal(n)),
        digits_value(decimal(n)) == n,
        decimal(n)[0] != '+' && decimal(n)[0] != '-',
    decreases n,
{
    if n >= 10 {
        lemma_decimal_digits(n / 10);
        let d = decimal(n);
        assert(d.drop_last() =~= decimal(n / 10));
        assert forall|i: int| 0 <= i < d.len() implies is_digit(#[trigger] d[i]) by {
            if i < d.len() - 1 {
                assert(d[i] == decimal(n / 10)[i]);
            }
        }
        assert(decimal(n)[0] == decimal(n / 10)[0]);
        assert(d.last() == digit_char(n % 10));
        assert(digit_value(digit_char(n % 10)) == n % 10);
        assert(n == (n / 10) * 10 + n % 10);
        assert(digits_value(d.drop_last()) == n / 10);
        assert(digits_value(d) == digits_value(d.drop_last()) * 10 + digit_value(d.last()));
    } else {
        let d = decimal(n);
        assert(d.drop_last() =~= Seq::<char>::empty());
        assert(digits_value(Seq::<char>::empty()) == 0);
        assert(digit_value(digit_char(n)) == n);
        assert(digits_value(d) == digits_value(d.drop_last()) * 10 + digit_value(d.last()));
    }
}

/// `n` in decimal as `i64`'s `to_string` prints it: a `-` before the digits of
/// a negative number, no sign otherwise, no leading zeros.
pub open spec fn i64_decimal(n: i64) -> Seq<char> {
    if n < 0 {
        seq!['-'] + decimal((-n) as nat)
    } else {
        decimal(n as nat)
    }
}

/// A cell whose text is an integer as an `i64` prints it holds that number.
pub proof fn lemma_decimal_reads_back(n: i64)
    ensures
        cell_value_of(i64_decimal(n)) == Some(CellView::Number(n)),
{
    if n < 0 {
        let m: nat = (-n) as nat;
        lemma_decimal_digits(m);
        let s = i64_decimal(n);
        assert(s.drop_first() =~= decimal(m));
        assert(s[0] == '-');
    } else {
        lemma_decimal_digits(n as nat);
    }
}

proof fn lemma_row_upto_prefix(
    t: Seq<NodeView>,
    sel: SelectorsView,
    tds: Seq<usize>,
    extra: Seq<usize>,
    headers: Seq<Seq<char>>,
    k: nat,
)
    requires
        k <= tds.len(),
    ensures
        row_upto(t, sel, tds + extra, headers, k) == row_upto(t, sel, tds, headers, k),
    decreases k,
{
    if k > 0 {
        lemma_row_upto_prefix(t, sel, tds, extra, headers, (k - 1) as nat);
        assert((tds + extra)[k - 1] == tds[k - 1]);
    }
}

/// Data cells beyond the last column are ignored: once a row has a cell for
/// every column, appending more cells to it leaves the row it builds unchanged.
pub proof fn lemma_extra_cells_ignored(
    t: Seq<NodeView>,
    sel: SelectorsView,
    tds: Seq<usize>,
    extra: Seq<usize>,
    headers: Seq<Seq<char>>,
)
    requires
        tds.len() >= headers.len(),
    ensures
        build_row(t, sel, tds + extra, headers) == build_row(t, sel, tds, headers),
{
    lemma_row_upto_prefix(t, sel, tds, extra, headers, headers.len());
}

proof fn lemma_preorder_saturated(t: Seq<NodeView>, d: Seq<nat>, i: usize, f: nat, g: nat)
    requires
        depths_ok(t, d),
        links_in_bounds(t),
        i < t.len(),
        f >= t.len() - d[i as int],
        g >= t.len() - d[i as int],
    ensures
        preorder(t, i, f) == preorder(t, i, g),
    decreases f, 0nat, 0nat,
{
    let cs = t[i as int].children;
    assert forall|k: int| 0 <= k < cs.len() implies #[trigger] cs[k] < t.len() && d[cs[k] as int]
        == d[i as int] + 1 by {
        assert(t[i as int].children[k] < t.len());
    }
    lemma_preorder_list_saturated(t, d, cs, d[i as int] + 1, (f - 1) as nat, (g - 1) as nat);
}

proof fn lemma_preorder_list_saturated(
    t: Seq<NodeView>,
    d: Seq<nat>,
    cs: Seq<usize>,
    dd: nat,
    f: nat,
    g: nat,
)
    requires
        depths_ok(t, d),
        links_in_bounds(t),
        forall|k: int| 0 <= k < cs.len() ==> #[trigger] cs[k] < t.len() && d[cs[k] as int] == dd,
        f >= t.len() - dd,
        g >= t.len() - dd,
    ensures
        preorder_list(t, cs, f) == preorder_list(t, cs, g),
    decreases f, 1nat, cs.len(),
{
    if cs.len() > 0 {
        assert(forall|k: int| 0 <= k < cs.drop_last().len() ==> #[trigger] cs.drop_last()[k] == cs[k]);
        lemma_preorder_list_saturated(t, d, cs.drop_last(), dd, f, g);
        assert(cs.last() == cs[cs.len() - 1]);
        lemma_preorder_saturated(t, d, cs.last(), f, g);
    }
}

/// Within the walk under `i`, the node at position `p` starts a stretch that is
/// exactly its own subtree.
proof fn lemma_preorder_segment(t: Seq<NodeView>, d: Seq<nat>, i: usize, f: nat, p: int)
    requires
        depths_ok(t, d),
        links_in_bounds(t),
        i < t.len(),
        f >= t.len() - d[i as int],
        0 <= p < preorder(t, i, f).len(),
    ensures
        preorder(t, i, f)[p] < t.len(),
        p + subtree(t, preorder(t, i, f)[p]).len() <= preorder(t, i, f).len(),
        preorder(t, i, f).subrange(p, p + subtree(t, preorder(t, i, f)[p]).len()) == subtree(
            t,
            preorder(t, i, f)[p],
        ),
    decreases f, 0nat, 0nat,
{
    let w = preorder(t, i, f);
    let cs = t[i as int].children;
    let rest = preorder_list(t, cs, (f - 1) as nat);
    assert(w == seq![i] + rest);
    if p == 0 {
        lemma_preorder_saturated(t, d, i, f, t.len());
        assert(w.subrange(0, w.len() as int) =~= w);
    } else {
        assert forall|k: int| 0 <= k < cs.len() implies #[trigger] cs[k] < t.len() && d[cs[k] as int]
            == d[i as int] + 1 by {
            assert(t[i as int].children[k] < t.len());
        }
        lemma_preorder_list_segment(t, d, cs, d[i as int] + 1, (f - 1) as nat, p - 1);
        let j = rest[p - 1];
        assert(w[p] == j);
        let m = subtree(t, j).len();
        assert(w.subrange(p, p + m) =~= rest.subrange(p - 1, p - 1 + m));
    }
}

proof fn lemma_preorder_list_segment(
    t: Seq<NodeView>,
    d: Seq<nat>,
    cs: Seq<usize>,
    dd: nat,
    f: nat,
    q: int,
)
    requires
        depths_ok(t, d),
        links_in_bounds(t),
        forall|k: int| 0 <= k < cs.len() ==> #[trigger] cs[k] < t.len() && d[cs[k] as int] == dd,
        f >= t.len() - dd,
        0 <= q < preorder_list(t, cs, f).len(),
    ensures
        preorder_list(t, cs, f)[q] < t.len(),
        q + subtree(t, preorder_list(t, cs, f)[q]).len() <= preorder_list(t, cs, f).len(),
        preorder_list(t, cs, f).subrange(q, q + subtree(t, preorder_list(t, cs, f)[q]).len())
            == subtree(t, preorder_list(t, cs, f)[q]),
    decreases f, 1nat, cs.len(),
{
    let w = preorder_list(t, cs, f);
    let a = preorder_list(t, cs.drop_last(), f);
    let b = preorder(t, cs.last(), f);
    assert(w == a + b);
    assert(cs.last() == cs[cs.len() - 1]);
    if q < a.len() {
        assert(forall|k: int| 0 <= k < cs.drop_last().len() ==> #[trigger] cs.drop_last()[k] == cs[k]);
        lemma_preorder_list_segment(t, d, cs.drop_last(), dd, f, q);
        let j = a[q];
        assert(w[q] == j);
        let m = subtree(t, j).len();
        assert(w.subrange(q, q + m) =~= a.subrange(q, q + m));
    } else {
        let p = q - a.len();
        lemma_preorder_segment(t, d, cs.last(), f, p);
        let j = b[p];
        assert(w[q] == j);
        let m = subtree(t, j).len();
        assert(w.subrange(q, q + m) =~= b.subrange(p, p + m));
    }
}

proof fn lemma_texts_concat(t: Seq<NodeView>, a: Seq<usize>, b: Seq<usize>)
    ensures
        texts_of(t, a + b) == texts_of(t, a) + texts_of(t, b),
    decreases b.len(),
{
    if b.len() == 0 {
        assert(a + b =~= a);
        assert(texts_of(t, a) + texts_of(t, b) =~= texts_of(t, a));
    } else {
        lemma_texts_concat(t, a, b.drop_last());
        assert((a + b).drop_last() =~= a + b.drop_last());
        assert((a + b).last() == b.last());
        let tail = match t[b.last() as int].text {
            Some(s) => s,
            None => Seq::<char>::empty(),
        };
        assert(texts_of(t, a + b) =~= texts_of(t, a) + texts_of(t, b.drop_last()) + tail);
    }
}

proof fn lemma_named_among_from(t: Seq<NodeView>, ids: Seq<usize>, tag: Seq<char>, k: int)
    requires
        0 <= k < named_among(t, ids, tag).len(),
    ensures
        ids.contains(named_among(t, ids, tag)[k]),
    decreases ids.len(),
{
    let rest = named_among(t, ids.drop_last(), tag);
    if k < rest.len() {
        lemma_named_among_from(t, ids.drop_last(), tag, k);
        let p = choose|p: int| 0 <= p < ids.drop_last().len() && ids.drop_last()[p] == rest[k];
        assert(ids[p] == rest[k]);
    } else {
        assert(ids[ids.len() - 1] == ids.last());
    }
}

/// On a layered arena (a tree is one), all the text under a node lies, in one
/// piece, within the text of every node above it.
pub proof fn lemma_descendant_text_inside(t: Seq<NodeView>, i: usize, j: usize)
    requires
        links_in_bounds(t),
        is_layered(t),
        i < t.len(),
        descendants(t, i).contains(j),
    ensures
        exists|a: Seq<char>, b: Seq<char>| text_of(t, i) == a + text_of(t, j) + b,
{
    let d = choose|d: Seq<nat>| depths_ok(t, d);
    let w = subtree(t, i);
    let p0 = choose|p: int| 0 <= p < descendants(t, i).len() && descendants(t, i)[p] == j;
    let p = p0 + 1;
    assert(w[p] == j);
    lemma_preorder_segment(t, d, i, t.len(), p);
    let m = subtree(t, j).len();
    let pre = w.take(p);
    let mid = w.subrange(p, p + m);
    let post = w.skip(p + m);
    assert(w =~= pre + mid + post);
    lemma_texts_concat(t, pre + mid, post);
    lemma_texts_concat(t, pre, mid);
    assert(text_of(t, i) == texts_of(t, pre) + text_of(t, j) + texts_of(t, post));
}

/// Every character of `s` is whitespace.
pub open spec fn all_ws(s: Seq<char>) -> bool {
    forall|k: int| 0 <= k < s.len() ==> is_ws(#[trigger] s[k])
}

proof fn lemma_trim_start_shape(s: Seq<char>) -> (k: int)
    ensures
        0 <= k <= s.len(),
        trim_start(s) == s.skip(k),
        forall|j: int| 0 <= j < k ==> is_ws(#[trigger] s[j]),
        k < s.len() ==> !is_ws(s[k]),
    decreases s.len(),
{
    if s.len() > 0 && is_ws(s[0]) {
        let k1 = lemma_trim_start_shape(s.drop_first());
        assert(s.drop_first().skip(k1) =~= s.skip(k1 + 1));
        if k1 + 1 < s.len() {
            assert(s[k1 + 1] == s.drop_first()[k1]);
        }
        assert forall|j: int| 0 <= j < k1 + 1 implies is_ws(#[trigger] s[j]) by {
            if j > 0 {
                assert(s[j] == s.drop_first()[j - 1]);
            }
        }
        k1 + 1
    } else {
        assert(s.skip(0) =~= s);
        0
    }
}

proof fn lemma_trim_end_empty(u: Seq<char>)
    ensures
        trim_end(u).len() == 0 <==> all_ws(u),
    decreases u.len(),
{
    if u.len() > 0 {
        lemma_trim_end_empty(u.drop_last());
        if is_ws(u.last()) {
            if all_ws(u.drop_last()) {
                assert forall|k: int| 0 <= k < u.len() implies is_ws(#[trigger] u[k]) by {
                    if k < u.len() - 1 {
                        assert(u[k] == u.drop_last()[k]);
                    }
                }
            }
            if all_ws(u) {
                assert forall|k: int| 0 <= k < u.drop_last().len() implies is_ws(
                    #[trigger] u.drop_last()[k],
                ) by {
                    assert(u.drop_last()[k] == u[k]);
                }
            }
        } else {
            assert(!is_ws(u[u.len() - 1]));
        }
    }
}

/// Trimming leaves nothing exactly when every character is whitespace.
pub proof fn lemma_trim_empty_iff_blank(s: Seq<char>)
    ensures
        trim(s).len() == 0 <==> all_ws(s),
{
    let k = lemma_trim_start_shape(s);
    let u = s.skip(k);
    lemma_trim_end_empty(u);
    if all_ws(u) {
        assert forall|j: int| 0 <= j < s.len() implies is_ws(#[trigger] s[j]) by {
            if j >= k {
                assert(s[j] == u[j - k]);
            }
        }
    }
    if all_ws(s) {
        assert forall|j: int| 0 <= j < u.len() implies is_ws(#[trigger] u[j]) by {
            assert(u[j] == s[j + k]);
        }
    }
}

/// On a layered arena (a tree is one), a cell whose own text is blank has a
/// blank first link too: such a cell's text comes from the `alt` of the image in
/// its link, or else of its own first image, never from the link's text.
pub proof fn lemma_blank_cell_blank_link(t: Seq<NodeView>, sel: SelectorsView, cell: usize, link: usize)
    requires
        links_in_bounds(t),
        is_layered(t),
        cell < t.len(),
        trim(text_of(t, cell)).len() == 0,
        first_of(select(t, cell, sel.a)) == Some(link),
    ensures
        trim(text_of(t, link)).len() == 0,
{
    lemma_named_among_from(t, descendants(t, cell), sel.a, 0);
    lemma_descendant_text_inside(t, cell, link);
    let (a, b) = choose|a: Seq<char>, b: Seq<char>| text_of(t, cell) == a + text_of(t, link) + b;
    lemma_trim_empty_iff_blank(text_of(t, cell));
    lemma_trim_empty_iff_blank(text_of(t, link));
    let s = text_of(t, link);
    assert forall|k: int| 0 <= k < s.len() implies is_ws(#[trigger] s[k]) by {
        assert(text_of(t, cell)[a.len() + k] == s[k]);
    }
}

/// A target that backs off at time `now` for `secs` seconds is skipped at every
/// time before `now + secs` and scraped again from then on.
pub proof fn lemma_backoff_skips_then_resumes(st: TargetStateView, now: u64, secs: u64, later: u64)
    requires
        st.resume_at == Some(sat_add(now, secs)),
        now + secs <= u64::MAX,
    ensures
        may_scrape(st, later) <==> later >= now + secs,
{
}

/// A target that is not backing off is scraped at any time.
pub proof fn lemma_no_backoff_always_scraped(st: TargetStateView, now: u64)
    requires
        st.resume_at is None,
    ensures
        may_scrape(st, now),
{
}

proof fn lemma_insert_keeps_key(row: RowSpec, k: Seq<char>, v: CellView, key: Seq<char>)
    requires
        row_get(row, key) is Some || key == k,
    ensures
        row_get(row_insert(row, k, v), key) is Some,
{
    lemma_row_get_insert(row, k, v, key);
}

proof fn lemma_key_stays(
    t: Seq<NodeView>,
    sel: SelectorsView,
    tds: Seq<usize>,
    headers: Seq<Seq<char>>,
    k: nat,
    k2: nat,
    key: Seq<char>,
)
    requires
        k <= k2,
        row_get(row_upto(t, sel, tds, headers, k), key) is Some,
    ensures
        row_get(row_upto(t, sel, tds, headers, k2), key) is Some,
    decreases k2,
{
    if k2 > k {
        lemma_key_stays(t, sel, tds, headers, k, (k2 - 1) as nat, key);
        let prev = row_upto(t, sel, tds, headers, (k2 - 1) as nat);
        let cell = cell_data(t, sel, tds[k2 - 1]);
        let h = headers[k2 - 1];
        let with_text = match column_value(cell) {
            Some(v) => row_insert(prev, h, v),
            None => prev,
        };
        if let Some(v) = column_value(cell) {
            lemma_insert_keeps_key(prev, h, v, key);
        }
        if let Some(src) = cell.img_src {
            lemma_insert_keeps_key(with_text, h + img_suffix(), CellView::Text(src), key);
        }
    }
}

/// A column whose cell holds an image yields two keys in the row: the column's
/// name and the name followed by `_img`.
pub proof fn lemma_image_column_two_keys(
    t: Seq<NodeView>,
    sel: SelectorsView,
    tds: Seq<usize>,
    headers: Seq<Seq<char>>,
    k: int,
)
    requires
        0 <= k < tds.len(),
        k < headers.len(),
        cell_data(t, sel, tds[k]).img_src is Some,
    ensures
        row_get(build_row(t, sel, tds, headers), headers[k]) is Some,
        row_get(build_row(t, sel, tds, headers), headers[k] + img_suffix()) is Some,
{
    let prev = row_upto(t, sel, tds, headers, k as nat);
    let cell = cell_data(t, sel, tds[k]);
    let h = headers[k];
    let v = column_value(cell).unwrap();
    let with_text = row_insert(prev, h, v);
    let src = cell.img_src.unwrap();
    lemma_insert_keeps_key(prev, h, v, h);
    lemma_insert_keeps_key(with_text, h + img_suffix(), CellView::Text(src), h);
    lemma_insert_keeps_key(with_text, h + img_suffix(), CellView::Text(src), h + img_suffix());
    assert(row_upto(t, sel, tds, headers, (k + 1) as nat) == row_insert(with_text, h + img_suffix(), CellView::Text(src)));
    let m: nat = if tds.len() < headers.len() { tds.len() } else { headers.len() };
    lemma_key_stays(t, sel, tds, headers, (k + 1) as nat, m, h);
    lemma_key_stays(t, sel, tds, headers, (k + 1) as nat, m, h + img_suffix());
}

/// The digit that `hex_digit` spells determines the value below sixteen.
proof fn lemma_hex_digit_injective(a: nat, b: nat)
    requires
        a < 16,
        b < 16,
        hex_digit(a) == hex_digit(b),
    ensures
        a == b,
{
    let ca = hex_digit(a);
    let cb = hex_digit(b);
    assert((ca as u32) == (cb as u32));
    if a < 10 {
        assert((ca as u32) == a + 48);
    } else {
        assert((ca as u32) == a + 87);
    }
    if b < 10 {
        assert((cb as u32) == b + 48);
    } else {
        assert((cb as u32) == b + 87);
    }
}

/// Different byte strings have different hexadecimal spellings.
proof fn lemma_hex_lower_injective(x: Seq<u8>, y: Seq<u8>)
    requires
        hex_lower(x) == hex_lower(y),
    ensures
        x == y,
    decreases x.len(),
{
    lemma_hex_lower_shape(x);
    lemma_hex_lower_shape(y);
    if x.len() > 0 {
        let hx = hex_lower(x);
        let n = hx.len();
        let px = hex_lower(x.drop_last());
        let py = hex_lower(y.drop_last());
        lemma_hex_lower_shape(x.drop_last());
        lemma_hex_lower_shape(y.drop_last());
        assert(hx.subrange(0, n - 2) =~= px);
        assert(hx.subrange(0, n - 2) =~= py);
        lemma_hex_lower_injective(x.drop_last(), y.drop_last());
        assert(hx[n - 2] == hex_digit((x.last() / 16) as nat));
        assert(hx[n - 2] == hex_digit((y.last() / 16) as nat));
        assert(hx[n - 1] == hex_digit((x.last() % 16) as nat));
        assert(hx[n - 1] == hex_digit((y.last() % 16) as nat));
        lemma_hex_digit_injective((x.last() / 16) as nat, (y.last() / 16) as nat);
        lemma_hex_digit_injective((x.last() % 16) as nat, (y.last() % 16) as nat);
        assert(x.last() == y.last());
        assert(x =~= x.drop_last().push(x.last()));
        assert(y =~= y.drop_last().push(y.last()));
    }
}

/// Two texts get the same fingerprint exactly when the SHA-256 digests of
/// their whole UTF-8 encodings are equal: the fingerprint spells out the full
/// digest of every byte of the text, and texts that differ anywhere are hashed
/// as different byte strings.
pub proof fn lemma_fingerprint_is_whole_digest(a: Seq<char>, b: Seq<char>)
    ensures
        sha256_hex(a) == sha256_hex(b) <==> sha256_of(encode_utf8(a)) == sha256_of(encode_utf8(b)),
        a != b ==> encode_utf8(a) != encode_utf8(b),
{
    vstd::utf8::encode_utf8_decode_utf8(a);
    vstd::utf8::encode_utf8_decode_utf8(b);
    if sha256_hex(a) == sha256_hex(b) {
        lemma_hex_lower_injective(sha256_of(encode_utf8(a)), sha256_of(encode_utf8(b)));
    }
}

/// Node `j` is an element named `table` whose `class` attribute contains the
/// word `table` (`table`, `table-striped`, `mytable` all do).
pub open spec fn classed_table(t: Seq<NodeView>, j: usize) -> bool {
    &&& t[j as int].element matches Some(e)
    &&& e.name == seq!['t', 'a', 'b', 'l', 'e']
    &&& attr_of(e, seq!['c', 'l', 'a', 's', 's']) matches Some(c)
    &&& contains(c, seq!['t', 'a', 'b', 'l', 'e'])
}

proof fn lemma_table_box_is_classed_table(t: Seq<NodeView>, j: usize)
    ensures
        is_table_box(t, j) <==> classed_table(t, j),
{
    let w = table_word();
    assert(w =~= seq!['t', 'a', 'b', 'l', 'e']);
    assert(class_key() =~= seq!['c', 'l', 'a', 's', 's']);
    assert forall|k: int| 0 <= k < w.len() implies !is_ws(#[trigger] w[k]) by {
        assert(w[k] == 't' || w[k] == 'a' || w[k] == 'b' || w[k] == 'l' || w[k] == 'e');
    }
    assert(is_solid(w));
    if let Some(e) = t[j as int].element {
        if let Some(c) = attr_of(e, class_key()) {
            lemma_word_contains_iff_contains(c, w);
        }
    }
}

/// The search for the table among the ancestors `ids` of the form (nearest
/// first) finds `j` exactly when `j` is the first of them that is a `<table>`
/// element whose class contains `table`, and finds none exactly when none of
/// them is: an ancestor row or cell whose class mentions `table` is passed over.
pub proof fn lemma_nearest_classed_table(t: Seq<NodeView>, ids: Seq<usize>)
    ensures
        first_table_among(t, ids) matches Some(j) ==> exists|k: int|
            0 <= k < ids.len() && ids[k] == j && classed_table(t, j) && forall|m: int|
                0 <= m < k ==> !classed_table(t, #[trigger] ids[m]),
        first_table_among(t, ids) is None ==> forall|k: int|
            0 <= k < ids.len() ==> !classed_table(t, #[trigger] ids[k]),
    decreases ids.len(),
{
    if ids.len() > 0 {
        lemma_table_box_is_classed_table(t, ids[0]);
        lemma_nearest_classed_table(t, ids.drop_first());
        if !is_table_box(t, ids[0]) {
            let rest = ids.drop_first();
            if let Some(j) = first_table_among(t, rest) {
                let k = choose|k: int|
                    0 <= k < rest.len() && rest[k] == j && classed_table(t, j) && forall|m: int|
                        0 <= m < k ==> !classed_table(t, #[trigger] rest[m]);
                assert(ids[k + 1] == j);
                assert forall|m: int| 0 <= m < k + 1 implies !classed_table(t, #[trigger] ids[m]) by {
                    if m > 0 {
                        assert(ids[m] == rest[m - 1]);
                    }
                }
            } else {
                assert forall|k: int| 0 <= k < ids.len() implies !classed_table(t, #[trigger] ids[k]) by {
                    if k > 0 {
                        assert(ids[k] == rest[k - 1]);
                    }
                }
            }
        }
    }
}

/// The table read from a page is the nearest ancestor element of the anchor
/// form that is a `<table>` whose class contains `table`: when the `k`-th
/// ancestor is the first such, the page's table (or its want of headers) is
/// what the rows of that element give.
pub proof fn lemma_table_is_nearest_classed_ancestor(t: Seq<NodeView>, sel: SelectorsView, form: usize, k: int)
    requires
        form_anchor(t, sel) == Some(form),
        0 <= k < ancestors(t, form, t.len()).len(),
        classed_table(t, ancestors(t, form, t.len())[k]),
        forall|m: int| 0 <= m < k ==> !classed_table(t, #[trigger] ancestors(t, form, t.len())[m]),
    ensures
        scan_rows(t, sel, select(t, ancestors(t, form, t.len())[k], sel.row)).headers.len() == 0
            ==> table_of(t, sel) == Err::<TableView, ParseError>(ParseError::NoHeaders),
        scan_rows(t, sel, select(t, ancestors(t, form, t.len())[k], sel.row)).headers.len() > 0
            ==> (table_of(t, sel) matches Ok(tv)
            && tv.headers == scan_rows(t, sel, select(t, ancestors(t, form, t.len())[k], sel.row)).headers
            && tv.rows == scan_rows(t, sel, select(t, ancestors(t, form, t.len())[k], sel.row)).rows),
{
    let ids = ancestors(t, form, t.len());
    lemma_nearest_classed_table(t, ids);
    match first_table_among(t, ids) {
        Some(j) => {
            let k2 = choose|k2: int|
                0 <= k2 < ids.len() && ids[k2] == j && classed_table(t, j) && forall|m: int|
                    0 <= m < k2 ==> !classed_table(t, #[trigger] ids[m]);
            if k2 < k {
                assert(!classed_table(t, ids[k2]));
            } else if k < k2 {
                assert(!classed_table(t, ids[k]));
            }
            assert(j == ids[k]);
        },
        None => {
            assert(!classed_table(t, ids[k]));
        },
    }
}

/// A page whose anchor form has no ancestor `<table>` with a class containing
/// `table` yields no table.
pub proof fn lemma_no_classed_ancestor(t: Seq<NodeView>, sel: SelectorsView, form: usize)
    requires
        form_anchor(t, sel) == Some(form),
        forall|k: int|
            0 <= k < ancestors(t, form, t.len()).len() ==> !classed_table(t, #[trigger] ancestors(t, form, t.len())[k]),
    ensures
        table_of(t, sel) == Err::<TableView, ParseError>(ParseError::TableNotFound),
{
    let ids = ancestors(t, form, t.len());
    lemma_nearest_classed_table(t, ids);
    if let Some(j) = first_table_among(t, ids) {
        let k = choose|k: int|
            0 <= k < ids.len() && ids[k] == j && classed_table(t, j) && forall|m: int|
                0 <= m < k ==> !classed_table(t, #[trigger] ids[m]);
        assert(!classed_table(t, ids[k]));
    }
}

/// A cell with visible text is read as that text, trimmed: the text of the
/// whole cell comes before that of its first link and before any image's `alt`.
pub proof fn lemma_visible_cell_text(t: Seq<NodeView>, sel: SelectorsView, cell: usize)
    requires
        trim(text_of(t, cell)).len() > 0,
    ensures
        cell_data(t, sel, cell).text == Some(trim(text_of(t, cell))),
{
}

/// `names` name one column for each of the header cells `ths`, none of them
/// empty, and a header cell with visible text names its column by that text,
/// trimmed.
pub open spec fn named_by_header_cells(t: Seq<NodeView>, names: Seq<Seq<char>>, ths: Seq<usize>) -> bool {
    &&& names.len() == ths.len()
    &&& forall|i: int| 0 <= i < ths.len() ==> (#[trigger] names[i]).len() > 0
    &&& forall|i: int|
        #![trigger names[i]]
        0 <= i < ths.len() && trim(text_of(t, ths[i])).len() > 0 ==> names[i] == trim(text_of(t, ths[i]))
}

/// Each column is named by its header cell: one name per cell, never empty,
/// and the cell's visible text, trimmed, whenever it has some.
pub proof fn lemma_header_names_trimmed(t: Seq<NodeView>, sel: SelectorsView, ths: Seq<usize>)
    ensures
        named_by_header_cells(t, header_names(t, sel, ths), ths),
{
    let names = header_names(t, sel, ths);
    assert forall|i: int| 0 <= i < ths.len() implies (#[trigger] names[i]).len() > 0 by {
        assert(names[i] == header_name(t, sel, ths[i], i as nat));
        assert((column_prefix() + decimal(i as nat)).len() >= column_prefix().len());
    }
    assert forall|i: int|
        #![trigger names[i]]
        0 <= i < ths.len() && trim(text_of(t, ths[i])).len() > 0 implies names[i] == trim(text_of(t, ths[i])) by {
        assert(names[i] == header_name(t, sel, ths[i], i as nat));
        lemma_visible_cell_text(t, sel, ths[i]);
    }
}

/// The column names come from the first row with two or more header cells,
/// named as [`lemma_header_names_trimmed`] says; while no row has two header
/// cells there are none.
pub proof fn lemma_headers_from_first_header_row(t: Seq<NodeView>, sel: SelectorsView, trs: Seq<usize>)
    ensures
        scan_rows(t, sel, trs).headers.len() > 0 ==> exists|k: int|
            0 <= k < trs.len() && select(t, trs[k], sel.th).len() > 1 && (forall|m: int|
                0 <= m < k ==> select(t, #[trigger] trs[m], sel.th).len() <= 1) && named_by_header_cells(
                t,
                scan_rows(t, sel, trs).headers,
                select(t, trs[k], sel.th),
            ),
        scan_rows(t, sel, trs).headers.len() == 0 ==> forall|k: int|
            0 <= k < trs.len() ==> select(t, #[trigger] trs[k], sel.th).len() <= 1,
    decreases trs.len(),
{
    if trs.len() > 0 {
        let prev_trs = trs.drop_last();
        lemma_headers_from_first_header_row(t, sel, prev_trs);
        lemma_scan_ok(t, sel, prev_trs);
        lemma_scan_ok(t, sel, trs);
        let prev = scan_rows(t, sel, prev_trs);
        let last = trs.last();
        let ths = select(t, last, sel.th);
        let cur = scan_rows(t, sel, trs);
        assert(cur == scan_step(t, sel, prev, last));
        if prev.headers.len() > 0 {
            assert(cur.headers == prev.headers);
            let k = choose|k: int|
                0 <= k < prev_trs.len() && select(t, prev_trs[k], sel.th).len() > 1 && (forall|m: int|
                    0 <= m < k ==> select(t, #[trigger] prev_trs[m], sel.th).len() <= 1) && named_by_header_cells(
                    t,
                    prev.headers,
                    select(t, prev_trs[k], sel.th),
                );
            assert(trs[k] == prev_trs[k]);
            assert forall|m: int| 0 <= m < k implies select(t, #[trigger] trs[m], sel.th).len() <= 1 by {
                assert(trs[m] == prev_trs[m]);
            }
        } else if ths.len() > 1 {
            lemma_header_names_trimmed(t, sel, ths);
            let k = trs.len() - 1;
            assert(trs[k] == last);
            assert forall|m: int| 0 <= m < k implies select(t, #[trigger] trs[m], sel.th).len() <= 1 by {
                assert(trs[m] == prev_trs[m]);
            }
        } else {
            assert forall|k: int| 0 <= k < trs.len() implies select(t, #[trigger] trs[k], sel.th).len() <= 1 by {
                if k < trs.len() - 1 {
                    assert(trs[k] == prev_trs[k]);
                }
            }
        }
    }
}

/// Once the column names are known, a row with data cells and no header cell
/// is kept exactly when it yields some value: the scan appends the row built
/// from its cells when that row is not empty, and leaves the rows as they were
/// when it is empty; the column names stay.
pub proof fn lemma_data_row_kept(t: Seq<NodeView>, sel: SelectorsView, trs: Seq<usize>, tr: usize)
    requires
        scan_rows(t, sel, trs).headers.len() > 0,
        select(t, tr, sel.th).len() == 0,
        select(t, tr, sel.td).len() > 0,
    ensures
        build_row(t, sel, select(t, tr, sel.td), scan_rows(t, sel, trs).headers).len() > 0 ==> scan_rows(
            t,
            sel,
            trs.push(tr),
        ).rows == scan_rows(t, sel, trs).rows.push(
            build_row(t, sel, select(t, tr, sel.td), scan_rows(t, sel, trs).headers),
        ),
        build_row(t, sel, select(t, tr, sel.td), scan_rows(t, sel, trs).headers).len() == 0 ==> scan_rows(
            t,
            sel,
            trs.push(tr),
        ).rows == scan_rows(t, sel, trs).rows,
        scan_rows(t, sel, trs.push(tr)).headers == scan_rows(t, sel, trs).headers,
{
    lemma_scan_ok(t, sel, trs);
    assert(trs.push(tr).drop_last() =~= trs);
}

/// Rows that are not data rows after the column names (a row with a header
/// cell, a row without data cells, any row before the column names) add no row.
pub proof fn lemma_other_rows_add_nothing(t: Seq<NodeView>, sel: SelectorsView, trs: Seq<usize>, tr: usize)
    requires
        scan_rows(t, sel, trs).headers.len() == 0 || select(t, tr, sel.th).len() > 0 || select(
            t,
            tr,
            sel.td,
        ).len() == 0,
    ensures
        scan_rows(t, sel, trs.push(tr)).rows == scan_rows(t, sel, trs).rows,
{
    lemma_scan_ok(t, sel, trs);
    assert(trs.push(tr).drop_last() =~= trs);
}

proof fn lemma_row_get_some_nonempty(row: RowSpec, key: Seq<char>)
    requires
        row_get(row, key) is Some,
    ensures
        row.len() > 0,
{
}

/// A data cell with visible text gives its column a value, so the row that
/// holds it is not empty, and is kept.
pub proof fn lemma_visible_cell_gives_value(
    t: Seq<NodeView>,
    sel: SelectorsView,
    tds: Seq<usize>,
    headers: Seq<Seq<char>>,
    k: int,
)
    requires
        0 <= k < tds.len(),
        k < headers.len(),
        trim(text_of(t, tds[k])).len() > 0,
    ensures
        row_get(build_row(t, sel, tds, headers), headers[k]) is Some,
        build_row(t, sel, tds, headers).len() > 0,
{
    let prev = row_upto(t, sel, tds, headers, k as nat);
    let cell = cell_data(t, sel, tds[k]);
    lemma_visible_cell_text(t, sel, tds[k]);
    let h = headers[k];
    let v = column_value(cell).unwrap();
    let with_text = row_insert(prev, h, v);
    lemma_insert_keeps_key(prev, h, v, h);
    if let Some(src) = cell.img_src {
        lemma_insert_keeps_key(with_text, h + img_suffix(), CellView::Text(src), h);
    }
    let m: nat = if tds.len() < headers.len() { tds.len() } else { headers.len() };
    lemma_key_stays(t, sel, tds, headers, (k + 1) as nat, m, h);
    lemma_row_get_some_nonempty(build_row(t, sel, tds, headers), h);
}

/// Node `j` is an element with the tag `sel.form` and a `name` attribute equal
/// to `sel.form_name`, attached under a parent.
pub open spec fn named_form(t: Seq<NodeView>, sel: SelectorsView, j: usize) -> bool {
    &&& t[j as int].element matches Some(e)
    &&& e.name == sel.form
    &&& attr_of(e, seq!['n', 'a', 'm', 'e']) == Some(sel.form_name)
    &&& parent_of(t, j) is Some
}

proof fn lemma_first_anchor_below_is_first(t: Seq<NodeView>, sel: SelectorsView, p: nat)
    ensures
        first_anchor_below(t, sel, p) matches Some(f) ==> f < p && named_form(t, sel, f) && forall|m: usize|
            m < f ==> !named_form(t, sel, m),
        first_anchor_below(t, sel, p) is None ==> forall|m: usize|
            m < p ==> !named_form(t, sel, m),
    decreases p,
{
    assert(name_key() =~= seq!['n', 'a', 'm', 'e']);
    if p > 0 {
        lemma_first_anchor_below_is_first(t, sel, (p - 1) as nat);
    }
}

/// The anchor form is the first node of the arena that is an attached element
/// with the form's tag and `name`, and there is none exactly when no node is.
pub proof fn lemma_form_is_first_match(t: Seq<NodeView>, sel: SelectorsView)
    ensures
        form_anchor(t, sel) matches Some(f) ==> f < t.len() && named_form(t, sel, f) && forall|m: usize|
            m < f ==> !named_form(t, sel, m),
        form_anchor(t, sel) is None ==> forall|m: usize|
            m < t.len() ==> !named_form(t, sel, m),
{
    lemma_first_anchor_below_is_first(t, sel, t.len());
}

/// The value of attribute `key` of node `j`, when `j` is an element.
pub open spec fn node_attr(t: Seq<NodeView>, j: usize, key: Seq<char>) -> Option<Seq<char>> {
    match t[j as int].element {
        Some(e) => attr_of(e, key),
        None => None,
    }
}

/// A cell's image source is the `src` of the first `img` below it, and none
/// when it has no `img`.
pub proof fn lemma_cell_image_source(t: Seq<NodeView>, sel: SelectorsView, cell: usize)
    ensures
        first_of(select(t, cell, sel.img)) matches Some(im) ==> cell_data(t, sel, cell).img_src == node_attr(
            t,
            im,
            seq!['s', 'r', 'c'],
        ),
        first_of(select(t, cell, sel.img)) is None ==> cell_data(t, sel, cell).img_src is None,
{
    assert(src_key() =~= seq!['s', 'r', 'c']);
}

/// A cell without visible text is read through its first link: the link's
/// visible text, trimmed, when it has some; else the `alt` of the link's first
/// image, when that has one.
pub proof fn lemma_blank_cell_reads_link(t: Seq<NodeView>, sel: SelectorsView, cell: usize, link: usize)
    requires
        trim(text_of(t, cell)).len() == 0,
        first_of(select(t, cell, sel.a)) == Some(link),
    ensures
        trim(text_of(t, link)).len() > 0 ==> cell_data(t, sel, cell).text == Some(trim(text_of(t, link))),
        trim(text_of(t, link)).len() == 0 && first_of(select(t, link, sel.img)) is Some && node_attr(
            t,
            first_of(select(t, link, sel.img)).unwrap(),
            seq!['a', 'l', 't'],
        ) is Some ==> cell_data(t, sel, cell).text == node_attr(
            t,
            first_of(select(t, link, sel.img)).unwrap(),
            seq!['a', 'l', 't'],
        ),
{
    assert(alt_key() =~= seq!['a', 'l', 't']);
}

/// A cell whose text comes neither from itself nor from its first link is read
/// as the `alt` of its own first image, and has no text when that is missing.
pub proof fn lemma_cell_falls_back_to_image_alt(t: Seq<NodeView>, sel: SelectorsView, cell: usize)
    requires
        trim(text_of(t, cell)).len() == 0,
        first_of(select(t, cell, sel.a)) matches Some(link) ==> trim(text_of(t, link)).len() == 0 && (
        first_of(select(t, link, sel.img)) matches Some(li) ==> node_attr(t, li, seq!['a', 'l', 't']) is None),
    ensures
        first_of(select(t, cell, sel.img)) matches Some(im) ==> cell_data(t, sel, cell).text == node_attr(
            t,
            im,
            seq!['a', 'l', 't'],
        ),
        first_of(select(t, cell, sel.img)) is None ==> cell_data(t, sel, cell).text is None,
{
    assert(alt_key() =~= seq!['a', 'l', 't']);
}

/// A header cell that yields no text names its column `column_<i>`, after its
/// position `i`.
pub proof fn lemma_unnamed_header(t: Seq<NodeView>, sel: SelectorsView, ths: Seq<usize>, i: int)
    requires
        0 <= i < ths.len(),
        cell_data(t, sel, ths[i]).text matches Some(s) ==> s.len() == 0,
    ensures
        header_names(t, sel, ths)[i] == seq!['c', 'o', 'l', 'u', 'm', 'n', '_'] + decimal(i as nat),
{
    assert(header_names(t, sel, ths)[i] == header_name(t, sel, ths[i], i as nat));
    assert(column_prefix() =~= seq!['c', 'o', 'l', 'u', 'm', 'n', '_']);
}

/// A cell holding a non-negative integer written with a leading `+` holds that
/// number, as `str::parse::<i64>` accepts the sign.
pub proof fn lemma_plus_sign_reads(n: i64)
    requires
        n >= 0,
    ensures
        cell_value_of(seq!['+'] + decimal(n as nat)) == Some(CellView::Number(n)),
{
    lemma_decimal_digits(n as nat);
    let s = seq!['+'] + decimal(n as nat);
    assert(s.drop_first() =~= decimal(n as nat));
}

/// A cell's text with a character that cannot belong to an integer (anything
/// but a digit, apart from a leading sign) is kept as text.
pub proof fn lemma_non_numeric_text(s: Seq<char>, k: int)
    requires
        0 <= k < s.len(),
        !is_digit(s[k]),
        k == 0 ==> s[0] != '+' && s[0] != '-',
    ensures
        cell_value_of(s) == Some(CellView::Text(s)),
{
    if s[0] == '+' || s[0] == '-' {
        assert(s.drop_first()[k - 1] == s[k]);
    }
}

/// A digit string too large for an `i64` is kept as text.
pub proof fn lemma_overflow_is_text(n: nat)
    requires
        n > i64::MAX,
    ensures
        cell_value_of(decimal(n)) == Some(CellView::Text(decimal(n))),
{
    lemma_decimal_digits(n);
}

/// An empty cell text gives no value.
pub proof fn lemma_empty_text_no_value()
    ensures
        cell_value_of(Seq::<char>::empty()) is None,
{
}

/// The element ancestors of a node are its parent, when that is an element,
/// followed by the parent's own element ancestors: nearest first, with nodes
/// that are no elements (the document root) left out.
pub proof fn lemma_ancestors_nearest_first(t: Seq<NodeView>, i: usize, p: usize, fuel: nat)
    requires
        fuel > 0,
        parent_of(t, i) == Some(p),
    ensures
        t[p as int].element is Some ==> ancestors(t, i, fuel) == seq![p] + ancestors(t, p, (fuel - 1) as nat),
        t[p as int].element is None ==> ancestors(t, i, fuel) == ancestors(t, p, (fuel - 1) as nat),
{
    if t[p as int].element is None {
        assert(ancestors(t, i, fuel) =~= ancestors(t, p, (fuel - 1) as nat));
    }
}

/// A node without a parent has no ancestors.
pub proof fn lemma_root_has_no_ancestors(t: Seq<NodeView>, i: usize, fuel: nat)
    requires
        parent_of(t, i) is None,
    ensures
        ancestors(t, i, fuel).len() == 0,
{
}

/// The columns `headers` give distinct keys: no two columns share a name, and
/// no column's name is another's followed by `_img`.
pub open spec fn distinct_keys(headers: Seq<Seq<char>>) -> bool {
    forall|a: int, b: int|
        0 <= a < headers.len() && 0 <= b < headers.len() && a != b ==> #[trigger] headers[a] != #[trigger] headers[b]
            && headers[a] != headers[b] + img_suffix()
}

proof fn lemma_value_stays(
    t: Seq<NodeView>,
    sel: SelectorsView,
    tds: Seq<usize>,
    headers: Seq<Seq<char>>,
    k: nat,
    k2: nat,
    key: Seq<char>,
    val: CellView,
)
    requires
        k <= k2,
        row_get(row_upto(t, sel, tds, headers, k), key) == Some(val),
        forall|j: int| k <= j < k2 ==> #[trigger] headers[j] != key && headers[j] + img_suffix() != key,
    ensures
        row_get(row_upto(t, sel, tds, headers, k2), key) == Some(val),
    decreases k2,
{
    if k2 > k {
        lemma_value_stays(t, sel, tds, headers, k, (k2 - 1) as nat, key, val);
        let prev = row_upto(t, sel, tds, headers, (k2 - 1) as nat);
        let cell = cell_data(t, sel, tds[k2 - 1]);
        let h = headers[k2 - 1];
        let with_text = match column_value(cell) {
            Some(v) => row_insert(prev, h, v),
            None => prev,
        };
        if let Some(v) = column_value(cell) {
            lemma_row_get_insert(prev, h, v, key);
        }
        if let Some(src) = cell.img_src {
            lemma_row_get_insert(with_text, h + img_suffix(), CellView::Text(src), key);
        }
    }
}

/// Under columns with distinct keys, a data cell with visible text gives its
/// column the value of that text, trimmed: a number when it reads as an
/// `i64`, the text itself otherwise.
pub proof fn lemma_visible_cell_value(
    t: Seq<NodeView>,
    sel: SelectorsView,
    tds: Seq<usize>,
    headers: Seq<Seq<char>>,
    k: int,
)
    requires
        0 <= k < tds.len(),
        k < headers.len(),
        trim(text_of(t, tds[k])).len() > 0,
        distinct_keys(headers),
    ensures
        row_get(build_row(t, sel, tds, headers), headers[k]) == cell_value_of(trim(text_of(t, tds[k]))),
{
    let prev = row_upto(t, sel, tds, headers, k as nat);
    let cell = cell_data(t, sel, tds[k]);
    lemma_visible_cell_text(t, sel, tds[k]);
    let h = headers[k];
    let v = column_value(cell).unwrap();
    let with_text = row_insert(prev, h, v);
    lemma_row_get_insert(prev, h, v, h);
    if let Some(src) = cell.img_src {
        assert((h + img_suffix()).len() != h.len());
        lemma_row_get_insert(with_text, h + img_suffix(), CellView::Text(src), h);
    }
    let m: nat = if tds.len() < headers.len() { tds.len() } else { headers.len() };
    assert forall|j: int| k + 1 <= j < m implies #[trigger] headers[j] != h && headers[j] + img_suffix() != h by {
        assert(headers[j] != headers[k]);
        assert(headers[k] != headers[j] + img_suffix());
    }
    lemma_value_stays(t, sel, tds, headers, (k + 1) as nat, m, h, v);
}

proof fn lemma_same_suffix(a: Seq<char>, b: Seq<char>, x: Seq<char>)
    requires
        a + x == b + x,
    ensures
        a == b,
{
    assert((a + x).len() == a.len() + x.len());
    assert((b + x).len() == b.len() + x.len());
    assert(a.len() == b.len());
    assert(a =~= (a + x).subrange(0, a.len() as int));
    assert(b =~= (b + x).subrange(0, b.len() as int));
}

/// Under columns with distinct keys, a data cell whose first image has a `src`
/// gives the key `<column>_img` that source, as text.
pub proof fn lemma_image_source_value(
    t: Seq<NodeView>,
    sel: SelectorsView,
    tds: Seq<usize>,
    headers: Seq<Seq<char>>,
    k: int,
    im: usize,
    src: Seq<char>,
)
    requires
        0 <= k < tds.len(),
        k < headers.len(),
        first_of(select(t, tds[k], sel.img)) == Some(im),
        node_attr(t, im, seq!['s', 'r', 'c']) == Some(src),
        distinct_keys(headers),
    ensures
        row_get(build_row(t, sel, tds, headers), headers[k] + seq!['_', 'i', 'm', 'g']) == Some(
            CellView::Text(src),
        ),
{
    assert(img_suffix() =~= seq!['_', 'i', 'm', 'g']);
    lemma_cell_image_source(t, sel, tds[k]);
    let cell = cell_data(t, sel, tds[k]);
    let h = headers[k];
    let prev = row_upto(t, sel, tds, headers, k as nat);
    let with_text = match column_value(cell) {
        Some(v) => row_insert(prev, h, v),
        None => prev,
    };
    lemma_row_get_insert(with_text, h + img_suffix(), CellView::Text(src), h + img_suffix());
    let m: nat = if tds.len() < headers.len() { tds.len() } else { headers.len() };
    assert forall|j: int| k + 1 <= j < m implies #[trigger] headers[j] != h + img_suffix() && headers[j] + img_suffix()
        != h + img_suffix() by {
        assert(headers[j] != headers[k]);
        assert(headers[j] != headers[k] + img_suffix());
        if headers[j] + img_suffix() == h + img_suffix() {
            lemma_same_suffix(headers[j], h, img_suffix());
        }
    }
    lemma_value_stays(t, sel, tds, headers, (k + 1) as nat, m, h + img_suffix(), CellView::Text(src));
}

/// The page yields no table when it has no anchor form.
pub proof fn lemma_no_form_no_table(t: Seq<NodeView>, sel: SelectorsView)
    requires
        form_anchor(t, sel) is None,
    ensures
        table_of(t, sel) == Err::<TableView, ParseError>(ParseError::FormNotFound),
{
}

/// A character that an HTTP header value may hold: a tab, or any character
/// from the space up except DEL.
pub open spec fn header_char_ok(c: char) -> bool {
    (c as u32) == 9 || ((c as u32) >= 32 && (c as u32) != 127)
}

proof fn lemma_scalar_bytes_ok(v: u32)
    requires
        is_scalar(v),
    ensures
        (forall|i: int| 0 <= i < encode_scalar(v).len() ==> header_byte_ok(#[trigger] encode_scalar(v)[i])) <==> (
        v == 9 || (v >= 32 && v != 127)),
{
    let e = encode_scalar(v);
    if has_width_1_encoding(v) {
        assert(((v & 0x7F) as u8) as u32 == v) by (bit_vector)
            requires
                v <= 0x7F,
        ;
        assert(e[0] == leading_byte_width_1(v));
    } else {
        assert(forall|x: u8| #[trigger] (0xC0u8 | x) >= 0x80u8) by (bit_vector);
        assert(forall|x: u8| #[trigger] (0xE0u8 | x) >= 0x80u8) by (bit_vector);
        assert(forall|x: u8| #[trigger] (0xF0u8 | x) >= 0x80u8) by (bit_vector);
        assert(forall|x: u8| #[trigger] (0x80u8 | x) >= 0x80u8) by (bit_vector);
        assert forall|i: int| 0 <= i < e.len() implies header_byte_ok(#[trigger] e[i]) by {
            assert(e[i] >= 0x80);
        }
    }
}

/// A text can be sent as an HTTP header value exactly when each of its
/// characters can: it holds no control character other than the tab (no line
/// break, no NUL, no DEL); any character outside ASCII is fine.
pub proof fn lemma_header_value_by_chars(s: Seq<char>)
    ensures
        header_value_ok(s) <==> forall|i: int| 0 <= i < s.len() ==> header_char_ok(#[trigger] s[i]),
    decreases s.len(),
{
    if s.len() > 0 {
        let rest = s.drop_first();
        lemma_header_value_by_chars(rest);
        let e0 = encode_scalar(s[0] as u32);
        let er = encode_utf8(rest);
        let es = encode_utf8(s);
        assert(es == e0 + er);
        vstd::utf8::char_is_scalar(s[0]);
        lemma_scalar_bytes_ok(s[0] as u32);
        if header_value_ok(s) {
            assert forall|i: int| 0 <= i < e0.len() implies header_byte_ok(#[trigger] e0[i]) by {
                assert(es[i] == e0[i]);
            }
            assert forall|i: int| 0 <= i < er.len() implies header_byte_ok(#[trigger] er[i]) by {
                assert(es[e0.len() + i] == er[i]);
            }
            assert forall|i: int| 0 <= i < s.len() implies header_char_ok(#[trigger] s[i]) by {
                if i > 0 {
                    assert(s[i] == rest[i - 1]);
                }
            }
        }
        if forall|i: int| 0 <= i < s.len() ==> header_char_ok(#[trigger] s[i]) {
            assert(header_char_ok(s[0]));
            assert forall|i: int| 0 <= i < rest.len() implies header_char_ok(#[trigger] rest[i]) by {
                assert(rest[i] == s[i + 1]);
            }
            assert forall|i: int| 0 <= i < es.len() implies header_byte_ok(#[trigger] es[i]) by {
                if i < e0.len() {
                    assert(es[i] == e0[i]);
                } else {
                    assert(es[i] == er[i - e0.len()]);
                }
            }
        }
    }
}

proof fn lemma_trim_end_shape(u: Seq<char>) -> (m: int)
    ensures
        0 <= m <= u.len(),
        trim_end(u) == u.take(m),
        forall|j: int| m <= j < u.len() ==> is_ws(#[trigger] u[j]),
        m > 0 ==> !is_ws(u[m - 1]),
    decreases u.len(),
{
    if u.len() > 0 && is_ws(u.last()) {
        let m1 = lemma_trim_end_shape(u.drop_last());
        assert(u.drop_last().take(m1) =~= u.take(m1));
        assert forall|j: int| m1 <= j < u.len() implies is_ws(#[trigger] u[j]) by {
            if j < u.len() - 1 {
                assert(u[j] == u.drop_last()[j]);
            }
        }
        if m1 > 0 {
            assert(u[m1 - 1] == u.drop_last()[m1 - 1]);
        }
        m1
    } else {
        assert(u.take(u.len() as int) =~= u);
        u.len() as int
    }
}

/// Trimming keeps the stretch of `s` between its leading and its trailing
/// whitespace: all that is cut off at either end is whitespace, and what is
/// kept, when not empty, neither begins nor ends with whitespace.
pub proof fn lemma_trim_is_inner_stretch(s: Seq<char>)
    ensures
        exists|a: int, b: int|
            0 <= a <= b <= s.len() && trim(s) == s.subrange(a, b) && (forall|k: int|
                0 <= k < a ==> is_ws(#[trigger] s[k])) && (forall|k: int|
                b <= k < s.len() ==> is_ws(#[trigger] s[k])) && (a < b ==> !is_ws(s[a]) && !is_ws(s[b - 1])),
{
    let a = lemma_trim_start_shape(s);
    let u = s.skip(a);
    let m = lemma_trim_end_shape(u);
    let b = a + m;
    assert(u.take(m) =~= s.subrange(a, b));
    assert forall|k: int| b <= k < s.len() implies is_ws(#[trigger] s[k]) by {
        assert(s[k] == u[k - a]);
    }
    if a < b {
        assert(s[a] == u[0]);
        assert(s[b - 1] == u[m - 1]);
    }
}

/// Row keys are ordered as `String`s are, which is the order in which a row's
/// values are listed: of two keys that agree on their first `k` characters,
/// the one that ends there comes first, and otherwise the one with the smaller
/// character at position `k`.
pub proof fn lemma_key_order_is_lexicographic(a: Seq<char>, b: Seq<char>, k: int)
    requires
        0 <= k <= a.len(),
        k <= b.len(),
        a.take(k) == b.take(k),
    ensures
        k == a.len() && k < b.len() ==> key_lt(a, b),
        k < a.len() && k < b.len() && a[k] < b[k] ==> key_lt(a, b),
    decreases k,
{
    if k > 0 {
        assert(a[0] == a.take(k)[0]);
        assert(b[0] == b.take(k)[0]);
        assert(a.drop_first().take(k - 1) =~= a.take(k).drop_first());
        assert(b.drop_first().take(k - 1) =~= b.take(k).drop_first());
        lemma_key_order_is_lexicographic(a.drop_first(), b.drop_first(), k - 1);
        if k < a.len() {
            assert(a.drop_first()[k - 1] == a[k]);
        }
        if k < b.len() {
            assert(b.drop_first()[k - 1] == b[k]);
        }
    }
}

/// A cell's text made of decimal digits (leading zeros allowed), optionally
/// after a `-` sign, holds the number they denote whenever it fits an `i64`.
pub proof fn lemma_digit_text_reads(d: Seq<char>, negative: bool)
    requires
        d.len() > 0,
        all_digits(d),
        negative ==> digits_value(d) <= 0x8000_0000_0000_0000,
        !negative ==> digits_value(d) <= i64::MAX,
    ensures
        negative ==> cell_value_of(seq!['-'] + d) == Some(CellView::Number((-(digits_value(d) as int)) as i64)),
        !negative ==> cell_value_of(d) == Some(CellView::Number(digits_value(d) as i64)),
{
    if negative {
        let s = seq!['-'] + d;
        assert(s.drop_first() =~= d);
    } else {
        assert(is_digit(d[0]));
    }
}

/// A back-off never ends before it starts: the time at which a target is
/// scraped again is `now + secs`, or the end of the clock when that does not
/// fit, never a time that wrapped around.
pub proof fn lemma_resume_time_saturates(now: u64, secs: u64)
    ensures
        sat_add(now, secs) >= now,
        now + secs <= u64::MAX ==> sat_add(now, secs) == now + secs,
        now + secs > u64::MAX ==> sat_add(now, secs) == u64::MAX,
{
}

proof fn lemma_named_among_members(t: Seq<NodeView>, ids: Seq<usize>, tag: Seq<char>, j: usize)
    ensures
        named_among(t, ids, tag).contains(j) <==> ids.contains(j) && (t[j as int].element matches Some(e)
            && e.name == tag),
    decreases ids.len(),
{
    if ids.len() > 0 {
        let rest = ids.drop_last();
        lemma_named_among_members(t, rest, tag, j);
        let r = named_among(t, rest, tag);
        if ids.contains(j) && !rest.contains(j) {
            let k = choose|k: int| 0 <= k < ids.len() && ids[k] == j;
            if k < ids.len() - 1 {
                assert(rest[k] == j);
            }
        }
        if rest.contains(j) {
            let k = choose|k: int| 0 <= k < rest.len() && rest[k] == j;
            assert(ids[k] == j);
        }
        if is_named(t, ids.last(), tag) {
            if r.push(ids.last()).contains(j) && !r.contains(j) {
                let k = choose|k: int| 0 <= k < r.push(ids.last()).len() && r.push(ids.last())[k] == j;
                assert(k == r.len());
            }
            if r.contains(j) {
                let k = choose|k: int| 0 <= k < r.len() && r[k] == j;
                assert(r.push(ids.last())[k] == j);
            }
            if j == ids.last() {
                assert(r.push(ids.last())[r.len() as int] == j);
            }
        }
        if j == ids.last() {
            assert(ids[ids.len() - 1] == j);
        }
    }
}

/// The elements that a selection under node `i` finds are exactly the
/// descendants of `i` with the tag sought: none is left out, none added.
pub proof fn lemma_select_members(t: Seq<NodeView>, i: usize, tag: Seq<char>, j: usize)
    ensures
        select(t, i, tag).contains(j) <==> descendants(t, i).contains(j) && (t[j as int].element matches Some(e)
            && e.name == tag),
{
    lemma_named_among_members(t, descendants(t, i), tag, j);
}

/// The text that node `i` holds itself (a text node's characters; nothing for
/// any other node).
pub open spec fn own_text(t: Seq<NodeView>, i: usize) -> Seq<char> {
    match t[i as int].text {
        Some(s) => s,
        None => seq![],
    }
}

/// All the text under each of `cs`, one after the other.
pub open spec fn texts_under(t: Seq<NodeView>, cs: Seq<usize>) -> Seq<char>
    decreases cs.len(),
{
    if cs.len() == 0 {
        seq![]
    } else {
        texts_under(t, cs.drop_last()) + text_of(t, cs.last())
    }
}

proof fn lemma_preorder_list_text(t: Seq<NodeView>, d: Seq<nat>, cs: Seq<usize>, dd: nat, f: nat)
    requires
        depths_ok(t, d),
        links_in_bounds(t),
        forall|k: int| 0 <= k < cs.len() ==> #[trigger] cs[k] < t.len() && d[cs[k] as int] == dd,
        f >= t.len() - dd,
    ensures
        texts_of(t, preorder_list(t, cs, f)) == texts_under(t, cs),
    decreases cs.len(),
{
    if cs.len() > 0 {
        assert(forall|k: int| 0 <= k < cs.drop_last().len() ==> #[trigger] cs.drop_last()[k] == cs[k]);
        lemma_preorder_list_text(t, d, cs.drop_last(), dd, f);
        assert(cs.last() == cs[cs.len() - 1]);
        lemma_preorder_saturated(t, d, cs.last(), f, t.len());
        lemma_texts_concat(t, preorder_list(t, cs.drop_last(), f), preorder(t, cs.last(), f));
    }
}

/// On a layered arena (a tree is one), the text under a node is its own text
/// followed by the text under each of its children, in order: nothing under it
/// is left out, repeated or moved.
pub proof fn lemma_text_is_own_then_children(t: Seq<NodeView>, i: usize)
    requires
        links_in_bounds(t),
        is_layered(t),
        i < t.len(),
    ensures
        text_of(t, i) == own_text(t, i) + texts_under(t, t[i as int].children),
{
    let d = choose|d: Seq<nat>| depths_ok(t, d);
    let cs = t[i as int].children;
    assert forall|k: int| 0 <= k < cs.len() implies #[trigger] cs[k] < t.len() && d[cs[k] as int] == d[i as int]
        + 1 by {
        assert(t[i as int].children[k] < t.len());
    }
    let f = (t.len() - 1) as nat;
    lemma_preorder_list_text(t, d, cs, d[i as int] + 1, f);
    let rest = preorder_list(t, cs, f);
    assert(subtree(t, i) == seq![i] + rest);
    lemma_texts_concat(t, seq![i], rest);
    let one = seq![i];
    assert(one.drop_last() =~= Seq::<usize>::empty());
    assert(one.last() == i);
    assert(texts_of(t, one.drop_last()) == Seq::<char>::empty());
    assert(texts_of(t, one) == texts_of(t, one.drop_last()) + own_text(t, i));
    assert(texts_of(t, one) =~= own_text(t, i));
}

} // verus!
