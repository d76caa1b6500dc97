//! A table row: column names mapped to cell values, kept sorted by name, as a
//! `BTreeMap<String, CellValue>` keeps them.
use vstd::prelude::*;

use crate::cell::{CellValue, CellView};

verus! {

/// `a` comes strictly before `b` in lexicographic order of code points (the order
/// of `String`'s `Ord`, since UTF-8 preserves code-point order).
pub open spec fn key_lt(a: Seq<char>, b: Seq<char>) -> bool
    decreases a.len(),
{
    if a.len() == 0 {
        b.len() > 0
    } else if b.len() == 0 {
        false
    } else if a[0] != b[0] {
        a[0] < b[0]
    } else {
        key_lt(a.drop_first(), b.drop_first())
    }
}

/// No key comes before itself.
pub proof fn lemma_key_lt_irreflexive(a: Seq<char>)
    ensures
        !key_lt(a, a),
    decreases a.len(),
{
    if a.len() > 0 {
        lemma_key_lt_irreflexive(a.drop_first());
    }
}

/// Key order is transitive.
pub proof fn lemma_key_lt_transitive(a: Seq<char>, b: Seq<char>, c: Seq<char>)
    requires
        key_lt(a, b),
        key_lt(b, c),
    ensures
        key_lt(a, c),
    decreases a.len(),
{
    if a.len() > 0 && b.len() > 0 && c.len() > 0 && a[0] == b[0] && b[0] == c[0] {
        lemma_key_lt_transitive(a.drop_first(), b.drop_first(), c.drop_first());
    }
}

/// Of two different keys, one comes before the other.
pub proof fn lemma_key_lt_total(a: Seq<char>, b: Seq<char>)
    ensures
        a == b || key_lt(a, b) || key_lt(b, a),
    decreases a.len(),
{
    if a.len() > 0 && b.len() > 0 && a[0] == b[0] {
        lemma_key_lt_total(a.drop_first(), b.drop_first());
        if a.drop_first() == b.drop_first() {
            assert(a =~= seq![a[0]] + a.drop_first());
            assert(b =~= seq![b[0]] + b.drop_first());
        }
    } else if a.len() == 0 && b.len() == 0 {
        assert(a =~= b);
    }
}

/// A row as the sequence of its (column, value) entries.
pub type RowSpec = Seq<(Seq<char>, CellView)>;

/// The keys of `row` increase strictly from each entry to the next.
pub open spec fn keys_sorted(row: RowSpec) -> bool {
    forall|i: int, j: int|
        #![trigger row[i], row[j]]
        0 <= i < j < row.len() ==> key_lt(row[i].0, row[j].0)
}

/// `row` after setting `k` to `v`: the entry for `k` replaced, or a new entry
/// placed before the first larger key.
pub open spec fn row_insert(row: RowSpec, k: Seq<char>, v: CellView) -> RowSpec
    decreases row.len(),
{
    if row.len() == 0 {
        seq![(k, v)]
    } else if key_lt(row[0].0, k) {
        seq![row[0]] + row_insert(row.drop_first(), k, v)
    } else if row[0].0 == k {
        seq![(k, v)] + row.drop_first()
    } else {
        seq![(k, v)] + row
    }
}

/// The value that `row` holds for key `k`.
pub open spec fn row_get(row: RowSpec, k: Seq<char>) -> Option<CellView>
    decreases row.len(),
{
    if row.len() == 0 {
        None
    } else if row[0].0 == k {
        Some(row[0].1)
    } else {
        row_get(row.drop_first(), k)
    }
}

/// The entries of an executable row.
pub open spec fn row_view(row: Seq<(Vec<char>, CellValue)>) -> RowSpec {
    row.map_values(|e: (Vec<char>, CellValue)| (e.0@, e.1@))
}

/// Setting a key keeps the row's keys strictly increasing, leaves the row
/// non-empty, and brings in no key but the one set.
pub proof fn lemma_row_insert_keys(row: RowSpec, k: Seq<char>, v: CellView)
    requires
        keys_sorted(row),
    ensures
        keys_sorted(row_insert(row, k, v)),
        row_insert(row, k, v).len() > 0,
        forall|i: int|
            0 <= i < row_insert(row, k, v).len() ==> (#[trigger] row_insert(row, k, v)[i]).0 == k
                || exists|j: int| 0 <= j < row.len() && row[j].0 == row_insert(row, k, v)[i].0,
    decreases row.len(),
{
    let r = row_insert(row, k, v);
    if row.len() == 0 {
    } else if key_lt(row[0].0, k) {
        let rest = row.drop_first();
        assert forall|i: int, j: int| 0 <= i < j < rest.len() implies key_lt(rest[i].0, rest[j].0) by {
            assert(rest[i] == row[i + 1] && rest[j] == row[j + 1]);
        }
        lemma_row_insert_keys(rest, k, v);
        let ri = row_insert(rest, k, v);
        assert forall|i: int| 0 <= i < ri.len() implies key_lt(row[0].0, (#[trigger] ri[i]).0) by {
            if ri[i].0 != k {
                let j = choose|j: int| 0 <= j < rest.len() && rest[j].0 == ri[i].0;
                assert(rest[j] == row[j + 1]);
            }
        }
        assert forall|i: int, j: int| 0 <= i < j < r.len() implies key_lt(r[i].0, r[j].0) by {
            if i == 0 {
                assert(r[j] == ri[j - 1]);
            } else {
                assert(r[i] == ri[i - 1] && r[j] == ri[j - 1]);
            }
        }
        assert forall|i: int| 0 <= i < r.len() implies (#[trigger] r[i]).0 == k || exists|j: int|
            0 <= j < row.len() && row[j].0 == r[i].0 by {
            if i == 0 {
                assert(row[0].0 == r[0].0);
            } else {
                assert(r[i] == ri[i - 1]);
                if ri[i - 1].0 != k {
                    let j = choose|j: int| 0 <= j < rest.len() && rest[j].0 == ri[i - 1].0;
                    assert(rest[j] == row[j + 1]);
                }
            }
        }
    } else if row[0].0 == k {
        assert forall|i: int, j: int| 0 <= i < j < r.len() implies key_lt(r[i].0, r[j].0) by {
            if i == 0 {
                assert(r[j] == row[j]);
            } else {
                assert(r[i] == row[i] && r[j] == row[j]);
            }
        }
        assert forall|i: int| 0 <= i < r.len() implies (#[trigger] r[i]).0 == k || exists|j: int|
            0 <= j < row.len() && row[j].0 == r[i].0 by {
            if i > 0 {
                assert(r[i] == row[i]);
            }
        }
    } else {
        lemma_key_lt_total(row[0].0, k);
        assert forall|i: int, j: int| 0 <= i < j < r.len() implies key_lt(r[i].0, r[j].0) by {
            if i == 0 {
                assert(r[j] == row[j - 1]);
                if j - 1 > 0 {
                    lemma_key_lt_transitive(k, row[0].0, row[j - 1].0);
                }
            } else {
                assert(r[i] == row[i - 1] && r[j] == row[j - 1]);
            }
        }
        assert forall|i: int| 0 <= i < r.len() implies (#[trigger] r[i]).0 == k || exists|j: int|
            0 <= j < row.len() && row[j].0 == r[i].0 by {
            if i > 0 {
                assert(r[i] == row[i - 1]);
            }
        }
    }
}

/// What a row gives back for a key after that key was set: the value just set
/// for that key, and what it held before for any other key.
pub proof fn lemma_row_get_insert(row: RowSpec, k: Seq<char>, v: CellView, k2: Seq<char>)
    ensures
        row_get(row_insert(row, k, v), k2) == if k2 == k {
            Some(v)
        } else {
            row_get(row, k2)
        },
    decreases row.len(),
{
    let r = row_insert(row, k, v);
    if row.len() == 0 {
        assert(r.drop_first() =~= Seq::<(Seq<char>, CellView)>::empty());
    } else if key_lt(row[0].0, k) {
        lemma_row_get_insert(row.drop_first(), k, v, k2);
        lemma_key_lt_irreflexive(k);
        assert(r.drop_first() =~= row_insert(row.drop_first(), k, v));
    } else if row[0].0 == k {
        assert(r.drop_first() =~= row.drop_first());
    } else {
        assert(r.drop_first() =~= row);
    }
}

/// Whether `a` comes strictly before `b`.
pub fn chars_lt(a: &[char], b: &[char]) -> (res: bool)
    ensures
        res == key_lt(a@, b@),
{
    let mut i: usize = 0;
    assert(a@.skip(0) =~= a@ && b@.skip(0) =~= b@);
    while i < a.len() && i < b.len() && a[i] == b[i]
        invariant
            i <= a@.len(),
            i <= b@.len(),
            key_lt(a@, b@) == key_lt(a@.skip(i as int), b@.skip(i as int)),
        decreases a@.len() - i,
    {
        assert(a@.skip(i as int).drop_first() =~= a@.skip(i + 1));
        assert(b@.skip(i as int).drop_first() =~= b@.skip(i + 1));
        i = i + 1;
    }
    if i == a.len() {
        i < b.len()
    } else if i == b.len() {
        false
    } else {
        a[i] < b[i]
    }
}

/// Whether `a` and `b` hold the same characters.
pub fn chars_eq(a: &[char], b: &[char]) -> (res: bool)
    ensures
        res == (a@ == b@),
{
    if a.len() != b.len() {
        return false;
    }
    let mut i: usize = 0;
    while i < a.len()
        invariant
            a@.len() == b@.len(),
            i <= a@.len(),
            forall|k: int| 0 <= k < i ==> a@[k] == b@[k],
        decreases a@.len() - i,
    {
        if a[i] != b[i] {
            return false;
        }
        i = i + 1;
    }
    assert(a@ =~= b@);
    true
}

/// Sets `key` to `value` in the sorted row `row`.
pub fn row_set(row: &mut Vec<(Vec<char>, CellValue)>, key: Vec<char>, value: CellValue)
    ensures
        row_view(final(row)@) == row_insert(row_view(old(row)@), key@, value@),
{
    let ghost r0 = row_view(row@);
    let n = row.len();
    let mut p: usize = 0;
    assert(r0.take(0) + r0.skip(0) =~= r0);
    assert(r0.skip(0) =~= r0);
    assert(r0.take(0) + row_insert(r0, key@, value@) =~= row_insert(r0, key@, value@));
    while p < n && chars_lt(row[p].0.as_slice(), key.as_slice())
        invariant
            n == row@.len(),
            r0 == row_view(row@),
            p <= n,
            row_insert(r0, key@, value@) == r0.take(p as int) + row_insert(
                r0.skip(p as int),
                key@,
                value@,
            ),
        decreases n - p,
    {
        assert(r0.skip(p as int)[0] == r0[p as int]);
        assert(r0.skip(p as int).drop_first() =~= r0.skip(p + 1));
        assert(r0.take(p + 1) =~= r0.take(p as int) + seq![r0[p as int]]);
        p = p + 1;
    }
    if p < n && chars_eq(row[p].0.as_slice(), key.as_slice()) {
        assert(r0.skip(p as int)[0] == r0[p as int]);
        assert(r0.skip(p as int).drop_first() =~= r0.skip(p + 1));
        let ghost kv = (key@, value@);
        row.set(p, (key, value));
        assert(row_view(row@) =~= r0.take(p as int) + (seq![kv] + r0.skip(p + 1)));
    } else {
        let ghost kv = (key@, value@);
        if p < n {
            assert(r0.skip(p as int)[0] == r0[p as int]);
        }
        row.insert(p, (key, value));
        assert(row_view(row@) =~= r0.take(p as int) + (seq![kv] + r0.skip(p as int)));
    }
}

} // verus!
