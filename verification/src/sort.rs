//! Ordering rows by sort keys, and a stable merge sort of rows.
use vstd::prelude::*;
use vstd::multiset::Multiset;
use crate::data::{Comparison, Data, DataType, Value, bytes_order, data_key_compare, int_order, value_key_order};
use crate::row::{Row, rows_view};

verus! {

broadcast use vstd::seq_lib::group_to_multiset_ensures;

/// One key of a sort: the column, its direction and its type.
#[derive(Debug, Clone, Copy, PartialEq, Eq, Structural)]
pub struct SortKey {
    pub col_idx: usize,
    pub ascending: bool,
    pub data_type: DataType,
}

/// The comparison of two rows by one key.
pub open spec fn key_order(k: SortKey, a: Seq<Value>, b: Seq<Value>) -> Comparison {
    let c = value_key_order(k.data_type, a[k.col_idx as int], b[k.col_idx as int]);
    if k.ascending {
        c
    } else {
        c.reversed()
    }
}

/// The comparison of two rows by a list of keys: the first key on which
/// they differ decides.
pub open spec fn rows_order(keys: Seq<SortKey>, a: Seq<Value>, b: Seq<Value>) -> Comparison
    decreases keys.len(),
{
    if keys.len() == 0 {
        Comparison::Equal
    } else {
        let c = key_order(keys[0], a, b);
        if c != Comparison::Equal {
            c
        } else {
            rows_order(keys.drop_first(), a, b)
        }
    }
}

/// Every key's column exists in the row and holds a value of the key's type.
pub open spec fn row_fits_keys(keys: Seq<SortKey>, r: Seq<Value>) -> bool {
    forall|i: int| 0 <= i < keys.len() ==> {
        &&& (#[trigger] keys[i]).col_idx < r.len()
        &&& r[keys[i].col_idx as int].data_type() == keys[i].data_type
    }
}

pub open spec fn rows_fit_keys(keys: Seq<SortKey>, rows: Seq<Seq<Value>>) -> bool {
    forall|i: int| 0 <= i < rows.len() ==> row_fits_keys(keys, #[trigger] rows[i])
}

// ─── Order laws ──────────────────────────────────────────────────────────

proof fn lemma_bytes_order_laws(a: Seq<u8>, b: Seq<u8>, c: Seq<u8>)
    ensures
        bytes_order(a, a) == Comparison::Equal,
        bytes_order(b, a) == bytes_order(a, b).reversed(),
        bytes_order(a, b) == Comparison::Equal && bytes_order(b, c) == Comparison::Equal
            ==> bytes_order(a, c) == Comparison::Equal,
        bytes_order(a, b) == Comparison::Less && bytes_order(b, c) != Comparison::Greater
            ==> bytes_order(a, c) == Comparison::Less,
        bytes_order(a, b) != Comparison::Greater && bytes_order(b, c) == Comparison::Less
            ==> bytes_order(a, c) == Comparison::Less,
    decreases a.len() + b.len() + c.len(),
{
    if a.len() > 0 && b.len() > 0 && c.len() > 0 {
        lemma_bytes_order_laws(a.drop_first(), b.drop_first(), c.drop_first());
    } else if a.len() > 0 && b.len() > 0 {
        lemma_bytes_order_laws(a.drop_first(), b.drop_first(), c);
    } else if a.len() > 0 {
        lemma_bytes_order_laws(a.drop_first(), b, c);
    }
}

/// The comparison of one typed key is reflexive, antisymmetric and transitive.
pub proof fn lemma_value_order_laws(dt: DataType, a: Value, b: Value, c: Value)
    requires
        a.data_type() == dt,
        b.data_type() == dt,
        c.data_type() == dt,
    ensures
        value_key_order(dt, a, a) == Comparison::Equal,
        value_key_order(dt, b, a) == value_key_order(dt, a, b).reversed(),
        value_key_order(dt, a, b) == Comparison::Equal && value_key_order(dt, b, c)
            == Comparison::Equal ==> value_key_order(dt, a, c) == Comparison::Equal,
        value_key_order(dt, a, b) == Comparison::Less && value_key_order(dt, b, c)
            != Comparison::Greater ==> value_key_order(dt, a, c) == Comparison::Less,
        value_key_order(dt, a, b) != Comparison::Greater && value_key_order(dt, b, c)
            == Comparison::Less ==> value_key_order(dt, a, c) == Comparison::Less,
{
    match (a, b, c) {
        (Value::Str(x), Value::Str(y), Value::Str(z)) => lemma_bytes_order_laws(x, y, z),
        _ => {},
    }
}

/// The comparison of rows by keys is a total preorder on rows that fit the keys.
pub proof fn lemma_rows_order_laws(keys: Seq<SortKey>, a: Seq<Value>, b: Seq<Value>, c: Seq<Value>)
    requires
        row_fits_keys(keys, a),
        row_fits_keys(keys, b),
        row_fits_keys(keys, c),
    ensures
        rows_order(keys, a, a) == Comparison::Equal,
        rows_order(keys, b, a) == rows_order(keys, a, b).reversed(),
        rows_order(keys, a, b) == Comparison::Equal && rows_order(keys, b, c) == Comparison::Equal
            ==> rows_order(keys, a, c) == Comparison::Equal,
        rows_order(keys, a, b) == Comparison::Less && rows_order(keys, b, c) != Comparison::Greater
            ==> rows_order(keys, a, c) == Comparison::Less,
        rows_order(keys, a, b) != Comparison::Greater && rows_order(keys, b, c) == Comparison::Less
            ==> rows_order(keys, a, c) == Comparison::Less,
    decreases keys.len(),
{
    if keys.len() > 0 {
        let k = keys[0];
        assert(row_fits_keys(keys, a) && row_fits_keys(keys, b) && row_fits_keys(keys, c));
        assert(keys[0].col_idx < a.len() && keys[0].col_idx < b.len() && keys[0].col_idx < c.len());
        let (x, y, z) = (a[k.col_idx as int], b[k.col_idx as int], c[k.col_idx as int]);
        lemma_value_order_laws(k.data_type, x, y, z);
        lemma_value_order_laws(k.data_type, z, y, x);
        lemma_value_order_laws(k.data_type, y, x, z);
        lemma_value_order_laws(k.data_type, x, z, y);
        let rest = keys.drop_first();
        assert forall|i: int| 0 <= i < rest.len() implies (#[trigger] rest[i]).col_idx < a.len() by {
            assert(rest[i] == keys[i + 1]);
        }
        assert(row_fits_keys(rest, a)) by {
            assert forall|i: int| 0 <= i < rest.len() implies {
                &&& (#[trigger] rest[i]).col_idx < a.len()
                &&& a[rest[i].col_idx as int].data_type() == rest[i].data_type
            } by {
                assert(rest[i] == keys[i + 1]);
            }
        }
        assert(row_fits_keys(rest, b)) by {
            assert forall|i: int| 0 <= i < rest.len() implies {
                &&& (#[trigger] rest[i]).col_idx < b.len()
                &&& b[rest[i].col_idx as int].data_type() == rest[i].data_type
            } by {
                assert(rest[i] == keys[i + 1]);
            }
        }
        assert(row_fits_keys(rest, c)) by {
            assert forall|i: int| 0 <= i < rest.len() implies {
                &&& (#[trigger] rest[i]).col_idx < c.len()
                &&& c[rest[i].col_idx as int].data_type() == rest[i].data_type
            } by {
                assert(rest[i] == keys[i + 1]);
            }
        }
        lemma_rows_order_laws(rest, a, b, c);
    }
}

// ─── Comparing rows ──────────────────────────────────────────────────────

/// The comparison of two rows by one key.
pub fn compare_key(key: SortKey, a: &Data, b: &Data) -> (r: Comparison)
    ensures
        r == (if key.ascending {
            value_key_order(key.data_type, a@, b@)
        } else {
            value_key_order(key.data_type, a@, b@).reversed()
        }),
{
    let c = data_key_compare(key.data_type, a, b);
    if key.ascending {
        c
    } else {
        c.reverse()
    }
}

/// The comparison of two rows by a list of keys.
pub fn compare_rows(a: &Row, b: &Row, sort_keys: &Vec<SortKey>) -> (r: Comparison)
    requires
        forall|i: int| 0 <= i < sort_keys@.len() ==> (#[trigger] sort_keys@[i]).col_idx < a@.len() && sort_keys@[i].col_idx < b@.len(),
    ensures
        r == rows_order(sort_keys@, a@, b@),
{
    let mut i: usize = 0;
    assert(sort_keys@.skip(0) =~= sort_keys@);
    while i < sort_keys.len()
        invariant
            i <= sort_keys.len(),
            forall|j: int| 0 <= j < sort_keys@.len() ==> (#[trigger] sort_keys@[j]).col_idx < a@.len() && sort_keys@[j].col_idx < b@.len(),
            rows_order(sort_keys@, a@, b@) == rows_order(sort_keys@.skip(i as int), a@, b@),
        decreases sort_keys.len() - i,
    {
        let key = sort_keys[i];
        assert(sort_keys@.skip(i as int)[0] == key);
        assert(sort_keys@.skip(i as int).drop_first() =~= sort_keys@.skip(i + 1));
        let c = compare_key(key, &a.values[key.col_idx], &b.values[key.col_idx]);
        if c != Comparison::Equal {
            return c;
        }
        i += 1;
    }
    Comparison::Equal
}

/// The values of a row's key columns, in key order.
pub fn extract_key_values(row: &Row, sort_keys: &Vec<SortKey>) -> (r: Vec<Data>)
    requires
        forall|i: int| 0 <= i < sort_keys@.len() ==> (#[trigger] sort_keys@[i]).col_idx < row@.len(),
    ensures
        r@.len() == sort_keys@.len(),
        forall|i: int| 0 <= i < sort_keys@.len() ==> (#[trigger] r@[i])@ == row@[sort_keys@[i].col_idx as int],
{
    let mut keys: Vec<Data> = Vec::with_capacity(sort_keys.len());
    let mut i: usize = 0;
    while i < sort_keys.len()
        invariant
            i <= sort_keys.len(),
            keys@.len() == i,
            forall|j: int| 0 <= j < sort_keys@.len() ==> (#[trigger] sort_keys@[j]).col_idx < row@.len(),
            forall|j: int| 0 <= j < i ==> (#[trigger] keys@[j])@ == row@[sort_keys@[j].col_idx as int],
        decreases sort_keys.len() - i,
    {
        keys.push(row.values[sort_keys[i].col_idx].copy());
        i += 1;
    }
    keys
}

/// The comparison of two lists of extracted key values: the `i`-th values
/// compare by the `i`-th key.
pub open spec fn key_values_order(keys: Seq<SortKey>, a: Seq<Value>, b: Seq<Value>) -> Comparison
    decreases keys.len(),
{
    if keys.len() == 0 {
        Comparison::Equal
    } else {
        let k = keys[0];
        let c0 = value_key_order(k.data_type, a[0], b[0]);
        let c = if k.ascending { c0 } else { c0.reversed() };
        if c != Comparison::Equal {
            c
        } else {
            key_values_order(keys.drop_first(), a.drop_first(), b.drop_first())
        }
    }
}

/// The comparison of two lists of extracted key values.
pub fn compare_key_values(a: &Vec<Data>, b: &Vec<Data>, sort_keys: &Vec<SortKey>) -> (r: Comparison)
    requires
        a@.len() == sort_keys@.len(),
        b@.len() == sort_keys@.len(),
    ensures
        r == key_values_order(sort_keys@, crate::row::values_view(a@), crate::row::values_view(b@)),
{
    let ghost va = crate::row::values_view(a@);
    let ghost vb = crate::row::values_view(b@);
    let mut i: usize = 0;
    assert(sort_keys@.skip(0) =~= sort_keys@ && va.skip(0) =~= va && vb.skip(0) =~= vb);
    while i < sort_keys.len()
        invariant
            i <= sort_keys.len(),
            a@.len() == sort_keys@.len(),
            b@.len() == sort_keys@.len(),
            va == crate::row::values_view(a@),
            vb == crate::row::values_view(b@),
            key_values_order(sort_keys@, va, vb) == key_values_order(sort_keys@.skip(i as int), va.skip(i as int), vb.skip(i as int)),
        decreases sort_keys.len() - i,
    {
        let key = sort_keys[i];
        assert(sort_keys@.skip(i as int)[0] == key);
        assert(va.skip(i as int)[0] == a@[i as int]@);
        assert(vb.skip(i as int)[0] == b@[i as int]@);
        assert(sort_keys@.skip(i as int).drop_first() =~= sort_keys@.skip(i + 1));
        assert(va.skip(i as int).drop_first() =~= va.skip(i + 1));
        assert(vb.skip(i as int).drop_first() =~= vb.skip(i + 1));
        let c = compare_key(key, &a[i], &b[i]);
        if c != Comparison::Equal {
            return c;
        }
        i += 1;
    }
    Comparison::Equal
}

/// Comparing extracted key values is comparing the rows by the keys.
pub proof fn lemma_key_values_match(keys: Seq<SortKey>, a: Seq<Value>, b: Seq<Value>, ka: Seq<Value>, kb: Seq<Value>)
    requires
        ka.len() == keys.len(),
        kb.len() == keys.len(),
        forall|i: int| 0 <= i < keys.len() ==> ka[i] == a[(#[trigger] keys[i]).col_idx as int] && kb[i] == b[keys[i].col_idx as int],
    ensures
        key_values_order(keys, ka, kb) == rows_order(keys, a, b),
    decreases keys.len(),
{
    if keys.len() > 0 {
        assert(ka[0] == a[keys[0].col_idx as int]);
        let rest = keys.drop_first();
        assert forall|i: int| 0 <= i < rest.len() implies ka.drop_first()[i] == a[(#[trigger] rest[i]).col_idx as int] && kb.drop_first()[i] == b[rest[i].col_idx as int] by {
            assert(rest[i] == keys[i + 1]);
        }
        lemma_key_values_match(rest, a, b, ka.drop_first(), kb.drop_first());
    }
}

// ─── Stable merge sort ───────────────────────────────────────────────────

/// Row `i` goes before row `j` in a stable sort: its keys are smaller, or
/// they are equal and it came first.
pub open spec fn stable_before(keys: Seq<SortKey>, rows: Seq<Seq<Value>>, i: int, j: int) -> bool {
    let c = rows_order(keys, rows[i], rows[j]);
    c == Comparison::Less || (c == Comparison::Equal && i < j)
}

/// `i` may stand before `j`: it is `j` or goes before it.
pub open spec fn stable_le(keys: Seq<SortKey>, rows: Seq<Seq<Value>>, i: usize, j: usize) -> bool {
    i == j || stable_before(keys, rows, i as int, j as int)
}

pub open spec fn indices_sorted(keys: Seq<SortKey>, rows: Seq<Seq<Value>>, p: Seq<usize>) -> bool {
    forall|a: int, b: int| 0 <= a < b < p.len() ==> stable_le(keys, rows, #[trigger] p[a], #[trigger] p[b])
}

pub open spec fn indices_in_range(p: Seq<usize>, n: nat) -> bool {
    forall|a: int| 0 <= a < p.len() ==> #[trigger] p[a] < n
}

proof fn lemma_stable_le_laws(keys: Seq<SortKey>, rows: Seq<Seq<Value>>, i: usize, j: usize, k: usize)
    requires
        rows_fit_keys(keys, rows),
        i < rows.len(),
        j < rows.len(),
        k < rows.len(),
    ensures
        stable_le(keys, rows, i, j) || stable_le(keys, rows, j, i),
        stable_le(keys, rows, i, j) && stable_le(keys, rows, j, k) ==> stable_le(keys, rows, i, k),
        !stable_le(keys, rows, j, i) ==> stable_le(keys, rows, i, j),
{
    lemma_rows_order_laws(keys, rows[i as int], rows[j as int], rows[k as int]);
    lemma_rows_order_laws(keys, rows[j as int], rows[i as int], rows[k as int]);
}

proof fn lemma_multiset_add(s1: Seq<usize>, s2: Seq<usize>)
    ensures
        (s1 + s2).to_multiset() =~= s1.to_multiset().add(s2.to_multiset()),
    decreases s2.len(),
{
    if s2.len() == 0 {
        assert(s1 + s2 =~= s1);
    } else {
        lemma_multiset_add(s1, s2.drop_last());
        assert((s1 + s2).drop_last() =~= s1 + s2.drop_last());
        assert(s1 + s2 =~= (s1 + s2.drop_last()).push(s2.last()));
        assert(s2 =~= s2.drop_last().push(s2.last()));
    }
}

/// Merges two sorted index lists.
fn merge_indices(
    keys: &Vec<SortKey>,
    rows: &Vec<Row>,
    v1: &Vec<usize>,
    v2: &Vec<usize>,
) -> (r: Vec<usize>)
    requires
        rows_fit_keys(keys@, rows_view(rows@)),
        indices_in_range(v1@, rows@.len()),
        indices_in_range(v2@, rows@.len()),
        indices_sorted(keys@, rows_view(rows@), v1@),
        indices_sorted(keys@, rows_view(rows@), v2@),
    ensures
        r@.to_multiset() == (v1@ + v2@).to_multiset(),
        r@.len() == v1@.len() + v2@.len(),
        indices_in_range(r@, rows@.len()),
        indices_sorted(keys@, rows_view(rows@), r@),
{
    let ghost rv = rows_view(rows@);
    let mut r: Vec<usize> = Vec::new();
    let mut i1: usize = 0;
    let mut i2: usize = 0;
    while i1 < v1.len() || i2 < v2.len()
        invariant
            i1 <= v1.len(),
            i2 <= v2.len(),
            rv == rows_view(rows@),
            rows_fit_keys(keys@, rv),
            indices_in_range(v1@, rows@.len()),
            indices_in_range(v2@, rows@.len()),
            indices_sorted(keys@, rv, v1@),
            indices_sorted(keys@, rv, v2@),
            indices_in_range(r@, rows@.len()),
            indices_sorted(keys@, rv, r@),
            forall|a: int, b: int| 0 <= a < r@.len() && i1 <= b < v1@.len() ==> stable_le(keys@, rv, #[trigger] r@[a], #[trigger] v1@[b]),
            forall|a: int, b: int| 0 <= a < r@.len() && i2 <= b < v2@.len() ==> stable_le(keys@, rv, #[trigger] r@[a], #[trigger] v2@[b]),
            r@.to_multiset() == (v1@.subrange(0, i1 as int) + v2@.subrange(0, i2 as int)).to_multiset(),
            r@.len() == i1 + i2,
        decreases v1.len() + v2.len() - i1 - i2,
    {
        let take_left = if i1 >= v1.len() {
            false
        } else if i2 >= v2.len() {
            true
        } else {
            proof {
                assert(row_fits_keys(keys@, rv[v2@[i2 as int] as int]));
                assert(row_fits_keys(keys@, rv[v1@[i1 as int] as int]));
            }
            let c = compare_rows(&rows[v2[i2]], &rows[v1[i1]], keys);
            !(c == Comparison::Less || (c == Comparison::Equal && v2[i2] < v1[i1]))
        };
        let ghost old_r = r@;
        let x = if take_left { v1[i1] } else { v2[i2] };
        proof {
            assert forall|i: int| 0 <= i < keys@.len() implies (#[trigger] keys@[i]).col_idx < rv[x as int].len() by {
                assert(row_fits_keys(keys@, rv[x as int]));
            }
            if take_left {
                // x is the head of the first list; it goes before what remains of both
                assert forall|b: int| i1 <= b < v1@.len() implies stable_le(keys@, rv, x, #[trigger] v1@[b]) by {
                    if b > i1 { assert(stable_le(keys@, rv, v1@[i1 as int], v1@[b])); }
                }
                if i2 < v2.len() {
                    lemma_stable_le_laws(keys@, rv, x, v2@[i2 as int], x);
                    assert forall|b: int| i2 <= b < v2@.len() implies stable_le(keys@, rv, x, #[trigger] v2@[b]) by {
                        if b > i2 {
                            assert(stable_le(keys@, rv, v2@[i2 as int], v2@[b]));
                            lemma_stable_le_laws(keys@, rv, x, v2@[i2 as int], v2@[b]);
                        }
                    }
                }
            } else {
                assert forall|b: int| i2 <= b < v2@.len() implies stable_le(keys@, rv, x, #[trigger] v2@[b]) by {
                    if b > i2 { assert(stable_le(keys@, rv, v2@[i2 as int], v2@[b])); }
                }
                if i1 < v1.len() {
                    assert forall|b: int| i1 <= b < v1@.len() implies stable_le(keys@, rv, x, #[trigger] v1@[b]) by {
                        if b > i1 {
                            assert(stable_le(keys@, rv, v1@[i1 as int], v1@[b]));
                            lemma_stable_le_laws(keys@, rv, x, v1@[i1 as int], v1@[b]);
                        }
                    }
                }
            }
        }
        r.push(x);
        proof {
            assert(r@ == old_r.push(x));
            assert forall|a: int, b: int| 0 <= a < b < r@.len() implies stable_le(keys@, rv, #[trigger] r@[a], #[trigger] r@[b]) by {
                if b == r@.len() - 1 {
                    if take_left {
                        assert(stable_le(keys@, rv, old_r[a], v1@[i1 as int]));
                    } else {
                        assert(stable_le(keys@, rv, old_r[a], v2@[i2 as int]));
                    }
                } else {
                    assert(stable_le(keys@, rv, old_r[a], old_r[b]));
                }
            }
        }
        if take_left {
            proof {
                assert(v1@.subrange(0, i1 + 1) =~= v1@.subrange(0, i1 as int).push(x));
                lemma_multiset_add(v1@.subrange(0, i1 as int), v2@.subrange(0, i2 as int));
                lemma_multiset_add(v1@.subrange(0, i1 + 1), v2@.subrange(0, i2 as int));
            }
            i1 += 1;
        } else {
            proof {
                assert(v2@.subrange(0, i2 + 1) =~= v2@.subrange(0, i2 as int).push(x));
                lemma_multiset_add(v1@.subrange(0, i1 as int), v2@.subrange(0, i2 as int));
                lemma_multiset_add(v1@.subrange(0, i1 as int), v2@.subrange(0, i2 + 1));
            }
            i2 += 1;
        }
    }
    assert(v1@.subrange(0, i1 as int) =~= v1@);
    assert(v2@.subrange(0, i2 as int) =~= v2@);
    r
}

/// Sorts a list of row indices stably by the rows' keys.
fn sort_indices(keys: &Vec<SortKey>, rows: &Vec<Row>, v: Vec<usize>) -> (r: Vec<usize>)
    requires
        rows_fit_keys(keys@, rows_view(rows@)),
        indices_in_range(v@, rows@.len()),
    ensures
        r@.to_multiset() == v@.to_multiset(),
        r@.len() == v@.len(),
        indices_in_range(r@, rows@.len()),
        indices_sorted(keys@, rows_view(rows@), r@),
    decreases v@.len(),
{
    let n = v.len();
    if n <= 1 {
        return v;
    }
    let mid = n / 2;
    let mut left: Vec<usize> = Vec::with_capacity(mid);
    let mut right: Vec<usize> = Vec::with_capacity(n - mid);
    let mut i: usize = 0;
    while i < n
        invariant
            i <= n,
            n == v@.len(),
            mid == n / 2,
            left@ == v@.subrange(0, if i < mid { i as int } else { mid as int }),
            right@ == v@.subrange(mid as int, if i < mid { mid as int } else { i as int }),
        decreases n - i,
    {
        if i < mid {
            left.push(v[i]);
        } else {
            right.push(v[i]);
        }
        i += 1;
    }
    proof {
        assert(v@ =~= left@ + right@);
        lemma_multiset_add(left@, right@);
    }
    let ls = sort_indices(keys, rows, left);
    let rs = sort_indices(keys, rows, right);
    let r = merge_indices(keys, rows, &ls, &rs);
    proof {
        lemma_multiset_add(ls@, rs@);
    }
    r
}

/// `0, 1, .., n - 1`.
pub open spec fn index_range(n: nat) -> Seq<usize> {
    Seq::new(n, |i: int| i as usize)
}

/// The rows are the input rows in some order: `p` is a rearrangement of
/// the positions `0 .. n` and the `k`-th row is the input's row `p[k]`.
pub open spec fn is_rearrangement(input: Seq<Seq<Value>>, output: Seq<Seq<Value>>, p: Seq<usize>) -> bool {
    &&& p.len() == input.len()
    &&& output.len() == input.len()
    &&& p.to_multiset() == index_range(input.len()).to_multiset()
    &&& forall|k: int| 0 <= k < p.len() ==> output[k] == input[#[trigger] p[k] as int]
}

/// Sorts rows by the keys, stably: the result is the input rearranged so
/// that the keys never decrease, and rows with equal keys keep their
/// input order.
pub fn sort_rows(rows: &mut Vec<Row>, sort_keys: &Vec<SortKey>)
    requires
        rows_fit_keys(sort_keys@, rows_view(old(rows)@)),
    ensures
        exists|p: Seq<usize>| {
            &&& is_rearrangement(rows_view(old(rows)@), rows_view(final(rows)@), p)
            &&& indices_in_range(p, old(rows)@.len())
            &&& indices_sorted(sort_keys@, rows_view(old(rows)@), p)
        },
        forall|a: int, b: int| 0 <= a < b < final(rows)@.len() ==> rows_order(sort_keys@, final(rows)@[a]@, final(rows)@[b]@) != Comparison::Greater,
{
    let n = rows.len();
    let mut idx: Vec<usize> = Vec::with_capacity(n);
    let mut i: usize = 0;
    while i < n
        invariant
            i <= n,
            idx@ == index_range(i as nat),
        decreases n - i,
    {
        idx.push(i);
        proof { assert(idx@ =~= index_range((i + 1) as nat)); }
        i += 1;
    }
    let ghost rv = rows_view(rows@);
    let p = sort_indices(sort_keys, rows, idx);
    let mut out: Vec<Row> = Vec::with_capacity(n);
    let mut k: usize = 0;
    while k < p.len()
        invariant
            k <= p@.len(),
            p@.len() == n,
            rv == rows_view(rows@),
            rows@.len() == n,
            indices_in_range(p@, n as nat),
            out@.len() == k,
            forall|j: int| 0 <= j < k ==> (#[trigger] out@[j])@ == rv[p@[j] as int],
        decreases p@.len() - k,
    {
        out.push(rows[p[k]].copy());
        k += 1;
    }
    *rows = out;
    proof {
        assert(rows_view(rows@).len() == n);
        assert(is_rearrangement(rv, rows_view(rows@), p@));
        assert forall|a: int, b: int| 0 <= a < b < rows@.len() implies rows_order(sort_keys@, rows@[a]@, rows@[b]@) != Comparison::Greater by {
            assert(stable_le(sort_keys@, rv, p@[a], p@[b]));
            assert(row_fits_keys(sort_keys@, rv[p@[a] as int]));
            lemma_rows_order_laws(sort_keys@, rv[p@[a] as int], rv[p@[b] as int], rv[p@[b] as int]);
        }
    }
}

} // verus!
