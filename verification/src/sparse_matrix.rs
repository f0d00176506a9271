//! The sparse matrix container: coordinate-list storage with lazily
//! maintained sorted/clean flags, binary-search point access, and a
//! sparse matrix product.

use vstd::prelude::*;

verus! {

/// A single (row, column, value) point of a matrix.
///
/// Ordering and equality of points go by the coordinates alone; the value
/// plays no part in either.
#[derive(Clone, Copy)]
pub struct MatrixElement {
    pub row: i32,
    pub col: i32,
    pub value: i64,
}

/// Strict lexicographic order on the coordinates of two points.
pub open spec fn coord_lt(a: MatrixElement, b: MatrixElement) -> bool {
    a.row < b.row || (a.row == b.row && a.col < b.col)
}

/// Coordinate-only equality: two points at the same (row, col) are the same
/// point for search purposes, whatever their values.
pub open spec fn coord_eq(a: MatrixElement, b: MatrixElement) -> bool {
    a.row == b.row && a.col == b.col
}

/// The points of `s` are in strictly ascending coordinate order.
pub open spec fn sorted_strict(s: Seq<MatrixElement>) -> bool {
    forall|i: int, j: int| 0 <= i < j < s.len() ==> coord_lt(s[i], s[j])
}

/// No two points of `s` share a coordinate.
pub open spec fn distinct_coords(s: Seq<MatrixElement>) -> bool {
    forall|i: int, j: int| 0 <= i < j < s.len() ==> !coord_eq(s[i], s[j])
}

/// Some point of `s` sits at (r, c).
pub open spec fn has_coord(s: Seq<MatrixElement>, r: int, c: int) -> bool {
    exists|i: int| 0 <= i < s.len() && s[i].row == r && s[i].col == c
}

/// The value stored at (r, c), and zero where no point sits: the reading a
/// sparse matrix gives of any coordinate.
pub open spec fn value_or_zero(s: Seq<MatrixElement>, r: int, c: int) -> i64 {
    if has_coord(s, r, c) {
        s[choose|i: int| 0 <= i < s.len() && s[i].row == r && s[i].col == c].value
    } else {
        0
    }
}

/// The coordinate (r, c) sorts after every point of `s`.
pub open spec fn above_all(s: Seq<MatrixElement>, r: int, c: int) -> bool {
    forall|i: int| 0 <= i < s.len() ==> (s[i].row < r || (s[i].row == r && s[i].col < c))
}

/// The point with coordinate (row, col) holding `value`.
pub open spec fn elem(row: i32, col: i32, value: i64) -> MatrixElement {
    MatrixElement { row, col, value }
}

/// In a list without repeated coordinates, the reading at the coordinate of
/// the point at index `i` is that point's value.
pub proof fn lemma_value_at_index(s: Seq<MatrixElement>, i: int)
    requires
        distinct_coords(s),
        0 <= i < s.len(),
    ensures
        has_coord(s, s[i].row as int, s[i].col as int),
        value_or_zero(s, s[i].row as int, s[i].col as int) == s[i].value,
{
    let r = s[i].row as int;
    let c = s[i].col as int;
    assert(has_coord(s, r, c));
    let j = choose|j: int| 0 <= j < s.len() && s[j].row == r && s[j].col == c;
    if i < j {
        assert(!coord_eq(s[i], s[j]));
        assert(false);
    } else if j < i {
        assert(!coord_eq(s[j], s[i]));
        assert(false);
    }
}

/// Two lists holding the same points, however ordered, give the same reading
/// at every coordinate, and a list without repeated coordinates stays so
/// under any reordering.
pub proof fn lemma_permutation_same_readings(s1: Seq<MatrixElement>, s2: Seq<MatrixElement>)
    requires
        s1.to_multiset() == s2.to_multiset(),
        distinct_coords(s1),
    ensures
        distinct_coords(s2),
        forall|e: MatrixElement| s1.contains(e) == s2.contains(e),
        forall|r: int, c: int| has_coord(s1, r, c) == has_coord(s2, r, c),
        forall|r: int, c: int|
            value_or_zero(s1, r, c) == value_or_zero(s2, r, c),
{
    broadcast use vstd::seq_lib::group_to_multiset_ensures;

    assert forall|e: MatrixElement| s1.contains(e) == s2.contains(e) by {
        assert(s1.contains(e) <==> s1.to_multiset().count(e) > 0);
        assert(s2.contains(e) <==> s2.to_multiset().count(e) > 0);
    }
    assert(s1.no_duplicates()) by {
        assert forall|i: int, j: int| 0 <= i < s1.len() && 0 <= j < s1.len() && i != j
            implies s1[i] != s1[j] by {
            if i < j {
                assert(!coord_eq(s1[i], s1[j]));
            } else {
                assert(!coord_eq(s1[j], s1[i]));
            }
        }
    }
    s1.lemma_multiset_has_no_duplicates();
    s2.lemma_multiset_has_no_duplicates_conv();
    assert(s2.no_duplicates());
    assert forall|i: int, j: int| 0 <= i < j < s2.len() implies !coord_eq(s2[i], s2[j]) by {
        if coord_eq(s2[i], s2[j]) {
            assert(s2.contains(s2[i]));
            assert(s2.contains(s2[j]));
            assert(s1.contains(s2[i]));
            assert(s1.contains(s2[j]));
            let k = choose|k: int| 0 <= k < s1.len() && s1[k] == s2[i];
            let l = choose|l: int| 0 <= l < s1.len() && s1[l] == s2[j];
            assert(s2[i] != s2[j]);
            assert(k != l);
            if k < l {
                assert(!coord_eq(s1[k], s1[l]));
            } else {
                assert(!coord_eq(s1[l], s1[k]));
            }
            assert(false);
        }
    }
    assert forall|r: int, c: int| has_coord(s1, r, c) == has_coord(s2, r, c) by {
        if has_coord(s1, r, c) {
            let i = choose|i: int| 0 <= i < s1.len() && s1[i].row == r && s1[i].col == c;
            assert(s1.contains(s1[i]));
            assert(s2.contains(s1[i]));
            let j = choose|j: int| 0 <= j < s2.len() && s2[j] == s1[i];
            assert(has_coord(s2, r, c));
        }
        if has_coord(s2, r, c) {
            let i = choose|i: int| 0 <= i < s2.len() && s2[i].row == r && s2[i].col == c;
            assert(s2.contains(s2[i]));
            assert(s1.contains(s2[i]));
            let j = choose|j: int| 0 <= j < s1.len() && s1[j] == s2[i];
            assert(has_coord(s1, r, c));
        }
    }
    assert forall|r: int, c: int|
        value_or_zero(s1, r, c) == value_or_zero(s2, r, c) by {
        if has_coord(s1, r, c) {
            let i = choose|i: int| 0 <= i < s1.len() && s1[i].row == r && s1[i].col == c;
            lemma_value_at_index(s1, i);
            assert(s1.contains(s1[i]));
            assert(s2.contains(s1[i]));
            let j = choose|j: int| 0 <= j < s2.len() && s2[j] == s1[i];
            lemma_value_at_index(s2, j);
        }
    }
}

/// Appending a point at a fresh coordinate leaves every other reading alone
/// and makes the new coordinate read the appended value.
pub proof fn lemma_push_readings(s: Seq<MatrixElement>, e: MatrixElement)
    requires
        distinct_coords(s),
        !has_coord(s, e.row as int, e.col as int),
    ensures
        distinct_coords(s.push(e)),
        forall|r: int, c: int|
            has_coord(s.push(e), r, c) == (has_coord(s, r, c) || (r == e.row as int && c
                == e.col as int)),
        forall|r: int, c: int|
            value_or_zero(s.push(e), r, c) == if r == e.row as int && c == e.col as int {
                e.value
            } else {
                value_or_zero(s, r, c)
            },
{
    let t = s.push(e);
    assert forall|i: int, j: int| 0 <= i < j < t.len() implies !coord_eq(t[i], t[j]) by {
        if j == s.len() {
            assert(t[i] == s[i]);
            if coord_eq(s[i], e) {
                assert(has_coord(s, e.row as int, e.col as int));
            }
        } else {
            assert(t[i] == s[i] && t[j] == s[j]);
        }
    }
    assert forall|r: int, c: int|
        has_coord(t, r, c) == (has_coord(s, r, c) || (r == e.row as int && c
            == e.col as int)) by {
        if has_coord(s, r, c) {
            let i = choose|i: int| 0 <= i < s.len() && s[i].row == r && s[i].col == c;
            assert(t[i] == s[i]);
            assert(has_coord(t, r, c));
        }
        if r == e.row as int && c == e.col as int {
            assert(t[s.len() as int] == e);
            assert(has_coord(t, r, c));
        }
        if has_coord(t, r, c) {
            let i = choose|i: int| 0 <= i < t.len() && t[i].row == r && t[i].col == c;
            if i < s.len() {
                assert(t[i] == s[i]);
                assert(has_coord(s, r, c));
            } else {
                assert(t[i] == e);
            }
        }
    }
    assert forall|r: int, c: int|
        value_or_zero(t, r, c) == if r == e.row as int && c == e.col as int {
            e.value
        } else {
            value_or_zero(s, r, c)
        } by {
        if r == e.row as int && c == e.col as int {
            assert(t[s.len() as int] == e);
            lemma_value_at_index(t, s.len() as int);
        } else if has_coord(s, r, c) {
            let i = choose|i: int| 0 <= i < s.len() && s[i].row == r && s[i].col == c;
            lemma_value_at_index(s, i);
            assert(t[i] == s[i]);
            lemma_value_at_index(t, i);
        }
    }
}

/// Whether zero-cleanup keeps point `e` in a matrix of extent (rows, cols):
/// every nonzero point stays, and so does the one at the dimension corner,
/// which witnesses the declared extent even when its value is zero.
pub open spec fn keep_entry(e: MatrixElement, rows: int, cols: int) -> bool {
    e.value != 0 || (e.row as int == rows && e.col as int == cols)
}

/// The point list after zero-cleanup: the points of `s`, in order, that
/// `keep_entry` keeps for a matrix of extent (rows, cols).
pub open spec fn cleaned(s: Seq<MatrixElement>, rows: int, cols: int) -> Seq<MatrixElement>
    decreases s.len(),
{
    if s.len() == 0 {
        Seq::empty()
    } else if keep_entry(s.last(), rows, cols) {
        cleaned(s.drop_last(), rows, cols).push(s.last())
    } else {
        cleaned(s.drop_last(), rows, cols)
    }
}

/// Zero-cleanup never changes the reading at any coordinate: it only drops
/// points whose explicit value already equals the implicit zero. A kept
/// point is a point of the original list, order and distinctness survive,
/// and a coordinate keeps a point exactly when it read nonzero or is the
/// dimension corner.
pub proof fn lemma_cleaned_readings(s: Seq<MatrixElement>, rows: int, cols: int)
    requires
        distinct_coords(s),
    ensures
        distinct_coords(cleaned(s, rows, cols)),
        cleaned(s, rows, cols).len() <= s.len(),
        forall|i: int|
            0 <= i < cleaned(s, rows, cols).len() ==> s.contains(
                #[trigger] cleaned(s, rows, cols)[i],
            ),
        forall|r: int, c: int|
            has_coord(cleaned(s, rows, cols), r, c) == (has_coord(s, r, c) && (value_or_zero(
                s,
                r,
                c,
            ) != 0 || (r == rows && c == cols))),
        forall|r: int, c: int|
            value_or_zero(cleaned(s, rows, cols), r, c) == value_or_zero(s, r, c),
        sorted_strict(s) ==> sorted_strict(cleaned(s, rows, cols)),
    decreases s.len(),
{
    let t = cleaned(s, rows, cols);
    if s.len() == 0 {
    } else {
        let p = s.drop_last();
        let e = s.last();
        assert(distinct_coords(p)) by {
            assert(forall|i: int| 0 <= i < p.len() ==> p[i] == s[i]);
        }
        lemma_cleaned_readings(p, rows, cols);
        let tp = cleaned(p, rows, cols);
        assert(!has_coord(p, e.row as int, e.col as int)) by {
            if has_coord(p, e.row as int, e.col as int) {
                let i = choose|i: int|
                    0 <= i < p.len() && p[i].row == e.row && p[i].col == e.col;
                assert(s[i] == p[i]);
                assert(!coord_eq(s[i], s[s.len() - 1]));
                assert(false);
            }
        }
        assert(!has_coord(tp, e.row as int, e.col as int));
        assert(forall|i: int| 0 <= i < p.len() ==> s.contains(#[trigger] p[i])) by {
            assert(forall|i: int| 0 <= i < p.len() ==> p[i] == s[i]);
        }
        assert(s.contains(e)) by {
            assert(s[s.len() - 1] == e);
        }
        // Readings of the parent list: the last point against its prefix.
        lemma_value_at_index(s, s.len() - 1);
        assert forall|r: int, c: int|
            has_coord(s, r, c) == (has_coord(p, r, c) || (r == e.row as int && c
                == e.col as int)) by {
            if has_coord(s, r, c) {
                let i = choose|i: int| 0 <= i < s.len() && s[i].row == r && s[i].col == c;
                if i < p.len() {
                    assert(p[i] == s[i]);
                } else {
                    assert(s[i] == e);
                }
            }
            if has_coord(p, r, c) {
                let i = choose|i: int| 0 <= i < p.len() && p[i].row == r && p[i].col == c;
                assert(s[i] == p[i]);
            }
        }
        assert forall|r: int, c: int|
            value_or_zero(s, r, c) == if r == e.row as int && c == e.col as int {
                e.value
            } else {
                value_or_zero(p, r, c)
            } by {
            if r == e.row as int && c == e.col as int {
            } else if has_coord(p, r, c) {
                let i = choose|i: int| 0 <= i < p.len() && p[i].row == r && p[i].col == c;
                lemma_value_at_index(p, i);
                assert(s[i] == p[i]);
                lemma_value_at_index(s, i);
            }
        }
        if keep_entry(e, rows, cols) {
            lemma_push_readings(tp, e);
            assert(t == tp.push(e));
            assert(forall|i: int| 0 <= i < tp.len() ==> t[i] == tp[i]);
            assert(t[t.len() - 1] == e);
            if sorted_strict(s) {
                assert forall|a: int, b: int| 0 <= a < b < t.len() implies coord_lt(
                    t[a],
                    t[b],
                ) by {
                    assert(sorted_strict(p)) by {
                        assert(forall|i: int| 0 <= i < p.len() ==> p[i] == s[i]);
                    }
                    if b < tp.len() {
                        assert(coord_lt(tp[a], tp[b]));
                    } else {
                        // t[b] is the last point of s; every kept point of
                        // the prefix sorts before it.
                        assert(p.contains(t[a]));
                        let i = choose|i: int| 0 <= i < p.len() && p[i] == t[a];
                        assert(s[i] == p[i]);
                        assert(coord_lt(s[i], s[s.len() - 1]));
                    }
                }
            }
        } else {
            assert(t == tp);
            if sorted_strict(s) {
                assert(sorted_strict(p)) by {
                    assert(forall|i: int| 0 <= i < p.len() ==> p[i] == s[i]);
                }
            }
        }
    }
}

/// Some of the first `n` values of `xs` equals `v`.
spec fn in_list(xs: Seq<i32>, n: int, v: int) -> bool {
    exists|a: int| 0 <= a < n && xs[a] as int == v
}

/// Some point of `s` lies in row `r`.
pub open spec fn has_row(s: Seq<MatrixElement>, r: int) -> bool {
    exists|i: int| 0 <= i < s.len() && s[i].row as int == r
}

/// Some point of `s` lies in column `c`.
pub open spec fn has_col(s: Seq<MatrixElement>, c: int) -> bool {
    exists|i: int| 0 <= i < s.len() && s[i].col as int == c
}

/// The points of `s` in row `r`, in storage order.
pub open spec fn row_entries(s: Seq<MatrixElement>, r: int) -> Seq<MatrixElement>
    decreases s.len(),
{
    if s.len() == 0 {
        Seq::empty()
    } else if s.last().row as int == r {
        row_entries(s.drop_last(), r).push(s.last())
    } else {
        row_entries(s.drop_last(), r)
    }
}

/// The points of `s` in column `c`, in storage order.
pub open spec fn col_entries(s: Seq<MatrixElement>, c: int) -> Seq<MatrixElement>
    decreases s.len(),
{
    if s.len() == 0 {
        Seq::empty()
    } else if s.last().col as int == c {
        col_entries(s.drop_last(), c).push(s.last())
    } else {
        col_entries(s.drop_last(), c)
    }
}

/// Addition as the machine performs it on stored values: wrapping around on
/// overflow.
pub open spec fn wadd(a: i64, b: i64) -> i64 {
    vstd::wrapping::i64_specs::wrapping_add(a, b)
}

/// Multiplication as the machine performs it on stored values: wrapping
/// around on overflow.
pub open spec fn wmul(a: i64, b: i64) -> i64 {
    vstd::wrapping::i64_specs::wrapping_mul(a, b)
}

/// Zero is neutral for the wrapping sum and absorbing for the wrapping
/// product, exactly as for the exact operations.
pub proof fn lemma_wrap_zero(x: i64)
    ensures
        wadd(x, 0) == x,
        wmul(x, 0) == 0,
        wmul(0, x) == 0,
{
    assert(x * 0 == 0);
    assert(0 * x == 0);
}

/// The sparse dot product of one row against one column: over the row's
/// points in order, the wrapping sum of each value times the reading of
/// `right` at (point's column, c) — the only coordinates of the column that
/// can meet the row's points.
pub open spec fn dot_product(lrow: Seq<MatrixElement>, right: Seq<MatrixElement>, c: int) -> i64
    decreases lrow.len(),
{
    if lrow.len() == 0 {
        0
    } else {
        wadd(
            dot_product(lrow.drop_last(), right, c),
            wmul(lrow.last().value, value_or_zero(right, lrow.last().col as int, c)),
        )
    }
}

/// The (r, c) point of the product of the matrices whose point lists are
/// `left` and `right`: the sparse dot product of row r of `left` against
/// column c of `right`.
pub open spec fn product_entry(
    left: Seq<MatrixElement>,
    right: Seq<MatrixElement>,
    r: int,
    c: int,
) -> i64 {
    dot_product(row_entries(left, r), right, c)
}

/// The row filter keeps exactly the points of row `r`, with their readings,
/// their order untouched and no coordinate repeated; a row the list does not
/// touch filters to nothing.
pub proof fn lemma_row_entries(s: Seq<MatrixElement>, r: int)
    requires
        distinct_coords(s),
    ensures
        distinct_coords(row_entries(s, r)),
        forall|i: int|
            0 <= i < row_entries(s, r).len() ==> (#[trigger] row_entries(s, r)[i]).row as int == r
                && s.contains(row_entries(s, r)[i]),
        forall|c: int| has_coord(row_entries(s, r), r, c) == has_coord(s, r, c),
        forall|c: int| value_or_zero(row_entries(s, r), r, c) == value_or_zero(s, r, c),
        !has_row(s, r) ==> row_entries(s, r).len() == 0,
    decreases s.len(),
{
    let t = row_entries(s, r);
    if s.len() == 0 {
    } else {
        let p = s.drop_last();
        let e = s.last();
        assert(distinct_coords(p)) by {
            assert(forall|i: int| 0 <= i < p.len() ==> p[i] == s[i]);
        }
        lemma_row_entries(p, r);
        let tp = row_entries(p, r);
        assert(forall|i: int| 0 <= i < p.len() ==> p[i] == s[i] && s.contains(#[trigger] s[i]));
        assert(s.contains(e)) by {
            assert(s[s.len() - 1] == e);
        }
        assert(!has_coord(p, e.row as int, e.col as int)) by {
            if has_coord(p, e.row as int, e.col as int) {
                let i = choose|i: int|
                    0 <= i < p.len() && p[i].row == e.row && p[i].col == e.col;
                assert(!coord_eq(s[i], s[s.len() - 1]));
                assert(false);
            }
        }
        lemma_value_at_index(s, s.len() - 1);
        assert forall|c: int|
            has_coord(s, r, c) == (has_coord(p, r, c) || (r == e.row as int && c
                == e.col as int)) by {
            if has_coord(s, r, c) {
                let i = choose|i: int| 0 <= i < s.len() && s[i].row == r && s[i].col == c;
                if i < p.len() {
                    assert(p[i] == s[i]);
                }
            }
            if has_coord(p, r, c) {
                let i = choose|i: int| 0 <= i < p.len() && p[i].row == r && p[i].col == c;
                assert(s[i] == p[i]);
            }
        }
        assert forall|c: int|
            value_or_zero(s, r, c) == if r == e.row as int && c == e.col as int {
                e.value
            } else {
                value_or_zero(p, r, c)
            } by {
            if r == e.row as int && c == e.col as int {
            } else if has_coord(p, r, c) {
                let i = choose|i: int| 0 <= i < p.len() && p[i].row == r && p[i].col == c;
                lemma_value_at_index(p, i);
                assert(s[i] == p[i]);
                lemma_value_at_index(s, i);
            }
        }
        if e.row as int == r {
            assert(!has_coord(tp, e.row as int, e.col as int));
            lemma_push_readings(tp, e);
            assert(t == tp.push(e));
            assert(forall|i: int| 0 <= i < tp.len() ==> t[i] == tp[i]);
            assert(t[t.len() - 1] == e);
        } else {
            assert(t == tp);
            if has_coord(tp, r, e.col as int) {
                let i = choose|i: int|
                    0 <= i < tp.len() && tp[i].row == r && tp[i].col == e.col;
            }
            assert forall|c: int| has_coord(t, r, c) == has_coord(s, r, c) by {
                if has_coord(s, r, c) {
                    assert(!(r == e.row as int && c == e.col as int));
                }
            }
        }
        if !has_row(s, r) {
            assert(!has_row(p, r)) by {
                if has_row(p, r) {
                    let i = choose|i: int| 0 <= i < p.len() && p[i].row as int == r;
                    assert(s[i] == p[i]);
                }
            }
            assert(e.row as int != r) by {
                assert(s[s.len() - 1] == e);
            }
        }
    }
}

/// The column filter keeps exactly the points of column `c`, with their
/// readings by row, no coordinate repeated, and every kept point a point of
/// the list in that column.
pub proof fn lemma_col_entries(s: Seq<MatrixElement>, c: int)
    requires
        distinct_coords(s),
    ensures
        distinct_coords(col_entries(s, c)),
        forall|i: int|
            0 <= i < col_entries(s, c).len() ==> (#[trigger] col_entries(s, c)[i]).col as int == c
                && s.contains(col_entries(s, c)[i]),
        forall|k: int| has_coord(col_entries(s, c), k, c) == has_coord(s, k, c),
        forall|k: int| value_or_zero(col_entries(s, c), k, c) == value_or_zero(s, k, c),
    decreases s.len(),
{
    let t = col_entries(s, c);
    if s.len() == 0 {
    } else {
        let p = s.drop_last();
        let e = s.last();
        assert(distinct_coords(p)) by {
            assert(forall|i: int| 0 <= i < p.len() ==> p[i] == s[i]);
        }
        lemma_col_entries(p, c);
        let tp = col_entries(p, c);
        assert(forall|i: int| 0 <= i < p.len() ==> p[i] == s[i] && s.contains(#[trigger] s[i]));
        assert(s.contains(e)) by {
            assert(s[s.len() - 1] == e);
        }
        assert(!has_coord(p, e.row as int, e.col as int)) by {
            if has_coord(p, e.row as int, e.col as int) {
                let i = choose|i: int|
                    0 <= i < p.len() && p[i].row == e.row && p[i].col == e.col;
                assert(!coord_eq(s[i], s[s.len() - 1]));
                assert(false);
            }
        }
        lemma_value_at_index(s, s.len() - 1);
        assert forall|k: int|
            has_coord(s, k, c) == (has_coord(p, k, c) || (k == e.row as int && c
                == e.col as int)) by {
            if has_coord(s, k, c) {
                let i = choose|i: int| 0 <= i < s.len() && s[i].row == k && s[i].col == c;
                if i < p.len() {
                    assert(p[i] == s[i]);
                }
            }
            if has_coord(p, k, c) {
                let i = choose|i: int| 0 <= i < p.len() && p[i].row == k && p[i].col == c;
                assert(s[i] == p[i]);
            }
        }
        assert forall|k: int|
            value_or_zero(s, k, c) == if k == e.row as int && c == e.col as int {
                e.value
            } else {
                value_or_zero(p, k, c)
            } by {
            if k == e.row as int && c == e.col as int {
            } else if has_coord(p, k, c) {
                let i = choose|i: int| 0 <= i < p.len() && p[i].row == k && p[i].col == c;
                lemma_value_at_index(p, i);
                assert(s[i] == p[i]);
                lemma_value_at_index(s, i);
            }
        }
        if e.col as int == c {
            assert(!has_coord(tp, e.row as int, e.col as int));
            lemma_push_readings(tp, e);
            assert(t == tp.push(e));
            assert(forall|i: int| 0 <= i < tp.len() ==> t[i] == tp[i]);
            assert(t[t.len() - 1] == e);
        } else {
            assert(t == tp);
            assert forall|k: int| has_coord(t, k, c) == has_coord(s, k, c) by {
                if has_coord(s, k, c) {
                    assert(!(k == e.row as int && c == e.col as int));
                }
            }
        }
    }
}

/// A dot product against a column the right operand does not touch is zero:
/// every reading in that column is the implicit zero.
pub proof fn lemma_dot_product_no_col(
    lrow: Seq<MatrixElement>,
    right: Seq<MatrixElement>,
    c: int,
)
    requires
        !has_col(right, c),
    ensures
        dot_product(lrow, right, c) == 0,
    decreases lrow.len(),
{
    if lrow.len() > 0 {
        lemma_dot_product_no_col(lrow.drop_last(), right, c);
        let k = lrow.last().col as int;
        assert(!has_coord(right, k, c)) by {
            if has_coord(right, k, c) {
                let i = choose|i: int|
                    0 <= i < right.len() && right[i].row == k && right[i].col == c;
            }
        }
        lemma_wrap_zero(lrow.last().value);
        lemma_wrap_zero(0);
    }
}

impl MatrixElement {
    /// Coordinate-only equality test, the executable side of `coord_eq`.
    pub fn equals(&self, other: &MatrixElement) -> (r: bool)
        ensures
            r == coord_eq(*self, *other),
    {
        self.row == other.row && self.col == other.col
    }

    /// Strict coordinate order test, the executable side of `coord_lt`.
    pub fn sorts_before(&self, other: &MatrixElement) -> (r: bool)
        ensures
            r == coord_lt(*self, *other),
    {
        self.row < other.row || (self.row == other.row && self.col < other.col)
    }
}

/// The error of a matrix product whose operands' declared dimensions do not
/// line up. It carries nothing: the caller must pick other operands.
#[derive(Clone, Copy, PartialEq, Eq, Structural, Debug)]
pub struct DimensionError;

/// A two-dimensional numeric matrix, mostly zero, stored as a list of its
/// explicit points.
///
/// `rows` and `cols` are high-water marks: the largest indices ever set.
/// `sorted` and `clean` are dirty flags: `sorted` promises ascending
/// coordinate order, and `clean` records whether a zero value may have been
/// appended while the list was still in append order. Both are cheap
/// heuristics kept exactly as stated in the contracts, not full scans.
pub struct SparseMatrix {
    list: Vec<MatrixElement>,
    rows: i32,
    cols: i32,
    num_of_points: usize,
    sorted: bool,
    clean: bool,
}

impl SparseMatrix {
    /// The stored points, in storage order.
    pub closed spec fn entries(self) -> Seq<MatrixElement> {
        self.list@
    }

    /// The row high-water mark.
    pub closed spec fn spec_rows(self) -> int {
        self.rows as int
    }

    /// The column high-water mark.
    pub closed spec fn spec_cols(self) -> int {
        self.cols as int
    }

    /// The stored point count.
    pub closed spec fn spec_num_of_points(self) -> int {
        self.num_of_points as int
    }

    /// The sortedness dirty flag.
    pub closed spec fn spec_sorted(self) -> bool {
        self.sorted
    }

    /// The zero-cleanliness dirty flag.
    pub closed spec fn spec_clean(self) -> bool {
        self.clean
    }

    /// The well-formedness every operation preserves: the count matches the
    /// list, every point lies within the high-water marks at coordinates of
    /// at least one, no coordinate repeats, and a raised `sorted` flag is
    /// honest.
    pub open spec fn wf(self) -> bool {
        &&& self.spec_num_of_points() == self.entries().len()
        &&& self.spec_rows() >= 0
        &&& self.spec_cols() >= 0
        &&& forall|i: int|
            0 <= i < self.entries().len() ==> {
                &&& 1 <= #[trigger] self.entries()[i].row
                &&& self.entries()[i].row as int <= self.spec_rows()
                &&& 1 <= self.entries()[i].col
                &&& self.entries()[i].col as int <= self.spec_cols()
            }
        &&& distinct_coords(self.entries())
        &&& self.spec_sorted() ==> sorted_strict(self.entries())
    }

    /// Constructs an empty matrix: no points, zero extent, both flags raised.
    pub fn new() -> (m: SparseMatrix)
        ensures
            m.wf(),
            m.entries() == Seq::<MatrixElement>::empty(),
            m.spec_rows() == 0,
            m.spec_cols() == 0,
            m.spec_num_of_points() == 0,
            m.spec_sorted(),
            m.spec_clean(),
    {
        SparseMatrix {
            list: Vec::new(),
            rows: 0,
            cols: 0,
            num_of_points: 0,
            sorted: true,
            clean: true,
        }
    }

    /// Constructs an empty matrix with room reserved for `size` points.
    /// Indistinguishable from `new` in everything but allocation.
    pub fn with_capcaity(size: usize) -> (m: SparseMatrix)
        ensures
            m.wf(),
            m.entries() == Seq::<MatrixElement>::empty(),
            m.spec_rows() == 0,
            m.spec_cols() == 0,
            m.spec_num_of_points() == 0,
            m.spec_sorted(),
            m.spec_clean(),
    {
        SparseMatrix {
            list: Vec::with_capacity(size),
            rows: 0,
            cols: 0,
            num_of_points: 0,
            sorted: true,
            clean: true,
        }
    }

    /// Returns how many points the matrix holds explicitly, updated or not.
    pub fn get_number_of_points(&self) -> (n: usize)
        ensures
            n as int == self.spec_num_of_points(),
    {
        self.num_of_points
    }

    /// Returns the row high-water mark: the largest row index ever set.
    pub fn get_number_of_rows(&self) -> (n: i32)
        ensures
            n as int == self.spec_rows(),
    {
        self.rows
    }

    /// Returns the column high-water mark: the largest column index ever set.
    pub fn get_number_of_cols(&self) -> (n: i32)
        ensures
            n as int == self.spec_cols(),
    {
        self.cols
    }

    /// Returns the stored points in storage order, for callers that print or
    /// walk the matrix.
    pub fn iterate_entries(&self) -> (r: Vec<MatrixElement>)
        ensures
            r@ == self.entries(),
    {
        let mut out: Vec<MatrixElement> = Vec::new();
        let mut i: usize = 0;
        while i < self.list.len()
            invariant
                0 <= i <= self.list@.len(),
                out@ == self.list@.take(i as int),
            decreases self.list@.len() - i,
        {
            out.push(self.list[i]);
            proof {
                assert(out@ =~= self.list@.take(i as int + 1));
            }
            i = i + 1;
        }
        proof {
            assert(out@ =~= self.list@);
        }
        out
    }

    /// Sorts a point list into ascending coordinate order by insertion,
    /// moving each point left past the points it sorts before.
    #[verifier::loop_isolation(false)]
    fn sort_elements(v: &mut Vec<MatrixElement>)
        requires
            distinct_coords(old(v)@),
        ensures
            final(v)@.to_multiset() == old(v)@.to_multiset(),
            final(v)@.len() == old(v)@.len(),
            sorted_strict(final(v)@),
            distinct_coords(final(v)@),
            forall|e: MatrixElement| final(v)@.contains(e) == old(v)@.contains(e),
            forall|r: int, c: int| has_coord(final(v)@, r, c) == has_coord(old(v)@, r, c),
            forall|r: int, c: int|
                value_or_zero(final(v)@, r, c) == value_or_zero(old(v)@, r, c),
    {
        let mut i: usize = 1;
        while i < v.len()
            invariant
                1 <= i,
                i <= v@.len() || v@.len() == 0,
                v@.len() == old(v)@.len(),
                v@.to_multiset() == old(v)@.to_multiset(),
                forall|a: int, b: int| 0 <= a < b < i ==> !coord_lt(v@[b], v@[a]),
            decreases v@.len() - i,
        {
            let mut j: usize = i;
            while j > 0 && v[j].sorts_before(&v[j - 1])
                invariant
                    0 <= j <= i < v@.len(),
                    v@.len() == old(v)@.len(),
                    v@.to_multiset() == old(v)@.to_multiset(),
                    forall|a: int, b: int|
                        0 <= a < b <= i && b != j ==> !coord_lt(v@[b], v@[a]),
                decreases j,
            {
                let x = v[j - 1];
                let y = v[j];
                let ghost w = v@;
                v[j - 1] = y;
                let ghost w1 = v@;
                v[j] = x;
                proof {
                    broadcast use vstd::seq_lib::group_to_multiset_ensures, vstd::multiset::group_multiset_axioms, vstd::multiset::group_multiset_properties;

                    vstd::seq_lib::to_multiset_update(w, j - 1, y);
                    vstd::seq_lib::to_multiset_update(w1, j as int, x);
                    assert(w.contains(x));
                    assert(w.to_multiset().count(x) > 0);
                    assert(w1.to_multiset().count(y) > 0);
                    assert(v@.to_multiset() =~= w.to_multiset());
                }
                j = j - 1;
            }
            proof {
                assert forall|a: int, b: int| 0 <= a < b <= i implies !coord_lt(v@[b], v@[a]) by {
                    if b == j {
                        if j > 0 {
                            assert(!coord_lt(v@[j as int], v@[j - 1]));
                            if a < j - 1 {
                                assert(!coord_lt(v@[j - 1], v@[a]));
                            }
                        }
                    }
                }
            }
            i = i + 1;
        }
        proof {
            if v@.len() > 0 {
                assert(forall|a: int, b: int| 0 <= a < b < v@.len() ==> !coord_lt(v@[b], v@[a]));
            }
            lemma_permutation_same_readings(old(v)@, v@);
            assert forall|a: int, b: int| 0 <= a < b < v@.len() implies coord_lt(v@[a], v@[b]) by {
                assert(!coord_lt(v@[b], v@[a]));
                assert(!coord_eq(v@[a], v@[b]));
            }
        }
    }

    /// Binary search for a point at (row, col); only meaningful on a list in
    /// ascending coordinate order. The value of the probe point plays no
    /// part, exactly as the coordinate-only point order promises.
    #[verifier::loop_isolation(false)]
    fn find_coordinate(list: &Vec<MatrixElement>, row: i32, col: i32) -> (found: Option<usize>)
        requires
            sorted_strict(list@),
        ensures
            match found {
                Some(i) => 0 <= i < list@.len() && list@[i as int].row == row
                    && list@[i as int].col == col,
                None => !has_coord(list@, row as int, col as int),
            },
    {
        let seek = MatrixElement { row, col, value: 0 };
        let mut lo: usize = 0;
        let mut hi: usize = list.len();
        while lo < hi
            invariant
                0 <= lo <= hi <= list@.len(),
                forall|k: int| 0 <= k < lo ==> coord_lt(list@[k], seek),
                forall|k: int| hi <= k < list@.len() ==> coord_lt(seek, list@[k]),
            decreases hi - lo,
        {
            let mid = lo + (hi - lo) / 2;
            let e = list[mid];
            if e.sorts_before(&seek) {
                proof {
                    assert forall|k: int| 0 <= k < mid + 1 implies coord_lt(list@[k], seek) by {
                        if k < mid {
                            assert(coord_lt(list@[k], list@[mid as int]));
                        }
                    }
                }
                lo = mid + 1;
            } else if seek.sorts_before(&e) {
                proof {
                    assert forall|k: int| mid <= k < list@.len() implies coord_lt(
                        seek,
                        list@[k],
                    ) by {
                        if k > mid {
                            assert(coord_lt(list@[mid as int], list@[k]));
                        }
                    }
                }
                hi = mid;
            } else {
                return Some(mid);
            }
        }
        proof {
            if has_coord(list@, row as int, col as int) {
                let k = choose|k: int|
                    0 <= k < list@.len() && list@[k].row == row as int && list@[k].col
                        == col as int;
                if k < lo {
                    assert(coord_lt(list@[k], seek));
                } else {
                    assert(coord_lt(seek, list@[k]));
                }
                assert(false);
            }
        }
        None
    }

    /// Appends a point at a coordinate the matrix does not hold yet, raising
    /// the high-water marks as needed. The flags are downgraded from a look
    /// at the current last point alone: a point that sorts before it drops
    /// `sorted`; otherwise an appended zero drops `clean`. An empty list
    /// changes neither flag.
    fn add_point(&mut self, row: i32, col: i32, value: i64)
        requires
            old(self).wf(),
            1 <= row,
            1 <= col,
            !has_coord(old(self).entries(), row as int, col as int),
        ensures
            final(self).wf(),
            final(self).entries() == old(self).entries().push(elem(row, col, value)),
            final(self).spec_rows() == if row as int > old(self).spec_rows() {
                row as int
            } else {
                old(self).spec_rows()
            },
            final(self).spec_cols() == if col as int > old(self).spec_cols() {
                col as int
            } else {
                old(self).spec_cols()
            },
            final(self).spec_num_of_points() == old(self).spec_num_of_points() + 1,
            final(self).spec_sorted() == (old(self).spec_sorted() && (old(self).entries().len()
                == 0 || !coord_lt(elem(row, col, value), old(self).entries().last()))),
            final(self).spec_clean() == (old(self).spec_clean() && !(old(self).entries().len() > 0
                && !coord_lt(elem(row, col, value), old(self).entries().last()) && value == 0)),
    {
        if row > self.rows {
            self.rows = row;
        }
        if col > self.cols {
            self.cols = col;
        }
        let new_element = MatrixElement { row, col, value };
        if self.list.len() > 0 {
            let last = self.list[self.list.len() - 1];
            if new_element.sorts_before(&last) {
                self.sorted = false;
            } else if value == 0 {
                self.clean = false;
            }
        }
        self.list.push(new_element);
        self.num_of_points = self.list.len();
        proof {
            let s = old(self).entries();
            let t = self.entries();
            lemma_push_readings(s, new_element);
            assert forall|i: int| 0 <= i < t.len() implies {
                &&& 1 <= #[trigger] t[i].row
                &&& t[i].row as int <= self.spec_rows()
                &&& 1 <= t[i].col
                &&& t[i].col as int <= self.spec_cols()
            } by {
                if i < s.len() {
                    assert(t[i] == s[i]);
                    assert(1 <= s[i].row && s[i].row as int <= old(self).spec_rows());
                    assert(1 <= s[i].col && s[i].col as int <= old(self).spec_cols());
                } else {
                    assert(t[i] == new_element);
                }
            }
            if self.sorted {
                assert forall|a: int, b: int| 0 <= a < b < t.len() implies coord_lt(
                    t[a],
                    t[b],
                ) by {
                    if b < s.len() {
                        assert(t[a] == s[a] && t[b] == s[b]);
                    } else if s.len() > 0 {
                        assert(t[b] == new_element);
                        let last = s.last();
                        assert(!coord_lt(new_element, last));
                        if coord_eq(last, new_element) {
                            assert(has_coord(s, row as int, col as int));
                        }
                        assert(coord_lt(last, new_element));
                        if a < s.len() - 1 {
                            assert(coord_lt(s[a], last));
                        }
                    }
                }
            }
        }
    }

    /// Restores ascending coordinate order if the `sorted` flag has been
    /// dropped, and raises the flag. Idempotent; the readings at every
    /// coordinate are untouched.
    fn ensure_sorted(&mut self)
        requires
            old(self).wf(),
        ensures
            final(self).wf(),
            final(self).spec_sorted(),
            sorted_strict(final(self).entries()),
            final(self).entries().to_multiset() == old(self).entries().to_multiset(),
            final(self).entries().len() == old(self).entries().len(),
            old(self).spec_sorted() ==> final(self).entries() == old(self).entries(),
            final(self).spec_rows() == old(self).spec_rows(),
            final(self).spec_cols() == old(self).spec_cols(),
            final(self).spec_num_of_points() == old(self).spec_num_of_points(),
            final(self).spec_clean() == old(self).spec_clean(),
            forall|e: MatrixElement|
                final(self).entries().contains(e) == old(self).entries().contains(e),
            forall|r: int, c: int|
                has_coord(final(self).entries(), r, c) == has_coord(old(self).entries(), r, c),
            forall|r: int, c: int|
                value_or_zero(final(self).entries(), r, c) == value_or_zero(
                    old(self).entries(),
                    r,
                    c,
                ),
    {
        if !self.sorted {
            Self::sort_elements(&mut self.list);
            self.sorted = true;
            proof {
                let s = old(self).entries();
                let t = self.entries();
                assert forall|i: int| 0 <= i < t.len() implies {
                    &&& 1 <= #[trigger] t[i].row
                    &&& t[i].row as int <= self.spec_rows()
                    &&& 1 <= t[i].col
                    &&& t[i].col as int <= self.spec_cols()
                } by {
                    assert(t.contains(t[i]));
                    assert(s.contains(t[i]));
                    let k = choose|k: int| 0 <= k < s.len() && s[k] == t[i];
                    assert(1 <= s[k].row);
                }
                broadcast use vstd::seq_lib::group_to_multiset_ensures;

                assert(t.len() == s.len());
            }
        } else {
            proof {
                assert(self.entries().to_multiset() =~= old(self).entries().to_multiset());
            }
        }
    }

    /// Sets the value at (row, col): overwrites the point there if one
    /// exists (which touches neither flag, even when the new value is zero),
    /// and appends a new point otherwise. Afterwards the coordinate reads
    /// exactly `value` and every other coordinate reads as before.
    pub fn set_value_at_coordinate(&mut self, row: i32, col: i32, value: i64)
        requires
            old(self).wf(),
            1 <= row,
            1 <= col,
        ensures
            final(self).wf(),
            forall|r: int, c: int|
                value_or_zero(final(self).entries(), r, c) == if r == row as int && c
                    == col as int {
                    value
                } else {
                    value_or_zero(old(self).entries(), r, c)
                },
            forall|r: int, c: int|
                has_coord(final(self).entries(), r, c) == (has_coord(old(self).entries(), r, c)
                    || (r == row as int && c == col as int)),
            final(self).spec_num_of_points() == old(self).spec_num_of_points() + if has_coord(
                old(self).entries(),
                row as int,
                col as int,
            ) {
                0int
            } else {
                1int
            },
            final(self).spec_rows() == if row as int > old(self).spec_rows() {
                row as int
            } else {
                old(self).spec_rows()
            },
            final(self).spec_cols() == if col as int > old(self).spec_cols() {
                col as int
            } else {
                old(self).spec_cols()
            },
            final(self).spec_sorted() == (has_coord(old(self).entries(), row as int, col as int)
                || above_all(old(self).entries(), row as int, col as int)),
            final(self).spec_clean() == (old(self).spec_clean() && !(!has_coord(
                old(self).entries(),
                row as int,
                col as int,
            ) && old(self).entries().len() > 0 && above_all(
                old(self).entries(),
                row as int,
                col as int,
            ) && value == 0)),
    {
        self.ensure_sorted();
        let ghost s0 = old(self).entries();
        let ghost s1 = self.entries();
        match Self::find_coordinate(&self.list, row, col) {
            Some(index) => {
                self.list[index] = MatrixElement { row, col, value };
                proof {
                    let t = self.entries();
                    assert(t == s1.update(index as int, elem(row, col, value)));
                    assert forall|i: int, j: int| 0 <= i < j < t.len() implies !coord_eq(
                        t[i],
                        t[j],
                    ) by {
                        assert(t[i].row == s1[i].row && t[i].col == s1[i].col);
                        assert(t[j].row == s1[j].row && t[j].col == s1[j].col);
                        assert(!coord_eq(s1[i], s1[j]));
                    }
                    assert forall|a: int, b: int| 0 <= a < b < t.len() implies coord_lt(
                        t[a],
                        t[b],
                    ) by {
                        assert(t[a].row == s1[a].row && t[a].col == s1[a].col);
                        assert(t[b].row == s1[b].row && t[b].col == s1[b].col);
                        assert(coord_lt(s1[a], s1[b]));
                    }
                    assert forall|r: int, c: int|
                        has_coord(t, r, c) == has_coord(s1, r, c) by {
                        if has_coord(t, r, c) {
                            let i = choose|i: int|
                                0 <= i < t.len() && t[i].row == r && t[i].col == c;
                            assert(s1[i].row == r && s1[i].col == c);
                        }
                        if has_coord(s1, r, c) {
                            let i = choose|i: int|
                                0 <= i < s1.len() && s1[i].row == r && s1[i].col == c;
                            assert(t[i].row == r && t[i].col == c);
                        }
                    }
                    assert forall|i: int| 0 <= i < t.len() implies {
                        &&& 1 <= #[trigger] t[i].row
                        &&& t[i].row as int <= self.spec_rows()
                        &&& 1 <= t[i].col
                        &&& t[i].col as int <= self.spec_cols()
                    } by {
                        assert(1 <= s1[i].row && s1[i].row as int <= self.spec_rows());
                        assert(1 <= s1[i].col && s1[i].col as int <= self.spec_cols());
                        if i != index {
                            assert(t[i] == s1[i]);
                        }
                    }
                    assert forall|r: int, c: int|
                        value_or_zero(t, r, c) == if r == row as int && c == col as int {
                            value
                        } else {
                            value_or_zero(s1, r, c)
                        } by {
                        if r == row as int && c == col as int {
                            lemma_value_at_index(t, index as int);
                        } else if has_coord(s1, r, c) {
                            let i = choose|i: int|
                                0 <= i < s1.len() && s1[i].row == r && s1[i].col == c;
                            lemma_value_at_index(s1, i);
                            if i == index {
                                assert(s1[index as int].row == row as int);
                                assert(false);
                            }
                            assert(t[i] == s1[i]);
                            lemma_value_at_index(t, i);
                        }
                    }
                    assert(has_coord(s0, row as int, col as int));
                    assert(self.spec_rows() == old(self).spec_rows());
                    let k = choose|k: int|
                        0 <= k < s0.len() && s0[k].row == row as int && s0[k].col == col as int;
                    assert(row as int <= old(self).spec_rows());
                    assert(col as int <= old(self).spec_cols());
                }
            },
            None => {
                proof {
                    assert(!has_coord(s0, row as int, col as int));
                }
                let ghost sorted_before = self.entries();
                self.add_point(row, col, value);
                proof {
                    let e = elem(row, col, value);
                    lemma_push_readings(s1, e);
                    // The flag outcome over the pre-sort list equals the
                    // outcome over the sorted list: both say the new point
                    // sorts after every stored point.
                    assert forall|r: int, c: int|
                        above_all(s1, r, c) == above_all(s0, r, c) by {
                        if above_all(s1, r, c) && !above_all(s0, r, c) {
                            let i = choose|i: int|
                                0 <= i < s0.len() && !(s0[i].row < r || (s0[i].row == r
                                    && s0[i].col < c));
                            assert(s0.contains(s0[i]));
                            assert(s1.contains(s0[i]));
                            let j = choose|j: int| 0 <= j < s1.len() && s1[j] == s0[i];
                            assert(false);
                        }
                        if above_all(s0, r, c) && !above_all(s1, r, c) {
                            let i = choose|i: int|
                                0 <= i < s1.len() && !(s1[i].row < r || (s1[i].row == r
                                    && s1[i].col < c));
                            assert(s1.contains(s1[i]));
                            assert(s0.contains(s1[i]));
                            let j = choose|j: int| 0 <= j < s0.len() && s0[j] == s1[i];
                            assert(false);
                        }
                    }
                    if s1.len() > 0 {
                        let last = s1.last();
                        if !coord_lt(e, last) {
                            if coord_eq(last, e) {
                                lemma_value_at_index(s1, s1.len() - 1);
                                assert(has_coord(s1, row as int, col as int));
                                assert(false);
                            }
                            assert(coord_lt(last, e));
                            assert forall|i: int| 0 <= i < s1.len() implies (s1[i].row
                                < row as int || (s1[i].row == row as int && s1[i].col
                                < col as int)) by {
                                if i < s1.len() - 1 {
                                    assert(coord_lt(s1[i], last));
                                }
                            }
                            assert(above_all(s1, row as int, col as int));
                        } else {
                            assert(!above_all(s1, row as int, col as int));
                        }
                    }
                }
            },
        }
    }

    /// Reads the value at (row, col); a coordinate no point sits at reads
    /// zero, the implicit value of a sparse matrix. Sorts the storage first,
    /// as every binary-search access must.
    pub fn get_value_at_coordinate(&mut self, row: i32, col: i32) -> (value: i64)
        requires
            old(self).wf(),
            1 <= row,
            1 <= col,
        ensures
            final(self).wf(),
            value == value_or_zero(old(self).entries(), row as int, col as int),
            !has_coord(old(self).entries(), row as int, col as int) ==> value == 0,
            final(self).spec_sorted(),
            final(self).entries().to_multiset() == old(self).entries().to_multiset(),
            final(self).spec_rows() == old(self).spec_rows(),
            final(self).spec_cols() == old(self).spec_cols(),
            final(self).spec_num_of_points() == old(self).spec_num_of_points(),
            final(self).spec_clean() == old(self).spec_clean(),
            forall|r: int, c: int|
                has_coord(final(self).entries(), r, c) == has_coord(old(self).entries(), r, c),
            forall|r: int, c: int|
                value_or_zero(final(self).entries(), r, c) == value_or_zero(
                    old(self).entries(),
                    r,
                    c,
                ),
    {
        self.ensure_sorted();
        match Self::find_coordinate(&self.list, row, col) {
            Some(index) => {
                proof {
                    lemma_value_at_index(self.entries(), index as int);
                }
                self.list[index].value
            },
            None => 0,
        }
    }

    /// Rebuilds the point list keeping exactly the nonzero points and the
    /// point at the dimension corner (rows, cols), and recounts. The
    /// high-water marks and both flags are left as they are; the reading at
    /// every coordinate is unchanged, since only explicit zeros are dropped.
    #[verifier::loop_isolation(false)]
    pub fn clean_zeros(&mut self)
        requires
            old(self).wf(),
        ensures
            final(self).wf(),
            final(self).entries() == cleaned(
                old(self).entries(),
                old(self).spec_rows(),
                old(self).spec_cols(),
            ),
            final(self).spec_num_of_points() == final(self).entries().len(),
            final(self).spec_rows() == old(self).spec_rows(),
            final(self).spec_cols() == old(self).spec_cols(),
            final(self).spec_sorted() == old(self).spec_sorted(),
            final(self).spec_clean() == old(self).spec_clean(),
            forall|r: int, c: int|
                value_or_zero(final(self).entries(), r, c) == value_or_zero(
                    old(self).entries(),
                    r,
                    c,
                ),
            forall|r: int, c: int|
                has_coord(final(self).entries(), r, c) == (has_coord(old(self).entries(), r, c)
                    && (value_or_zero(old(self).entries(), r, c) != 0 || (r == old(
                    self,
                ).spec_rows() && c == old(self).spec_cols()))),
    {
        let ghost s = self.entries();
        let mut kept: Vec<MatrixElement> = Vec::new();
        let mut i: usize = 0;
        while i < self.list.len()
            invariant
                0 <= i <= self.list@.len(),
                kept@ == cleaned(self.list@.take(i as int), self.rows as int, self.cols as int),
            decreases self.list@.len() - i,
        {
            let e = self.list[i];
            proof {
                assert(self.list@.take(i as int + 1).drop_last() =~= self.list@.take(i as int));
                assert(self.list@.take(i as int + 1).last() == e);
            }
            if e.value != 0 || (e.row == self.rows && e.col == self.cols) {
                kept.push(e);
            }
            i = i + 1;
        }
        proof {
            assert(self.list@.take(self.list@.len() as int) =~= self.list@);
            lemma_cleaned_readings(s, self.spec_rows(), self.spec_cols());
        }
        self.num_of_points = kept.len();
        self.list = kept;
        proof {
            let t = self.entries();
            assert forall|i: int| 0 <= i < t.len() implies {
                &&& 1 <= #[trigger] t[i].row
                &&& t[i].row as int <= self.spec_rows()
                &&& 1 <= t[i].col
                &&& t[i].col as int <= self.spec_cols()
            } by {
                assert(s.contains(t[i]));
                let k = choose|k: int| 0 <= k < s.len() && s[k] == t[i];
                assert(1 <= s[k].row);
            }
        }
    }

    /// Runs zero-cleanup only when the `clean` flag has been dropped, then
    /// raises the flag. Idempotent. The flag is a heuristic: a raised flag
    /// does not promise the list free of zeros, only that no zero was
    /// appended while the list was still in append order, so this call may
    /// leave such zeros in place — exactly as the flag discipline says.
    pub fn ensure_clean(&mut self)
        requires
            old(self).wf(),
        ensures
            final(self).wf(),
            final(self).spec_clean(),
            final(self).spec_rows() == old(self).spec_rows(),
            final(self).spec_cols() == old(self).spec_cols(),
            final(self).spec_sorted() == old(self).spec_sorted(),
            final(self).spec_num_of_points() == final(self).entries().len(),
            final(self).entries() == if old(self).spec_clean() {
                old(self).entries()
            } else {
                cleaned(old(self).entries(), old(self).spec_rows(), old(self).spec_cols())
            },
            forall|r: int, c: int|
                value_or_zero(final(self).entries(), r, c) == value_or_zero(
                    old(self).entries(),
                    r,
                    c,
                ),
            forall|r: int, c: int|
                has_coord(final(self).entries(), r, c) == (has_coord(old(self).entries(), r, c)
                    && (old(self).spec_clean() || value_or_zero(old(self).entries(), r, c) != 0
                    || (r == old(self).spec_rows() && c == old(self).spec_cols()))),
    {
        if !self.clean {
            self.clean_zeros();
            self.clean = true;
        }
    }

    /// Whether `x` occurs in `v`: the membership test behind the distinct
    /// column list.
    fn contains_index(v: &Vec<i32>, x: i32) -> (found: bool)
        ensures
            found == v@.contains(x),
    {
        let mut i: usize = 0;
        while i < v.len()
            invariant
                0 <= i <= v@.len(),
                forall|k: int| 0 <= k < i ==> v@[k] != x,
            decreases v@.len() - i,
        {
            if v[i] == x {
                proof {
                    assert(v@[i as int] == x);
                }
                return true;
            }
            i = i + 1;
        }
        proof {
            if v@.contains(x) {
                let k = choose|k: int| 0 <= k < v@.len() && v@[k] == x;
                assert(false);
            }
        }
        false
    }

    /// The distinct row indices present in the matrix, in ascending order.
    /// Consecutive duplicates are dropped, which on a sorted point list
    /// removes every duplicate.
    #[verifier::loop_isolation(false)]
    fn get_list_of_rows(&self) -> (rows_list: Vec<i32>)
        requires
            self.wf(),
            self.spec_sorted(),
        ensures
            forall|a: int, b: int| 0 <= a < b < rows_list@.len() ==> rows_list@[a] < rows_list@[b],
            forall|x: i32| rows_list@.contains(x) == has_row(self.entries(), x as int),
            forall|i: int|
                0 <= i < rows_list@.len() ==> 1 <= #[trigger] rows_list@[i]
                    && rows_list@[i] as int <= self.spec_rows(),
    {
        let s = &self.list;
        let mut rows_list: Vec<i32> = Vec::new();
        let mut i: usize = 0;
        while i < s.len()
            invariant
                0 <= i <= s@.len(),
                forall|a: int, b: int| 0 <= a < b < rows_list@.len() ==> rows_list@[a]
                    < rows_list@[b],
                forall|x: i32| rows_list@.contains(x) == has_row(s@.take(i as int), x as int),
                forall|k: int|
                    0 <= k < rows_list@.len() ==> 1 <= #[trigger] rows_list@[k]
                        && rows_list@[k] as int <= self.spec_rows(),
                i > 0 ==> rows_list@.len() > 0 && rows_list@.last() == s@[i - 1].row,
            decreases s@.len() - i,
        {
            let r = s[i].row;
            proof {
                assert(s@.take(i as int + 1)[i as int] == s@[i as int]);
                assert(forall|k: int| 0 <= k < i ==> s@.take(i as int + 1)[k] == s@[k]);
                assert(forall|k: int| 0 <= k < i ==> s@.take(i as int)[k] == s@[k]);
            }
            if rows_list.len() == 0 || rows_list[rows_list.len() - 1] != r {
                proof {
                    assert(self.entries() == s@);
                    assert(1 <= self.entries()[i as int].row && self.entries()[
                        i as int
                    ].row as int <= self.spec_rows());
                    if rows_list@.len() > 0 {
                        // A nonempty list means some prefix point exists,
                        // so this is not the first iteration.
                        assert(rows_list@.contains(rows_list@[0]));
                        assert(has_row(s@.take(i as int), rows_list@[0] as int));
                        let m = choose|m: int|
                            0 <= m < i && (#[trigger] s@.take(i as int)[m]).row as int
                                == rows_list@[0] as int;
                        assert(i > 0);
                        // The stored order makes each new row at least the
                        // last one pushed; unequal means strictly larger.
                        assert(coord_lt(s@[i - 1], s@[i as int]));
                        assert(rows_list@.last() <= r);
                    }
                }
                let ghost before = rows_list@;
                rows_list.push(r);
                proof {
                    assert forall|x: i32|
                        rows_list@.contains(x) == has_row(s@.take(i as int + 1), x as int) by {
                        if rows_list@.contains(x) {
                            let k = choose|k: int|
                                0 <= k < rows_list@.len() && rows_list@[k] == x;
                            if k < rows_list@.len() - 1 {
                                assert(before.contains(x)) by {
                                    assert(before[k] == x);
                                }
                                assert(has_row(s@.take(i as int), x as int));
                                let m = choose|m: int|
                                    0 <= m < i && (#[trigger] s@.take(i as int)[m]).row as int == x as int;
                                assert(s@.take(i as int + 1)[m].row as int == x as int);
                            } else {
                                assert(x == r);
                                assert(s@.take(i as int + 1)[i as int].row as int == x as int);
                            }
                        }
                        if has_row(s@.take(i as int + 1), x as int) {
                            let m = choose|m: int|
                                0 <= m < i + 1 && (#[trigger] s@.take(i as int + 1)[m]).row as int
                                    == x as int;
                            if m < i {
                                assert(s@.take(i as int)[m].row as int == x as int);
                                assert(before.contains(x));
                                let k = choose|k: int| 0 <= k < before.len() && before[k] == x;
                                assert(rows_list@[k] == x);
                            } else {
                                assert(x == r);
                                assert(rows_list@.last() == r);
                            }
                        }
                    }
                    assert(1 <= s@[i as int].row && s@[i as int].row as int <= self.spec_rows());
                }
            } else {
                proof {
                    assert forall|x: i32|
                        rows_list@.contains(x) == has_row(s@.take(i as int + 1), x as int) by {
                        if has_row(s@.take(i as int + 1), x as int) {
                            let m = choose|m: int|
                                0 <= m < i + 1 && (#[trigger] s@.take(i as int + 1)[m]).row as int
                                    == x as int;
                            if m < i {
                                assert(s@.take(i as int)[m].row as int == x as int);
                            } else {
                                assert(x == r);
                                assert(rows_list@.last() == r);
                            }
                        }
                        if rows_list@.contains(x) {
                            assert(has_row(s@.take(i as int), x as int));
                            let m = choose|m: int|
                                0 <= m < i && (#[trigger] s@.take(i as int)[m]).row as int == x as int;
                            assert(s@.take(i as int + 1)[m].row as int == x as int);
                        }
                    }
                }
            }
            i = i + 1;
        }
        proof {
            assert(s@.take(s@.len() as int) =~= s@);
        }
        rows_list
    }

    /// The distinct column indices present in the matrix, in order of first
    /// occurrence.
    #[verifier::loop_isolation(false)]
    fn get_list_of_cols(&self) -> (cols_list: Vec<i32>)
        requires
            self.wf(),
        ensures
            cols_list@.no_duplicates(),
            forall|x: i32| cols_list@.contains(x) == has_col(self.entries(), x as int),
            forall|i: int|
                0 <= i < cols_list@.len() ==> 1 <= #[trigger] cols_list@[i]
                    && cols_list@[i] as int <= self.spec_cols(),
    {
        let s = &self.list;
        let mut cols_list: Vec<i32> = Vec::new();
        let mut i: usize = 0;
        while i < s.len()
            invariant
                0 <= i <= s@.len(),
                cols_list@.no_duplicates(),
                forall|x: i32| cols_list@.contains(x) == has_col(s@.take(i as int), x as int),
                forall|k: int|
                    0 <= k < cols_list@.len() ==> 1 <= #[trigger] cols_list@[k]
                        && cols_list@[k] as int <= self.spec_cols(),
            decreases s@.len() - i,
        {
            let c = s[i].col;
            proof {
                assert(s@.take(i as int + 1)[i as int] == s@[i as int]);
                assert(forall|k: int| 0 <= k < i ==> s@.take(i as int + 1)[k] == s@[k]);
                assert(forall|k: int| 0 <= k < i ==> s@.take(i as int)[k] == s@[k]);
            }
            if !Self::contains_index(&cols_list, c) {
                let ghost before = cols_list@;
                cols_list.push(c);
                proof {
                    assert(self.entries() == s@);
                    assert(1 <= self.entries()[i as int].row);
                    assert(1 <= self.entries()[i as int].col && self.entries()[
                        i as int
                    ].col as int <= self.spec_cols());
                    assert forall|a: int, b: int|
                        0 <= a < b < cols_list@.len() implies cols_list@[a] != cols_list@[b] by {
                        if b < cols_list@.len() - 1 {
                            assert(before[a] != before[b]);
                        } else {
                            if cols_list@[a] == c {
                                assert(before.contains(before[a]));
                            }
                        }
                    }
                    assert forall|x: i32|
                        cols_list@.contains(x) == has_col(s@.take(i as int + 1), x as int) by {
                        if cols_list@.contains(x) {
                            let k = choose|k: int|
                                0 <= k < cols_list@.len() && cols_list@[k] == x;
                            if k < cols_list@.len() - 1 {
                                assert(before.contains(x)) by {
                                    assert(before[k] == x);
                                }
                                let m = choose|m: int|
                                    0 <= m < i && (#[trigger] s@.take(i as int)[m]).col as int == x as int;
                                assert(s@.take(i as int + 1)[m].col as int == x as int);
                            } else {
                                assert(x == c);
                                assert(s@.take(i as int + 1)[i as int].col as int == x as int);
                            }
                        }
                        if has_col(s@.take(i as int + 1), x as int) {
                            let m = choose|m: int|
                                0 <= m < i + 1 && (#[trigger] s@.take(i as int + 1)[m]).col as int
                                    == x as int;
                            if m < i {
                                assert(s@.take(i as int)[m].col as int == x as int);
                                assert(before.contains(x));
                                let k = choose|k: int| 0 <= k < before.len() && before[k] == x;
                                assert(cols_list@[k] == x);
                            } else {
                                assert(x == c);
                                assert(cols_list@.last() == c);
                            }
                        }
                    }
                    assert(1 <= s@[i as int].col && s@[i as int].col as int <= self.spec_cols());
                }
            } else {
                proof {
                    assert forall|x: i32|
                        cols_list@.contains(x) == has_col(s@.take(i as int + 1), x as int) by {
                        if has_col(s@.take(i as int + 1), x as int) {
                            let m = choose|m: int|
                                0 <= m < i + 1 && (#[trigger] s@.take(i as int + 1)[m]).col as int
                                    == x as int;
                            if m < i {
                                assert(s@.take(i as int)[m].col as int == x as int);
                            } else {
                                assert(x == c);
                            }
                        }
                        if cols_list@.contains(x) {
                            let m = choose|m: int|
                                0 <= m < i && (#[trigger] s@.take(i as int)[m]).col as int == x as int;
                            assert(s@.take(i as int + 1)[m].col as int == x as int);
                        }
                    }
                }
            }
            i = i + 1;
        }
        proof {
            assert(s@.take(s@.len() as int) =~= s@);
        }
        cols_list
    }

    /// All points of one row, in storage order.
    #[verifier::loop_isolation(false)]
    fn get_row(&self, row: i32) -> (points: Vec<MatrixElement>)
        ensures
            points@ == row_entries(self.entries(), row as int),
    {
        let mut points: Vec<MatrixElement> = Vec::new();
        let mut i: usize = 0;
        while i < self.list.len()
            invariant
                0 <= i <= self.list@.len(),
                points@ == row_entries(self.list@.take(i as int), row as int),
            decreases self.list@.len() - i,
        {
            let e = self.list[i];
            proof {
                assert(self.list@.take(i as int + 1).drop_last() =~= self.list@.take(i as int));
                assert(self.list@.take(i as int + 1).last() == e);
            }
            if e.row == row {
                points.push(e);
            }
            i = i + 1;
        }
        proof {
            assert(self.list@.take(self.list@.len() as int) =~= self.list@);
        }
        points
    }

    /// All points of one column, in storage order.
    #[verifier::loop_isolation(false)]
    fn get_col(&self, col: i32) -> (points: Vec<MatrixElement>)
        ensures
            points@ == col_entries(self.entries(), col as int),
    {
        let mut points: Vec<MatrixElement> = Vec::new();
        let mut i: usize = 0;
        while i < self.list.len()
            invariant
                0 <= i <= self.list@.len(),
                points@ == col_entries(self.list@.take(i as int), col as int),
            decreases self.list@.len() - i,
        {
            let e = self.list[i];
            proof {
                assert(self.list@.take(i as int + 1).drop_last() =~= self.list@.take(i as int));
                assert(self.list@.take(i as int + 1).last() == e);
            }
            if e.col == col {
                points.push(e);
            }
            i = i + 1;
        }
        proof {
            assert(self.list@.take(self.list@.len() as int) =~= self.list@);
        }
        points
    }

    /// Multiplies `self` by `matrix_a`, never materializing the dense form.
    ///
    /// The declared compatibility check compares this matrix's row count to
    /// the other's column count, and a mismatch fails with `DimensionError`
    /// before anything is touched. On success both operands are forced clean
    /// and sorted — callers must expect that mutation — and the result reads,
    /// at every coordinate (r, c), the sparse dot product of row r of `self`
    /// against column c of `matrix_a` under the machine's wrapping
    /// arithmetic. A point exists in the result exactly where that product
    /// is nonzero, so the result is clean by construction.
    #[verifier::loop_isolation(false)]
    pub fn matrix_multiplication(&mut self, matrix_a: &mut SparseMatrix) -> (product: Result<
        SparseMatrix,
        DimensionError,
    >)
        requires
            old(self).wf(),
            old(matrix_a).wf(),
        ensures
            product is Ok <==> old(self).spec_rows() == old(matrix_a).spec_cols(),
            product is Err ==> *final(self) == *old(self) && *final(matrix_a) == *old(matrix_a),
            product is Ok ==> {
                &&& final(self).wf()
                &&& final(matrix_a).wf()
                &&& final(self).spec_sorted()
                &&& final(self).spec_clean()
                &&& final(matrix_a).spec_sorted()
                &&& final(matrix_a).spec_clean()
                &&& final(self).spec_rows() == old(self).spec_rows()
                &&& final(self).spec_cols() == old(self).spec_cols()
                &&& final(matrix_a).spec_rows() == old(matrix_a).spec_rows()
                &&& final(matrix_a).spec_cols() == old(matrix_a).spec_cols()
                &&& final(self).entries().to_multiset() == (if old(self).spec_clean() {
                    old(self).entries()
                } else {
                    cleaned(old(self).entries(), old(self).spec_rows(), old(self).spec_cols())
                }).to_multiset()
                &&& final(matrix_a).entries().to_multiset() == (if old(matrix_a).spec_clean() {
                    old(matrix_a).entries()
                } else {
                    cleaned(
                        old(matrix_a).entries(),
                        old(matrix_a).spec_rows(),
                        old(matrix_a).spec_cols(),
                    )
                }).to_multiset()
                &&& forall|r: int, c: int|
                    value_or_zero(final(self).entries(), r, c) == value_or_zero(
                        old(self).entries(),
                        r,
                        c,
                    )
                &&& forall|r: int, c: int|
                    value_or_zero(final(matrix_a).entries(), r, c) == value_or_zero(
                        old(matrix_a).entries(),
                        r,
                        c,
                    )
            },
            (match product {
                Ok(m) => {
                    &&& m.wf()
                    &&& m.spec_rows() == old(self).spec_rows()
                    &&& m.spec_cols() == old(matrix_a).spec_cols()
                    &&& m.spec_clean()
                    &&& forall|r: int, c: int|
                        value_or_zero(m.entries(), r, c) == product_entry(
                            final(self).entries(),
                            final(matrix_a).entries(),
                            r,
                            c,
                        )
                    &&& forall|r: int, c: int|
                        has_coord(m.entries(), r, c) <==> product_entry(
                            final(self).entries(),
                            final(matrix_a).entries(),
                            r,
                            c,
                        ) != 0
                },
                Err(_) => true,
            }),
    {
        if self.rows != matrix_a.cols {
            return Err(DimensionError);
        }
        self.ensure_clean();
        self.ensure_sorted();
        matrix_a.ensure_clean();
        matrix_a.ensure_sorted();

        let ghost lents = self.entries();
        let ghost aents = matrix_a.entries();

        let mut result = SparseMatrix::with_capcaity(
            self.num_of_points / 2 + matrix_a.num_of_points / 2,
        );
        result.rows = self.rows;
        result.cols = matrix_a.cols;
        proof {
            assert(result.wf());
        }

        let rows_list = self.get_list_of_rows();
        let cols_list = matrix_a.get_list_of_cols();
        let ghost rs = rows_list@;
        let ghost cs = cols_list@;

        // Gather each needed column of the right operand once.
        let mut col_cache: Vec<Vec<MatrixElement>> = Vec::new();
        let mut j: usize = 0;
        while j < cols_list.len()
            invariant
                0 <= j <= cs.len(),
                col_cache@.len() == j,
                forall|k: int|
                    0 <= k < j ==> (#[trigger] col_cache@[k])@ == col_entries(
                        aents,
                        cs[k] as int,
                    ),
            decreases cs.len() - j,
        {
            col_cache.push(matrix_a.get_col(cols_list[j]));
            j = j + 1;
        }

        let mut i: usize = 0;
        while i < rows_list.len()
            invariant
                0 <= i <= rs.len(),
                result.wf(),
                result.spec_rows() == self.spec_rows(),
                result.spec_cols() == matrix_a.spec_cols(),
                result.spec_clean(),
                forall|r: int, c: int|
                    value_or_zero(result.entries(), r, c) == (if in_list(rs, i as int, r)
                        && in_list(cs, cs.len() as int, c) {
                        product_entry(lents, aents, r, c)
                    } else {
                        0
                    }),
                forall|r: int, c: int|
                    has_coord(result.entries(), r, c) <==> (in_list(rs, i as int, r) && in_list(
                        cs,
                        cs.len() as int,
                        c,
                    ) && product_entry(lents, aents, r, c) != 0),
            decreases rs.len() - i,
        {
            let ri = rows_list[i];
            let row_elems = self.get_row(ri);
            proof {
                lemma_row_entries(lents, ri as int);
            }
            let mut j: usize = 0;
            while j < cols_list.len()
                invariant
                    0 <= j <= cs.len(),
                    result.wf(),
                    result.spec_rows() == self.spec_rows(),
                    result.spec_cols() == matrix_a.spec_cols(),
                    result.spec_clean(),
                    forall|r: int, c: int|
                        value_or_zero(result.entries(), r, c) == (if (in_list(rs, i as int, r)
                            && in_list(cs, cs.len() as int, c)) || (r == ri as int && in_list(
                            cs,
                            j as int,
                            c,
                        )) {
                            product_entry(lents, aents, r, c)
                        } else {
                            0
                        }),
                    forall|r: int, c: int|
                        has_coord(result.entries(), r, c) <==> (((in_list(rs, i as int, r)
                            && in_list(cs, cs.len() as int, c)) || (r == ri as int && in_list(
                            cs,
                            j as int,
                            c,
                        ))) && product_entry(lents, aents, r, c) != 0),
                decreases cs.len() - j,
            {
                let cj = cols_list[j];
                let col_elems = &col_cache[j];
                let ghost ce = col_elems@;
                proof {
                    assert(ce == col_entries(aents, cj as int));
                    lemma_col_entries(aents, cj as int);
                }
                let mut sum: i64 = 0;
                let mut a: usize = 0;
                while a < row_elems.len()
                    invariant
                        0 <= a <= row_elems@.len(),
                        sum == dot_product(row_elems@.take(a as int), aents, cj as int),
                    decreases row_elems@.len() - a,
                {
                    let va = row_elems[a].value;
                    let ka = row_elems[a].col;
                    let ghost sum0 = sum;
                    let mut b: usize = 0;
                    proof {
                        lemma_wrap_zero(va);
                        lemma_wrap_zero(sum0);
                    }
                    while b < col_elems.len()
                        invariant
                            0 <= b <= ce.len(),
                            sum == wadd(
                                sum0,
                                wmul(va, value_or_zero(ce.take(b as int), ka as int, cj as int)),
                            ),
                        decreases ce.len() - b,
                    {
                        let e = col_elems[b];
                        proof {
                            assert(ce.take(b as int + 1).drop_last() =~= ce.take(b as int));
                            assert(ce.take(b as int + 1)[b as int] == e);
                            assert(distinct_coords(ce.take(b as int + 1))) by {
                                assert(forall|k: int|
                                    0 <= k < b + 1 ==> ce.take(b as int + 1)[k] == ce[k]);
                            }
                            assert(e.col as int == cj as int);
                        }
                        if ka == e.row {
                            proof {
                                let t1 = ce.take(b as int + 1);
                                lemma_value_at_index(t1, b as int);
                                assert(value_or_zero(t1, ka as int, cj as int) == e.value);
                                assert(!has_coord(ce.take(b as int), ka as int, cj as int)) by {
                                    if has_coord(ce.take(b as int), ka as int, cj as int) {
                                        let idx = choose|idx: int|
                                            0 <= idx < b && (#[trigger] ce.take(b as int)[
                                                idx
                                            ]).row as int == ka as int && ce.take(b as int)[
                                                idx
                                            ].col as int == cj as int;
                                        assert(ce.take(b as int)[idx] == ce[idx]);
                                        assert(coord_eq(ce[idx], ce[b as int]));
                                        assert(false);
                                    }
                                }
                                assert(value_or_zero(ce.take(b as int), ka as int, cj as int)
                                    == 0);
                                lemma_wrap_zero(sum0);
                                lemma_wrap_zero(va);
                                assert(sum == sum0);
                            }
                            sum = sum.wrapping_add(va.wrapping_mul(e.value));
                        } else {
                            proof {
                                let t1 = ce.take(b as int + 1);
                                let t0 = ce.take(b as int);
                                assert forall|k: int|
                                    has_coord(t1, ka as int, k) == has_coord(t0, ka as int, k) by {
                                    if has_coord(t1, ka as int, k) {
                                        let idx = choose|idx: int|
                                            0 <= idx < t1.len() && (#[trigger] t1[
                                                idx
                                            ]).row as int == ka as int && t1[idx].col as int
                                                == k;
                                        assert(idx != b);
                                        assert(t0[idx] == t1[idx]);
                                    }
                                    if has_coord(t0, ka as int, k) {
                                        let idx = choose|idx: int|
                                            0 <= idx < t0.len() && (#[trigger] t0[
                                                idx
                                            ]).row as int == ka as int && t0[idx].col as int
                                                == k;
                                        assert(t1[idx] == t0[idx]);
                                    }
                                }
                                if has_coord(t0, ka as int, cj as int) {
                                    let idx = choose|idx: int|
                                        0 <= idx < t0.len() && (#[trigger] t0[idx]).row as int
                                            == ka as int && t0[idx].col as int == cj as int;
                                    assert(distinct_coords(t0)) by {
                                        assert(forall|k: int|
                                            0 <= k < b ==> ce.take(b as int)[k] == ce[k]);
                                    }
                                    lemma_value_at_index(t0, idx);
                                    assert(t1[idx] == t0[idx]);
                                    lemma_value_at_index(t1, idx);
                                }
                            }
                        }
                        b = b + 1;
                    }
                    proof {
                        assert(ce.take(ce.len() as int) =~= ce);
                        assert(value_or_zero(ce, ka as int, cj as int) == value_or_zero(
                            aents,
                            ka as int,
                            cj as int,
                        ));
                        assert(row_elems@.take(a as int + 1).drop_last() =~= row_elems@.take(
                            a as int,
                        ));
                        assert(row_elems@.take(a as int + 1).last() == row_elems@[a as int]);
                    }
                    a = a + 1;
                }
                proof {
                    assert(row_elems@.take(row_elems@.len() as int) =~= row_elems@);
                    assert(sum == product_entry(lents, aents, ri as int, cj as int));
                }
                let ghost pre = result;
                if sum != 0 {
                    result.set_value_at_coordinate(ri, cj, sum);
                }
                proof {
                    assert forall|r: int, c: int|
                        value_or_zero(result.entries(), r, c) == (if (in_list(rs, i as int, r)
                            && in_list(cs, cs.len() as int, c)) || (r == ri as int && in_list(
                            cs,
                            j as int + 1,
                            c,
                        )) {
                            product_entry(lents, aents, r, c)
                        } else {
                            0
                        }) by {
                        assert(in_list(cs, j as int + 1, c) == (in_list(cs, j as int, c) || c
                            == cs[j as int] as int)) by {
                            if in_list(cs, j as int + 1, c) {
                                let x = choose|x: int|
                                    0 <= x < j + 1 && (#[trigger] cs[x]) as int == c;
                            }
                            if in_list(cs, j as int, c) {
                                let x = choose|x: int|
                                    0 <= x < j && (#[trigger] cs[x]) as int == c;
                            }
                            if c == cs[j as int] as int {
                                assert(cs[j as int] as int == c);
                            }
                        }
                        if r == ri as int && c == cj as int {
                        } else {
                            assert(value_or_zero(result.entries(), r, c) == value_or_zero(
                                pre.entries(),
                                r,
                                c,
                            ));
                        }
                    }
                    assert forall|r: int, c: int|
                        has_coord(result.entries(), r, c) <==> (((in_list(rs, i as int, r)
                            && in_list(cs, cs.len() as int, c)) || (r == ri as int && in_list(
                            cs,
                            j as int + 1,
                            c,
                        ))) && product_entry(lents, aents, r, c) != 0) by {
                        assert(in_list(cs, j as int + 1, c) == (in_list(cs, j as int, c) || c
                            == cs[j as int] as int)) by {
                            if in_list(cs, j as int + 1, c) {
                                let x = choose|x: int|
                                    0 <= x < j + 1 && (#[trigger] cs[x]) as int == c;
                            }
                            if in_list(cs, j as int, c) {
                                let x = choose|x: int|
                                    0 <= x < j && (#[trigger] cs[x]) as int == c;
                            }
                            if c == cs[j as int] as int {
                                assert(cs[j as int] as int == c);
                            }
                        }
                        if r == ri as int && c == cj as int {
                        } else {
                            assert(has_coord(result.entries(), r, c) == has_coord(
                                pre.entries(),
                                r,
                                c,
                            ));
                        }
                    }
                }
                j = j + 1;
            }
            proof {
                assert forall|r: int, c: int|
                    value_or_zero(result.entries(), r, c) == (if in_list(rs, i as int + 1, r)
                        && in_list(cs, cs.len() as int, c) {
                        product_entry(lents, aents, r, c)
                    } else {
                        0
                    }) by {
                    assert(in_list(rs, i as int + 1, r) == (in_list(rs, i as int, r) || r
                        == rs[i as int] as int)) by {
                        if in_list(rs, i as int + 1, r) {
                            let x = choose|x: int|
                                0 <= x < i + 1 && (#[trigger] rs[x]) as int == r;
                        }
                        if in_list(rs, i as int, r) {
                            let x = choose|x: int| 0 <= x < i && (#[trigger] rs[x]) as int == r;
                        }
                    }
                    if r == ri as int && !(in_list(rs, i as int, r) && in_list(
                        cs,
                        cs.len() as int,
                        c,
                    )) && !in_list(cs, cs.len() as int, c) {
                        // A column no point of the right operand touches
                        // yields a zero dot product.
                        assert(!has_col(aents, c)) by {
                            if has_col(aents, c) {
                                let idx = choose|idx: int|
                                    0 <= idx < aents.len() && (#[trigger] aents[
                                        idx
                                    ]).col as int == c;
                                assert(cols_list@.contains(aents[idx].col));
                                let x = choose|x: int|
                                    0 <= x < cs.len() && (#[trigger] cs[x]) == aents[idx].col;
                                assert(in_list(cs, cs.len() as int, c));
                                assert(false);
                            }
                        }
                        lemma_dot_product_no_col(row_entries(lents, r), aents, c);
                    }
                }
                assert forall|r: int, c: int|
                    has_coord(result.entries(), r, c) <==> (in_list(rs, i as int + 1, r)
                        && in_list(cs, cs.len() as int, c) && product_entry(lents, aents, r, c)
                        != 0) by {
                    assert(in_list(rs, i as int + 1, r) == (in_list(rs, i as int, r) || r
                        == rs[i as int] as int)) by {
                        if in_list(rs, i as int + 1, r) {
                            let x = choose|x: int|
                                0 <= x < i + 1 && (#[trigger] rs[x]) as int == r;
                        }
                        if in_list(rs, i as int, r) {
                            let x = choose|x: int| 0 <= x < i && (#[trigger] rs[x]) as int == r;
                        }
                    }
                    if r == ri as int && !in_list(cs, cs.len() as int, c) {
                        assert(!has_col(aents, c)) by {
                            if has_col(aents, c) {
                                let idx = choose|idx: int|
                                    0 <= idx < aents.len() && (#[trigger] aents[
                                        idx
                                    ]).col as int == c;
                                assert(cols_list@.contains(aents[idx].col));
                                let x = choose|x: int|
                                    0 <= x < cs.len() && (#[trigger] cs[x]) == aents[idx].col;
                                assert(false);
                            }
                        }
                        lemma_dot_product_no_col(row_entries(lents, r), aents, c);
                    }
                }
            }
            i = i + 1;
        }
        proof {
            assert forall|r: int, c: int|
                value_or_zero(result.entries(), r, c) == product_entry(lents, aents, r, c) by {
                if !(in_list(rs, rs.len() as int, r) && in_list(cs, cs.len() as int, c)) {
                    if !in_list(rs, rs.len() as int, r) {
                        assert(!has_row(lents, r)) by {
                            if has_row(lents, r) {
                                let idx = choose|idx: int|
                                    0 <= idx < lents.len() && (#[trigger] lents[
                                        idx
                                    ]).row as int == r;
                                assert(rows_list@.contains(lents[idx].row));
                                let x = choose|x: int|
                                    0 <= x < rs.len() && (#[trigger] rs[x]) == lents[idx].row;
                                assert(false);
                            }
                        }
                        lemma_row_entries(lents, r);
                        assert(row_entries(lents, r).len() == 0);
                        assert(product_entry(lents, aents, r, c) == 0);
                    } else {
                        assert(!has_col(aents, c)) by {
                            if has_col(aents, c) {
                                let idx = choose|idx: int|
                                    0 <= idx < aents.len() && (#[trigger] aents[
                                        idx
                                    ]).col as int == c;
                                assert(cols_list@.contains(aents[idx].col));
                                let x = choose|x: int|
                                    0 <= x < cs.len() && (#[trigger] cs[x]) == aents[idx].col;
                                assert(false);
                            }
                        }
                        lemma_dot_product_no_col(row_entries(lents, r), aents, c);
                    }
                }
            }
            assert forall|r: int, c: int|
                has_coord(result.entries(), r, c) <==> product_entry(lents, aents, r, c)
                    != 0 by {
                if product_entry(lents, aents, r, c) != 0 {
                    if !in_list(rs, rs.len() as int, r) {
                        assert(!has_row(lents, r)) by {
                            if has_row(lents, r) {
                                let idx = choose|idx: int|
                                    0 <= idx < lents.len() && (#[trigger] lents[
                                        idx
                                    ]).row as int == r;
                                assert(rows_list@.contains(lents[idx].row));
                                let x = choose|x: int|
                                    0 <= x < rs.len() && (#[trigger] rs[x]) == lents[idx].row;
                                assert(false);
                            }
                        }
                        lemma_row_entries(lents, r);
                        assert(product_entry(lents, aents, r, c) == 0);
                    }
                    if !in_list(cs, cs.len() as int, c) {
                        assert(!has_col(aents, c)) by {
                            if has_col(aents, c) {
                                let idx = choose|idx: int|
                                    0 <= idx < aents.len() && (#[trigger] aents[
                                        idx
                                    ]).col as int == c;
                                assert(cols_list@.contains(aents[idx].col));
                                let x = choose|x: int|
                                    0 <= x < cs.len() && (#[trigger] cs[x]) == aents[idx].col;
                                assert(false);
                            }
                        }
                        lemma_dot_product_no_col(row_entries(lents, r), aents, c);
                    }
                }
            }
        }
        Ok(result)
    }
}

} // verus!
