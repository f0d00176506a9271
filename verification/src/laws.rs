//! General laws of the matrix operations, stated and proved over the
//! abstract model that the operation contracts speak: the map from
//! coordinates to stored values that `has_coord` and `value_or_zero`
//! describe, and the update that `set_value_at_coordinate` promises.

use vstd::prelude::*;
use crate::sparse_matrix::{MatrixElement, distinct_coords, has_coord, value_or_zero};

verus! {

/// The abstract content of a point list: the finite map each well-formed
/// matrix stands for, read through the same `has_coord` / `value_or_zero`
/// pair that every operation contract uses.
pub open spec fn matrix_map(s: Seq<MatrixElement>) -> Map<(int, int), i64> {
    Map::new(
        |p: (int, int)| has_coord(s, p.0, p.1),
        |p: (int, int)| value_or_zero(s, p.0, p.1),
    )
}

/// What one `set_value_at_coordinate(r, c, v)` does to the abstract map,
/// exactly as the operation's contract states it pointwise.
pub open spec fn apply_set(m: Map<(int, int), i64>, r: int, c: int, v: i64) -> Map<
    (int, int),
    i64,
> {
    m.insert((r, c), v)
}

/// A whole sequence of set calls, applied in order; each element of `ops`
/// is one call's (row, column, value).
pub open spec fn apply_sets(m: Map<(int, int), i64>, ops: Seq<(int, int, i64)>) -> Map<
    (int, int),
    i64,
>
    decreases ops.len(),
{
    if ops.len() == 0 {
        m
    } else {
        apply_set(
            apply_sets(m, ops.drop_last()),
            ops.last().0,
            ops.last().1,
            ops.last().2,
        )
    }
}

/// What a get returns on the abstract map: the stored value, or zero where
/// no coordinate is stored — the reading `get_value_at_coordinate` promises.
pub open spec fn read_value(m: Map<(int, int), i64>, r: int, c: int) -> i64 {
    if m.dom().contains((r, c)) {
        m[(r, c)]
    } else {
        0
    }
}

/// The distinct coordinates a sequence of set calls touches.
pub open spec fn coords_of(ops: Seq<(int, int, i64)>) -> Set<(int, int)> {
    Set::new(
        |p: (int, int)| exists|k: int| 0 <= k < ops.len() && (#[trigger] ops[k]).0 == p.0
            && ops[k].1 == p.1,
    )
}

/// No two calls of the sequence touch the same coordinate.
pub open spec fn ops_distinct(ops: Seq<(int, int, i64)>) -> bool {
    forall|k: int, l: int|
        0 <= k < l < ops.len() ==> !((#[trigger] ops[k]).0 == (#[trigger] ops[l]).0 && ops[k].1
            == ops[l].1)
}

/// Reading a matrix through its abstract map is reading it through
/// `value_or_zero`: the two views agree at every coordinate.
pub proof fn lemma_read_is_value_or_zero(s: Seq<MatrixElement>, r: int, c: int)
    ensures
        read_value(matrix_map(s), r, c) == value_or_zero(s, r, c),
{
}

/// The pointwise contract of `set_value_at_coordinate` — the set coordinate
/// now reads the new value, every other coordinate reads as before, and only
/// the set coordinate may have appeared — says exactly that the abstract map
/// is updated by `apply_set`.
pub proof fn lemma_set_updates_map(
    pre: Seq<MatrixElement>,
    post: Seq<MatrixElement>,
    row: int,
    col: int,
    value: i64,
)
    requires
        forall|r: int, c: int|
            value_or_zero(post, r, c) == if r == row && c == col {
                value
            } else {
                value_or_zero(pre, r, c)
            },
        forall|r: int, c: int|
            has_coord(post, r, c) == (has_coord(pre, r, c) || (r == row && c == col)),
    ensures
        matrix_map(post) == apply_set(matrix_map(pre), row, col, value),
{
    assert(matrix_map(post) =~= apply_set(matrix_map(pre), row, col, value)) by {
        assert forall|p: (int, int)| #[trigger]
            matrix_map(post).dom().contains(p) implies matrix_map(post)[p] == apply_set(
            matrix_map(pre),
            row,
            col,
            value,
        )[p] by {
            assert(matrix_map(post)[p] == value_or_zero(post, p.0, p.1));
            if p == (row, col) {
            } else {
                assert(value_or_zero(post, p.0, p.1) == value_or_zero(pre, p.0, p.1));
            }
        }
    }
}

/// Round-trip: setting a coordinate and then reading that same coordinate
/// yields exactly the value just set, whatever the matrix held before.
/// Combined with the contracts of `set_value_at_coordinate` (the abstract
/// map is updated by `apply_set`) and `get_value_at_coordinate` (the return
/// is the map's reading), this is the law for the operations themselves.
pub proof fn lemma_set_then_get_round_trip(m: Map<(int, int), i64>, r: int, c: int, v: i64)
    ensures
        read_value(apply_set(m, r, c, v), r, c) == v,
{
}

/// Last write wins: after a sequence of sets, a coordinate whose last set
/// wrote `v` reads `v`, whatever was set before it and at other coordinates
/// after it.
pub proof fn lemma_last_set_wins(m: Map<(int, int), i64>, ops: Seq<(int, int, i64)>, k: int)
    requires
        0 <= k < ops.len(),
        forall|l: int|
            k < l < ops.len() ==> !((#[trigger] ops[l]).0 == ops[k].0 && ops[l].1 == ops[k].1),
    ensures
        apply_sets(m, ops).dom().contains((ops[k].0, ops[k].1)),
        read_value(apply_sets(m, ops), ops[k].0, ops[k].1) == ops[k].2,
    decreases ops.len(),
{
    if k == ops.len() - 1 {
    } else {
        let pre = ops.drop_last();
        assert(pre[k] == ops[k]);
        assert forall|l: int|
            k < l < pre.len() implies !((#[trigger] pre[l]).0 == pre[k].0 && pre[l].1
            == pre[k].1) by {
            assert(pre[l] == ops[l]);
        }
        lemma_last_set_wins(m, pre, k);
        assert(!(ops.last().0 == ops[k].0 && ops.last().1 == ops[k].1));
    }
}

/// Default zero: a coordinate no point sits at reads zero. This is the
/// whole content of a get on an absent coordinate, by the contract of
/// `get_value_at_coordinate`.
pub proof fn lemma_default_zero(s: Seq<MatrixElement>, r: int, c: int)
    requires
        !has_coord(s, r, c),
    ensures
        value_or_zero(s, r, c) == 0,
        read_value(matrix_map(s), r, c) == 0,
{
}

/// The coordinates present after a sequence of sets are those present
/// before plus every coordinate the sequence touched.
pub proof fn lemma_apply_sets_dom(m: Map<(int, int), i64>, ops: Seq<(int, int, i64)>)
    ensures
        apply_sets(m, ops).dom() == m.dom().union(coords_of(ops)),
    decreases ops.len(),
{
    if ops.len() == 0 {
        assert(coords_of(ops) =~= Set::<(int, int)>::empty()) by {
            assert forall|p: (int, int)| !coords_of(ops).contains(p) by {
                if coords_of(ops).contains(p) {
                    let k = choose|k: int|
                        0 <= k < ops.len() && (#[trigger] ops[k]).0 == p.0 && ops[k].1 == p.1;
                }
            }
        }
        assert(apply_sets(m, ops).dom() =~= m.dom().union(coords_of(ops)));
    } else {
        let pre = ops.drop_last();
        let last = ops.last();
        lemma_apply_sets_dom(m, pre);
        assert(coords_of(ops) =~= coords_of(pre).insert((last.0, last.1))) by {
            assert forall|p: (int, int)|
                coords_of(ops).contains(p) == (coords_of(pre).contains(p) || p == (
                    last.0,
                    last.1,
                )) by {
                if coords_of(ops).contains(p) {
                    let k = choose|k: int|
                        0 <= k < ops.len() && (#[trigger] ops[k]).0 == p.0 && ops[k].1 == p.1;
                    if k < ops.len() - 1 {
                        assert(pre[k] == ops[k]);
                        assert(coords_of(pre).contains(p));
                    }
                }
                if coords_of(pre).contains(p) {
                    let k = choose|k: int|
                        0 <= k < pre.len() && (#[trigger] pre[k]).0 == p.0 && pre[k].1 == p.1;
                    assert(ops[k] == pre[k]);
                    assert(coords_of(ops).contains(p));
                }
                if p == (last.0, last.1) {
                    assert(ops[ops.len() - 1].0 == p.0 && ops[ops.len() - 1].1 == p.1);
                    assert(coords_of(ops).contains(p));
                }
            }
        }
        assert(apply_sets(m, ops).dom() =~= m.dom().union(coords_of(ops)));
    }
}

/// Point-count consistency: starting from the empty matrix, a sequence of
/// sets leaves exactly the coordinates it touched, so the point count —
/// which `get_number_of_points` returns and which equals the size of the
/// abstract map by `lemma_count_is_map_size` — is the number of distinct
/// coordinates ever set, duplicates counted once.
pub proof fn lemma_point_count(ops: Seq<(int, int, i64)>)
    ensures
        apply_sets(Map::<(int, int), i64>::empty(), ops).dom() == coords_of(ops),
    decreases ops.len(),
{
    lemma_apply_sets_dom(Map::<(int, int), i64>::empty(), ops);
    assert(Map::<(int, int), i64>::empty().dom().union(coords_of(ops)) =~= coords_of(ops));
}

/// A well-formed matrix holds one point per stored coordinate, so its point
/// count is the size of its abstract map.
pub proof fn lemma_count_is_map_size(s: Seq<MatrixElement>)
    requires
        distinct_coords(s),
    ensures
        matrix_map(s).dom().finite(),
        matrix_map(s).dom().len() == s.len(),
    decreases s.len(),
{
    if s.len() == 0 {
        assert(matrix_map(s).dom() =~= Set::<(int, int)>::empty()) by {
            assert forall|p: (int, int)| !matrix_map(s).dom().contains(p) by {
                if has_coord(s, p.0, p.1) {
                    let i = choose|i: int|
                        0 <= i < s.len() && s[i].row == p.0 && s[i].col == p.1;
                }
            }
        }
    } else {
        let p = s.drop_last();
        let e = s.last();
        assert(distinct_coords(p)) by {
            assert(forall|i: int| 0 <= i < p.len() ==> p[i] == s[i]);
        }
        lemma_count_is_map_size(p);
        let key = (e.row as int, e.col as int);
        assert(!has_coord(p, key.0, key.1)) by {
            if has_coord(p, key.0, key.1) {
                let i = choose|i: int| 0 <= i < p.len() && p[i].row == key.0 && p[i].col == key.1;
                assert(s[i] == p[i]);
                assert(!crate::sparse_matrix::coord_eq(s[i], s[s.len() - 1]));
                assert(false);
            }
        }
        assert(matrix_map(s).dom() =~= matrix_map(p).dom().insert(key)) by {
            assert forall|q: (int, int)|
                has_coord(s, q.0, q.1) == (has_coord(p, q.0, q.1) || q == key) by {
                if has_coord(s, q.0, q.1) {
                    let i = choose|i: int|
                        0 <= i < s.len() && s[i].row == q.0 && s[i].col == q.1;
                    if i < p.len() {
                        assert(p[i] == s[i]);
                    } else {
                        assert(s[i] == e);
                    }
                }
                if has_coord(p, q.0, q.1) {
                    let i = choose|i: int|
                        0 <= i < p.len() && p[i].row == q.0 && p[i].col == q.1;
                    assert(s[i] == p[i]);
                }
                if q == key {
                    assert(s[s.len() - 1].row == q.0 && s[s.len() - 1].col == q.1);
                }
            }
        }
        assert(!matrix_map(p).dom().contains(key));
        vstd::set::axiom_set_insert_finite(matrix_map(p).dom(), key);
        vstd::set::axiom_set_insert_len(matrix_map(p).dom(), key);
        assert(matrix_map(s).dom().len() == matrix_map(p).dom().len() + 1);
    }
}

/// Coordinates a sequence never touched keep their old presence and value.
pub proof fn lemma_apply_sets_untouched(
    m: Map<(int, int), i64>,
    ops: Seq<(int, int, i64)>,
    p: (int, int),
)
    requires
        !coords_of(ops).contains(p),
    ensures
        apply_sets(m, ops).dom().contains(p) == m.dom().contains(p),
        m.dom().contains(p) ==> apply_sets(m, ops)[p] == m[p],
    decreases ops.len(),
{
    if ops.len() > 0 {
        let pre = ops.drop_last();
        assert(!coords_of(pre).contains(p)) by {
            if coords_of(pre).contains(p) {
                let k = choose|k: int|
                    0 <= k < pre.len() && (#[trigger] pre[k]).0 == p.0 && pre[k].1 == p.1;
                assert(ops[k] == pre[k]);
                assert(coords_of(ops).contains(p));
            }
        }
        lemma_apply_sets_untouched(m, pre, p);
        assert(ops[ops.len() - 1] == ops.last());
        assert(!(ops.last().0 == p.0 && ops.last().1 == p.1)) by {
            if ops.last().0 == p.0 && ops.last().1 == p.1 {
                assert(coords_of(ops).contains(p));
            }
        }
    }
}

/// Sort-independence: two sequences of sets that are rearrangements of one
/// another, none touching a coordinate twice, leave the matrix with the
/// same abstract map — inserting coordinates in any order gives the same
/// readings as inserting them sorted.
pub proof fn lemma_insertion_order_irrelevant(
    m: Map<(int, int), i64>,
    ops1: Seq<(int, int, i64)>,
    ops2: Seq<(int, int, i64)>,
)
    requires
        ops1.to_multiset() == ops2.to_multiset(),
        ops_distinct(ops1),
    ensures
        apply_sets(m, ops1) == apply_sets(m, ops2),
{
    broadcast use vstd::seq_lib::group_to_multiset_ensures;

    assert forall|e: (int, int, i64)| ops1.contains(e) == ops2.contains(e) by {
        assert(ops1.contains(e) <==> ops1.to_multiset().count(e) > 0);
        assert(ops2.contains(e) <==> ops2.to_multiset().count(e) > 0);
    }
    assert(ops1.no_duplicates()) by {
        assert forall|k: int, l: int|
            0 <= k < ops1.len() && 0 <= l < ops1.len() && k != l implies ops1[k] != ops1[l] by {
            if k < l {
                assert(!((#[trigger] ops1[k]).0 == (#[trigger] ops1[l]).0 && ops1[k].1
                    == ops1[l].1));
            } else {
                assert(!((#[trigger] ops1[l]).0 == (#[trigger] ops1[k]).0 && ops1[l].1
                    == ops1[k].1));
            }
        }
    }
    ops1.lemma_multiset_has_no_duplicates();
    ops2.lemma_multiset_has_no_duplicates_conv();
    assert(ops_distinct(ops2)) by {
        assert forall|k: int, l: int|
            0 <= k < l < ops2.len() implies !((#[trigger] ops2[k]).0 == (#[trigger] ops2[l]).0
            && ops2[k].1 == ops2[l].1) by {
            if ops2[k].0 == ops2[l].0 && ops2[k].1 == ops2[l].1 {
                assert(ops2[k] != ops2[l]);
                assert(ops2.contains(ops2[k]));
                assert(ops2.contains(ops2[l]));
                assert(ops1.contains(ops2[k]));
                assert(ops1.contains(ops2[l]));
                let a = choose|a: int| 0 <= a < ops1.len() && ops1[a] == ops2[k];
                let b = choose|b: int| 0 <= b < ops1.len() && ops1[b] == ops2[l];
                assert(a != b);
                if a < b {
                    assert(!((#[trigger] ops1[a]).0 == (#[trigger] ops1[b]).0 && ops1[a].1
                        == ops1[b].1));
                } else {
                    assert(!((#[trigger] ops1[b]).0 == (#[trigger] ops1[a]).0 && ops1[b].1
                        == ops1[a].1));
                }
                assert(false);
            }
        }
    }
    assert(coords_of(ops1) =~= coords_of(ops2)) by {
        assert forall|p: (int, int)|
            coords_of(ops1).contains(p) == coords_of(ops2).contains(p) by {
            if coords_of(ops1).contains(p) {
                let k = choose|k: int|
                    0 <= k < ops1.len() && (#[trigger] ops1[k]).0 == p.0 && ops1[k].1 == p.1;
                assert(ops1.contains(ops1[k]));
                assert(ops2.contains(ops1[k]));
                let l = choose|l: int| 0 <= l < ops2.len() && ops2[l] == ops1[k];
                assert((#[trigger] ops2[l]).0 == p.0 && ops2[l].1 == p.1);
                assert(coords_of(ops2).contains(p));
            }
            if coords_of(ops2).contains(p) {
                let k = choose|k: int|
                    0 <= k < ops2.len() && (#[trigger] ops2[k]).0 == p.0 && ops2[k].1 == p.1;
                assert(ops2.contains(ops2[k]));
                assert(ops1.contains(ops2[k]));
                let l = choose|l: int| 0 <= l < ops1.len() && ops1[l] == ops2[k];
                assert((#[trigger] ops1[l]).0 == p.0 && ops1[l].1 == p.1);
                assert(coords_of(ops1).contains(p));
            }
        }
    }
    lemma_apply_sets_dom(m, ops1);
    lemma_apply_sets_dom(m, ops2);
    let m1 = apply_sets(m, ops1);
    let m2 = apply_sets(m, ops2);
    assert(m1.dom() =~= m2.dom());
    assert forall|p: (int, int)| m1.dom().contains(p) implies m1[p] == m2[p] by {
        if coords_of(ops1).contains(p) {
            let k = choose|k: int|
                0 <= k < ops1.len() && (#[trigger] ops1[k]).0 == p.0 && ops1[k].1 == p.1;
            assert(ops1.contains(ops1[k]));
            assert(ops2.contains(ops1[k]));
            let l = choose|l: int| 0 <= l < ops2.len() && ops2[l] == ops1[k];
            assert forall|x: int|
                k < x < ops1.len() implies !((#[trigger] ops1[x]).0 == ops1[k].0 && ops1[x].1
                == ops1[k].1) by {}
            lemma_last_set_wins(m, ops1, k);
            assert forall|x: int|
                l < x < ops2.len() implies !((#[trigger] ops2[x]).0 == ops2[l].0 && ops2[x].1
                == ops2[l].1) by {}
            lemma_last_set_wins(m, ops2, l);
            assert(read_value(m1, p.0, p.1) == ops1[k].2);
            assert(read_value(m2, p.0, p.1) == ops2[l].2);
            assert(m1[p] == read_value(m1, p.0, p.1));
            assert(m2[p] == read_value(m2, p.0, p.1));
        } else {
            lemma_apply_sets_untouched(m, ops1, p);
            lemma_apply_sets_untouched(m, ops2, p);
        }
    }
    assert(m1 =~= m2);
}

} // verus!
