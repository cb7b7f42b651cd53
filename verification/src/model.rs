use vstd::prelude::*;

verus! {

broadcast use vstd::set::group_set_axioms, vstd::map::group_map_axioms, vstd::seq::group_seq_axioms;

/// The mathematical state of the column index: each condition still indexed
/// maps to a flag (true when the condition is required) and the set of items
/// currently able to satisfy it.
pub type ColsModel = Map<u32, (bool, Set<u32>)>;

/// The mathematical view of a problem: each item maps to the ordered sequence
/// of conditions it satisfies.
pub type RowsModel = Map<u32, Seq<u32>>;

/// Undo records of one selection: for each removed column, in the order the
/// conditions were processed, its condition, its required flag and the item
/// set it held when it was removed.
pub type ScratchModel = Seq<(u32, bool, Set<u32>)>;

/// The row of `item`, or the empty sequence when the problem has no such row.
pub open spec fn row_seq(rows: RowsModel, item: u32) -> Seq<u32> {
    if rows.dom().contains(item) {
        rows[item]
    } else {
        Seq::empty()
    }
}

/// Among the items of `saved`, those whose row covers condition `k`: exactly
/// the items that covering a column holding `saved` removes from column `k`,
/// and that uncovering it puts back.
pub open spec fn kills(saved: Set<u32>, rows: RowsModel, k: u32) -> Set<u32> {
    saved.filter(|i: u32| rows.dom().contains(i) && rows[i].contains(k))
}

/// Covering condition `j`: every item that could satisfy `j` is removed from
/// all other columns, then column `j` itself leaves the index.
pub open spec fn sel_step(m: ColsModel, rows: RowsModel, j: u32) -> ColsModel {
    Map::new(
        |k: u32| m.dom().contains(k) && k != j,
        |k: u32| (m[k].0, m[k].1.difference(kills(m[j].1, rows, k))),
    )
}

/// Uncovering a column from its undo record `e`: the items it held return to
/// every other column their rows cover, then the column itself returns under
/// its original condition key.
pub open spec fn desel_step(m: ColsModel, rows: RowsModel, e: (u32, bool, Set<u32>)) -> ColsModel {
    Map::new(
        |k: u32| m.dom().contains(k) || k == e.0,
        |k: u32|
            if k == e.0 {
                (e.1, e.2)
            } else {
                (m[k].0, m[k].1.union(kills(e.2, rows, k)))
            },
    )
}

/// Selecting an item whose row is `row`: its conditions are covered in row
/// order, skipping those no longer indexed; the scratch lists the removed
/// columns in that same order.
pub open spec fn spec_select(m: ColsModel, rows: RowsModel, row: Seq<u32>) -> (ColsModel, ScratchModel)
    decreases row.len(),
{
    if row.len() == 0 {
        (m, Seq::empty())
    } else {
        let j = row[0];
        if !m.dom().contains(j) {
            spec_select(m, rows, row.skip(1))
        } else {
            let r = spec_select(sel_step(m, rows, j), rows, row.skip(1));
            (r.0, seq![(j, m[j].0, m[j].1)] + r.1)
        }
    }
}

/// Deselecting: the undo records are replayed strictly last-in first-out.
pub open spec fn spec_deselect(m: ColsModel, rows: RowsModel, sc: ScratchModel) -> ColsModel
    decreases sc.len(),
{
    if sc.len() == 0 {
        m
    } else {
        spec_deselect(desel_step(m, rows, sc.last()), rows, sc.drop_last())
    }
}

/// Well-formedness of the column index against the problem: the domain is
/// finite, every item recorded in a column has a row covering that column's
/// condition, and an item present anywhere is present in every still-indexed
/// column its row covers.
pub open spec fn cols_wf(m: ColsModel, rows: RowsModel) -> bool {
    &&& m.dom().finite()
    &&& forall|k: u32, i: u32|
        m.dom().contains(k) && #[trigger] m[k].1.contains(i) ==> rows.dom().contains(i)
            && rows[i].contains(k)
    &&& forall|k: u32, k2: u32, i: u32|
        m.dom().contains(k) && #[trigger] m[k].1.contains(i) && m.dom().contains(k2)
            && #[trigger] rows[i].contains(k2) ==> m[k2].1.contains(i)
}

/// The conditions whose columns are still indexed and required.
pub open spec fn req_dom(m: ColsModel) -> Set<u32> {
    m.dom().filter(|k: u32| m[k].0)
}

/// How many required columns the index still holds.
pub open spec fn req_count(m: ColsModel) -> nat {
    req_dom(m).len()
}

/// How many of the undo records belong to required columns.
pub open spec fn scratch_req(sc: ScratchModel) -> nat
    decreases sc.len(),
{
    if sc.len() == 0 {
        0
    } else {
        scratch_req(sc.drop_last()) + if sc.last().1 {
            1nat
        } else {
            0nat
        }
    }
}

/// Covering a column preserves well-formedness.
pub proof fn lemma_sel_step_wf(m: ColsModel, rows: RowsModel, j: u32)
    requires
        cols_wf(m, rows),
    ensures
        cols_wf(sel_step(m, rows, j), rows),
{
    let m1 = sel_step(m, rows, j);
    assert(m1.dom() =~= m.dom().remove(j));
    assert forall|k: u32, i: u32|
        m1.dom().contains(k) && #[trigger] m1[k].1.contains(i) implies rows.dom().contains(i)
        && rows[i].contains(k) by {
        assert(m[k].1.contains(i));
    }
    assert forall|k: u32, k2: u32, i: u32|
        m1.dom().contains(k) && #[trigger] m1[k].1.contains(i) && m1.dom().contains(k2)
            && #[trigger] rows[i].contains(k2) implies m1[k2].1.contains(i) by {
        assert(m[k].1.contains(i));
        assert(rows.dom().contains(i) && rows[i].contains(k));
        assert(!kills(m[j].1, rows, k).contains(i));
        assert(!m[j].1.contains(i));
        assert(m[k2].1.contains(i));
        assert(!kills(m[j].1, rows, k2).contains(i));
    }
}

/// Uncovering from the record that covering produced restores the index.
pub proof fn lemma_desel_sel_step(m: ColsModel, rows: RowsModel, j: u32)
    requires
        cols_wf(m, rows),
        m.dom().contains(j),
    ensures
        desel_step(sel_step(m, rows, j), rows, (j, m[j].0, m[j].1)) == m,
{
    let m1 = sel_step(m, rows, j);
    let m2 = desel_step(m1, rows, (j, m[j].0, m[j].1));
    assert(m2.dom() =~= m.dom());
    assert forall|k: u32| #[trigger] m.dom().contains(k) && k != j implies m2[k].1 =~= m[k].1 by {
        let kk = kills(m[j].1, rows, k);
        assert forall|i: u32| #[trigger] kk.contains(i) implies m[k].1.contains(i) by {
            assert(m[j].1.contains(i));
            assert(rows[i].contains(k));
        }
        assert(m1[k].1 == m[k].1.difference(kk));
        assert(m2[k].1 == m1[k].1.union(kills(m[j].1, rows, k)));
    }
    assert(m2 =~~= m);
}

/// Selecting preserves well-formedness of the column index.
pub proof fn lemma_select_wf(m: ColsModel, rows: RowsModel, row: Seq<u32>)
    requires
        cols_wf(m, rows),
    ensures
        cols_wf(spec_select(m, rows, row).0, rows),
    decreases row.len(),
{
    if row.len() == 0 {
    } else {
        let j = row[0];
        if !m.dom().contains(j) {
            lemma_select_wf(m, rows, row.skip(1));
        } else {
            lemma_sel_step_wf(m, rows, j);
            lemma_select_wf(sel_step(m, rows, j), rows, row.skip(1));
        }
    }
}

/// Replaying records for `[e] + rest` is replaying those for `rest`, then `e`.
pub proof fn lemma_desel_cons(m: ColsModel, rows: RowsModel, e: (u32, bool, Set<u32>), rest: ScratchModel)
    ensures
        spec_deselect(m, rows, seq![e] + rest) == desel_step(spec_deselect(m, rows, rest), rows, e),
    decreases rest.len(),
{
    let s = seq![e] + rest;
    if rest.len() == 0 {
        reveal_with_fuel(spec_deselect, 2);
        assert(s.last() == e);
        assert(s.drop_last() =~= Seq::<(u32, bool, Set<u32>)>::empty());
    } else {
        assert(s.last() == rest.last());
        assert(s.drop_last() =~= seq![e] + rest.drop_last());
        lemma_desel_cons(desel_step(m, rows, rest.last()), rows, e, rest.drop_last());
    }
}

/// Select/deselect identity: on a well-formed column index, replaying a
/// selection's undo records in reverse order restores the index exactly,
/// whatever row the selected item had.
pub proof fn lemma_select_deselect_identity(m: ColsModel, rows: RowsModel, row: Seq<u32>)
    requires
        cols_wf(m, rows),
    ensures
        spec_deselect(spec_select(m, rows, row).0, rows, spec_select(m, rows, row).1) == m,
    decreases row.len(),
{
    if row.len() == 0 {
    } else {
        let j = row[0];
        if !m.dom().contains(j) {
            lemma_select_deselect_identity(m, rows, row.skip(1));
        } else {
            let m1 = sel_step(m, rows, j);
            lemma_sel_step_wf(m, rows, j);
            let r = spec_select(m1, rows, row.skip(1));
            lemma_select_deselect_identity(m1, rows, row.skip(1));
            let e = (j, m[j].0, m[j].1);
            lemma_desel_cons(r.0, rows, e, r.1);
            lemma_desel_sel_step(m, rows, j);
        }
    }
}

/// Selecting removes exactly one indexed column per undo record, and the
/// required columns split between the new index and the scratch's count.
pub proof fn lemma_select_counts(m: ColsModel, rows: RowsModel, row: Seq<u32>)
    requires
        m.dom().finite(),
    ensures
        spec_select(m, rows, row).0.dom().finite(),
        spec_select(m, rows, row).0.dom().len() + spec_select(m, rows, row).1.len() == m.dom().len(),
        req_count(spec_select(m, rows, row).0) + scratch_req(spec_select(m, rows, row).1) == req_count(m),
    decreases row.len(),
{
    vstd::set_lib::lemma_len_subset(req_dom(m), m.dom());
    if row.len() == 0 {
    } else {
        let j = row[0];
        if !m.dom().contains(j) {
            lemma_select_counts(m, rows, row.skip(1));
        } else {
            let m1 = sel_step(m, rows, j);
            assert(m1.dom() =~= m.dom().remove(j));
            assert(req_dom(m1) =~= req_dom(m).remove(j));
            vstd::set_lib::lemma_len_subset(req_dom(m1), m1.dom());
            lemma_select_counts(m1, rows, row.skip(1));
            let r = spec_select(m1, rows, row.skip(1));
            let e = (j, m[j].0, m[j].1);
            lemma_scratch_req_cons(e, r.1);
            if m[j].0 {
                assert(req_dom(m).contains(j));
            } else {
                assert(req_dom(m1) =~= req_dom(m));
            }
        }
    }
}

/// The required count of `[e] + rest` splits off the first record.
pub proof fn lemma_scratch_req_cons(e: (u32, bool, Set<u32>), rest: ScratchModel)
    ensures
        scratch_req(seq![e] + rest) == scratch_req(rest) + if e.1 {
            1nat
        } else {
            0nat
        },
    decreases rest.len(),
{
    let s = seq![e] + rest;
    if rest.len() == 0 {
        reveal_with_fuel(scratch_req, 2);
        assert(s.last() == e);
        assert(s.drop_last() =~= Seq::<(u32, bool, Set<u32>)>::empty());
    } else {
        assert(s.last() == rest.last());
        assert(s.drop_last() =~= seq![e] + rest.drop_last());
        lemma_scratch_req_cons(e, rest.drop_last());
    }
}

/// Extending the row to select by one condition appends at most one record.
pub proof fn lemma_select_snoc(m: ColsModel, rows: RowsModel, row: Seq<u32>, j: u32)
    ensures
        ({
            let a = spec_select(m, rows, row);
            let b = spec_select(m, rows, row.push(j));
            if a.0.dom().contains(j) {
                b.0 == sel_step(a.0, rows, j) && b.1 == a.1.push((j, a.0[j].0, a.0[j].1))
            } else {
                b.0 == a.0 && b.1 == a.1
            }
        }),
    decreases row.len(),
{
    if row.len() == 0 {
        reveal_with_fuel(spec_select, 2);
        assert(row.push(j)[0] == j);
        assert(row.push(j).skip(1) =~= Seq::<u32>::empty());
        if m.dom().contains(j) {
            let b = spec_select(m, rows, row.push(j));
            assert(b.1 =~= Seq::<(u32, bool, Set<u32>)>::empty().push((j, m[j].0, m[j].1)));
        }
    } else {
        let h = row[0];
        assert(row.push(j)[0] == h);
        assert(row.push(j).skip(1) =~= row.skip(1).push(j));
        if !m.dom().contains(h) {
            lemma_select_snoc(m, rows, row.skip(1), j);
        } else {
            let m1 = sel_step(m, rows, h);
            lemma_select_snoc(m1, rows, row.skip(1), j);
            let a1 = spec_select(m1, rows, row.skip(1));
            let e = (h, m[h].0, m[h].1);
            if a1.0.dom().contains(j) {
                assert((seq![e] + a1.1).push((j, a1.0[j].0, a1.0[j].1)) =~= seq![e] + a1.1.push(
                    (j, a1.0[j].0, a1.0[j].1),
                ));
            }
        }
    }
}

/// The items that selecting a row with conditions `row` removes from the
/// other columns: every item of every still-indexed column that the row
/// covers.
pub open spec fn killed(m: ColsModel, rows: RowsModel, row: Seq<u32>) -> Set<u32> {
    Set::new(
        |i: u32|
            exists|j: u32| row.contains(j) && m.dom().contains(j) && #[trigger] m[j].1.contains(i),
    )
}

/// A non-empty sequence holds its head and whatever its tail holds.
proof fn lemma_cons_contains(row: Seq<u32>)
    requires
        row.len() > 0,
    ensures
        forall|x: u32| row.contains(x) <==> (row[0] == x || row.skip(1).contains(x)),
{
    assert forall|x: u32| #[trigger] row.contains(x) implies (row[0] == x || row.skip(1).contains(
        x,
    )) by {
        let w = choose|w: int| 0 <= w < row.len() && #[trigger] row[w] == x;
        if w > 0 {
            assert(row.skip(1)[w - 1] == x);
        }
    }
    assert forall|x: u32| row[0] == x || row.skip(1).contains(x) implies #[trigger] row.contains(
        x,
    ) by {
        if row[0] == x {
        } else {
            let w = choose|w: int| 0 <= w < row.skip(1).len() && #[trigger] row.skip(1)[w] == x;
            assert(row[w + 1] == x);
        }
    }
}

/// What selecting does, stated directly: the covered columns leave the index,
/// and every remaining column keeps its required flag and loses exactly the
/// killed items.
pub proof fn lemma_select_characterization(m: ColsModel, rows: RowsModel, row: Seq<u32>)
    requires
        cols_wf(m, rows),
    ensures
        spec_select(m, rows, row).0.dom() == m.dom().difference(row.to_set()),
        forall|k: u32| #[trigger] spec_select(m, rows, row).0.dom().contains(k) ==> spec_select(
            m,
            rows,
            row,
        ).0[k].0 == m[k].0 && spec_select(m, rows, row).0[k].1 == m[k].1.difference(
            killed(m, rows, row),
        ),
    decreases row.len(),
{
    let r = spec_select(m, rows, row);
    if row.len() == 0 {
        assert(r.0.dom() =~= m.dom().difference(row.to_set()));
        assert forall|k: u32| #[trigger] r.0.dom().contains(k) implies r.0[k].0 == m[k].0
            && r.0[k].1 == m[k].1.difference(killed(m, rows, row)) by {
            assert(killed(m, rows, row) =~= Set::<u32>::empty());
            assert(m[k].1.difference(Set::<u32>::empty()) =~= m[k].1);
        }
    } else {
        let j = row[0];
        let tail = row.skip(1);
        lemma_cons_contains(row);
        if !m.dom().contains(j) {
            lemma_select_characterization(m, rows, tail);
            assert(r.0.dom() =~= m.dom().difference(row.to_set()));
            assert(killed(m, rows, row) =~= killed(m, rows, tail));
        } else {
            let m1 = sel_step(m, rows, j);
            lemma_sel_step_wf(m, rows, j);
            lemma_select_characterization(m1, rows, tail);
            assert(m1.dom() =~= m.dom().remove(j));
            assert(r.0.dom() =~= m.dom().difference(row.to_set()));
            assert forall|k: u32| #[trigger] r.0.dom().contains(k) implies r.0[k].0 == m[k].0
                && r.0[k].1 == m[k].1.difference(killed(m, rows, row)) by {
                assert(m1.dom().contains(k) && k != j);
                assert(r.0[k].0 == m1[k].0 && r.0[k].1 == m1[k].1.difference(
                    killed(m1, rows, tail),
                ));
                assert(m1[k].1 == m[k].1.difference(kills(m[j].1, rows, k)));
                assert forall|i: u32| #[trigger] r.0[k].1.contains(i) implies m[k].1.difference(
                    killed(m, rows, row),
                ).contains(i) by {
                    assert(m[k].1.contains(i));
                    assert(rows.dom().contains(i) && rows[i].contains(k));
                    assert(!m[j].1.contains(i));
                    if killed(m, rows, row).contains(i) {
                        let j2 = choose|j2: u32|
                            row.contains(j2) && m.dom().contains(j2) && #[trigger] m[j2].1.contains(
                                i,
                            );
                        assert(j2 != j);
                        assert(tail.contains(j2));
                        assert(m1.dom().contains(j2));
                        assert(!kills(m[j].1, rows, j2).contains(i));
                        assert(m1[j2].1.contains(i));
                        assert(killed(m1, rows, tail).contains(i));
                        assert(false);
                    }
                }
                assert forall|i: u32|
                    m[k].1.difference(killed(m, rows, row)).contains(
                        i,
                    ) implies #[trigger] r.0[k].1.contains(i) by {
                    assert(m[k].1.contains(i));
                    assert(rows.dom().contains(i) && rows[i].contains(k));
                    assert(!killed(m, rows, row).contains(i));
                    assert(!m[j].1.contains(i));
                    assert(m1[k].1.contains(i));
                    if killed(m1, rows, tail).contains(i) {
                        let j2 = choose|j2: u32|
                            tail.contains(j2) && m1.dom().contains(j2)
                                && #[trigger] m1[j2].1.contains(i);
                        assert(m[j2].1.contains(i));
                        assert(row.contains(j2) && m.dom().contains(j2));
                        assert(killed(m, rows, row).contains(i));
                        assert(false);
                    }
                }
                assert(r.0[k].1 =~= m[k].1.difference(killed(m, rows, row)));
            }
        }
    }
}

/// An exact cover of the current index: a set of items that satisfies every
/// still-indexed required condition exactly once, satisfies every
/// still-indexed condition at most once, and consists of items the index
/// still offers for some required condition.
#[verifier::opaque]
pub open spec fn sol_of(m: ColsModel, s: Set<u32>) -> bool {
    &&& (forall|k: u32|
        m.dom().contains(k) && (#[trigger] m[k]).0 ==> exists|i: u32|
            s.contains(i) && #[trigger] m[k].1.contains(i))
    &&& (forall|k: u32, i1: u32, i2: u32|
        m.dom().contains(k) && s.contains(i1) && s.contains(i2) && #[trigger] m[k].1.contains(i1)
            && #[trigger] m[k].1.contains(i2) ==> i1 == i2)
    &&& (forall|i: u32|
        #[trigger] s.contains(i) ==> exists|k: u32|
            m.dom().contains(k) && m[k].0 && #[trigger] m[k].1.contains(i))
}

/// With no required column left, the empty set is the one exact cover.
pub proof fn lemma_sol_of_no_required(m: ColsModel, s: Set<u32>)
    requires
        m.dom().finite(),
        req_count(m) == 0,
    ensures
        sol_of(m, s) <==> s == Set::<u32>::empty(),
{
    reveal(sol_of);
    vstd::set_lib::lemma_len_subset(req_dom(m), m.dom());
    assert forall|k: u32| m.dom().contains(k) implies !(#[trigger] m[k]).0 by {
        if m[k].0 {
            assert(req_dom(m).contains(k));
            assert(req_dom(m).remove(k).len() == req_dom(m).len() - 1);
            assert(false);
        }
    }
    if sol_of(m, s) {
        assert forall|i: u32| !(#[trigger] s.contains(i)) by {
            if s.contains(i) {
                let k = choose|k: u32|
                    m.dom().contains(k) && m[k].0 && #[trigger] m[k].1.contains(i);
                assert(false);
            }
        }
        assert(s =~= Set::<u32>::empty());
    }
    if s == Set::<u32>::empty() {
        assert(sol_of(m, s));
    }
}

/// An exact cover of the index holds an item for each required column.
pub proof fn lemma_sol_of_pick(m: ColsModel, s: Set<u32>, k: u32)
    requires
        sol_of(m, s),
        m.dom().contains(k),
        m[k].0,
    ensures
        exists|i: u32| s.contains(i) && #[trigger] m[k].1.contains(i),
{
    reveal(sol_of);
}

/// Selecting an item of a still-indexed column removes at least that column.
pub proof fn lemma_select_removes(m: ColsModel, rows: RowsModel, istar: u32, kstar: u32)
    requires
        cols_wf(m, rows),
        m.dom().contains(kstar),
        m[kstar].1.contains(istar),
    ensures
        spec_select(m, rows, row_seq(rows, istar)).1.len() > 0,
{
    let row = row_seq(rows, istar);
    lemma_select_characterization(m, rows, row);
    lemma_select_counts(m, rows, row);
    let m1 = spec_select(m, rows, row).0;
    assert(rows.dom().contains(istar) && rows[istar].contains(kstar));
    assert(row.to_set().contains(kstar));
    assert(!m1.dom().contains(kstar));
    assert(m1.dom().subset_of(m.dom().remove(kstar)));
    assert(m.dom().remove(kstar).len() == m.dom().len() - 1);
    vstd::set_lib::lemma_len_subset(m1.dom(), m.dom().remove(kstar));
}

/// Extending an exact cover of the index left by selecting `istar` with
/// `istar` itself gives an exact cover of the index before the selection.
pub proof fn lemma_sol_insert(m: ColsModel, rows: RowsModel, kstar: u32, istar: u32, s: Set<u32>)
    requires
        cols_wf(m, rows),
        m.dom().contains(kstar),
        m[kstar].0,
        m[kstar].1.contains(istar),
        sol_of(spec_select(m, rows, row_seq(rows, istar)).0, s),
    ensures
        sol_of(m, s.insert(istar)),
        !s.contains(istar),
{
    reveal(sol_of);
    let row = row_seq(rows, istar);
    let m1 = spec_select(m, rows, row).0;
    lemma_select_characterization(m, rows, row);
    let kd = killed(m, rows, row);
    assert(rows.dom().contains(istar) && rows[istar].contains(kstar));
    assert(row == rows[istar]);
    assert(kd.contains(istar));
    assert forall|i: u32| #[trigger] s.contains(i) implies !kd.contains(i) && (exists|k: u32|
        m.dom().contains(k) && m[k].0 && #[trigger] m[k].1.contains(i)) by {
        let k = choose|k: u32| m1.dom().contains(k) && m1[k].0 && #[trigger] m1[k].1.contains(i);
        assert(m1[k].1 == m[k].1.difference(kd));
        assert(m.dom().contains(k) && m[k].0 && m[k].1.contains(i));
    }
    assert(!s.contains(istar));
    let s2 = s.insert(istar);
    assert forall|k: u32| m.dom().contains(k) && (#[trigger] m[k]).0 implies exists|i: u32|
        s2.contains(i) && #[trigger] m[k].1.contains(i) by {
        if row.to_set().contains(k) {
            assert(rows[istar].contains(k));
            assert(m[k].1.contains(istar));
        } else {
            assert(m1.dom().contains(k));
            assert(m1[k].0);
            let i = choose|i: u32| s.contains(i) && #[trigger] m1[k].1.contains(i);
            assert(m[k].1.contains(i) && s2.contains(i));
        }
    }
    assert forall|k: u32, i1: u32, i2: u32|
        m.dom().contains(k) && s2.contains(i1) && s2.contains(i2) && #[trigger] m[k].1.contains(i1)
            && #[trigger] m[k].1.contains(i2) implies i1 == i2 by {
        if s.contains(i1) && s.contains(i2) {
            if m1.dom().contains(k) {
                assert(m1[k].1 == m[k].1.difference(kd));
                assert(m1[k].1.contains(i1) && m1[k].1.contains(i2));
            } else {
                assert(row.to_set().contains(k));
                assert(rows[istar].contains(k));
                assert(kd.contains(i1));
                assert(false);
            }
        } else if i1 == istar && s.contains(i2) {
            assert(rows[istar].contains(k));
            assert(row.to_set().contains(k));
            assert(kd.contains(i2));
            assert(false);
        } else if i2 == istar && s.contains(i1) {
            assert(rows[istar].contains(k));
            assert(row.to_set().contains(k));
            assert(kd.contains(i1));
            assert(false);
        }
    }
    assert forall|i: u32| #[trigger] s2.contains(i) implies exists|k: u32|
        m.dom().contains(k) && m[k].0 && #[trigger] m[k].1.contains(i) by {
        if i == istar {
            assert(m[kstar].1.contains(istar));
        }
    }
}

/// Removing a chosen item from an exact cover of the index gives an exact
/// cover of the index left by selecting that item.
pub proof fn lemma_sol_remove(m: ColsModel, rows: RowsModel, istar: u32, s: Set<u32>)
    requires
        cols_wf(m, rows),
        sol_of(m, s),
        s.contains(istar),
        exists|k: u32| m.dom().contains(k) && #[trigger] m[k].1.contains(istar),
    ensures
        sol_of(spec_select(m, rows, row_seq(rows, istar)).0, s.remove(istar)),
{
    reveal(sol_of);
    let row = row_seq(rows, istar);
    let m1 = spec_select(m, rows, row).0;
    lemma_select_characterization(m, rows, row);
    let kd = killed(m, rows, row);
    let k0 = choose|k: u32| m.dom().contains(k) && #[trigger] m[k].1.contains(istar);
    assert(rows.dom().contains(istar));
    assert(row == rows[istar]);
    // The selected item stands in every still-indexed column its row covers.
    assert forall|c: u32| m.dom().contains(c) && #[trigger] rows[istar].contains(c) implies m[c].1.contains(
        istar,
    ) by {}
    // No other chosen item shares a still-indexed column with it.
    let s1 = s.remove(istar);
    assert forall|i: u32| #[trigger] s1.contains(i) implies !kd.contains(i) by {
        if kd.contains(i) {
            let c = choose|c: u32|
                row.contains(c) && m.dom().contains(c) && #[trigger] m[c].1.contains(i);
            assert(rows[istar].contains(c));
            assert(m[c].1.contains(istar));
            assert(false);
        }
    }
    assert forall|k: u32| m1.dom().contains(k) && (#[trigger] m1[k]).0 implies exists|i: u32|
        s1.contains(i) && #[trigger] m1[k].1.contains(i) by {
        assert(m.dom().contains(k) && m[k].0);
        let i = choose|i: u32| s.contains(i) && #[trigger] m[k].1.contains(i);
        if i == istar {
            assert(rows[istar].contains(k));
            assert(row.to_set().contains(k));
            assert(false);
        }
        assert(m1[k].1 == m[k].1.difference(kd));
        assert(s1.contains(i) && m1[k].1.contains(i));
    }
    assert forall|k: u32, i1: u32, i2: u32|
        m1.dom().contains(k) && s1.contains(i1) && s1.contains(i2) && #[trigger] m1[k].1.contains(
            i1,
        ) && #[trigger] m1[k].1.contains(i2) implies i1 == i2 by {
        assert(m1[k].1 == m[k].1.difference(kd));
        assert(m[k].1.contains(i1) && m[k].1.contains(i2));
    }
    assert forall|i: u32| #[trigger] s1.contains(i) implies exists|k: u32|
        m1.dom().contains(k) && m1[k].0 && #[trigger] m1[k].1.contains(i) by {
        let k = choose|k: u32| m.dom().contains(k) && m[k].0 && #[trigger] m[k].1.contains(i);
        if row.to_set().contains(k) {
            assert(rows[istar].contains(k));
            assert(m[k].1.contains(istar));
            assert(false);
        }
        assert(m1.dom().contains(k));
        assert(m1[k].1 == m[k].1.difference(kd));
        assert(m1[k].1.contains(i));
    }
}

/// An index that still counts a required column holds one.
pub proof fn lemma_req_count_pos(m: ColsModel)
    requires
        req_count(m) > 0,
    ensures
        exists|k: u32| m.dom().contains(k) && m[k].0,
{
    if forall|k: u32| !(m.dom().contains(k) && #[trigger] m[k].0) {
        assert(req_dom(m) =~= Set::<u32>::empty());
    }
}

} // verus!
