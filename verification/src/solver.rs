use vstd::prelude::*;

use crate::model::{
    cols_wf, desel_step, kills, lemma_req_count_pos, lemma_select_counts,
    lemma_select_deselect_identity, lemma_select_removes, lemma_select_snoc, lemma_select_wf,
    lemma_sol_insert, lemma_sol_of_no_required, lemma_sol_of_pick, lemma_sol_remove, req_count, req_dom, row_seq,
    scratch_req, sel_step, sol_of, spec_deselect, spec_select, ColsModel, ScratchModel,
};
use crate::problem::{
    clone_items, lemma_problem_entries, referenced, vec_contains, ConditionType, ItemType, Problem,
};

verus! {

broadcast use vstd::set::group_set_axioms, vstd::map::group_map_axioms, vstd::seq::group_seq_axioms;

/// One column of the index: a condition, whether it is required, and the
/// items currently able to satisfy it (pairwise distinct).
pub struct ColumnEntry {
    pub condition: ConditionType,
    pub required: bool,
    pub items: Vec<ItemType>,
}

/// A solution: the items chosen along the current search path, or, once
/// emitted, a completed exact cover.
pub type Solution = Vec<ItemType>;

/// What one column denotes: its required flag and its item set.
pub open spec fn entry_model(e: ColumnEntry) -> (bool, Set<u32>) {
    (e.required, e.items@.to_set())
}

/// The map that a sequence of columns denotes, keyed by condition.
pub open spec fn cols_map(s: Seq<ColumnEntry>) -> ColsModel
    decreases s.len(),
{
    if s.len() == 0 {
        Map::empty()
    } else {
        cols_map(s.drop_last()).insert(s.last().condition, entry_model(s.last()))
    }
}

/// The undo records that a sequence of saved columns denotes.
pub open spec fn scratch_model(s: Seq<ColumnEntry>) -> ScratchModel {
    s.map_values(|e: ColumnEntry| (e.condition, e.required, e.items@.to_set()))
}

/// Pairwise distinct conditions, and no duplicate item inside any column.
pub open spec fn cols_exec_wf(s: Seq<ColumnEntry>) -> bool {
    &&& forall|a: int, b: int|
        0 <= a < b < s.len() ==> (#[trigger] s[a]).condition != (#[trigger] s[b]).condition
    &&& forall|a: int| 0 <= a < s.len() ==> (#[trigger] s[a]).items@.no_duplicates()
}

/// The keys of `cols_map(s)` are exactly the conditions of the columns.
pub proof fn lemma_cols_map_dom(s: Seq<ColumnEntry>)
    ensures
        forall|c: u32|
            cols_map(s).dom().contains(c) <==> exists|a: int|
                0 <= a < s.len() && (#[trigger] s[a]).condition == c,
    decreases s.len(),
{
    if s.len() == 0 {
    } else {
        lemma_cols_map_dom(s.drop_last());
        assert forall|c: u32| cols_map(s).dom().contains(c) implies exists|a: int|
            0 <= a < s.len() && (#[trigger] s[a]).condition == c by {
            if c == s.last().condition {
                assert(s[s.len() - 1].condition == c);
            } else {
                assert(cols_map(s.drop_last()).dom().contains(c));
                let a = choose|a: int|
                    0 <= a < s.drop_last().len() && (#[trigger] s.drop_last()[a]).condition == c;
                assert(s[a].condition == c);
            }
        }
        assert forall|c: u32|
            exists|a: int| 0 <= a < s.len() && (#[trigger] s[a]).condition == c implies cols_map(
            s,
        ).dom().contains(c) by {
            let a = choose|a: int| 0 <= a < s.len() && (#[trigger] s[a]).condition == c;
            if a < s.len() - 1 {
                assert(s.drop_last()[a].condition == c);
                assert(exists|b: int|
                    0 <= b < s.drop_last().len() && (#[trigger] s.drop_last()[b]).condition == c);
                assert(cols_map(s.drop_last()).dom().contains(c));
            }
        }
    }
}

/// With distinct conditions, column `a` gives the map's value at its key.
pub proof fn lemma_cols_map_value(s: Seq<ColumnEntry>, a: int)
    requires
        cols_exec_wf(s),
        0 <= a < s.len(),
    ensures
        cols_map(s).dom().contains(s[a].condition),
        cols_map(s)[s[a].condition] == entry_model(s[a]),
    decreases s.len(),
{
    if a == s.len() - 1 {
    } else {
        assert(cols_exec_wf(s.drop_last()));
        lemma_cols_map_value(s.drop_last(), a);
        assert(s.drop_last()[a] == s[a]);
        assert(s[a].condition != s.last().condition);
    }
}

/// Removing column `a` removes its condition from the map.
pub proof fn lemma_cols_map_remove(s: Seq<ColumnEntry>, a: int)
    requires
        cols_exec_wf(s),
        0 <= a < s.len(),
    ensures
        cols_map(s.remove(a)) == cols_map(s).remove(s[a].condition),
        cols_exec_wf(s.remove(a)),
    decreases s.len(),
{
    let s2 = s.remove(a);
    assert forall|x: int, y: int| 0 <= x < y < s2.len() implies (#[trigger] s2[x]).condition
        != (#[trigger] s2[y]).condition by {
        assert(s2[x] == if x < a {
            s[x]
        } else {
            s[x + 1]
        });
        assert(s2[y] == if y < a {
            s[y]
        } else {
            s[y + 1]
        });
    }
    assert forall|x: int| 0 <= x < s2.len() implies (#[trigger] s2[x]).items@.no_duplicates() by {
        assert(s2[x] == if x < a {
            s[x]
        } else {
            s[x + 1]
        });
    }
    if a == s.len() - 1 {
        assert(s2 =~= s.drop_last());
        lemma_cols_map_dom(s.drop_last());
        assert forall|x: int| 0 <= x < s.len() - 1 implies (#[trigger] s[x]).condition
            != s.last().condition by {}
        assert(cols_map(s.drop_last()) =~= cols_map(s).remove(s[a].condition));
    } else {
        lemma_cols_map_remove(s.drop_last(), a);
        assert(s2.drop_last() =~= s.drop_last().remove(a));
        assert(s2.last() == s.last());
        assert(s[a].condition != s.last().condition);
        assert(cols_map(s2) =~= cols_map(s).remove(s[a].condition));
    }
}

/// Replacing column `a` by one with the same condition updates the map there.
pub proof fn lemma_cols_map_update(s: Seq<ColumnEntry>, a: int, e: ColumnEntry)
    requires
        cols_exec_wf(s),
        0 <= a < s.len(),
        e.condition == s[a].condition,
        e.items@.no_duplicates(),
    ensures
        cols_map(s.update(a, e)) == cols_map(s).insert(e.condition, entry_model(e)),
        cols_exec_wf(s.update(a, e)),
    decreases s.len(),
{
    let s2 = s.update(a, e);
    if a == s.len() - 1 {
        assert(s2.drop_last() =~= s.drop_last());
        assert(s2.last() == e);
        assert(cols_map(s2) =~= cols_map(s).insert(e.condition, entry_model(e)));
    } else {
        assert(cols_exec_wf(s.drop_last()));
        lemma_cols_map_update(s.drop_last(), a, e);
        assert(s2.drop_last() =~= s.drop_last().update(a, e));
        assert(s2.last() == s.last());
        assert(s[a].condition != s.last().condition);
        assert(cols_map(s2) =~= cols_map(s).insert(e.condition, entry_model(e)));
    }
}

/// Appending a column with a fresh condition inserts it into the map.
pub proof fn lemma_cols_map_push(s: Seq<ColumnEntry>, e: ColumnEntry)
    requires
        cols_exec_wf(s),
        e.items@.no_duplicates(),
        forall|a: int| 0 <= a < s.len() ==> (#[trigger] s[a]).condition != e.condition,
    ensures
        cols_map(s.push(e)) == cols_map(s).insert(e.condition, entry_model(e)),
        cols_exec_wf(s.push(e)),
{
    assert(s.push(e).drop_last() =~= s);
    assert(s.push(e).last() == e);
}

/// With distinct conditions the map has exactly one key per column.
pub proof fn lemma_cols_map_len(s: Seq<ColumnEntry>)
    requires
        cols_exec_wf(s),
    ensures
        cols_map(s).dom().finite(),
        cols_map(s).dom().len() == s.len(),
    decreases s.len(),
{
    if s.len() == 0 {
        assert(cols_map(s).dom() =~= Set::<u32>::empty());
    } else {
        assert(cols_exec_wf(s.drop_last()));
        lemma_cols_map_len(s.drop_last());
        lemma_cols_map_dom(s.drop_last());
        assert forall|x: int| 0 <= x < s.len() - 1 implies (#[trigger] s[x]).condition
            != s.last().condition by {}
        assert(!cols_map(s.drop_last()).dom().contains(s.last().condition));
    }
}

/// The position of condition `c` among the columns, when it is indexed.
pub fn find_col(columns: &Vec<ColumnEntry>, c: u32) -> (r: Option<usize>)
    ensures
        match r {
            Some(idx) => idx < columns@.len() && columns@[idx as int].condition == c,
            None => forall|a: int| 0 <= a < columns@.len() ==> (#[trigger] columns@[a]).condition != c,
        },
{
    let n = columns.len();
    let mut idx: usize = 0;
    while idx < n
        invariant
            n == columns@.len(),
            idx <= n,
            forall|a: int| 0 <= a < idx ==> (#[trigger] columns@[a]).condition != c,
        decreases n - idx,
    {
        if columns[idx].condition == c {
            return Some(idx);
        }
        idx += 1;
    }
    None
}

/// Appending a fresh element keeps a sequence duplicate-free.
proof fn lemma_push_no_dup(s: Seq<u32>, x: u32)
    requires
        s.no_duplicates(),
        !s.contains(x),
    ensures
        s.push(x).no_duplicates(),
{
    let s2 = s.push(x);
    assert forall|i: int, j: int| 0 <= i < j < s2.len() implies s2[i] != s2[j] by {
        if j == s2.len() - 1 {
            assert(s2[i] == s[i]);
            if s[i] == x {
                assert(s.contains(x));
            }
        }
    }
}

/// What a one-longer prefix of a sequence holds.
proof fn lemma_take_succ(s: Seq<u32>, u: int)
    requires
        0 <= u < s.len(),
    ensures
        forall|x: u32| s.take(u + 1).contains(x) <==> (s.take(u).contains(x) || s[u] == x),
{
    assert forall|x: u32| #[trigger] s.take(u + 1).contains(x) implies (s.take(u).contains(x)
        || s[u] == x) by {
        let w = choose|w: int| 0 <= w < s.take(u + 1).len() && #[trigger] s.take(u + 1)[w] == x;
        if w < u {
            assert(s.take(u)[w] == x);
        }
    }
    assert forall|x: u32| s.take(u).contains(x) || s[u] == x implies #[trigger] s.take(
        u + 1,
    ).contains(x) by {
        if s.take(u).contains(x) {
            let w = choose|w: int| 0 <= w < s.take(u).len() && #[trigger] s.take(u)[w] == x;
            assert(s.take(u + 1)[w] == x);
        } else {
            assert(s.take(u + 1)[u] == x);
        }
    }
}

/// What a sequence extended by one element holds.
proof fn lemma_push_contains(s: Seq<u32>, y: u32)
    ensures
        forall|x: u32| s.push(y).contains(x) <==> (s.contains(x) || x == y),
{
    assert forall|x: u32| #[trigger] s.push(y).contains(x) implies (s.contains(x) || x == y) by {
        let w = choose|w: int| 0 <= w < s.push(y).len() && #[trigger] s.push(y)[w] == x;
        if w < s.len() {
            assert(s[w] == x);
        }
    }
    assert forall|x: u32| s.contains(x) || x == y implies #[trigger] s.push(y).contains(x) by {
        if s.contains(x) {
            let w = choose|w: int| 0 <= w < s.len() && #[trigger] s[w] == x;
            assert(s.push(y)[w] == x);
        } else {
            assert(s.push(y)[s.len() as int] == x);
        }
    }
}

/// Whether the row of `i` covers condition `k`.
pub fn item_covers(rows: &Problem, i: u32, k: u32) -> (r: bool)
    requires
        rows.wf(),
    ensures
        r == (rows@.dom().contains(i) && rows@[i].contains(k)),
{
    match rows.get(i) {
        Some(v) => vec_contains(v, k),
        None => false,
    }
}

/// Undo records of one selection: the removed columns in the order their
/// conditions were processed, and how many of them were required.
pub struct Scratch {
    pub required: usize,
    pub entries: Vec<ColumnEntry>,
}

/// All saved columns of a scratch hold duplicate-free item lists.
pub open spec fn scratch_exec_wf(s: Seq<ColumnEntry>) -> bool {
    forall|a: int| 0 <= a < s.len() ==> (#[trigger] s[a]).items@.no_duplicates()
}

/// Covers each condition of `item`'s row in row order: every other item able
/// to satisfy that condition is removed from all other columns it covers, and
/// the column itself is moved into the returned scratch.
pub fn select(columns: &mut Vec<ColumnEntry>, rows: &Problem, item: ItemType) -> (scratch: Scratch)
    requires
        rows.wf(),
        cols_exec_wf(old(columns)@),
    ensures
        cols_exec_wf(final(columns)@),
        cols_map(final(columns)@) == spec_select(
            cols_map(old(columns)@),
            rows@,
            row_seq(rows@, item),
        ).0,
        scratch_model(scratch.entries@) == spec_select(
            cols_map(old(columns)@),
            rows@,
            row_seq(rows@, item),
        ).1,
        scratch.required as nat == scratch_req(scratch_model(scratch.entries@)),
        final(columns)@.len() + scratch.entries@.len() == old(columns)@.len(),
        scratch_exec_wf(scratch.entries@),
{
    let ghost m0 = cols_map(old(columns)@);
    let ghost rs = row_seq(rows@, item);
    let total = columns.len();
    let mut scratch = Scratch { required: 0, entries: Vec::new() };
    let row = match rows.get(item) {
        None => {
            proof {
                assert(rs =~= Seq::<u32>::empty());
                assert(scratch_model(scratch.entries@) =~= spec_select(m0, rows@, rs).1);
            }
            return scratch;
        },
        Some(r) => r,
    };
    let n = row.len();
    let mut nidx: usize = 0;
    proof {
        assert(rs.take(0) =~= Seq::<u32>::empty());
        assert(scratch_model(scratch.entries@) =~= spec_select(m0, rows@, rs.take(0)).1);
    }
    while nidx < n
        invariant
            rows.wf(),
            n == row@.len(),
            row@ == rs,
            nidx <= n,
            cols_exec_wf(columns@),
            cols_map(columns@) == spec_select(m0, rows@, rs.take(nidx as int)).0,
            scratch_model(scratch.entries@) == spec_select(m0, rows@, rs.take(nidx as int)).1,
            scratch.required <= scratch.entries@.len(),
            scratch.required as nat == scratch_req(scratch_model(scratch.entries@)),
            total == old(columns)@.len(),
            columns@.len() + scratch.entries@.len() == total,
            scratch_exec_wf(scratch.entries@),
        decreases n - nidx,
    {
        let j = row[nidx];
        let ghost mid = cols_map(columns@);
        proof {
            lemma_select_snoc(m0, rows@, rs.take(nidx as int), j);
            assert(rs.take(nidx as int).push(j) =~= rs.take(nidx as int + 1));
        }
        match find_col(columns, j) {
            None => {
                proof {
                    lemma_cols_map_dom(columns@);
                    assert(!mid.dom().contains(j));
                }
            },
            Some(cidx) => {
                proof {
                    lemma_cols_map_value(columns@, cidx as int);
                    lemma_cols_map_remove(columns@, cidx as int);
                }
                let entry = columns.remove(cidx);
                let ghost saved = entry.items@.to_set();
                proof {
                    assert(mid[j] == entry_model(entry));
                    assert(cols_map(columns@) == mid.remove(j));
                }
                let ghost pre = columns@;
                let cn = columns.len();
                let mut t: usize = 0;
                while t < cn
                    invariant
                        rows.wf(),
                        cn == columns@.len(),
                        t <= cn,
                        pre.len() == cn,
                        cols_exec_wf(pre),
                        entry.items@.to_set() == saved,
                        forall|a: int|
                            0 <= a < cn ==> (#[trigger] columns@[a]).condition == pre[a].condition
                                && columns@[a].required == pre[a].required,
                        forall|a: int| t <= a < cn ==> #[trigger] columns@[a] == pre[a],
                        forall|a: int|
                            0 <= a < t ==> (#[trigger] columns@[a]).items@.no_duplicates()
                                && columns@[a].items@.to_set() == pre[a].items@.to_set().difference(
                                kills(saved, rows@, pre[a].condition),
                            ),
                    decreases cn - t,
                {
                    let k = columns[t].condition;
                    let flag = columns[t].required;
                    let mut kept: Vec<u32> = Vec::new();
                    let im = columns[t].items.len();
                    let mut u: usize = 0;
                    while u < im
                        invariant
                            rows.wf(),
                            t < cn,
                            cn == columns@.len(),
                            im == columns@[t as int].items@.len(),
                            u <= im,
                            k == columns@[t as int].condition,
                            columns@[t as int].items@.no_duplicates(),
                            kept@.no_duplicates(),
                            forall|x: u32|
                                #[trigger] kept@.contains(x) <==> (columns@[t as int].items@.take(
                                    u as int,
                                ).contains(x) && !(saved.contains(x) && rows@.dom().contains(x)
                                    && rows@[x].contains(k))),
                            entry.items@.to_set() == saved,
                        decreases im - u,
                    {
                        let i = columns[t].items[u];
                        let keep = !(vec_contains(&entry.items, i) && item_covers(rows, i, k));
                        let ghost s = columns@[t as int].items@;
                        let ghost kb = kept@;
                        proof {
                            lemma_take_succ(s, u as int);
                            assert(s[u as int] == i);
                        }
                        if keep {
                            proof {
                                if kept@.contains(i) {
                                    assert(s.take(u as int).contains(i));
                                    let w = choose|w: int|
                                        0 <= w < s.take(u as int).len() && #[trigger] s.take(
                                            u as int,
                                        )[w] == i;
                                    assert(s[w] == s[u as int]);
                                    assert(false);
                                }
                                lemma_push_no_dup(kept@, i);
                                lemma_push_contains(kept@, i);
                            }
                            kept.push(i);
                        }
                        proof {
                            let kill = |x: u32|
                                saved.contains(x) && rows@.dom().contains(x) && rows@[x].contains(
                                    k,
                                );
                            assert(saved.contains(i) == entry.items@.contains(i));
                            assert forall|x: u32| #[trigger] kept@.contains(x) implies (s.take(
                                u as int + 1,
                            ).contains(x) && !kill(x)) by {
                                if keep && x == i {
                                } else {
                                    assert(kb.contains(x));
                                    assert(s.take(u as int).contains(x));
                                }
                            }
                            assert forall|x: u32|
                                s.take(u as int + 1).contains(x) && !kill(x) implies #[trigger] kept@.contains(
                                x,
                            ) by {
                                if x == i {
                                    assert(keep);
                                } else {
                                    assert(s.take(u as int).contains(x));
                                    assert(kb.contains(x));
                                }
                            }
                        }
                        u += 1;
                    }
                    proof {
                        assert(columns@[t as int].items@.take(im as int) =~= columns@[t
                            as int].items@);
                    }
                    let e2 = ColumnEntry { condition: k, required: flag, items: kept };
                    let ghost before = columns@;
                    columns[t] = e2;
                    proof {
                        assert(columns@ == before.update(t as int, e2));
                        assert(columns@[t as int].items@.to_set() =~= pre[t as int].items@.to_set()
                            .difference(kills(saved, rows@, pre[t as int].condition)));
                        assert forall|a: int| t + 1 <= a < cn implies #[trigger] columns@[a]
                            == pre[a] by {
                            assert(columns@[a] == before[a]);
                        }
                    }
                    t += 1;
                }
                proof {
                    assert forall|a: int, b: int| 0 <= a < b < columns@.len() implies (
                    #[trigger] columns@[a]).condition != (#[trigger] columns@[b]).condition by {
                        assert(pre[a].condition != pre[b].condition);
                    }
                    assert(cols_exec_wf(columns@));
                    lemma_cols_map_dom(columns@);
                    lemma_cols_map_dom(pre);
                    let target = sel_step(mid, rows@, j);
                    assert forall|c: u32| cols_map(columns@).dom().contains(
                        c,
                    ) implies target.dom().contains(c) && cols_map(columns@)[c] == target[c] by {
                        let a = choose|a: int|
                            0 <= a < columns@.len() && (#[trigger] columns@[a]).condition == c;
                        assert(pre[a].condition == c);
                        assert(cols_map(pre).dom().contains(c));
                        assert(mid.remove(j).dom().contains(c));
                        assert(c != j && mid.dom().contains(c));
                        lemma_cols_map_value(columns@, a);
                        lemma_cols_map_value(pre, a);
                        assert(cols_map(pre)[c] == entry_model(pre[a]));
                        assert(mid[c] == entry_model(pre[a]));
                        assert(cols_map(columns@)[c] == entry_model(columns@[a]));
                        assert(columns@[a].items@.to_set() == pre[a].items@.to_set().difference(
                            kills(saved, rows@, c),
                        ));
                        assert(target[c] == (mid[c].0, mid[c].1.difference(
                            kills(mid[j].1, rows@, c),
                        )));
                        assert(mid[j].1 == saved);
                    }
                    assert forall|c: u32| target.dom().contains(c) implies cols_map(
                        columns@,
                    ).dom().contains(c) by {
                        assert(mid.dom().contains(c) && c != j);
                        assert(mid.remove(j).dom().contains(c));
                        assert(cols_map(pre).dom().contains(c));
                        let a = choose|a: int|
                            0 <= a < pre.len() && (#[trigger] pre[a]).condition == c;
                        assert(columns@[a].condition == c);
                    }
                    assert(cols_map(columns@) =~~= target);
                }
                if entry.required {
                    scratch.required += 1;
                }
                let ghost sbefore = scratch.entries@;
                scratch.entries.push(entry);
                proof {
                    assert(scratch_model(scratch.entries@) =~= scratch_model(sbefore).push(
                        (entry.condition, entry.required, entry.items@.to_set()),
                    ));
                    let sm = scratch_model(scratch.entries@);
                    assert(sm.drop_last() =~= scratch_model(sbefore));
                    assert(sm.last() == (entry.condition, entry.required, entry.items@.to_set()));
                    assert(scratch_req(sm) == scratch_req(scratch_model(sbefore)) + if entry.required {
                        1nat
                    } else {
                        0nat
                    });
                    assert(mid[j].0 == entry.required);
                    assert(scratch_exec_wf(scratch.entries@));
                }
            },
        }
        nidx += 1;
    }
    proof {
        assert(rs.take(n as int) =~= rs);
    }
    scratch
}

/// Uncovers the scratch's columns strictly last-in first-out: each saved
/// column's items return to every other column their rows cover, then the
/// column itself returns under its original condition.
pub fn deselect(columns: &mut Vec<ColumnEntry>, rows: &Problem, scratch: Scratch)
    requires
        rows.wf(),
        cols_exec_wf(old(columns)@),
        scratch_exec_wf(scratch.entries@),
    ensures
        cols_exec_wf(final(columns)@),
        cols_map(final(columns)@) == spec_deselect(
            cols_map(old(columns)@),
            rows@,
            scratch_model(scratch.entries@),
        ),
{
    let ghost m0 = cols_map(old(columns)@);
    let ghost orig = scratch.entries@;
    let mut entries = scratch.entries;
    while entries.len() > 0
        invariant
            rows.wf(),
            cols_exec_wf(columns@),
            scratch_exec_wf(entries@),
            spec_deselect(cols_map(columns@), rows@, scratch_model(entries@)) == spec_deselect(
                m0,
                rows@,
                scratch_model(orig),
            ),
        decreases entries@.len(),
    {
        let ghost ebefore = entries@;
        let e = match entries.pop() {
            Some(e) => e,
            None => {
                proof {
                    assert(false);
                }
                return ;
            },
        };
        proof {
            assert(ebefore[ebefore.len() - 1] == e);
            assert(e.items@.no_duplicates());
            assert forall|a: int| 0 <= a < entries@.len() implies (
            #[trigger] entries@[a]).items@.no_duplicates() by {
                assert(entries@[a] == ebefore[a]);
            }
        }
        let ghost saved = e.items@.to_set();
        let ghost prev = cols_map(columns@);
        let ghost pre = columns@;
        let cn = columns.len();
        let mut t: usize = 0;
        while t < cn
            invariant
                rows.wf(),
                cn == columns@.len(),
                t <= cn,
                pre.len() == cn,
                cols_exec_wf(pre),
                e.items@.to_set() == saved,
                e.items@.no_duplicates(),
                forall|a: int|
                    0 <= a < cn ==> (#[trigger] columns@[a]).condition == pre[a].condition
                        && columns@[a].required == pre[a].required,
                forall|a: int| t <= a < cn ==> #[trigger] columns@[a] == pre[a],
                forall|a: int|
                    0 <= a < t ==> (#[trigger] columns@[a]).items@.no_duplicates() && (if pre[a].condition
                        == e.condition {
                        columns@[a] == pre[a]
                    } else {
                        columns@[a].items@.to_set() == pre[a].items@.to_set().union(
                            kills(saved, rows@, pre[a].condition),
                        )
                    }),
            decreases cn - t,
        {
            if columns[t].condition != e.condition {
                let k = columns[t].condition;
                let flag = columns[t].required;
                let mut nv = clone_items(&columns[t].items);
                let im = e.items.len();
                let mut u: usize = 0;
                proof {
                    assert(nv@ == columns@[t as int].items@);
                    assert(e.items@.take(0) =~= Seq::<u32>::empty());
                }
                while u < im
                    invariant
                        rows.wf(),
                        t < cn,
                        cn == columns@.len(),
                        im == e.items@.len(),
                        u <= im,
                        k == columns@[t as int].condition,
                        columns@[t as int].items@.no_duplicates(),
                        nv@.no_duplicates(),
                        forall|x: u32|
                            #[trigger] nv@.contains(x) <==> (columns@[t as int].items@.contains(x) || (
                            e.items@.take(u as int).contains(x) && rows@.dom().contains(x)
                                && rows@[x].contains(k))),
                    decreases im - u,
                {
                    let i = e.items[u];
                    let ghost nb = nv@;
                    proof {
                        lemma_take_succ(e.items@, u as int);
                        assert(e.items@[u as int] == i);
                    }
                    let covers = item_covers(rows, i, k);
                    let already = vec_contains(&nv, i);
                    if covers && !already {
                        proof {
                            lemma_push_no_dup(nv@, i);
                            lemma_push_contains(nv@, i);
                        }
                        nv.push(i);
                    }
                    proof {
                        let brings = |x: u32| rows@.dom().contains(x) && rows@[x].contains(k);
                        assert forall|x: u32| #[trigger] nv@.contains(x) implies (columns@[t
                            as int].items@.contains(x) || (e.items@.take(u as int + 1).contains(x)
                            && brings(x))) by {
                            if covers && !already && x == i {
                            } else {
                                assert(nb.contains(x));
                            }
                        }
                        assert forall|x: u32|
                            columns@[t as int].items@.contains(x) || (e.items@.take(
                                u as int + 1,
                            ).contains(x) && brings(x)) implies #[trigger] nv@.contains(x) by {
                            if x == i {
                                if !(covers && !already) {
                                    if already {
                                        assert(nb.contains(x));
                                    } else {
                                        assert(!brings(i));
                                        assert(columns@[t as int].items@.contains(x));
                                        assert(nb.contains(x));
                                    }
                                }
                            } else {
                                if e.items@.take(u as int + 1).contains(x) && brings(x) {
                                    assert(e.items@.take(u as int).contains(x));
                                }
                                assert(nb.contains(x));
                            }
                        }
                    }
                    u += 1;
                }
                proof {
                    assert(e.items@.take(im as int) =~= e.items@);
                }
                let e2 = ColumnEntry { condition: k, required: flag, items: nv };
                let ghost before = columns@;
                columns[t] = e2;
                proof {
                    assert(columns@ == before.update(t as int, e2));
                    assert(columns@[t as int].items@.to_set() =~= pre[t as int].items@.to_set()
                        .union(kills(saved, rows@, pre[t as int].condition)));
                    assert forall|a: int| t + 1 <= a < cn implies #[trigger] columns@[a]
                        == pre[a] by {
                        assert(columns@[a] == before[a]);
                    }
                }
            }
            t += 1;
        }
        proof {
            assert forall|a: int, b: int| 0 <= a < b < columns@.len() implies (
            #[trigger] columns@[a]).condition != (#[trigger] columns@[b]).condition by {
                assert(pre[a].condition != pre[b].condition);
            }
            assert(cols_exec_wf(columns@));
        }
        let ghost emodel = (e.condition, e.required, e.items@.to_set());
        let ghost extended = columns@;
        match find_col(columns, e.condition) {
            Some(idx) => {
                proof {
                    lemma_cols_map_update(columns@, idx as int, e);
                }
                columns[idx] = e;
            },
            None => {
                proof {
                    lemma_cols_map_push(columns@, e);
                }
                columns.push(e);
            },
        }
        proof {
            let target = desel_step(prev, rows@, emodel);
            lemma_cols_map_dom(extended);
            lemma_cols_map_dom(pre);
            lemma_cols_map_dom(columns@);
            assert(cols_map(columns@) == cols_map(extended).insert(e.condition, entry_model(e)));
            assert forall|c: u32| cols_map(columns@).dom().contains(c) && c
                != e.condition implies target.dom().contains(c) && cols_map(columns@)[c]
                == target[c] by {
                assert(cols_map(extended).dom().contains(c));
                let a = choose|a: int|
                    0 <= a < extended.len() && (#[trigger] extended[a]).condition == c;
                assert(pre[a].condition == c);
                assert(cols_map(pre).dom().contains(c));
                assert(prev.dom().contains(c));
                lemma_cols_map_value(extended, a);
                lemma_cols_map_value(pre, a);
                assert(prev[c] == entry_model(pre[a]));
                assert(cols_map(columns@)[c] == entry_model(extended[a]));
                assert(extended[a].items@.to_set() == pre[a].items@.to_set().union(
                    kills(saved, rows@, c),
                ));
            }
            assert forall|c: u32| target.dom().contains(c) && c != e.condition implies cols_map(
                columns@,
            ).dom().contains(c) by {
                assert(prev.dom().contains(c));
                assert(cols_map(pre).dom().contains(c));
                let a = choose|a: int| 0 <= a < pre.len() && (#[trigger] pre[a]).condition == c;
                assert(extended[a].condition == c);
                assert(cols_map(extended).dom().contains(c));
            }
            assert(cols_map(columns@).dom().contains(e.condition));
            assert(target.dom().contains(e.condition));
            assert(cols_map(columns@)[e.condition] == entry_model(e));
            assert(target[e.condition] == (e.required, e.items@.to_set()));
            assert(cols_map(columns@) =~~= target);
            let smb = scratch_model(ebefore);
            assert(smb.last() == emodel);
            assert(smb.drop_last() =~= scratch_model(entries@));
            assert(spec_deselect(prev, rows@, smb) == spec_deselect(
                cols_map(columns@),
                rows@,
                scratch_model(entries@),
            ));
        }
    }
    proof {
        assert(scratch_model(entries@).len() == 0);
    }
}

/// The position of a required column with the fewest items; ties go to the
/// earliest such column, which fixes a deterministic search order.
fn most_constrained(columns: &Vec<ColumnEntry>) -> (r: usize)
    requires
        cols_exec_wf(columns@),
        req_count(cols_map(columns@)) > 0,
    ensures
        r < columns@.len(),
        columns@[r as int].required,
        forall|a: int|
            0 <= a < columns@.len() && (#[trigger] columns@[a]).required ==> columns@[
                r as int
            ].items@.len() <= columns@[a].items@.len(),
{
    let n = columns.len();
    let mut best: usize = n;
    let mut t: usize = 0;
    while t < n
        invariant
            n == columns@.len(),
            t <= n,
            best == n || (best < t && columns@[best as int].required),
            best == n ==> forall|a: int| 0 <= a < t ==> !(#[trigger] columns@[a]).required,
            best < n ==> forall|a: int|
                0 <= a < t && (#[trigger] columns@[a]).required ==> columns@[
                    best as int
                ].items@.len() <= columns@[a].items@.len(),
        decreases n - t,
    {
        if columns[t].required && (best == n || columns[t].items.len() < columns[best].items.len())
        {
            best = t;
        }
        t += 1;
    }
    proof {
        if best == n {
            lemma_req_count_pos(cols_map(columns@));
            let kk = choose|kk: u32|
                cols_map(columns@).dom().contains(kk) && cols_map(columns@)[kk].0;
            lemma_cols_map_dom(columns@);
            let a = choose|a: int|
                0 <= a < columns@.len() && (#[trigger] columns@[a]).condition == kk;
            lemma_cols_map_value(columns@, a);
            assert(false);
        }
    }
    best
}

/// Permanently covers `item`'s row, extends the path with it, and returns the
/// updated count of required columns; this covering is never undone.
fn preselect(
    columns: &mut Vec<ColumnEntry>,
    rows: &Problem,
    solution: &mut Vec<ItemType>,
    required: usize,
    item: ItemType,
) -> (r: usize)
    requires
        rows.wf(),
        cols_exec_wf(old(columns)@),
        cols_wf(cols_map(old(columns)@), rows@),
        required == req_count(cols_map(old(columns)@)),
    ensures
        cols_exec_wf(final(columns)@),
        cols_map(final(columns)@) == spec_select(
            cols_map(old(columns)@),
            rows@,
            row_seq(rows@, item),
        ).0,
        cols_wf(cols_map(final(columns)@), rows@),
        r == req_count(cols_map(final(columns)@)),
        final(solution)@ == old(solution)@.push(item),
{
    proof {
        lemma_select_wf(cols_map(columns@), rows@, row_seq(rows@, item));
        lemma_select_counts(cols_map(columns@), rows@, row_seq(rows@, item));
    }
    let scratch = select(columns, rows, item);
    solution.push(item);
    required - scratch.required
}

/// The condition sequences that a list of solutions denotes.
pub open spec fn sols_view(s: Seq<Vec<u32>>) -> Seq<Seq<u32>> {
    s.map_values(|v: Vec<u32>| v@)
}

/// A prefix of a prefix is a prefix.
proof fn lemma_prefix_trans<A>(a: Seq<A>, b: Seq<A>, c: Seq<A>)
    requires
        a.is_prefix_of(b),
        b.is_prefix_of(c),
    ensures
        a.is_prefix_of(c),
{
    assert(a =~= c.subrange(0, a.len() as int));
}

/// What a sequence's tail holds beyond one more element.
proof fn lemma_skip_to_set(s: Seq<u32>, l: int)
    requires
        0 <= l < s.len(),
    ensures
        s.skip(l).to_set() == s.skip(l + 1).to_set().insert(s[l]),
{
    assert forall|x: u32| #[trigger] s.skip(l).contains(x) implies (x == s[l] || s.skip(
        l + 1,
    ).contains(x)) by {
        let w = choose|w: int| 0 <= w < s.skip(l).len() && #[trigger] s.skip(l)[w] == x;
        if w > 0 {
            assert(s.skip(l + 1)[w - 1] == x);
        }
    }
    assert forall|x: u32| x == s[l] || s.skip(l + 1).contains(x) implies #[trigger] s.skip(
        l,
    ).contains(x) by {
        if x == s[l] {
            assert(s.skip(l)[0] == x);
        } else {
            let w = choose|w: int| 0 <= w < s.skip(l + 1).len() && #[trigger] s.skip(l + 1)[w] == x;
            assert(s.skip(l)[w + 1] == x);
        }
    }
    assert(s.skip(l).to_set() =~= s.skip(l + 1).to_set().insert(s[l]));
}

/// What a one-longer sequence prefixes, the sequence prefixes too.
proof fn lemma_prefix_drop(a: Seq<u32>, x: u32, b: Seq<u32>)
    requires
        a.push(x).is_prefix_of(b),
    ensures
        a.is_prefix_of(b),
{
    assert forall|w: int| 0 <= w < a.len() implies a[w] == b.subrange(0, a.len() as int)[w] by {
        assert(b.subrange(0, a.len() as int + 1)[w] == a.push(x)[w]);
    }
    assert(a =~= b.subrange(0, a.len() as int));
}

/// A solution emitted below a selection, seen from before the selection: the
/// selected item itself extends the deeper cover.
proof fn lemma_emit_sound(
    m0: ColsModel,
    rows: crate::model::RowsModel,
    kc: u32,
    item: u32,
    osol: Seq<u32>,
    sq: Seq<u32>,
)
    requires
        cols_wf(m0, rows),
        m0.dom().contains(kc),
        m0[kc].0,
        m0[kc].1.contains(item),
        osol.push(item).is_prefix_of(sq),
        sol_of(
            spec_select(m0, rows, row_seq(rows, item)).0,
            sq.skip(osol.len() as int + 1).to_set(),
        ),
    ensures
        osol.is_prefix_of(sq),
        sol_of(m0, sq.skip(osol.len() as int).to_set()),
{
    lemma_prefix_drop(osol, item, sq);
    let pl = osol.len() as int;
    assert(osol.push(item) == sq.subrange(0, pl + 1));
    assert(sq[pl] == osol.push(item)[pl]);
    lemma_skip_to_set(sq, pl);
    lemma_sol_insert(m0, rows, kc, item, sq.skip(pl + 1).to_set());
}

/// A deeper cover of the rest, put back together with the selected item.
proof fn lemma_emit_rebuild(item: u32, osol: Seq<u32>, sq: Seq<u32>, s: Set<u32>)
    requires
        s.contains(item),
        osol.push(item).is_prefix_of(sq),
        sq.skip(osol.len() as int + 1).to_set() == s.remove(item),
    ensures
        sq.skip(osol.len() as int).to_set() == s,
{
    let pl = osol.len() as int;
    assert(osol.push(item) == sq.subrange(0, pl + 1));
    assert(sq[pl] == osol.push(item)[pl]);
    lemma_skip_to_set(sq, pl);
    assert(s.remove(item).insert(item) =~= s);
}

/// Depth-first search. When no required column is left, the current path is
/// emitted as a solution; otherwise each item of a most-constrained required
/// column is tried by select, explored, and undone by deselect in exact
/// reverse order. The column index and the path leave in their incoming
/// state, solutions are only appended, and the appended solutions are exactly
/// the extensions of the incoming path whose item sets are the exact covers
/// of the incoming column index.
#[verifier::rlimit(50)]
pub fn solve(
    columns: &mut Vec<ColumnEntry>,
    rows: &Problem,
    solution: &mut Vec<ItemType>,
    required: usize,
    out: &mut Vec<Solution>,
)
    requires
        rows.wf(),
        cols_exec_wf(old(columns)@),
        cols_wf(cols_map(old(columns)@), rows@),
        required == req_count(cols_map(old(columns)@)),
    ensures
        cols_exec_wf(final(columns)@),
        cols_map(final(columns)@) == cols_map(old(columns)@),
        final(columns)@.len() == old(columns)@.len(),
        final(solution)@ == old(solution)@,
        sols_view(old(out)@).is_prefix_of(sols_view(final(out)@)),
        forall|v: int|
            old(out)@.len() <= v < final(out)@.len() ==> old(solution)@.is_prefix_of(
                #[trigger] sols_view(final(out)@)[v],
            ),
        forall|v: int|
            old(out)@.len() <= v < final(out)@.len() ==> sol_of(
                cols_map(old(columns)@),
                (#[trigger] sols_view(final(out)@)[v]).skip(old(solution)@.len() as int).to_set(),
            ),
        forall|s: Set<u32>|
            #[trigger] sol_of(cols_map(old(columns)@), s) ==> exists|v: int|
                old(out)@.len() <= v < final(out)@.len() && (#[trigger] sols_view(
                    final(out)@,
                )[v]).skip(old(solution)@.len() as int).to_set() == s,
        required == 0 ==> sols_view(final(out)@) == sols_view(old(out)@).push(old(solution)@),
    decreases old(columns)@.len(),
{
    if required == 0 {
        let snapshot = clone_items(solution);
        out.push(snapshot);
        proof {
            let m0 = cols_map(old(columns)@);
            let pl = old(solution)@.len() as int;
            assert(sols_view(out@) =~= sols_view(old(out)@).push(old(solution)@));
            assert(sols_view(old(out)@) =~= sols_view(out@).subrange(
                0,
                sols_view(old(out)@).len() as int,
            ));
            assert(old(solution)@ =~= sols_view(out@)[old(out)@.len() as int].subrange(0, pl));
            assert((#[trigger] sols_view(out@)[old(out)@.len() as int]).skip(pl).to_set()
                =~= Set::<u32>::empty());
            assert forall|v: int|
                old(out)@.len() <= v < out@.len() implies sol_of(
                m0,
                (#[trigger] sols_view(out@)[v]).skip(pl).to_set(),
            ) by {
                assert(v == old(out)@.len());
                lemma_sol_of_no_required(m0, Set::<u32>::empty());
            }
            assert forall|s: Set<u32>| #[trigger] sol_of(m0, s) implies exists|v: int|
                old(out)@.len() <= v < out@.len() && (#[trigger] sols_view(out@)[v]).skip(
                    pl,
                ).to_set() == s by {
                lemma_sol_of_no_required(m0, s);
                assert((sols_view(out@)[old(out)@.len() as int]).skip(pl).to_set() == s);
            }
        }
    } else {
        let cidx = most_constrained(columns);
        let order = clone_items(&columns[cidx].items);
        let ghost m0 = cols_map(old(columns)@);
        let ghost n0 = old(columns)@.len();
        let ghost kc = columns@[cidx as int].condition;
        proof {
            lemma_cols_map_len(columns@);
            lemma_cols_map_value(columns@, cidx as int);
            assert(m0.dom().contains(kc) && m0[kc].0);
            assert(order@.to_set() == m0[kc].1);
        }
        let n = order.len();
        let mut w: usize = 0;
        while w < n
            invariant
                rows.wf(),
                n == order@.len(),
                w <= n,
                cols_exec_wf(columns@),
                m0 == cols_map(old(columns)@),
                n0 == old(columns)@.len(),
                m0.dom().len() == n0,
                cols_map(columns@) == m0,
                columns@.len() == n0,
                cols_wf(m0, rows@),
                required == req_count(m0),
                m0.dom().contains(kc),
                m0[kc].0,
                order@.to_set() == m0[kc].1,
                solution@ == old(solution)@,
                sols_view(old(out)@).is_prefix_of(sols_view(out@)),
                forall|v: int|
                    old(out)@.len() <= v < out@.len() ==> old(solution)@.is_prefix_of(
                        #[trigger] sols_view(out@)[v],
                    ),
                forall|v: int|
                    old(out)@.len() <= v < out@.len() ==> sol_of(
                        m0,
                        (#[trigger] sols_view(out@)[v]).skip(
                            old(solution)@.len() as int,
                        ).to_set(),
                    ),
                forall|s: Set<u32>, wp: int|
                    0 <= wp < w && #[trigger] sol_of(m0, s) && s.contains(#[trigger] order@[wp])
                        ==> exists|v: int|
                        old(out)@.len() <= v < out@.len() && (#[trigger] sols_view(out@)[v]).skip(
                            old(solution)@.len() as int,
                        ).to_set() == s,
            decreases n - w,
        {
            let item = order[w];
            let ghost rseq = row_seq(rows@, item);
            solution.push(item);
            proof {
                lemma_select_wf(m0, rows@, rseq);
                lemma_select_counts(m0, rows@, rseq);
                assert(m0[kc].1.contains(item));
                lemma_select_removes(m0, rows@, item, kc);
            }
            let scratch = select(columns, rows, item);
            let ghost m1 = cols_map(columns@);
            if scratch.entries.len() > 0 {
                proof {
                    lemma_cols_map_len(columns@);
                    assert(scratch_model(scratch.entries@).len() == scratch.entries@.len());
                }
                let ghost mid_out = out@;
                let ghost mid_sol = solution@;
                solve(columns, rows, solution, required - scratch.required, out);
                proof {
                    let pl = old(solution)@.len() as int;
                    assert(sols_view(mid_out).is_prefix_of(sols_view(out@)));
                    lemma_prefix_trans(
                        sols_view(old(out)@),
                        sols_view(mid_out),
                        sols_view(out@),
                    );
                    assert forall|v: int|
                        old(out)@.len() <= v < out@.len() implies old(solution)@.is_prefix_of(
                        #[trigger] sols_view(out@)[v],
                    ) && sol_of(m0, sols_view(out@)[v].skip(pl).to_set()) by {
                        if v < mid_out.len() {
                            assert(sols_view(out@)[v] == sols_view(mid_out)[v]);
                        } else {
                            let sq = sols_view(out@)[v];
                            assert(mid_sol.is_prefix_of(sq));
                            assert(sol_of(m1, sq.skip(pl + 1).to_set()));
                            lemma_emit_sound(m0, rows@, kc, item, old(solution)@, sq);
                        }
                    }
                    assert forall|s: Set<u32>, wp: int|
                        0 <= wp < w + 1 && #[trigger] sol_of(m0, s) && s.contains(
                            #[trigger] order@[wp],
                        ) implies exists|v: int|
                        old(out)@.len() <= v < out@.len() && (#[trigger] sols_view(out@)[v]).skip(
                            pl,
                        ).to_set() == s by {
                        if wp < w {
                            let v2 = choose|v2: int|
                                old(out)@.len() <= v2 < mid_out.len() && (#[trigger] sols_view(
                                    mid_out,
                                )[v2]).skip(pl).to_set() == s;
                            assert(sols_view(out@)[v2] == sols_view(mid_out)[v2]);
                            assert((sols_view(out@)[v2]).skip(pl).to_set() == s);
                        } else {
                            assert(order@[wp] == item);
                            assert(m0[kc].1.contains(item));
                            lemma_sol_remove(m0, rows@, item, s);
                            assert(sol_of(m1, s.remove(item)));
                            let v2 = choose|v2: int|
                                mid_out.len() <= v2 < out@.len() && (#[trigger] sols_view(
                                    out@,
                                )[v2]).skip(mid_sol.len() as int).to_set() == s.remove(item);
                            let sq = sols_view(out@)[v2];
                            assert(mid_sol.is_prefix_of(sq));
                            lemma_emit_rebuild(item, old(solution)@, sq, s);
                            assert((sols_view(out@)[v2]).skip(pl).to_set() == s);
                        }
                    }
                }
                deselect(columns, rows, scratch);
                proof {
                    lemma_select_deselect_identity(m0, rows@, rseq);
                    lemma_cols_map_len(columns@);
                }
            } else {
                proof {
                    assert(scratch_model(scratch.entries@).len() == scratch.entries@.len());
                    assert(false);
                }
            }
            let _ = solution.pop();
            proof {
                assert(solution@ =~= old(solution)@);
            }
            w += 1;
        }
        proof {
            assert forall|s: Set<u32>| #[trigger] sol_of(m0, s) implies exists|v: int|
                old(out)@.len() <= v < out@.len() && (#[trigger] sols_view(out@)[v]).skip(
                    old(solution)@.len() as int,
                ).to_set() == s by {
                lemma_sol_of_pick(m0, s, kc);
                let i = choose|i: u32| s.contains(i) && #[trigger] m0[kc].1.contains(i);
                assert(order@.to_set().contains(i));
                let wp = choose|wp: int| 0 <= wp < order@.len() && #[trigger] order@[wp] == i;
                assert(s.contains(order@[wp]));
            }
        }
    }
}

/// Why a run is refused before any search begins. All three are caller input
/// errors, raised during setup and never mid-search.
#[derive(Clone, Copy, Debug, PartialEq, Eq, Structural)]
pub enum RunError {
    /// An optional condition that no row of the problem references.
    UnknownOptionalCondition,
    /// An item whose row consists of optional conditions only.
    ItemWithOnlyOptionalConditions,
    /// A preselected item that is not a key of the problem.
    UnknownPreselectedItem,
}

/// Some optional condition is referenced by no row.
pub open spec fn has_unknown_optional(rows: Map<u32, Seq<u32>>, opt: Seq<u32>) -> bool {
    exists|a: int| 0 <= a < opt.len() && !referenced(rows).contains(#[trigger] opt[a])
}

/// Some item's row consists of optional conditions only.
pub open spec fn has_only_optional_item(rows: Map<u32, Seq<u32>>, opt: Seq<u32>) -> bool {
    exists|i: u32|
        #[trigger] rows.dom().contains(i) && forall|a: int|
            0 <= a < rows[i].len() ==> opt.contains(#[trigger] rows[i][a])
}

/// Some preselected item is not a key of the problem.
pub open spec fn has_unknown_preselected(rows: Map<u32, Seq<u32>>, pre: Seq<u32>) -> bool {
    exists|a: int| 0 <= a < pre.len() && !rows.dom().contains(#[trigger] pre[a])
}

/// The given items to preselect, in order; empty when none were given.
pub open spec fn pre_seq(preselected: Option<&Vec<u32>>) -> Seq<u32> {
    match preselected {
        Some(v) => v@,
        None => Seq::empty(),
    }
}

/// The given optional conditions; empty when none were given.
pub open spec fn opt_seq(optional: Option<&Vec<u32>>) -> Seq<u32> {
    match optional {
        Some(v) => v@,
        None => Seq::empty(),
    }
}

/// Condition `c` occurs in one of the first `a` rows.
pub open spec fn cond_in_prefix(entries: Seq<(u32, Vec<u32>)>, a: int, c: u32) -> bool {
    exists|b: int, w: int|
        0 <= b < a && 0 <= w < entries[b].1@.len() && #[trigger] entries[b].1@[w] == c
}

/// Row `bb` holds at least one condition outside `opt`.
pub open spec fn row_not_all_optional(entries: Seq<(u32, Vec<u32>)>, bb: int, opt: Seq<u32>) -> bool {
    exists|w: int| 0 <= w < entries[bb].1@.len() && !opt.contains(#[trigger] entries[bb].1@[w])
}

/// Item `x` is one of the first `b` rows and its row covers condition `j`.
pub open spec fn item_in_prefix(entries: Seq<(u32, Vec<u32>)>, b: int, j: u32, x: u32) -> bool {
    exists|bb: int| 0 <= bb < b && (#[trigger] entries[bb]).0 == x && entries[bb].1@.contains(j)
}

/// The items whose rows cover condition `c`: the initial content of column `c`.
pub open spec fn col_items(rows: Map<u32, Seq<u32>>, c: u32) -> Set<u32> {
    Set::new(|i: u32| rows.dom().contains(i) && rows[i].contains(c))
}

/// An exact cover of the problem: a set of items, each a key of the problem
/// whose row holds some non-optional condition, such that every required
/// referenced condition (one not in `opt`) lies in exactly one chosen item's
/// row and no two chosen items share any condition.
#[verifier::opaque]
pub open spec fn is_exact_cover(rows: Map<u32, Seq<u32>>, opt: Seq<u32>, s: Set<u32>) -> bool {
    &&& (forall|i: u32| #[trigger] s.contains(i) ==> rows.dom().contains(i))
    &&& (forall|c: u32|
        #[trigger] referenced(rows).contains(c) && !opt.contains(c) ==> exists|i: u32|
            s.contains(i) && rows.dom().contains(i) && #[trigger] rows[i].contains(c))
    &&& (forall|c: u32, i1: u32, i2: u32|
        s.contains(i1) && s.contains(i2) && rows.dom().contains(i1) && rows.dom().contains(i2)
            && #[trigger] rows[i1].contains(c) && #[trigger] rows[i2].contains(c) ==> i1 == i2)
    &&& (forall|i: u32|
        #[trigger] s.contains(i) ==> exists|w: int|
            0 <= w < rows[i].len() && !opt.contains(#[trigger] rows[i][w]))
}

/// On a freshly built column index, the exact covers of the index are exactly
/// the exact covers of the problem.
proof fn lemma_cover_equiv(m: ColsModel, rows: Map<u32, Seq<u32>>, opt: Seq<u32>, s: Set<u32>)
    requires
        m.dom() == referenced(rows),
        forall|k: u32|
            #[trigger] m.dom().contains(k) ==> m[k].0 == !opt.contains(k) && m[k].1 == col_items(
                rows,
                k,
            ),
    ensures
        sol_of(m, s) <==> is_exact_cover(rows, opt, s),
{
    reveal(sol_of);
    reveal(is_exact_cover);
    if sol_of(m, s) {
        assert forall|i: u32| #[trigger] s.contains(i) implies rows.dom().contains(i) by {
            let k = choose|k: u32| m.dom().contains(k) && m[k].0 && #[trigger] m[k].1.contains(i);
            assert(col_items(rows, k).contains(i));
        }
        assert forall|c: u32|
            #[trigger] referenced(rows).contains(c) && !opt.contains(c) implies exists|i: u32|
            s.contains(i) && rows.dom().contains(i) && #[trigger] rows[i].contains(c) by {
            assert(m.dom().contains(c) && m[c].0);
            let i = choose|i: u32| s.contains(i) && #[trigger] m[c].1.contains(i);
            assert(col_items(rows, c).contains(i));
            assert(rows[i].contains(c));
        }
        assert forall|c: u32, i1: u32, i2: u32|
            s.contains(i1) && s.contains(i2) && rows.dom().contains(i1) && rows.dom().contains(i2)
                && #[trigger] rows[i1].contains(c) && #[trigger] rows[i2].contains(
                c,
            ) implies i1 == i2 by {
            assert(referenced(rows).contains(c));
            assert(m.dom().contains(c));
            assert(col_items(rows, c).contains(i1) && col_items(rows, c).contains(i2));
            assert(m[c].1.contains(i1) && m[c].1.contains(i2));
        }
        assert forall|i: u32| #[trigger] s.contains(i) implies exists|w: int|
            0 <= w < rows[i].len() && !opt.contains(#[trigger] rows[i][w]) by {
            let k = choose|k: u32| m.dom().contains(k) && m[k].0 && #[trigger] m[k].1.contains(i);
            assert(col_items(rows, k).contains(i));
            assert(rows[i].contains(k));
            let w = choose|w: int| 0 <= w < rows[i].len() && #[trigger] rows[i][w] == k;
            assert(!opt.contains(rows[i][w]));
        }
        assert(is_exact_cover(rows, opt, s));
    }
    if is_exact_cover(rows, opt, s) {
        assert forall|k: u32| m.dom().contains(k) && (#[trigger] m[k]).0 implies exists|i: u32|
            s.contains(i) && #[trigger] m[k].1.contains(i) by {
            assert(referenced(rows).contains(k) && !opt.contains(k));
            let i = choose|i: u32|
                s.contains(i) && rows.dom().contains(i) && #[trigger] rows[i].contains(k);
            assert(col_items(rows, k).contains(i));
            assert(m[k].1.contains(i));
        }
        assert forall|k: u32, i1: u32, i2: u32|
            m.dom().contains(k) && s.contains(i1) && s.contains(i2) && #[trigger] m[k].1.contains(
                i1,
            ) && #[trigger] m[k].1.contains(i2) implies i1 == i2 by {
            assert(col_items(rows, k).contains(i1) && col_items(rows, k).contains(i2));
            assert(rows[i1].contains(k) && rows[i2].contains(k));
        }
        assert forall|i: u32| #[trigger] s.contains(i) implies exists|k: u32|
            m.dom().contains(k) && m[k].0 && #[trigger] m[k].1.contains(i) by {
            let w = choose|w: int| 0 <= w < rows[i].len() && !opt.contains(#[trigger] rows[i][w]);
            let c = rows[i][w];
            assert(rows.dom().contains(i) && rows[i].contains(c));
            assert(referenced(rows).contains(c));
            assert(m.dom().contains(c));
            assert(m[c].0);
            assert(col_items(rows, c).contains(i));
            assert(m[c].1.contains(i));
        }
        assert(sol_of(m, s));
    }
}

/// The solution list enumerates the exact covers of the problem: every entry
/// is an exact cover, and every exact cover appears as some entry's item set.
pub open spec fn enumerates_covers(rows: Map<u32, Seq<u32>>, opt: Seq<u32>, sols: Seq<Vec<u32>>) -> bool {
    &&& (forall|v: int|
        0 <= v < sols.len() ==> is_exact_cover(rows, opt, (#[trigger] sols[v]@).to_set()))
    &&& (forall|s: Set<u32>|
        #[trigger] is_exact_cover(rows, opt, s) ==> exists|v: int|
            0 <= v < sols.len() && (#[trigger] sols[v]@).to_set() == s)
}

/// Validates the problem, builds the column index, permanently covers the
/// preselected items, and enumerates every exact cover: each returned
/// solution satisfies every required condition exactly once and each optional
/// condition at most once. Solutions begin with the preselected items; with
/// no preselection and no referenced condition the single empty solution is
/// returned.
#[verifier::rlimit(100)]
pub fn run(
    rows: &Problem,
    preselected: Option<&Vec<ItemType>>,
    optional: Option<&Vec<ConditionType>>,
) -> (result: Result<Vec<Solution>, RunError>)
    requires
        rows.wf(),
    ensures
        ({
            let hu = optional.is_some() && has_unknown_optional(rows@, opt_seq(optional));
            let ho = optional.is_some() && has_only_optional_item(rows@, opt_seq(optional));
            let hp = preselected.is_some() && has_unknown_preselected(rows@, pre_seq(preselected));
            &&& (result is Err <==> (hu || ho || hp))
            &&& (hu ==> result == Result::<Vec<Solution>, RunError>::Err(
                RunError::UnknownOptionalCondition,
            ))
            &&& (!hu && ho ==> result == Result::<Vec<Solution>, RunError>::Err(
                RunError::ItemWithOnlyOptionalConditions,
            ))
            &&& (!hu && !ho && hp ==> result == Result::<Vec<Solution>, RunError>::Err(
                RunError::UnknownPreselectedItem,
            ))
        }),
        result matches Ok(sols) ==> forall|v: int|
            0 <= v < sols@.len() ==> pre_seq(preselected).is_prefix_of(#[trigger] sols@[v]@),
        result matches Ok(sols) ==> forall|v: int, x: u32|
            0 <= v < sols@.len() && pre_seq(preselected).contains(x)
                ==> #[trigger] sols@[v]@.contains(x),
        result matches Ok(sols) ==> ((pre_seq(preselected).len() == 0 && (forall|c: u32|
            !referenced(rows@).contains(c))) ==> sols@.len() == 1 && sols@[0]@
            == Seq::<u32>::empty()),
        result matches Ok(sols) ==> (pre_seq(preselected).len() == 0 ==> enumerates_covers(
            rows@,
            opt_seq(optional),
            sols@,
        )),
{
    proof {
        lemma_problem_entries(rows);
    }
    let ghost entries = rows.entries();
    let nr = rows.num_rows();

    // Collect every condition the problem references, without duplicates.
    let mut conditions: Vec<u32> = Vec::new();
    let mut a: usize = 0;
    while a < nr
        invariant
            rows.wf(),
            nr == entries.len(),
            entries == rows.entries(),
            a <= nr,
            conditions@.no_duplicates(),
            forall|c: u32| #[trigger] conditions@.contains(c) <==> cond_in_prefix(entries, a as int, c),
        decreases nr - a,
    {
        let row = rows.conditions_at(a);
        let rm = row.len();
        let mut w: usize = 0;
        while w < rm
            invariant
                rows.wf(),
                nr == entries.len(),
                entries == rows.entries(),
                a < nr,
                rm == entries[a as int].1@.len(),
                row@ == entries[a as int].1@,
                w <= rm,
                conditions@.no_duplicates(),
                forall|c: u32|
                    #[trigger] conditions@.contains(c) <==> (cond_in_prefix(entries, a as int, c)
                        || entries[a as int].1@.take(w as int).contains(c)),
            decreases rm - w,
        {
            let c = row[w];
            let ghost cb = conditions@;
            proof {
                lemma_take_succ(entries[a as int].1@, w as int);
                assert(entries[a as int].1@[w as int] == c);
            }
            if !vec_contains(&conditions, c) {
                proof {
                    lemma_push_no_dup(conditions@, c);
                    lemma_push_contains(conditions@, c);
                }
                conditions.push(c);
            }
            proof {
                assert forall|cc: u32| #[trigger] conditions@.contains(cc) implies (cond_in_prefix(
                    entries,
                    a as int,
                    cc,
                ) || entries[a as int].1@.take(w as int + 1).contains(cc)) by {
                    if cb.contains(cc) {
                    } else {
                        assert(cc == c);
                    }
                }
                assert forall|cc: u32|
                    cond_in_prefix(entries, a as int, cc) || entries[a as int].1@.take(
                        w as int + 1,
                    ).contains(cc) implies #[trigger] conditions@.contains(cc) by {
                    if entries[a as int].1@.take(w as int + 1).contains(cc)
                        && !entries[a as int].1@.take(w as int).contains(cc) {
                        assert(cc == c);
                        assert(conditions@.contains(c));
                    } else {
                        assert(cb.contains(cc));
                    }
                }
            }
            w += 1;
        }
        proof {
            assert(entries[a as int].1@.take(rm as int) =~= entries[a as int].1@);
            assert forall|c: u32| #[trigger] conditions@.contains(c) implies cond_in_prefix(
                entries,
                a as int + 1,
                c,
            ) by {
                if cond_in_prefix(entries, a as int, c) {
                    let (b, ww): (int, int) = choose|b: int, ww: int|
                        0 <= b < a as int && 0 <= ww < entries[b].1@.len()
                            && #[trigger] entries[b].1@[ww] == c;
                    assert(entries[b].1@[ww] == c);
                } else {
                    let ww = choose|ww: int|
                        0 <= ww < entries[a as int].1@.len() && #[trigger] entries[a as int].1@[ww]
                            == c;
                    assert(entries[a as int].1@[ww] == c);
                }
            }
            assert forall|c: u32| cond_in_prefix(entries, a as int + 1, c) implies
                #[trigger] conditions@.contains(c) by {
                let (b, ww): (int, int) = choose|b: int, ww: int|
                    0 <= b < a as int + 1 && 0 <= ww < entries[b].1@.len()
                        && #[trigger] entries[b].1@[ww] == c;
                if b < a as int {
                    assert(cond_in_prefix(entries, a as int, c));
                } else {
                    assert(entries[a as int].1@.contains(c));
                }
            }
        }
        a += 1;
    }
    proof {
        assert forall|c: u32| #[trigger] conditions@.contains(c) implies referenced(
            rows@,
        ).contains(c) by {
            let (b, w): (int, int) = choose|b: int, w: int|
                0 <= b < nr && 0 <= w < entries[b].1@.len() && #[trigger] entries[b].1@[w] == c;
            assert(rows@.dom().contains(entries[b].0));
            assert(rows@[entries[b].0].contains(c));
        }
        assert forall|c: u32| referenced(rows@).contains(c) implies #[trigger] conditions@.contains(
            c,
        ) by {
            let i = choose|i: u32| #[trigger] rows@.dom().contains(i) && rows@[i].contains(c);
            let b = choose|b: int| 0 <= b < entries.len() && (#[trigger] entries[b]).0 == i;
            let w = choose|w: int| 0 <= w < rows@[i].len() && #[trigger] rows@[i][w] == c;
            assert(entries[b].1@[w] == c);
            assert(cond_in_prefix(entries, nr as int, c));
        }
    }

    // No optional condition may be unreferenced, and no item's row may hold
    // optional conditions only.
    if let Some(opt) = optional {
        proof {
            assert(optional == Some(opt));
        }
        let om = opt.len();
        let mut oa: usize = 0;
        while oa < om
            invariant
                rows.wf(),
                optional == Some(opt),
                om == opt@.len(),
                oa <= om,
                forall|c: u32| conditions@.contains(c) <==> referenced(rows@).contains(c),
                forall|b: int| 0 <= b < oa ==> referenced(rows@).contains(#[trigger] opt@[b]),
            decreases om - oa,
        {
            if !vec_contains(&conditions, opt[oa]) {
                proof {
                    assert(!referenced(rows@).contains(opt@[oa as int]));
                }
                return Err(RunError::UnknownOptionalCondition);
            }
            oa += 1;
        }
        proof {
            assert forall|aa: int| 0 <= aa < opt@.len() implies referenced(rows@).contains(
                #[trigger] opt@[aa],
            ) by {}
            assert(opt_seq(optional) == opt@);
            assert(!has_unknown_optional(rows@, opt_seq(optional)));
        }

        let mut b: usize = 0;
        while b < nr
            invariant
                rows.wf(),
                optional == Some(opt),
                nr == entries.len(),
                entries == rows.entries(),
                om == opt@.len(),
                b <= nr,
                !has_unknown_optional(rows@, opt_seq(optional)),
                forall|bb: int| 0 <= bb < b ==> #[trigger] row_not_all_optional(entries, bb, opt@),
            decreases nr - b,
        {
            proof {
                lemma_problem_entries(rows);
            }
            let row = rows.conditions_at(b);
            let rm = row.len();
            let mut w: usize = 0;
            let mut found = false;
            while w < rm
                invariant
                    om == opt@.len(),
                    rm == row@.len(),
                    w <= rm,
                    found ==> exists|ww: int| 0 <= ww < rm && !opt@.contains(#[trigger] row@[ww]),
                    !found ==> forall|ww: int| 0 <= ww < w ==> opt@.contains(#[trigger] row@[ww]),
                decreases rm - w,
            {
                if !vec_contains(opt, row[w]) {
                    found = true;
                    proof {
                        assert(!opt@.contains(row@[w as int]));
                    }
                }
                w += 1;
            }
            if !found {
                proof {
                    assert(optional == Some(opt));
                    let it = entries[b as int].0;
                    assert(rows@.dom().contains(it));
                    assert(rows@[it] == entries[b as int].1@);
                    assert forall|ww: int| 0 <= ww < rows@[it].len() implies opt@.contains(
                        #[trigger] rows@[it][ww],
                    ) by {
                        assert(opt@.contains(row@[ww]));
                    }
                    assert(has_only_optional_item(rows@, opt_seq(optional)));
                }
                return Err(RunError::ItemWithOnlyOptionalConditions);
            }
            proof {
                let ww = choose|ww: int| 0 <= ww < rm && !opt@.contains(#[trigger] row@[ww]);
                assert(!opt@.contains(entries[b as int].1@[ww]));
                assert(row_not_all_optional(entries, b as int, opt@));
            }
            b += 1;
        }
        proof {
            assert forall|i: u32| #[trigger] rows@.dom().contains(i) implies !(forall|w: int|
                0 <= w < rows@[i].len() ==> opt@.contains(#[trigger] rows@[i][w])) by {
                let bb = choose|bb: int| 0 <= bb < entries.len() && (#[trigger] entries[bb]).0 == i;
                assert(row_not_all_optional(entries, bb, opt@));
                let w = choose|w: int|
                    0 <= w < entries[bb].1@.len() && !opt@.contains(#[trigger] entries[bb].1@[w]);
                assert(rows@[i] == entries[bb].1@);
                assert(!opt@.contains(rows@[i][w]));
            }
            assert(!has_only_optional_item(rows@, opt_seq(optional)));
        }
    }

    // Every preselected item must be a key of the problem.
    if let Some(pre) = preselected {
        let pm = pre.len();
        let mut pa: usize = 0;
        while pa < pm
            invariant
                rows.wf(),
                preselected == Some(pre),
                pm == pre@.len(),
                pa <= pm,
                !(optional.is_some() && has_unknown_optional(rows@, opt_seq(optional))),
                !(optional.is_some() && has_only_optional_item(rows@, opt_seq(optional))),
                forall|b: int| 0 <= b < pa ==> rows@.dom().contains(#[trigger] pre@[b]),
            decreases pm - pa,
        {
            if !rows.contains_item(pre[pa]) {
                proof {
                    assert(!rows@.dom().contains(pre@[pa as int]));
                }
                return Err(RunError::UnknownPreselectedItem);
            }
            pa += 1;
        }
        assert(!has_unknown_preselected(rows@, pre_seq(preselected)));
    }

    // Build the column index: one column per referenced condition, holding
    // the items whose rows cover it, required unless the condition is
    // optional.
    let mut columns: Vec<ColumnEntry> = Vec::new();
    let mut required: usize = 0;
    let nc = conditions.len();
    let mut ci: usize = 0;
    proof {
        assert(cols_map(columns@).dom() =~= Set::<u32>::empty());
        assert(req_dom(cols_map(columns@)) =~= Set::<u32>::empty());
    }
    while ci < nc
        invariant
            rows.wf(),
            nr == entries.len(),
            entries == rows.entries(),
            nc == conditions@.len(),
            ci <= nc,
            conditions@.no_duplicates(),
            cols_exec_wf(columns@),
            required <= ci,
            forall|c: u32|
                cols_map(columns@).dom().contains(c) <==> conditions@.take(ci as int).contains(c),
            forall|c: u32|
                #[trigger] cols_map(columns@).dom().contains(c) ==> cols_map(columns@)[c].0 == (
                match optional {
                    Some(o) => !o@.contains(c),
                    None => true,
                }) && cols_map(columns@)[c].1 == col_items(rows@, c),
            required as nat == req_count(cols_map(columns@)),
        decreases nc - ci,
    {
        proof {
            lemma_problem_entries(rows);
        }
        let j = conditions[ci];
        let mut items: Vec<u32> = Vec::new();
        let mut b: usize = 0;
        while b < nr
            invariant
                rows.wf(),
                nr == entries.len(),
                entries == rows.entries(),
                b <= nr,
                items@.no_duplicates(),
                forall|x: u32|
                    #[trigger] items@.contains(x) <==> item_in_prefix(entries, b as int, j, x),
            decreases nr - b,
        {
            proof {
                lemma_problem_entries(rows);
            }
            let row = rows.conditions_at(b);
            let ghost ib = items@;
            if vec_contains(row, j) {
                let it = rows.item_at(b);
                proof {
                    if items@.contains(it) {
                        let bb = choose|bb: int|
                            0 <= bb < b as int && (#[trigger] entries[bb]).0 == it
                                && entries[bb].1@.contains(j);
                        assert(entries[bb].0 == entries[b as int].0);
                        assert(false);
                    }
                    lemma_push_no_dup(items@, it);
                    lemma_push_contains(items@, it);
                }
                items.push(it);
            }
            proof {
                assert forall|x: u32| #[trigger] items@.contains(x) implies item_in_prefix(
                    entries,
                    b as int + 1,
                    j,
                    x,
                ) by {
                    if ib.contains(x) {
                        let bb = choose|bb: int|
                            0 <= bb < b as int && (#[trigger] entries[bb]).0 == x
                                && entries[bb].1@.contains(j);
                        assert(entries[bb].0 == x && entries[bb].1@.contains(j));
                    } else {
                        assert(entries[b as int].0 == x && entries[b as int].1@.contains(j));
                    }
                }
                assert forall|x: u32| item_in_prefix(entries, b as int + 1, j, x) implies
                    #[trigger] items@.contains(x) by {
                    let bb = choose|bb: int|
                        0 <= bb < b as int + 1 && (#[trigger] entries[bb]).0 == x
                            && entries[bb].1@.contains(j);
                    if bb < b as int {
                        assert(item_in_prefix(entries, b as int, j, x));
                        assert(ib.contains(x));
                    } else {
                        assert(row@ == entries[b as int].1@);
                    }
                }
            }
            b += 1;
        }
        proof {
            assert forall|x: u32| #[trigger] items@.contains(x) implies col_items(
                rows@,
                j,
            ).contains(x) by {
                let bb = choose|bb: int|
                    0 <= bb < nr as int && (#[trigger] entries[bb]).0 == x
                        && entries[bb].1@.contains(j);
                assert(rows@.dom().contains(x) && rows@[x] == entries[bb].1@);
            }
            assert forall|x: u32| col_items(rows@, j).contains(x) implies #[trigger] items@.contains(
                x,
            ) by {
                let bb = choose|bb: int| 0 <= bb < entries.len() && (#[trigger] entries[bb]).0 == x;
                assert(rows@[x] == entries[bb].1@);
                assert(entries[bb].1@.contains(j));
                assert(item_in_prefix(entries, nr as int, j, x));
            }
            assert(items@.to_set() =~= col_items(rows@, j));
        }
        let reqflag = match optional {
            Some(o) => !vec_contains(o, j),
            None => true,
        };
        let entry = ColumnEntry { condition: j, required: reqflag, items };
        let ghost mb = cols_map(columns@);
        proof {
            assert(!conditions@.take(ci as int).contains(j));
            assert forall|aa: int| 0 <= aa < columns@.len() implies (
            #[trigger] columns@[aa]).condition != j by {
                lemma_cols_map_value(columns@, aa);
                assert(conditions@.take(ci as int).contains(columns@[aa].condition));
            }
            lemma_cols_map_push(columns@, entry);
            lemma_cols_map_len(columns@);
            vstd::set_lib::lemma_len_subset(req_dom(mb), mb.dom());
        }
        columns.push(entry);
        if reqflag {
            required += 1;
        }
        proof {
            lemma_take_succ(conditions@, ci as int);
            assert(cols_map(columns@) == mb.insert(j, (reqflag, entry.items@.to_set())));
            if reqflag {
                assert(req_dom(cols_map(columns@)) =~= req_dom(mb).insert(j));
                assert(!req_dom(mb).contains(j));
            } else {
                assert(req_dom(cols_map(columns@)) =~= req_dom(mb));
            }
        }
        ci += 1;
    }
    proof {
        assert(conditions@.take(nc as int) =~= conditions@);
    }
    let ghost m_init = cols_map(columns@);
    proof {
        assert forall|k: u32, i: u32|
            m_init.dom().contains(k) && #[trigger] m_init[k].1.contains(i) implies rows@.dom().contains(
            i,
        ) && rows@[i].contains(k) by {
            assert(col_items(rows@, k).contains(i));
        }
        assert forall|k: u32, k2: u32, i: u32|
            m_init.dom().contains(k) && #[trigger] m_init[k].1.contains(i) && m_init.dom().contains(
                k2,
            ) && #[trigger] rows@[i].contains(k2) implies m_init[k2].1.contains(i) by {
            assert(col_items(rows@, k).contains(i));
            assert(col_items(rows@, k2).contains(i));
        }
        lemma_cols_map_len(columns@);
        assert(cols_wf(m_init, rows@));
    }

    // Permanently cover the preselected items; their coverings are never
    // undone, and the path begins with them.
    let mut sol: Vec<u32> = Vec::new();
    if let Some(pre) = preselected {
        let pm = pre.len();
        let mut pa: usize = 0;
        while pa < pm
            invariant
                rows.wf(),
                pm == pre@.len(),
                pa <= pm,
                cols_exec_wf(columns@),
                cols_wf(cols_map(columns@), rows@),
                required as nat == req_count(cols_map(columns@)),
                sol@ == pre@.take(pa as int),
                pm == 0 ==> cols_map(columns@) == m_init,
            decreases pm - pa,
        {
            required = preselect(&mut columns, rows, &mut sol, required, pre[pa]);
            proof {
                assert(sol@ =~= pre@.take(pa as int + 1));
            }
            pa += 1;
        }
        proof {
            assert(pre@.take(pm as int) =~= pre@);
        }
    }
    proof {
        assert(sol@ == pre_seq(preselected));
    }

    // Run the search; every discovered exact cover is appended to the output.
    let ghost sl0 = sol@;
    proof {
        if pre_seq(preselected).len() == 0 {
            assert(cols_map(columns@) == m_init);
        }
    }
    let mut out: Vec<Solution> = Vec::new();
    solve(&mut columns, rows, &mut sol, required, &mut out);
    proof {
        assert forall|v: int| 0 <= v < out@.len() implies pre_seq(preselected).is_prefix_of(
            #[trigger] out@[v]@,
        ) by {
            assert(sols_view(out@)[v] == out@[v]@);
        }
        assert forall|v: int, x: u32|
            0 <= v < out@.len() && pre_seq(preselected).contains(x) implies #[trigger] out@[v]@.contains(
            x,
        ) by {
            let ps = pre_seq(preselected);
            let w = choose|w: int| 0 <= w < ps.len() && ps[w] == x;
            assert(out@[v]@.subrange(0, ps.len() as int)[w] == x);
            assert(out@[v]@[w] == x);
        }
        if pre_seq(preselected).len() == 0 && (forall|c: u32| !referenced(rows@).contains(c)) {
            if conditions@.len() > 0 {
                assert(conditions@.contains(conditions@[0]));
                assert(false);
            }
            assert(m_init.dom() =~= Set::<u32>::empty());
            assert(req_dom(m_init) =~= Set::<u32>::empty());
            assert(required == 0);
            assert(sols_view(Seq::<Vec<u32>>::empty()) =~= Seq::<Seq<u32>>::empty());
            assert(sol@ =~= Seq::<u32>::empty());
            assert(sols_view(out@) =~= Seq::<Seq<u32>>::empty().push(Seq::<u32>::empty()));
            assert(out@[0]@ == sols_view(out@)[0]);
        }
        if pre_seq(preselected).len() == 0 {
            assert(sl0.len() == 0);
            assert(m_init.dom() =~= referenced(rows@));
            assert forall|k: u32| #[trigger] m_init.dom().contains(k) implies m_init[k].0
                == !opt_seq(optional).contains(k) && m_init[k].1 == col_items(rows@, k) by {
                if optional is None {
                    assert(opt_seq(optional).len() == 0);
                    assert(!opt_seq(optional).contains(k));
                }
            }
            assert forall|v: int| 0 <= v < out@.len() implies is_exact_cover(
                rows@,
                opt_seq(optional),
                (#[trigger] out@[v]@).to_set(),
            ) by {
                assert(sols_view(out@)[v] == out@[v]@);
                assert(sol_of(m_init, sols_view(out@)[v].skip(sl0.len() as int).to_set()));
                assert(out@[v]@.skip(0) =~= out@[v]@);
                lemma_cover_equiv(m_init, rows@, opt_seq(optional), out@[v]@.to_set());
            }
            assert forall|s: Set<u32>|
                #[trigger] is_exact_cover(rows@, opt_seq(optional), s) implies exists|v: int|
                0 <= v < out@.len() && (#[trigger] out@[v]@).to_set() == s by {
                lemma_cover_equiv(m_init, rows@, opt_seq(optional), s);
                assert(sol_of(m_init, s));
                let v = choose|v: int|
                    0 <= v < out@.len() && (#[trigger] sols_view(out@)[v]).skip(
                        sl0.len() as int,
                    ).to_set() == s;
                assert(out@[v]@ == sols_view(out@)[v]);
                assert(out@[v]@.skip(0) =~= out@[v]@);
                assert((out@[v]@).to_set() == s);
            }
            assert(enumerates_covers(rows@, opt_seq(optional), out@));
        }
    }
    Ok(out)
}

} // verus!
