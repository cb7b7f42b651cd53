use vstd::prelude::*;

verus! {

broadcast use vstd::set::group_set_axioms, vstd::map::group_map_axioms, vstd::seq::group_seq_axioms;

/// An item identifies a row: one candidate choice.
pub type ItemType = u32;

/// A condition identifies a column: one constraint to satisfy.
pub type ConditionType = u32;

/// A problem maps each item to the ordered list of conditions it satisfies.
/// The list of rows is kept in insertion order with pairwise distinct items.
pub struct Problem {
    pub(crate) rows: Vec<(ItemType, Vec<ConditionType>)>,
}

/// The map that a sequence of (item, conditions) rows denotes; a later row
/// with the same item would shadow an earlier one, but `Problem` keeps its
/// items distinct.
pub open spec fn rows_map(s: Seq<(u32, Vec<u32>)>) -> Map<u32, Seq<u32>>
    decreases s.len(),
{
    if s.len() == 0 {
        Map::empty()
    } else {
        rows_map(s.drop_last()).insert(s.last().0, s.last().1@)
    }
}

/// No two rows carry the same item.
pub open spec fn row_keys_unique(s: Seq<(u32, Vec<u32>)>) -> bool {
    forall|a: int, b: int| 0 <= a < b < s.len() ==> (#[trigger] s[a]).0 != (#[trigger] s[b]).0
}

/// A condition occurs somewhere in the rows' map.
pub open spec fn referenced(rows: Map<u32, Seq<u32>>) -> Set<u32> {
    Set::new(|c: u32| exists|i: u32| #[trigger] rows.dom().contains(i) && rows[i].contains(c))
}

/// The keys of `rows_map(s)` are exactly the items of the rows.
pub proof fn lemma_rows_map_dom(s: Seq<(u32, Vec<u32>)>)
    ensures
        forall|c: u32|
            rows_map(s).dom().contains(c) <==> exists|a: int|
                0 <= a < s.len() && (#[trigger] s[a]).0 == c,
    decreases s.len(),
{
    if s.len() == 0 {
    } else {
        lemma_rows_map_dom(s.drop_last());
        assert forall|c: u32| rows_map(s).dom().contains(c) implies exists|a: int|
            0 <= a < s.len() && (#[trigger] s[a]).0 == c by {
            if c == s.last().0 {
                assert(s[s.len() - 1].0 == c);
            } else {
                assert(rows_map(s.drop_last()).dom().contains(c));
                let a = choose|a: int|
                    0 <= a < s.drop_last().len() && (#[trigger] s.drop_last()[a]).0 == c;
                assert(s[a].0 == c);
            }
        }
        assert forall|c: u32|
            exists|a: int| 0 <= a < s.len() && (#[trigger] s[a]).0 == c implies rows_map(
            s,
        ).dom().contains(c) by {
            let a = choose|a: int| 0 <= a < s.len() && (#[trigger] s[a]).0 == c;
            if a < s.len() - 1 {
                assert(s.drop_last()[a].0 == c);
                assert(exists|b: int|
                    0 <= b < s.drop_last().len() && (#[trigger] s.drop_last()[b]).0 == c);
                assert(rows_map(s.drop_last()).dom().contains(c));
            }
        }
    }
}

/// With distinct items, row `a` gives the map's value at its item.
pub proof fn lemma_rows_map_value(s: Seq<(u32, Vec<u32>)>, a: int)
    requires
        row_keys_unique(s),
        0 <= a < s.len(),
    ensures
        rows_map(s).dom().contains(s[a].0),
        rows_map(s)[s[a].0] == s[a].1@,
    decreases s.len(),
{
    if a == s.len() - 1 {
    } else {
        lemma_rows_map_value(s.drop_last(), a);
        assert(s.drop_last()[a] == s[a]);
        assert(s[a].0 != s.last().0);
    }
}

/// Replacing row `a` by a row with the same item updates the map at that item.
pub proof fn lemma_rows_map_update(s: Seq<(u32, Vec<u32>)>, a: int, e: (u32, Vec<u32>))
    requires
        row_keys_unique(s),
        0 <= a < s.len(),
        e.0 == s[a].0,
    ensures
        rows_map(s.update(a, e)) == rows_map(s).insert(e.0, e.1@),
        row_keys_unique(s.update(a, e)),
    decreases s.len(),
{
    let s2 = s.update(a, e);
    if a == s.len() - 1 {
        assert(s2.drop_last() =~= s.drop_last());
        assert(s2.last() == e);
        assert(rows_map(s).insert(e.0, e.1@) =~= rows_map(s.drop_last()).insert(e.0, e.1@));
    } else {
        lemma_rows_map_update(s.drop_last(), a, e);
        assert(s2.drop_last() =~= s.drop_last().update(a, e));
        assert(s2.last() == s.last());
        assert(s[a].0 != s.last().0);
        assert(rows_map(s2) =~= rows_map(s).insert(e.0, e.1@));
    }
}

/// Appending a row with a fresh item inserts it into the map.
pub proof fn lemma_rows_map_push(s: Seq<(u32, Vec<u32>)>, e: (u32, Vec<u32>))
    requires
        row_keys_unique(s),
        forall|a: int| 0 <= a < s.len() ==> (#[trigger] s[a]).0 != e.0,
    ensures
        rows_map(s.push(e)) == rows_map(s).insert(e.0, e.1@),
        row_keys_unique(s.push(e)),
{
    assert(s.push(e).drop_last() =~= s);
    assert(s.push(e).last() == e);
}

impl Problem {
    /// The rows as stored, in insertion order.
    pub closed spec fn entries(&self) -> Seq<(u32, Vec<u32>)> {
        self.rows@
    }

    /// The map from items to their condition sequences.
    pub closed spec fn view(&self) -> Map<u32, Seq<u32>> {
        rows_map(self.rows@)
    }

    /// The stored rows carry pairwise distinct items.
    pub closed spec fn wf(&self) -> bool {
        row_keys_unique(self.rows@)
    }

    /// An empty problem: no items, no conditions.
    pub fn new() -> (r: Problem)
        ensures
            r.wf(),
            r@ == Map::<u32, Seq<u32>>::empty(),
            r.entries().len() == 0,
    {
        Problem { rows: Vec::new() }
    }

    /// How many items the problem holds.
    pub fn num_rows(&self) -> (n: usize)
        ensures
            n == self.entries().len(),
    {
        self.rows.len()
    }

    /// The item of row `idx`.
    pub fn item_at(&self, idx: usize) -> (r: u32)
        requires
            idx < self.entries().len(),
        ensures
            r == self.entries()[idx as int].0,
    {
        self.rows[idx].0
    }

    /// The conditions of row `idx`, which are also `self@` at its item.
    pub fn conditions_at(&self, idx: usize) -> (r: &Vec<u32>)
        requires
            self.wf(),
            idx < self.entries().len(),
        ensures
            r@ == self.entries()[idx as int].1@,
            self@.dom().contains(self.entries()[idx as int].0),
            r@ == self@[self.entries()[idx as int].0],
    {
        proof {
            lemma_rows_map_value(self.rows@, idx as int);
        }
        &self.rows[idx].1
    }

    /// The conditions of `item`, or `None` when the problem has no such row.
    pub fn get(&self, item: u32) -> (r: Option<&Vec<u32>>)
        requires
            self.wf(),
        ensures
            match r {
                Some(v) => self@.dom().contains(item) && v@ == self@[item],
                None => !self@.dom().contains(item),
            },
    {
        proof {
            lemma_rows_map_dom(self.rows@);
        }
        let n = self.rows.len();
        let mut idx: usize = 0;
        while idx < n
            invariant
                n == self.rows@.len(),
                self.wf(),
                forall|a: int| 0 <= a < idx ==> (#[trigger] self.rows@[a]).0 != item,
            decreases n - idx,
        {
            if self.rows[idx].0 == item {
                proof {
                    lemma_rows_map_value(self.rows@, idx as int);
                }
                return Some(&self.rows[idx].1);
            }
            idx += 1;
        }
        None
    }

    /// Whether the problem has a row for `item`.
    pub fn contains_item(&self, item: u32) -> (r: bool)
        requires
            self.wf(),
        ensures
            r == self@.dom().contains(item),
    {
        match self.get(item) {
            Some(_) => true,
            None => false,
        }
    }
}

/// How the stored rows and the problem's map relate: each row gives the map's
/// value at its item, every key comes from some row, and items are distinct.
pub proof fn lemma_problem_entries(p: &Problem)
    requires
        p.wf(),
    ensures
        forall|a: int|
            0 <= a < p.entries().len() ==> p@.dom().contains((#[trigger] p.entries()[a]).0)
                && p@[p.entries()[a].0] == p.entries()[a].1@,
        forall|i: u32|
            #[trigger] p@.dom().contains(i) ==> exists|a: int|
                0 <= a < p.entries().len() && (#[trigger] p.entries()[a]).0 == i,
        forall|a: int, b: int|
            0 <= a < b < p.entries().len() ==> (#[trigger] p.entries()[a]).0 != (
            #[trigger] p.entries()[b]).0,
{
    lemma_rows_map_dom(p.rows@);
    assert forall|a: int| 0 <= a < p.entries().len() implies p@.dom().contains(
        (#[trigger] p.entries()[a]).0,
    ) && p@[p.entries()[a].0] == p.entries()[a].1@ by {
        lemma_rows_map_value(p.rows@, a);
    }
    assert forall|i: u32| #[trigger] p@.dom().contains(i) implies exists|a: int|
        0 <= a < p.entries().len() && (#[trigger] p.entries()[a]).0 == i by {
        let a = choose|a: int| 0 <= a < p.rows@.len() && (#[trigger] p.rows@[a]).0 == i;
        assert(p.entries()[a].0 == i);
    }
}

/// Appends `condition` to the row of `item`, creating the row when absent.
pub fn set_condition(problem: &mut Problem, item: ItemType, condition: ConditionType)
    requires
        old(problem).wf(),
    ensures
        final(problem).wf(),
        old(problem)@.dom().contains(item) ==> final(problem)@ == old(problem)@.insert(
            item,
            old(problem)@[item].push(condition),
        ),
        !old(problem)@.dom().contains(item) ==> final(problem)@ == old(problem)@.insert(
            item,
            seq![condition],
        ),
{
    proof {
        lemma_rows_map_dom(problem.rows@);
    }
    let n = problem.rows.len();
    let mut idx: usize = 0;
    while idx < n
        invariant
            n == problem.rows@.len(),
            problem.wf(),
            problem@ == old(problem)@,
            problem.rows@ == old(problem).rows@,
            forall|a: int| 0 <= a < idx ==> (#[trigger] problem.rows@[a]).0 != item,
        decreases n - idx,
    {
        if problem.rows[idx].0 == item {
            proof {
                lemma_rows_map_value(problem.rows@, idx as int);
            }
            let mut row = clone_items(&problem.rows[idx].1);
            row.push(condition);
            let ghost s = problem.rows@;
            problem.rows[idx] = (item, row);
            proof {
                lemma_rows_map_update(s, idx as int, problem.rows@[idx as int]);
            }
            return ;
        }
        idx += 1;
    }
    proof {
        assert(!problem@.dom().contains(item));
    }
    let mut row: Vec<u32> = Vec::new();
    row.push(condition);
    let ghost s = problem.rows@;
    problem.rows.push((item, row));
    proof {
        assert(row@ =~= seq![condition]);
        assert forall|a: int| 0 <= a < s.len() implies (#[trigger] s[a]).0 != item by {
            if s[a].0 == item {
                lemma_rows_map_dom(s);
            }
        }
        lemma_rows_map_push(s, problem.rows@.last());
    }
}

/// A copy of a vector of identifiers, element for element.
pub fn clone_items(v: &Vec<u32>) -> (r: Vec<u32>)
    ensures
        r@ == v@,
{
    let mut r: Vec<u32> = Vec::new();
    let n = v.len();
    let mut idx: usize = 0;
    while idx < n
        invariant
            n == v@.len(),
            idx <= n,
            r@ == v@.take(idx as int),
        decreases n - idx,
    {
        r.push(v[idx]);
        proof {
            assert(r@ =~= v@.take(idx as int + 1));
        }
        idx += 1;
    }
    proof {
        assert(v@.take(n as int) =~= v@);
    }
    r
}

/// Whether `v` holds `x`.
pub fn vec_contains(v: &Vec<u32>, x: u32) -> (r: bool)
    ensures
        r == v@.contains(x),
{
    let n = v.len();
    let mut idx: usize = 0;
    while idx < n
        invariant
            n == v@.len(),
            idx <= n,
            forall|a: int| 0 <= a < idx ==> v@[a] != x,
        decreases n - idx,
    {
        if v[idx] == x {
            return true;
        }
        idx += 1;
    }
    false
}

} // verus!
