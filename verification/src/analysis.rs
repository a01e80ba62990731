//! The solver of a dataflow analysis over field sets.
use crate::bytecode::Key;
use crate::dataflow::{FlowFacts, JoinSemiLattice};
use crate::field_set::FieldSet;
use vstd::prelude::*;

verus! {

/// The members that a table gives to `key`; none, where the table does not have it.
spec fn value_at(keys: Seq<Key>, vals: Seq<FieldSet>, key: Key) -> Set<nat> {
    if keys.contains(key) {
        vals[keys.index_of(key)]@
    } else {
        Set::empty()
    }
}

/// A table has one value for each key, and no key twice.
spec fn is_table(keys: Seq<Key>, vals: Seq<FieldSet>) -> bool {
    keys.len() == vals.len() && keys.no_duplicates()
}

/// Whether no value of the table is above the least solution.
spec fn is_below(keys: Seq<Key>, vals: Seq<FieldSet>, facts: FlowFacts) -> bool {
    forall|n: int|
        0 <= n < keys.len() ==> (#[trigger] vals[n])@.subset_of(facts.fields(keys[n]))
}

/// Whether the table has what the first `count` sources hold.
spec fn has_srcs(keys: Seq<Key>, vals: Seq<FieldSet>, facts: FlowFacts, count: int) -> bool {
    forall|i: int|
        0 <= i < count ==> (#[trigger] facts.srcs[i]).1.subset_of(
            value_at(keys, vals, facts.srcs[i].0),
        )
}

/// Whether the edges are the first dependencies, as positions in the table.
spec fn are_edges(keys: Seq<Key>, edges: Seq<(usize, usize)>, facts: FlowFacts) -> bool {
    &&& edges.len() <= facts.deps.len()
    &&& forall|i: int|
        0 <= i < edges.len() ==> {
            let (dst, src) = #[trigger] edges[i];
            dst < keys.len() && src < keys.len() && facts.deps[i] == (
                keys[dst as int],
                keys[src as int],
            )
        }
}

/// The value at a position is the value of its key.
proof fn lemma_value_at(keys: Seq<Key>, vals: Seq<FieldSet>, n: int)
    requires
        is_table(keys, vals),
        0 <= n < keys.len(),
    ensures
        value_at(keys, vals, keys[n]) == vals[n]@,
{
    assert(keys.contains(keys[n]));
    let m = keys.index_of(keys[n]);
    assert(keys[m] == keys[n]);
    assert(m == n);
}

/// Where the values of a table only grow, it keeps what the sources hold.
proof fn lemma_keeps_srcs(
    keys: Seq<Key>,
    vals: Seq<FieldSet>,
    more_keys: Seq<Key>,
    more_vals: Seq<FieldSet>,
    facts: FlowFacts,
    count: int,
)
    requires
        is_table(keys, vals),
        is_table(more_keys, more_vals),
        has_srcs(keys, vals, facts, count),
        keys.len() <= more_keys.len(),
        forall|n: int| 0 <= n < keys.len() ==> #[trigger] more_keys[n] == keys[n],
        forall|n: int| 0 <= n < keys.len() ==> vals[n]@.subset_of((#[trigger] more_vals[n])@),
    ensures
        has_srcs(more_keys, more_vals, facts, count),
{
    assert forall|i: int| 0 <= i < count implies (#[trigger] facts.srcs[i]).1.subset_of(
        value_at(more_keys, more_vals, facts.srcs[i].0),
    ) by {
        let key = facts.srcs[i].0;
        if keys.contains(key) {
            let n = keys.index_of(key);
            assert(more_keys[n] == key);
            lemma_value_at(more_keys, more_vals, n);
            assert(vals[n]@.subset_of(more_vals[n]@));
        }
    }
}

/// New places without members leave a table below the least solution, and keep what the sources
/// hold.
proof fn lemma_new_nodes(
    keys: Seq<Key>,
    vals: Seq<FieldSet>,
    more_keys: Seq<Key>,
    more_vals: Seq<FieldSet>,
    facts: FlowFacts,
)
    requires
        is_table(keys, vals),
        is_below(keys, vals, facts),
        has_srcs(keys, vals, facts, facts.srcs.len() as int),
        is_table(more_keys, more_vals),
        keys.len() <= more_keys.len(),
        forall|n: int| 0 <= n < keys.len() ==> #[trigger] more_keys[n] == keys[n],
        forall|n: int| 0 <= n < keys.len() ==> #[trigger] more_vals[n] == vals[n],
        forall|n: int|
            keys.len() <= n < more_keys.len() ==> (#[trigger] more_vals[n])@ == Set::<nat>::empty(),
    ensures
        is_below(more_keys, more_vals, facts),
        has_srcs(more_keys, more_vals, facts, facts.srcs.len() as int),
{
    assert forall|n: int| 0 <= n < more_keys.len() implies (
    #[trigger] more_vals[n])@.subset_of(facts.fields(more_keys[n])) by {
        if n < keys.len() {
            assert(vals[n]@.subset_of(facts.fields(keys[n])));
        }
    }
    lemma_keeps_srcs(keys, vals, more_keys, more_vals, facts, facts.srcs.len() as int);
}

/// The position of `key` in the table.
fn position(keys: &Vec<Key>, key: Key) -> (r: Option<usize>)
    ensures
        match r {
            Some(n) => n < keys.len() && keys[n as int] == key,
            None => !keys@.contains(key),
        },
{
    let mut n: usize = 0;
    while n < keys.len()
        invariant
            n <= keys.len(),
            forall|m: int| 0 <= m < n ==> keys[m] != key,
        decreases keys.len() - n,
    {
        if keys[n] == key {
            return Some(n);
        }
        n = n + 1;
    }
    None
}

/// The position of `key` in the table, where it is put at the bottom if it is new.
fn node(keys: &mut Vec<Key>, vals: &mut Vec<FieldSet>, key: Key) -> (r: usize)
    requires
        is_table(old(keys)@, old(vals)@),
    ensures
        is_table(final(keys)@, final(vals)@),
        r < final(keys).len(),
        final(keys)[r as int] == key,
        old(keys).len() <= final(keys).len(),
        forall|n: int| 0 <= n < old(keys).len() ==> #[trigger] final(keys)[n] == old(keys)[n],
        forall|n: int| 0 <= n < old(keys).len() ==> #[trigger] final(vals)[n] == old(vals)[n],
        forall|n: int|
            old(keys).len() <= n < final(keys).len() ==> (#[trigger] final(vals)[n])@ == Set::<
                nat,
            >::empty(),
{
    match position(keys, key) {
        Some(n) => n,
        None => {
            let n = keys.len();
            keys.push(key);
            vals.push(FieldSet::bottom());
            n
        },
    }
}

/// There are as many numbers below `bound` as it says.
proof fn lemma_numbers_below(bound: nat)
    ensures
        Set::new(|b: nat| b < bound).finite(),
        Set::new(|b: nat| b < bound).len() == bound,
    decreases bound,
{
    let all = Set::new(|b: nat| b < bound);
    if bound == 0 {
        assert(all =~= Set::empty());
    } else {
        let below = (bound - 1) as nat;
        lemma_numbers_below(below);
        assert(all =~= Set::new(|b: nat| b < below).insert(below));
    }
}

/// How many members the values could still gain.
spec fn slack(vals: Seq<FieldSet>) -> int
    decreases vals.len(),
{
    if vals.len() == 0 {
        0
    } else {
        slack(vals.drop_last()) + (65 - vals.last()@.len())
    }
}

/// A field set has at most 65 members, and fewer than any larger set.
proof fn lemma_len(small: FieldSet, large: FieldSet)
    requires
        small@.subset_of(large@),
    ensures
        small@.len() <= 65,
        small@ != large@ ==> small@.len() < large@.len(),
{
    let all = crate::field_set::all_members();
    lemma_numbers_below(65);
    assert(all =~= Set::new(|b: nat| b < 65));
    small.lemma_members(small);
    large.lemma_members(large);
    vstd::set_lib::lemma_len_subset(small@, all);
    vstd::set_lib::lemma_len_subset(large@, all);
    if small@ != large@ {
        if large@.subset_of(small@) {
            assert(small@ =~= large@);
        }
        let extra = choose|b: nat| large@.contains(b) && !small@.contains(b);
        vstd::set_lib::lemma_len_subset(small@.insert(extra), large@);
    }
}

/// Values can gain only so many members.
proof fn lemma_slack_is_nonnegative(vals: Seq<FieldSet>)
    ensures
        slack(vals) >= 0,
    decreases vals.len(),
{
    if vals.len() > 0 {
        lemma_slack_is_nonnegative(vals.drop_last());
        lemma_len(vals.last(), vals.last());
    }
}

/// Where a value gains a member, there is one less to gain.
proof fn lemma_slack_of_update(vals: Seq<FieldSet>, n: int, val: FieldSet)
    requires
        0 <= n < vals.len(),
        vals[n]@.subset_of(val@),
    ensures
        vals[n]@ != val@ ==> slack(vals.update(n, val)) < slack(vals),
        vals[n]@ == val@ ==> slack(vals.update(n, val)) == slack(vals),
    decreases vals.len(),
{
    let after = vals.update(n, val);
    if n == vals.len() - 1 {
        assert(after.drop_last() =~= vals.drop_last());
        lemma_len(vals[n], val);
    } else {
        assert(after.drop_last() =~= vals.drop_last().update(n, val));
        lemma_slack_of_update(vals.drop_last(), n, val);
    }
}

/// The least solution of the equations of an analysis.
struct Solution {
    keys: Vec<Key>,
    vals: Vec<FieldSet>,
}

impl Solution {
    spec fn solves(self, facts: FlowFacts) -> bool {
        &&& is_table(self.keys@, self.vals@)
        &&& forall|k: Key| value_at(self.keys@, self.vals@, k) == #[trigger] facts.fields(k)
    }

    /// The value of `key`.
    fn value(&self, key: Key, Ghost(facts): Ghost<FlowFacts>) -> (r: FieldSet)
        requires
            self.solves(facts),
        ensures
            r@ == facts.fields(key),
    {
        match position(&self.keys, key) {
            Some(n) => {
                proof {
                    lemma_value_at(self.keys@, self.vals@, n as int);
                    assert(value_at(self.keys@, self.vals@, key) == facts.fields(key));
                }
                self.vals[n]
            },
            None => {
                proof {
                    assert(value_at(self.keys@, self.vals@, key) == facts.fields(key));
                }
                FieldSet::bottom()
            },
        }
    }
}

/// Joins the value at `src` into the one at `dst`, and tells whether it has changed.
fn propagate(
    keys: &Vec<Key>,
    vals: &mut Vec<FieldSet>,
    dst: usize,
    src: usize,
    Ghost(facts): Ghost<FlowFacts>,
) -> (changed: bool)
    requires
        is_table(keys@, old(vals)@),
        is_below(keys@, old(vals)@, facts),
        has_srcs(keys@, old(vals)@, facts, facts.srcs.len() as int),
        dst < keys.len(),
        src < keys.len(),
        facts.deps.contains((keys[dst as int], keys[src as int])),
    ensures
        is_table(keys@, final(vals)@),
        is_below(keys@, final(vals)@, facts),
        has_srcs(keys@, final(vals)@, facts, facts.srcs.len() as int),
        !changed ==> final(vals)@ == old(vals)@ && old(vals)[src as int]@.subset_of(
            old(vals)[dst as int]@,
        ),
        changed ==> slack(final(vals)@) < slack(old(vals)@),
{
    let ghost before = vals@;
    let mut val = vals[dst];
    let changed = val.invoke(&vals[src], &());
    vals.set(dst, val);
    proof {
        let d = dst as int;
        let s = src as int;
        let least = |k: Key| facts.fields(k);
        crate::dataflow::law_fields_is_the_least_solution(facts, least);
        let i = choose|i: int| 0 <= i < facts.deps.len() && facts.deps[i] == (keys[d], keys[s]);
        assert(least(facts.deps[i].1).subset_of(least(facts.deps[i].0)));
        assert(before[d]@.subset_of(facts.fields(keys[d])));
        assert(before[s]@.subset_of(facts.fields(keys[s])));
        lemma_keeps_srcs(keys@, before, keys@, vals@, facts, facts.srcs.len() as int);
        lemma_slack_of_update(before, d, val);
        if !changed {
            val.lemma_members(before[d]);
            assert(vals@ =~= before);
            assert forall|b: nat| before[s]@.contains(b) implies before[d]@.contains(b) by {
                assert(before[d]@.union(before[s]@).contains(b));
            }
        }
    }
    changed
}

/// A dataflow analysis over field sets: a graph of places, in which an edge from one place to
/// another says that the second can take on at least any value of the first.
///
/// The view of an analysis is the facts that were added to it.
pub struct Analysis {
    srcs: Vec<(Key, FieldSet)>,
    deps: Vec<(Key, Key)>,
    queries: Vec<Key>,
    solution: Option<Solution>,
}

impl View for Analysis {
    type V = FlowFacts;

    closed spec fn view(&self) -> FlowFacts {
        FlowFacts {
            srcs: self.srcs@.map_values(|src: (Key, FieldSet)| (src.0, src.1@)),
            deps: self.deps@,
            queries: self.queries@,
        }
    }
}

impl Default for Analysis {
    fn default() -> (r: Analysis)
        ensures
            r.wf(),
            r@ == FlowFacts::none(),
    {
        let r = Analysis {
            srcs: Vec::new(),
            deps: Vec::new(),
            queries: Vec::new(),
            solution: None,
        };
        proof {
            assert(r@ =~= FlowFacts::none());
        }
        r
    }
}

impl Analysis {
    /// Whether the solution, if there is one yet, is that of the facts.
    pub closed spec fn wf(self) -> bool {
        self.solution matches Some(solution) ==> solution.solves(self@)
    }

    /// The facts of an analysis hold members of field sets.
    pub proof fn lemma_facts_are_well_formed(self)
        ensures
            self@.wf(),
    {
        assert forall|i: int| 0 <= i < self@.srcs.len() implies (
        #[trigger] self@.srcs[i]).1.subset_of(crate::field_set::all_members()) by {
            self.srcs[i].1.lemma_members(self.srcs[i].1);
        }
    }

    /// Adds a source: from the start, `key` holds `val`.
    pub fn add_src(&mut self, key: Key, val: FieldSet)
        ensures
            final(self).wf(),
            final(self)@ == old(self)@.with_src(key, val@),
    {
        let ghost before = self@;
        self.srcs.push((key, val));
        self.solution = None;
        proof {
            assert(self@ =~= before.with_src(key, val@));
        }
    }

    /// Adds a dependency: `dst` can take on at least any value of `src`.
    pub fn add_dep(&mut self, dst: Key, src: Key)
        ensures
            final(self).wf(),
            final(self)@ == old(self)@.with_dep(dst, src),
    {
        let ghost before = self@;
        self.deps.push((dst, src));
        self.solution = None;
        proof {
            assert(self@ =~= before.with_dep(dst, src));
        }
    }

    /// Adds a place that the analysis will be asked about.
    pub fn add_query(&mut self, key: Key)
        ensures
            final(self).wf(),
            final(self)@ == old(self)@.with_query(key),
    {
        let ghost before = self@;
        self.queries.push(key);
        self.solution = None;
        proof {
            assert(self@ =~= before.with_query(key));
        }
    }

    /// The table of all places, with what their own sources hold.
    fn sources(&self) -> (r: Solution)
        ensures
            is_table(r.keys@, r.vals@),
            is_below(r.keys@, r.vals@, self@),
            has_srcs(r.keys@, r.vals@, self@, self@.srcs.len() as int),
    {
        let ghost facts = self@;
        let mut keys: Vec<Key> = Vec::new();
        let mut vals: Vec<FieldSet> = Vec::new();
        let mut i: usize = 0;
        while i < self.srcs.len()
            invariant
                i <= self.srcs.len(),
                facts == self@,
                is_table(keys@, vals@),
                is_below(keys@, vals@, facts),
                has_srcs(keys@, vals@, facts, i as int),
            decreases self.srcs.len() - i,
        {
            let (key, members) = self.srcs[i];
            let ghost old_keys = keys@;
            let ghost old_vals = vals@;
            let n = node(&mut keys, &mut vals, key);
            let mut val = vals[n];
            let _changed = val.invoke(&members, &());
            vals.set(n, val);
            proof {
                assert(facts.srcs[i as int] == (key, members@));
                let least = |k: Key| facts.fields(k);
                crate::dataflow::law_fields_is_the_least_solution(facts, least);
                assert(facts.srcs[i as int].1.subset_of(least(facts.srcs[i as int].0)));
                assert forall|m: int| 0 <= m < keys.len() implies (
                #[trigger] vals[m])@.subset_of(facts.fields(keys[m])) by {
                    if m < old_keys.len() {
                        assert(old_vals[m]@.subset_of(facts.fields(old_keys[m])));
                    }
                }
                lemma_keeps_srcs(old_keys, old_vals, keys@, vals@, facts, i as int);
                lemma_value_at(keys@, vals@, n as int);
            }
            i = i + 1;
        }
        let mut q: usize = 0;
        while q < self.queries.len()
            invariant
                q <= self.queries.len(),
                is_table(keys@, vals@),
                is_below(keys@, vals@, facts),
                has_srcs(keys@, vals@, facts, facts.srcs.len() as int),
            decreases self.queries.len() - q,
        {
            let ghost old_keys = keys@;
            let ghost old_vals = vals@;
            node(&mut keys, &mut vals, self.queries[q]);
            proof {
                lemma_new_nodes(old_keys, old_vals, keys@, vals@, facts);
            }
            q = q + 1;
        }
        Solution { keys, vals }
    }

    /// Starts every place at what its own sources hold, and joins values along the dependencies
    /// until nothing changes.
    fn solve(&self) -> (r: Solution)
        ensures
            r.solves(self@),
    {
        let ghost facts = self@;
        let Solution { mut keys, mut vals } = self.sources();
        let mut edges: Vec<(usize, usize)> = Vec::new();
        while edges.len() < self.deps.len()
            invariant
                facts == self@,
                is_table(keys@, vals@),
                is_below(keys@, vals@, facts),
                has_srcs(keys@, vals@, facts, facts.srcs.len() as int),
                are_edges(keys@, edges@, facts),
            decreases self.deps.len() - edges.len(),
        {
            let (dst_key, src_key) = self.deps[edges.len()];
            let ghost old_keys = keys@;
            let ghost old_vals = vals@;
            let dst = node(&mut keys, &mut vals, dst_key);
            let src = node(&mut keys, &mut vals, src_key);
            edges.push((dst, src));
            proof {
                lemma_new_nodes(old_keys, old_vals, keys@, vals@, facts);
            }
        }
        let mut changed: bool = true;
        while changed
            invariant
                facts == self@,
                is_table(keys@, vals@),
                is_below(keys@, vals@, facts),
                has_srcs(keys@, vals@, facts, facts.srcs.len() as int),
                are_edges(keys@, edges@, facts),
                edges.len() == facts.deps.len(),
                !changed ==> forall|i: int|
                    0 <= i < edges.len() ==> {
                        let (dst, src) = #[trigger] edges[i];
                        vals[src as int]@.subset_of(vals[dst as int]@)
                    },
            decreases slack(vals@), if changed {
                1int
            } else {
                0int
            },
        {
            let ghost before = vals@;
            changed = false;
            let mut e: usize = 0;
            while e < edges.len()
                invariant
                    e <= edges.len(),
                    facts == self@,
                    is_table(keys@, vals@),
                    is_below(keys@, vals@, facts),
                    has_srcs(keys@, vals@, facts, facts.srcs.len() as int),
                    are_edges(keys@, edges@, facts),
                    !changed ==> vals@ == before && forall|i: int|
                        0 <= i < e ==> {
                            let (dst, src) = #[trigger] edges[i];
                            vals[src as int]@.subset_of(vals[dst as int]@)
                        },
                    changed ==> slack(vals@) < slack(before),
                decreases edges.len() - e,
            {
                let (dst, src) = edges[e];
                proof {
                    assert(facts.deps[e as int] == (keys[dst as int], keys[src as int]));
                }
                if propagate(&keys, &mut vals, dst, src, Ghost(facts)) {
                    changed = true;
                }
                e = e + 1;
            }
            proof {
                lemma_slack_is_nonnegative(vals@);
            }
        }
        proof {
            let found = |k: Key| value_at(keys@, vals@, k);
            assert forall|i: int| 0 <= i < facts.deps.len() implies found(
                (#[trigger] facts.deps[i]).1,
            ).subset_of(found(facts.deps[i].0)) by {
                let (dst, src) = edges[i];
                lemma_value_at(keys@, vals@, dst as int);
                lemma_value_at(keys@, vals@, src as int);
            }
            assert forall|i: int| 0 <= i < facts.srcs.len() implies (
            #[trigger] facts.srcs[i]).1.subset_of(found(facts.srcs[i].0)) by {}
            assert(facts.solved_by(found));
            crate::dataflow::law_fields_is_the_least_solution(facts, found);
            assert forall|k: Key| value_at(keys@, vals@, k) == #[trigger] facts.fields(k) by {
                assert(facts.fields(k).subset_of(found(k)));
                if keys@.contains(k) {
                    let n = keys@.index_of(k);
                    assert(vals[n]@.subset_of(facts.fields(keys[n])));
                }
                assert(value_at(keys@, vals@, k) =~= facts.fields(k));
            }
        }
        Solution { keys, vals }
    }

    /// The fields that `key` can hold: its value in the least solution of the equations.
    pub fn query(&mut self, key: Key) -> (r: FieldSet)
        requires
            old(self).wf(),
        ensures
            final(self).wf(),
            final(self)@ == old(self)@,
            r@ == old(self)@.fields(key),
    {
        let ghost facts = self@;
        let solution = match self.solution.take() {
            Some(solution) => solution,
            None => self.solve(),
        };
        let r = solution.value(key, Ghost(facts));
        self.solution = Some(solution);
        r
    }
}

} // verus!
