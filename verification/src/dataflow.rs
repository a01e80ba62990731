//! The equations of a dataflow analysis, and their least solution.
use crate::bytecode::Key;
use vstd::prelude::*;

verus! {

/// The values that an analysis computes with.
pub trait JoinSemiLattice: Sized {
    /// What can be done to a value on its way from one place to another.
    type Func;

    /// The value that is below all others.
    spec fn least() -> Self;

    /// The join of `self` with what `func` makes of `other`.
    spec fn joined(self, other: Self, func: Self::Func) -> Self;

    fn bottom() -> (r: Self)
        ensures
            r == Self::least(),
    ;

    /// Joins what `func` makes of `other` into `self`, and tells whether `self` has changed.
    fn invoke(&mut self, other: &Self, func: &Self::Func) -> (changed: bool)
        ensures
            *final(self) == old(self).joined(*other, *func),
            changed == (*final(self) != *old(self)),
    ;
}

/// What is known of the values that move through a program: the equations of an analysis.
#[verifier::ext_equal]
pub struct FlowFacts {
    /// Places with the field sets that they hold from the start.
    pub srcs: Seq<(Key, Set<nat>)>,
    /// Pairs of places, of which the first can take on at least any value of the second.
    pub deps: Seq<(Key, Key)>,
    /// The places that the analysis is asked about.
    pub queries: Seq<Key>,
}

impl FlowFacts {
    /// No facts.
    pub open spec fn none() -> FlowFacts {
        FlowFacts { srcs: Seq::empty(), deps: Seq::empty(), queries: Seq::empty() }
    }

    /// With one more source.
    pub open spec fn with_src(self, key: Key, members: Set<nat>) -> FlowFacts {
        FlowFacts { srcs: self.srcs.push((key, members)), ..self }
    }

    /// With one more dependency: `dst` can take on any value of `src`.
    pub open spec fn with_dep(self, dst: Key, src: Key) -> FlowFacts {
        FlowFacts { deps: self.deps.push((dst, src)), ..self }
    }

    /// With one more place that the analysis is asked about.
    pub open spec fn with_query(self, key: Key) -> FlowFacts {
        FlowFacts { queries: self.queries.push(key), ..self }
    }

    /// Whether all sources hold members of field sets.
    pub open spec fn wf(self) -> bool {
        forall|i: int|
            0 <= i < self.srcs.len() ==> (#[trigger] self.srcs[i]).1.subset_of(
                crate::field_set::all_members(),
            )
    }

    /// Whether the assignment `f` of members to places agrees with all facts: it gives each
    /// source what it holds, and each place what the places it depends on have.
    pub open spec fn solved_by(self, f: spec_fn(Key) -> Set<nat>) -> bool {
        &&& forall|i: int|
            0 <= i < self.srcs.len() ==> (#[trigger] self.srcs[i]).1.subset_of(f(self.srcs[i].0))
        &&& forall|i: int|
            0 <= i < self.deps.len() ==> f((#[trigger] self.deps[i]).1).subset_of(
                f(self.deps[i].0),
            )
    }

    /// The members that every assignment which agrees with the facts gives to `key`: the least
    /// solution of the equations.
    pub open spec fn fields(self, key: Key) -> Set<nat> {
        Set::new(
            |b: nat|
                forall|f: spec_fn(Key) -> Set<nat>| #[trigger]
                    self.solved_by(f) ==> f(key).contains(b),
        )
    }

    /// Whether every fact of `self` is one of `other`.
    pub open spec fn within(self, other: FlowFacts) -> bool {
        &&& forall|i: int|
            0 <= i < self.srcs.len() ==> other.srcs.contains(#[trigger] self.srcs[i])
        &&& forall|i: int|
            0 <= i < self.deps.len() ==> other.deps.contains(#[trigger] self.deps[i])
    }
}

/// [`FlowFacts::fields`] is a solution of the equations, and below every other solution.
pub proof fn law_fields_is_the_least_solution(facts: FlowFacts, f: spec_fn(Key) -> Set<nat>)
    ensures
        facts.solved_by(|k: Key| facts.fields(k)),
        facts.solved_by(f) ==> forall|k: Key| (#[trigger] facts.fields(k)).subset_of(f(k)),
{
    let least = |k: Key| facts.fields(k);
    assert forall|i: int| 0 <= i < facts.srcs.len() implies (
    #[trigger] facts.srcs[i]).1.subset_of(least(facts.srcs[i].0)) by {}
    assert forall|i: int| 0 <= i < facts.deps.len() implies least(
        (#[trigger] facts.deps[i]).1,
    ).subset_of(least(facts.deps[i].0)) by {
        let (dst, src) = facts.deps[i];
        assert forall|b: nat| facts.fields(src).contains(b) implies #[trigger] facts.fields(
            dst,
        ).contains(b) by {
            assert forall|g: spec_fn(Key) -> Set<nat>| #[trigger] facts.solved_by(g) implies g(
                dst,
            ).contains(b) by {
                assert(g(src).subset_of(g(dst)));
            }
        }
    }
}

/// The equation of a place: its members are those of its own sources and those of the places
/// that it depends on, and no others. A place with neither has none.
pub proof fn law_fields_satisfy_the_equations(facts: FlowFacts, key: Key, member: nat)
    ensures
        facts.fields(key).contains(member) <==> {
            ||| exists|i: int|
                0 <= i < facts.srcs.len() && (#[trigger] facts.srcs[i]).0 == key
                    && facts.srcs[i].1.contains(member)
            ||| exists|i: int|
                0 <= i < facts.deps.len() && (#[trigger] facts.deps[i]).0 == key && facts.fields(
                    facts.deps[i].1,
                ).contains(member)
        },
{
    let least = |k: Key| facts.fields(k);
    law_fields_is_the_least_solution(facts, least);
    let from_src = exists|i: int|
        0 <= i < facts.srcs.len() && (#[trigger] facts.srcs[i]).0 == key
            && facts.srcs[i].1.contains(member);
    let from_dep = exists|i: int|
        0 <= i < facts.deps.len() && (#[trigger] facts.deps[i]).0 == key && facts.fields(
            facts.deps[i].1,
        ).contains(member);
    if from_src {
        let i = choose|i: int|
            0 <= i < facts.srcs.len() && (#[trigger] facts.srcs[i]).0 == key
                && facts.srcs[i].1.contains(member);
        assert(facts.srcs[i].1.subset_of(least(facts.srcs[i].0)));
    } else if from_dep {
        let i = choose|i: int|
            0 <= i < facts.deps.len() && (#[trigger] facts.deps[i]).0 == key && facts.fields(
                facts.deps[i].1,
            ).contains(member);
        assert(least(facts.deps[i].1).subset_of(least(facts.deps[i].0)));
    } else if facts.fields(key).contains(member) {
        // Without the member, `key` would still have all that the facts ask for.
        let smaller = |k: Key|
            if k == key {
                facts.fields(k).remove(member)
            } else {
                facts.fields(k)
            };
        assert forall|i: int| 0 <= i < facts.srcs.len() implies (
        #[trigger] facts.srcs[i]).1.subset_of(smaller(facts.srcs[i].0)) by {
            assert(facts.srcs[i].1.subset_of(least(facts.srcs[i].0)));
        }
        assert forall|i: int| 0 <= i < facts.deps.len() implies smaller(
            (#[trigger] facts.deps[i]).1,
        ).subset_of(smaller(facts.deps[i].0)) by {
            assert(least(facts.deps[i].1).subset_of(least(facts.deps[i].0)));
        }
        assert(facts.solved_by(smaller));
        assert(smaller(key).contains(member));
    }
}

/// More facts never take a member away from a place.
pub proof fn law_fields_grow_with_the_facts(facts: FlowFacts, more: FlowFacts, key: Key)
    requires
        facts.within(more),
    ensures
        facts.fields(key).subset_of(more.fields(key)),
{
    let least = |k: Key| more.fields(k);
    law_fields_is_the_least_solution(more, least);
    assert forall|i: int| 0 <= i < facts.srcs.len() implies (
    #[trigger] facts.srcs[i]).1.subset_of(least(facts.srcs[i].0)) by {
        let j = choose|j: int| 0 <= j < more.srcs.len() && more.srcs[j] == facts.srcs[i];
        assert(more.srcs[j].1.subset_of(least(more.srcs[j].0)));
    }
    assert forall|i: int| 0 <= i < facts.deps.len() implies least(
        (#[trigger] facts.deps[i]).1,
    ).subset_of(least(facts.deps[i].0)) by {
        let j = choose|j: int| 0 <= j < more.deps.len() && more.deps[j] == facts.deps[i];
        assert(least(more.deps[j].1).subset_of(least(more.deps[j].0)));
    }
    law_fields_is_the_least_solution(facts, least);
}

} // verus!
