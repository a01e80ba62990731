//! What each operation does, member by member and instruction by instruction.
//!
//! A set has 65 members: the fields 0 to 63, and 64, which stands for the fields that `FI` names.
use crate::bytecode::{Float, Flow, Instr, Int, Key, NumTy, Reg, RegTy, Str, Ty, Variable};
use crate::column_parse::ColumnFacts;
use crate::dataflow::FlowFacts;
use crate::field_set::FieldSet;
use crate::field_usage::FieldUsage;
use crate::used_fields::UsageFacts;
use vstd::prelude::*;

verus! {

/// The set of all fields has every member. The set of a field has that field alone, or every
/// member where the field is larger than 63.
pub proof fn law_members_of_basic_sets(index: nat, member: nat)
    ensures
        crate::field_set::all_members().contains(member) <==> member <= 64,
        crate::field_set::members_of_field(index).contains(member) <==> if index <= 63 {
            member == index
        } else {
            member <= 64
        },
{
}

/// A set covers the fields that are members, and every field once it has all members. It waits for
/// `FI` where that is a member and some field is not.
pub proof fn law_what_a_set_covers(set: FieldSet, index: nat)
    ensures
        crate::field_set::has_field(set@, index) <==> index <= 63 && set@.contains(index),
        crate::field_set::covers(set@, index) <==> (index <= 63 && set@.contains(index)) || (
        forall|b: nat| b <= 64 ==> #[trigger] set@.contains(b)),
        crate::field_set::awaits_fi(set@) <==> set@.contains(64) && exists|b: nat|
            b <= 63 && !#[trigger] set@.contains(b),
        set@.contains(index) ==> index <= 64,
{
    let all = crate::field_set::all_members();
    set.lemma_members(set);
    if forall|b: nat| b <= 64 ==> #[trigger] set@.contains(b) {
        assert(set@ =~= all);
    }
    if set@ == all {
        assert forall|b: nat| b <= 64 implies #[trigger] set@.contains(b) by {
            assert(all.contains(b));
        }
    } else if set@.contains(64) && forall|b: nat| b <= 63 ==> #[trigger] set@.contains(b) {
        assert(set@ =~= all);
    }
}

/// The filled set has what `start` has, and the fields with one of `start` at or below and one of
/// `end` at or above them. Where `end` has all members, it has all too.
pub proof fn law_members_of_a_filled_set(start: FieldSet, end: FieldSet, member: nat)
    ensures
        crate::field_set::filled(start@, end@).contains(member) <==> {
            ||| start@.contains(member)
            ||| member <= 64 && forall|b: nat| b <= 64 ==> #[trigger] end@.contains(b)
            ||| exists|lo: nat, hi: nat|
                lo <= member <= hi <= 63 && #[trigger] start@.contains(lo)
                    && #[trigger] end@.contains(hi)
        },
{
    let all = crate::field_set::all_members();
    start.lemma_members(start);
    end.lemma_members(end);
    let result = crate::field_set::filled(start@, end@);
    if forall|b: nat| b <= 64 ==> #[trigger] end@.contains(b) {
        assert(end@ =~= all);
    }
    if end@ == all {
        assert forall|b: nat| b <= 64 implies #[trigger] end@.contains(b) by {
            assert(all.contains(b));
        }
    } else {
        if exists|lo: nat, hi: nat|
            lo <= member <= hi <= 63 && #[trigger] start@.contains(lo)
                && #[trigger] end@.contains(hi) {
            let (lo, hi) = choose|lo: nat, hi: nat|
                lo <= member <= hi <= 63 && #[trigger] start@.contains(lo)
                    && #[trigger] end@.contains(hi);
            assert(crate::field_set::has_field(start@, lo));
            assert(crate::field_set::has_field(end@, hi));
        }
        if result.contains(member) && !start@.contains(member) {
            let (lo, hi) = choose|lo: nat, hi: nat| #[trigger]
                crate::field_set::has_field(start@, lo) && #[trigger] crate::field_set::has_field(
                    end@,
                    hi,
                ) && lo <= member <= hi;
            assert(start@.contains(lo) && end@.contains(hi));
        }
    }
}

/// The merged set has what either set has, and nothing else.
pub proof fn law_merged_is_the_union(usage: FieldUsage, merged: FieldSet, member: nat, index: nat)
    requires
        merged@ == usage.members(),
    ensures
        merged@.contains(member) <==> usage.strs@.contains(member) || usage.floats@.contains(
            member,
        ),
        crate::field_set::covers(usage.strs@, index) || crate::field_set::covers(
            usage.floats@,
            index,
        ) ==> crate::field_set::covers(merged@, index),
        usage.floats@ == Set::<nat>::empty() ==> merged == usage.strs,
        usage.strs@ == Set::<nat>::empty() ==> merged == usage.floats,
{
    merged.lemma_members(usage.strs);
    merged.lemma_members(usage.floats);
    assert(usage.strs@.subset_of(merged@));
    assert(usage.floats@.subset_of(merged@));
    if crate::field_set::covers(usage.strs@, index) {
        crate::field_set::law_covers_is_monotone(usage.strs, merged, index);
    }
    if crate::field_set::covers(usage.floats@, index) {
        crate::field_set::law_covers_is_monotone(usage.floats, merged, index);
    }
    if usage.floats@ == Set::<nat>::empty() {
        assert(merged@ =~= usage.strs@);
    }
    if usage.strs@ == Set::<nat>::empty() {
        assert(merged@ =~= usage.floats@);
    }
}

/// A set that waits for `FI` gains the field that it is told and nothing else, or every member
/// where that field is larger than 63. Any other set stays as it is.
pub proof fn law_members_after_set_if_fi(before: FieldSet, field: nat, member: nat, index: nat)
    ensures
        crate::field_usage::with_field_if_fi(before@, field).contains(member) <==> {
            ||| before@.contains(member)
            ||| {
                &&& before@.contains(64)
                &&& exists|b: nat| b <= 63 && !#[trigger] before@.contains(b)
                &&& if field <= 63 {
                    member == field
                } else {
                    member <= 64
                }
            }
        },
        crate::field_set::covers(crate::field_usage::with_field_if_fi(before@, field), index)
            && field <= 63 ==> crate::field_set::covers(before@, index) || index == field || (
        forall|b: nat|
            b <= 64 && b != field ==> #[trigger] before@.contains(b)),
{
    law_what_a_set_covers(before, member);
    let after = crate::field_usage::with_field_if_fi(before@, field);
    if after == crate::field_set::all_members() && field <= 63 {
        assert forall|b: nat| b <= 64 && b != field implies #[trigger] before@.contains(b) by {
            assert(crate::field_set::all_members().contains(b));
            assert(after.contains(b));
        }
    }
}

/// A set that is told of a field keeps what it had, and a second time changes nothing.
pub proof fn law_set_if_fi_twice(before: FieldSet, after: FieldSet, field: nat)
    requires
        after@ == crate::field_usage::with_field_if_fi(before@, field),
    ensures
        before@.subset_of(after@),
        crate::field_usage::with_field_if_fi(after@, field) == after@,
{
    assert(crate::field_usage::with_field_if_fi(after@, field) =~= after@);
}

/// A register is the place that flows name it by: its number, with its type.
pub proof fn law_registers_are_places(i: Reg<Int>, f: Reg<Float>, s: Reg<Str>)
    ensures
        i.place() == Key::Reg(i.number(), Ty::Int),
        f.place() == Key::Reg(f.number(), Ty::Float),
        s.place() == Key::Reg(s.number(), Ty::Str),
{
}

/// Registers at the same place have the same number and the same type.
pub proof fn law_places_tell_registers_apart<T: RegTy, U: RegTy>(one: Reg<T>, other: Reg<U>)
    ensures
        one.place() == other.place() <==> one.number() == other.number() && T::marked()
            == U::marked(),
        one.place() == Key::Reg(one.number(), T::marked()),
{
}

/// An assignment solves the equations where each source has its members, and each place has the
/// members of the places that it depends on.
pub proof fn law_what_a_solution_is(facts: FlowFacts, f: spec_fn(Key) -> Set<nat>)
    ensures
        facts.solved_by(f) <==> {
            &&& forall|i: int, b: nat|
                0 <= i < facts.srcs.len() && (#[trigger] facts.srcs[i]).1.contains(b) ==> #[trigger] f(
                    facts.srcs[i].0,
                ).contains(b)
            &&& forall|i: int, b: nat|
                0 <= i < facts.deps.len() && f((#[trigger] facts.deps[i]).1).contains(b)
                    ==> #[trigger] f(facts.deps[i].0).contains(b)
        },
{
}

/// What a place holds is in every solution, and what is in every solution it holds. So it holds
/// the members of its sources and of the places that it depends on, and no member without a
/// cause.
pub proof fn law_what_a_place_holds(facts: FlowFacts, f: spec_fn(Key) -> Set<nat>)
    requires
        forall|i: int, b: nat|
            0 <= i < facts.srcs.len() && (#[trigger] facts.srcs[i]).1.contains(b) ==> #[trigger] f(
                facts.srcs[i].0,
            ).contains(b),
        forall|i: int, b: nat|
            0 <= i < facts.deps.len() && f((#[trigger] facts.deps[i]).1).contains(b)
                ==> #[trigger] f(facts.deps[i].0).contains(b),
    ensures
        forall|key: Key, b: nat| #[trigger]
            facts.fields(key).contains(b) ==> f(key).contains(b),
        forall|i: int, b: nat|
            0 <= i < facts.srcs.len() && (#[trigger] facts.srcs[i]).1.contains(b)
                ==> #[trigger] facts.fields(facts.srcs[i].0).contains(b),
        forall|i: int, b: nat|
            0 <= i < facts.deps.len() && facts.fields((#[trigger] facts.deps[i]).1).contains(b)
                ==> #[trigger] facts.fields(facts.deps[i].0).contains(b),
{
    crate::dataflow::law_fields_is_the_least_solution(facts, f);
    law_what_a_solution_is(facts, f);
    let least = |k: Key| facts.fields(k);
    assert(facts.solved_by(least));
    assert forall|i: int, b: nat|
        0 <= i < facts.srcs.len() && (
        #[trigger] facts.srcs[i]).1.contains(b) implies #[trigger] facts.fields(
        facts.srcs[i].0,
    ).contains(b) by {
        assert(facts.srcs[i].1.subset_of(least(facts.srcs[i].0)));
    }
    assert forall|i: int, b: nat|
        0 <= i < facts.deps.len() && facts.fields(
            (#[trigger] facts.deps[i]).1,
        ).contains(b) implies #[trigger] facts.fields(facts.deps[i].0).contains(b) by {
        assert(least(facts.deps[i].1).subset_of(least(facts.deps[i].0)));
    }
    assert forall|key: Key, b: nat| #[trigger] facts.fields(key).contains(b) implies f(
        key,
    ).contains(b) by {
        assert(facts.fields(key).subset_of(f(key)));
    }
}

spec fn has_all_srcs(srcs: Seq<(Key, Set<nat>)>, f: spec_fn(Key) -> Set<nat>) -> bool {
    forall|i: int| 0 <= i < srcs.len() ==> (#[trigger] srcs[i]).1.subset_of(f(srcs[i].0))
}

spec fn has_all_deps(deps: Seq<(Key, Key)>, f: spec_fn(Key) -> Set<nat>) -> bool {
    forall|i: int| 0 <= i < deps.len() ==> f((#[trigger] deps[i]).1).subset_of(f(deps[i].0))
}

proof fn lemma_solutions_by_parts(facts: FlowFacts, f: spec_fn(Key) -> Set<nat>)
    ensures
        facts.solved_by(f) == (has_all_srcs(facts.srcs, f) && has_all_deps(facts.deps, f)),
{
}

proof fn lemma_more_parts(
    srcs: Seq<(Key, Set<nat>)>,
    more_srcs: Seq<(Key, Set<nat>)>,
    deps: Seq<(Key, Key)>,
    more_deps: Seq<(Key, Key)>,
    f: spec_fn(Key) -> Set<nat>,
)
    ensures
        has_all_srcs(srcs + more_srcs, f) == (has_all_srcs(srcs, f) && has_all_srcs(more_srcs, f)),
        has_all_deps(deps + more_deps, f) == (has_all_deps(deps, f) && has_all_deps(more_deps, f)),
{
    let all_srcs = srcs + more_srcs;
    let all_deps = deps + more_deps;
    if has_all_srcs(all_srcs, f) {
        assert forall|i: int| 0 <= i < srcs.len() implies (#[trigger] srcs[i]).1.subset_of(
            f(srcs[i].0),
        ) by {
            assert(all_srcs[i] == srcs[i]);
        }
        assert forall|i: int| 0 <= i < more_srcs.len() implies (
        #[trigger] more_srcs[i]).1.subset_of(f(more_srcs[i].0)) by {
            assert(all_srcs[srcs.len() + i] == more_srcs[i]);
        }
    }
    if has_all_deps(all_deps, f) {
        assert forall|i: int| 0 <= i < deps.len() implies f((#[trigger] deps[i]).1).subset_of(
            f(deps[i].0),
        ) by {
            assert(all_deps[i] == deps[i]);
        }
        assert forall|i: int| 0 <= i < more_deps.len() implies f(
            (#[trigger] more_deps[i]).1,
        ).subset_of(f(more_deps[i].0)) by {
            assert(all_deps[deps.len() + i] == more_deps[i]);
        }
    }
}

/// A source asks of a solution that its place has its members, a dependency that one place has
/// what the other has. To be asked about a place changes no solution. Without facts, there is
/// nothing to solve.
pub proof fn law_what_facts_ask_for(
    facts: FlowFacts,
    f: spec_fn(Key) -> Set<nat>,
    key: Key,
    members: Set<nat>,
    src: Key,
)
    ensures
        facts.with_src(key, members).solved_by(f) <==> facts.solved_by(f) && members.subset_of(
            f(key),
        ),
        facts.with_dep(key, src).solved_by(f) <==> facts.solved_by(f) && f(src).subset_of(f(key)),
        facts.with_query(key).solved_by(f) <==> facts.solved_by(f),
        FlowFacts::none().solved_by(f),
        FlowFacts::none().fields(key) == Set::<nat>::empty(),
{
    lemma_solutions_by_parts(facts, f);
    lemma_solutions_by_parts(facts.with_src(key, members), f);
    lemma_solutions_by_parts(facts.with_dep(key, src), f);
    lemma_solutions_by_parts(facts.with_query(key), f);
    lemma_more_parts(facts.srcs, seq![(key, members)], facts.deps, seq![(key, src)], f);
    assert(facts.with_src(key, members).srcs =~= facts.srcs + seq![(key, members)]);
    assert(facts.with_dep(key, src).deps =~= facts.deps + seq![(key, src)]);
    assert(has_all_srcs(seq![(key, members)], f) == members.subset_of(f(key))) by {
        assert(seq![(key, members)][0] == (key, members));
    }
    assert(has_all_deps(seq![(key, src)], f) == f(src).subset_of(f(key))) by {
        assert(seq![(key, src)][0] == (key, src));
    }
    let nothing = |k: Key| Set::<nat>::empty();
    assert(FlowFacts::none().solved_by(nothing));
    crate::dataflow::law_fields_is_the_least_solution(FlowFacts::none(), nothing);
    assert(FlowFacts::none().fields(key).subset_of(nothing(key)));
    assert(FlowFacts::none().fields(key) =~= Set::<nat>::empty());
}

/// The flows of a high-level instruction ask that each destination has what its source has.
pub proof fn law_a_high_level_visit(
    before: UsageFacts,
    flows: Seq<Flow>,
    f: spec_fn(Key) -> Set<nat>,
)
    requires
        forall|i: int| 0 <= i < flows.len() ==> (#[trigger] flows[i]).src is Some,
    ensures
        before.after_hl(flows).flow.solved_by(f) <==> before.flow.solved_by(f) && forall|i: int|
            0 <= i < flows.len() ==> f((#[trigger] flows[i]).src->0).subset_of(f(flows[i].dst)),
        before.after_hl(flows).string_cols == before.string_cols,
        before.after_hl(flows).float_cols == before.float_cols,
        before.after_hl(flows).joins == before.joins,
{
    let after = before.after_hl(flows).flow;
    let added = flows.map_values(|flow: Flow| (flow.dst, flow.src.unwrap()));
    lemma_solutions_by_parts(before.flow, f);
    lemma_solutions_by_parts(after, f);
    lemma_more_parts(before.flow.srcs, Seq::empty(), before.flow.deps, added, f);
    assert(after.deps =~= before.flow.deps + added);
    if has_all_deps(added, f) {
        assert forall|i: int| 0 <= i < flows.len() implies f(
            (#[trigger] flows[i]).src->0,
        ).subset_of(f(flows[i].dst)) by {
            assert(f(added[i].1).subset_of(f(added[i].0)));
        }
    }
    if forall|i: int|
        0 <= i < flows.len() ==> f((#[trigger] flows[i]).src->0).subset_of(f(flows[i].dst)) {
        assert forall|i: int| 0 <= i < added.len() implies f((#[trigger] added[i]).1).subset_of(
            f(added[i].0),
        ) by {
            assert(f(flows[i].src->0).subset_of(f(flows[i].dst)));
        }
    }
}

/// A constant asks that its register holds it, or every member where it is larger than 63.
pub proof fn law_a_visit_to_a_constant(
    before: UsageFacts,
    dst: Reg<Int>,
    c: i64,
    flows: Seq<Flow>,
    f: spec_fn(Key) -> Set<nat>,
)
    requires
        c >= 0,
    ensures
        before.after_ll(Instr::StoreConstInt(dst, c), flows).flow.solved_by(f)
            <==> before.flow.solved_by(f) && if c <= 63 {
            f(Key::Reg(dst.number(), Ty::Int)).contains(c as nat)
        } else {
            forall|b: nat| b <= 64 ==> #[trigger] f(Key::Reg(dst.number(), Ty::Int)).contains(b)
        },
        before.after_ll(Instr::StoreConstInt(dst, c), flows).string_cols == before.string_cols,
        before.after_ll(Instr::StoreConstInt(dst, c), flows).float_cols == before.float_cols,
        before.after_ll(Instr::StoreConstInt(dst, c), flows).joins == before.joins,
{
    let key = Key::Reg(dst.number(), Ty::Int);
    let members = crate::field_set::members_of_field(c as nat);
    law_what_facts_ask_for(before.flow, f, key, members, key);
    if c <= 63 {
        assert(members.contains(c as nat));
    } else {
        assert forall|b: nat| b <= 64 implies members.contains(b) by {}
    }
}

/// Instructions that move values ask that each destination has what its source has, and zero
/// where there is no source.
pub proof fn law_a_visit_that_moves_values(
    before: UsageFacts,
    inst: Instr,
    flows: Seq<Flow>,
    f: spec_fn(Key) -> Set<nat>,
)
    requires
        inst == Instr::LoadVarStrMap(Variable::FI) || inst == Instr::StoreVarStrMap(Variable::FI)
            || inst == Instr::Lookup || inst == Instr::Store || inst == Instr::IterBegin || inst
            == Instr::IterGetNext || inst == Instr::Mov,
    ensures
        before.after_ll(inst, flows).flow.solved_by(f) <==> before.flow.solved_by(f) && forall|
            i: int,
        |
            0 <= i < flows.len() ==> match (#[trigger] flows[i]).src {
                Some(src) => f(src).subset_of(f(flows[i].dst)),
                None => f(flows[i].dst).contains(0),
            },
        before.after_ll(inst, flows).string_cols == before.string_cols,
        before.after_ll(inst, flows).float_cols == before.float_cols,
        before.after_ll(inst, flows).joins == before.joins,
{
    lemma_solutions_of_moves(before.flow, flows, f);
}

proof fn lemma_solutions_of_moves(
    facts: FlowFacts,
    flows: Seq<Flow>,
    f: spec_fn(Key) -> Set<nat>,
)
    ensures
        crate::used_fields::with_moves(facts, flows).solved_by(f) <==> facts.solved_by(f)
            && forall|i: int|
            0 <= i < flows.len() ==> match (#[trigger] flows[i]).src {
                Some(src) => f(src).subset_of(f(flows[i].dst)),
                None => f(flows[i].dst).contains(0),
            },
    decreases flows.len(),
{
    if flows.len() > 0 {
        let rest = flows.drop_last();
        let flow = flows.last();
        let before = crate::used_fields::with_moves(facts, rest);
        let zero = crate::field_set::members_of_field(0);
        lemma_solutions_of_moves(facts, rest, f);
        let src = match flow.src {
            Some(src) => src,
            None => flow.dst,
        };
        law_what_facts_ask_for(before, f, flow.dst, zero, src);
        assert(zero.contains(0));
        assert forall|i: int| 0 <= i < rest.len() implies #[trigger] rest[i] == flows[i] by {}
        let n = rest.len() as int;
        assert(flows[n] == flow);
        if forall|i: int|
            0 <= i < flows.len() ==> match (#[trigger] flows[i]).src {
                Some(src) => f(src).subset_of(f(flows[i].dst)),
                None => f(flows[i].dst).contains(0),
            } {
            assert forall|i: int| 0 <= i < rest.len() implies match (#[trigger] rest[i]).src {
                Some(src) => f(src).subset_of(f(rest[i].dst)),
                None => f(rest[i].dst).contains(0),
            } by {
                assert(rest[i] == flows[i]);
            }
        }
        if crate::used_fields::with_moves(facts, flows).solved_by(f) {
            assert forall|i: int| 0 <= i < flows.len() implies match (#[trigger] flows[i]).src {
                Some(src) => f(src).subset_of(f(flows[i].dst)),
                None => f(flows[i].dst).contains(0),
            } by {
                if i < n {
                    assert(rest[i] == flows[i]);
                }
            }
        }
    }
}

/// Every other instruction without columns asks that what it writes has every member: it can be
/// any field. These are conversions, loads and stores of other variables, constants below zero,
/// and all instructions that are not looked into.
pub proof fn law_a_visit_that_is_not_looked_into(
    before: UsageFacts,
    inst: Instr,
    flows: Seq<Flow>,
    f: spec_fn(Key) -> Set<nat>,
)
    requires
        match inst {
            Instr::StoreConstInt(dst, c) => c < 0,
            Instr::LoadVarStrMap(var) => var != Variable::FI,
            Instr::StoreVarStrMap(var) => var != Variable::FI,
            Instr::StrToFloat(dst, src) => true,
            Instr::Other => true,
            _ => false,
        },
    ensures
        before.after_ll(inst, flows).flow.solved_by(f) <==> before.flow.solved_by(f) && forall|
            i: int,
            b: nat,
        |
            0 <= i < flows.len() && b <= 64 ==> #[trigger] f((#[trigger] flows[i]).dst).contains(b),
        before.flow.wf() ==> forall|i: int, b: nat|
            0 <= i < flows.len() ==> (#[trigger] before.after_ll(inst, flows).flow.fields(
                (#[trigger] flows[i]).dst,
            ).contains(b) <==> b <= 64),
        before.after_ll(inst, flows).string_cols == before.string_cols,
        before.after_ll(inst, flows).float_cols == before.float_cols,
        before.after_ll(inst, flows).joins == before.joins,
{
    let all = crate::field_set::all_members();
    let after = before.after_ll(inst, flows).flow;
    let added = flows.map_values(|flow: Flow| (flow.dst, crate::field_set::all_members()));
    lemma_solutions_by_parts(before.flow, f);
    lemma_solutions_by_parts(after, f);
    lemma_more_parts(before.flow.srcs, added, before.flow.deps, Seq::empty(), f);
    assert(after.srcs =~= before.flow.srcs + added);
    if has_all_srcs(added, f) {
        assert forall|i: int, b: nat| 0 <= i < flows.len() && b <= 64 implies #[trigger] f(
            (#[trigger] flows[i]).dst,
        ).contains(b) by {
            assert(added[i].1.subset_of(f(added[i].0)));
            assert(all.contains(b));
        }
    }
    if forall|i: int, b: nat|
        0 <= i < flows.len() && b <= 64 ==> #[trigger] f((#[trigger] flows[i]).dst).contains(b) {
        assert forall|i: int| 0 <= i < added.len() implies (#[trigger] added[i]).1.subset_of(
            f(added[i].0),
        ) by {
            assert(added[i].0 == flows[i].dst);
        }
    }
    if before.flow.wf() {
        let most = |k: Key| crate::field_set::all_members();
        let least = |k: Key| after.fields(k);
        assert forall|i: int| 0 <= i < after.srcs.len() implies (
        #[trigger] after.srcs[i]).1.subset_of(all) by {
            if i < before.flow.srcs.len() {
                assert(after.srcs[i] == before.flow.srcs[i]);
            }
        }
        assert(after.solved_by(most));
        crate::dataflow::law_fields_is_the_least_solution(after, most);
        assert forall|i: int, b: nat| 0 <= i < flows.len() implies (#[trigger] after.fields(
            (#[trigger] flows[i]).dst,
        ).contains(b) <==> b <= 64) by {
            let n = before.flow.srcs.len() + i;
            assert(after.srcs[n] == added[i]);
            assert(after.srcs[n].1.subset_of(least(after.srcs[n].0)));
            assert(after.fields(flows[i].dst).subset_of(most(flows[i].dst)));
            assert(all.contains(b) == (b <= 64));
        }
    }
}

/// A column read asks that what it writes has every member, and that the result holds what its
/// register does: among the strings, or among the numbers.
pub proof fn law_a_visit_that_reads_a_column(
    before: UsageFacts,
    dst: Reg<Str>,
    float_dst: Reg<Float>,
    col: Reg<Int>,
    flows: Seq<Flow>,
    f: spec_fn(Key) -> Set<nat>,
)
    ensures
        before.after_ll(Instr::GetColumn(dst, col), flows).flow.solved_by(f)
            <==> before.flow.solved_by(f) && forall|b: nat|
            b <= 64 ==> #[trigger] f(Key::Reg(dst.number(), Ty::Str)).contains(b),
        before.after_ll(Instr::GetColumn(dst, col), flows).string_cols == before.string_cols.push(
            Key::Reg(col.number(), Ty::Int),
        ),
        before.after_ll(Instr::GetColumn(dst, col), flows).float_cols == before.float_cols,
        before.after_ll(Instr::GetColumn(dst, col), flows).joins == before.joins,
        before.after_ll(Instr::GetFloatColumn(float_dst, col), flows).flow.solved_by(f)
            <==> before.flow.solved_by(f) && forall|b: nat|
            b <= 64 ==> #[trigger] f(Key::Reg(float_dst.number(), Ty::Float)).contains(b),
        before.after_ll(Instr::GetFloatColumn(float_dst, col), flows).string_cols
            == before.string_cols,
        before.after_ll(Instr::GetFloatColumn(float_dst, col), flows).float_cols
            == before.float_cols.push(Key::Reg(col.number(), Ty::Int)),
        before.after_ll(Instr::GetFloatColumn(float_dst, col), flows).joins == before.joins,
{
    let number = Key::Reg(col.number(), Ty::Int);
    let string = Key::Reg(dst.number(), Ty::Str);
    let float = Key::Reg(float_dst.number(), Ty::Float);
    lemma_solutions_of_unknown(before.flow, f, number, string);
    lemma_solutions_of_unknown(before.flow, f, number, float);
}

/// A join asks that what it writes has every member, and that the result holds the fields from
/// what its first register holds to what its second one does.
pub proof fn law_a_visit_that_joins_columns(
    before: UsageFacts,
    inst: Instr,
    dst: Reg<Str>,
    start: Reg<Int>,
    end: Reg<Int>,
    flows: Seq<Flow>,
    f: spec_fn(Key) -> Set<nat>,
)
    requires
        inst == Instr::JoinCSV(dst, start, end) || inst == Instr::JoinTSV(dst, start, end) || inst
            == Instr::JoinColumns(dst, start, end),
    ensures
        before.after_ll(inst, flows).flow.solved_by(f) <==> before.flow.solved_by(f) && forall|
            b: nat,
        |
            b <= 64 ==> #[trigger] f(Key::Reg(dst.number(), Ty::Str)).contains(b),
        before.after_ll(inst, flows).string_cols == before.string_cols,
        before.after_ll(inst, flows).float_cols == before.float_cols,
        before.after_ll(inst, flows).joins == before.joins.push(
            (Key::Reg(start.number(), Ty::Int), Key::Reg(end.number(), Ty::Int)),
        ),
{
    let first = Key::Reg(start.number(), Ty::Int);
    let last = Key::Reg(end.number(), Ty::Int);
    let string = Key::Reg(dst.number(), Ty::Str);
    lemma_solutions_of_unknown(before.flow, f, first, string);
    lemma_solutions_of_unknown(before.flow.with_query(first), f, last, string);
    law_what_facts_ask_for(before.flow, f, first, Set::empty(), first);
}

proof fn lemma_solutions_of_unknown(
    facts: FlowFacts,
    f: spec_fn(Key) -> Set<nat>,
    query: Key,
    key: Key,
)
    ensures
        facts.with_query(query).with_src(key, crate::field_set::all_members()).solved_by(f)
            <==> facts.solved_by(f) && forall|b: nat| b <= 64 ==> #[trigger] f(key).contains(b),
{
    let all = crate::field_set::all_members();
    law_what_facts_ask_for(facts, f, query, all, query);
    law_what_facts_ask_for(facts.with_query(query), f, key, all, key);
    if all.subset_of(f(key)) {
        assert forall|b: nat| b <= 64 implies #[trigger] f(key).contains(b) by {
            assert(all.contains(b));
        }
    }
}

/// Before any visit, the random number generator and the keys of `FI` have every member, the
/// values of `FI` have 64, and nothing is read.
pub proof fn law_nothing_was_visited(f: spec_fn(Key) -> Set<nat>)
    ensures
        UsageFacts::initial().flow.solved_by(f) <==> {
            &&& f(Key::VarVal(Variable::FI)).contains(64)
            &&& forall|b: nat| b <= 64 ==> #[trigger] f(Key::Rng).contains(b)
            &&& forall|b: nat| b <= 64 ==> #[trigger] f(Key::VarKey(Variable::FI)).contains(b)
        },
        UsageFacts::initial().string_cols.len() == 0,
        UsageFacts::initial().float_cols.len() == 0,
        UsageFacts::initial().joins.len() == 0,
{
    let all = crate::field_set::all_members();
    let fi = set![crate::field_set::FI_INDEX as nat];
    let none = FlowFacts::none();
    let one = none.with_src(Key::Rng, all);
    let two = one.with_src(Key::VarVal(Variable::FI), fi);
    law_what_facts_ask_for(none, f, Key::Rng, all, Key::Rng);
    law_what_facts_ask_for(one, f, Key::VarVal(Variable::FI), fi, Key::Rng);
    law_what_facts_ask_for(two, f, Key::VarKey(Variable::FI), all, Key::Rng);
    assert(fi.contains(64));
    assert forall|b: nat| b <= 64 implies all.contains(b) by {}
    if all.subset_of(f(Key::Rng)) {
        assert forall|b: nat| b <= 64 implies #[trigger] f(Key::Rng).contains(b) by {
            assert(all.contains(b));
        }
    }
    if all.subset_of(f(Key::VarKey(Variable::FI))) {
        assert forall|b: nat| b <= 64 implies #[trigger] f(
            Key::VarKey(Variable::FI),
        ).contains(b) by {
            assert(all.contains(b));
        }
    }
}

/// A join reads where it can start, the fields from there to where it can end, the fields from 1
/// to there if it can start at `FI`, and every member if it has a start and can end at `FI`, or
/// can end anywhere.
pub proof fn law_members_of_a_join(start: Set<nat>, end: Set<nat>, member: nat)
    requires
        forall|b: nat| #[trigger] start.contains(b) ==> b <= 64,
        forall|b: nat| #[trigger] end.contains(b) ==> b <= 64,
    ensures
        crate::used_fields::joined(start, end).contains(member) <==> {
            ||| start.contains(member)
            ||| member <= 64 && end.contains(64) && exists|x: nat| #[trigger] start.contains(x)
            ||| member <= 64 && forall|b: nat| b <= 64 ==> #[trigger] end.contains(b)
            ||| exists|lo: nat, hi: nat|
                lo <= member <= hi <= 63 && #[trigger] start.contains(lo)
                    && #[trigger] end.contains(hi)
            ||| start.contains(64) && exists|hi: nat|
                1 <= member <= hi <= 63 && #[trigger] end.contains(hi)
        },
{
    let all = crate::field_set::all_members();
    let result = crate::used_fields::joined(start, end);
    if start != Set::<nat>::empty() && forall|x: nat| !#[trigger] start.contains(x) {
        assert(start =~= Set::empty());
    }
    if forall|b: nat| b <= 64 ==> #[trigger] end.contains(b) {
        assert(end =~= all);
    }
    if end == all {
        assert forall|b: nat| b <= 64 implies #[trigger] end.contains(b) by {
            assert(all.contains(b));
        }
    }
    if exists|lo: nat, hi: nat|
        lo <= member <= hi <= 63 && #[trigger] start.contains(lo) && #[trigger] end.contains(hi) {
        let (lo, hi) = choose|lo: nat, hi: nat|
            lo <= member <= hi <= 63 && #[trigger] start.contains(lo) && #[trigger] end.contains(
                hi,
            );
        assert(crate::field_set::has_field(start, lo));
        assert(crate::field_set::has_field(end, hi));
    }
    if exists|hi: nat| 1 <= member <= hi <= 63 && #[trigger] end.contains(hi) {
        let hi = choose|hi: nat| 1 <= member <= hi <= 63 && #[trigger] end.contains(hi);
        assert(crate::field_set::has_field(end, hi));
        assert(crate::used_fields::from_one(end).contains(member));
    }
    if crate::used_fields::from_one(end).contains(member) {
        let hi = choose|hi: nat| #[trigger]
            crate::field_set::has_field(end, hi) && member <= hi;
        assert(end.contains(hi));
    }
    if end != all && crate::field_set::filled(start, end).contains(member) && !start.contains(
        member,
    ) {
        let (lo, hi) = choose|lo: nat, hi: nat| #[trigger]
            crate::field_set::has_field(start, lo) && #[trigger] crate::field_set::has_field(
                end,
                hi,
            ) && lo <= member <= hi;
        assert(start.contains(lo) && end.contains(hi));
    }
}

/// Where some member is held by no float column, the fields to be read as floating-point numbers
/// are those of the float columns, and the fields to be read as strings are those of the string
/// columns and of the joins. What is in one of them takes nothing from the other.
pub proof fn law_known_floats_are_kept_apart(facts: UsageFacts, missing: nat, member: nat)
    requires
        missing <= 64,
        forall|i: int|
            0 <= i < facts.float_cols.len() ==> !facts.flow.fields(
                #[trigger] facts.float_cols[i],
            ).contains(missing),
    ensures
        facts.used_floats().contains(member) <==> exists|i: int|
            0 <= i < facts.float_cols.len() && facts.flow.fields(
                #[trigger] facts.float_cols[i],
            ).contains(member),
        facts.used_strs().contains(member) <==> {
            ||| exists|i: int|
                0 <= i < facts.string_cols.len() && facts.flow.fields(
                    #[trigger] facts.string_cols[i],
                ).contains(member)
            ||| exists|i: int|
                0 <= i < facts.joins.len() && crate::used_fields::joined(
                    facts.flow.fields((#[trigger] facts.joins[i]).0),
                    facts.flow.fields(facts.joins[i].1),
                ).contains(member)
        },
{
    assert(crate::field_set::all_members().contains(missing));
    assert(!crate::used_fields::members_at(facts.flow, facts.float_cols).contains(missing));
}

/// Where the float columns hold every member between them, every member is to be read as a string
/// and none as a floating-point number.
pub proof fn law_unknown_floats_are_read_as_strings(facts: UsageFacts, member: nat)
    requires
        facts.flow.wf(),
        forall|b: nat|
            #![trigger crate::field_set::all_members().contains(b)]
            b <= 64 ==> exists|i: int|
                0 <= i < facts.float_cols.len() && facts.flow.fields(
                    #[trigger] facts.float_cols[i],
                ).contains(b),
    ensures
        facts.used_strs().contains(member) <==> member <= 64,
        !facts.used_floats().contains(member),
{
    let all = crate::field_set::all_members();
    let floats = crate::used_fields::members_at(facts.flow, facts.float_cols);
    let most = |k: Key| crate::field_set::all_members();
    assert(facts.flow.solved_by(most));
    crate::dataflow::law_fields_is_the_least_solution(facts.flow, most);
    assert forall|b: nat| floats.contains(b) implies all.contains(b) by {
        let i = choose|i: int|
            0 <= i < facts.float_cols.len() && facts.flow.fields(
                #[trigger] facts.float_cols[i],
            ).contains(b);
        assert(facts.flow.fields(facts.float_cols[i]).subset_of(most(facts.float_cols[i])));
    }
    assert(floats =~= all);
}

/// Nothing is known of a fresh function. A column read notes its two registers and changes
/// nothing else.
pub proof fn law_a_column_read_is_noted(
    before: ColumnFacts,
    dst: NumTy,
    src: NumTy,
    reg: NumTy,
)
    ensures
        !ColumnFacts::none().columns.contains_key(reg),
        !ColumnFacts::none().other_uses.contains(reg),
        before.with_column(dst, src).columns.contains_key(reg) <==> reg == dst
            || before.columns.contains_key(reg),
        before.with_column(dst, src).columns[dst] == src,
        reg != dst && before.columns.contains_key(reg) ==> before.with_column(
            dst,
            src,
        ).columns[reg] == before.columns[reg],
        before.with_column(dst, src).other_uses.contains(reg) <==> before.other_uses.contains(reg),
{
}

/// The use of registers counts for those that a column was read into, where they are used as
/// strings, and changes nothing else.
pub proof fn law_a_use_is_noted(before: ColumnFacts, regs: Seq<(NumTy, Ty)>, reg: NumTy)
    ensures
        before.with_uses(regs).columns == before.columns,
        before.with_uses(regs).other_uses.contains(reg) <==> before.other_uses.contains(reg) || (
        before.columns.contains_key(reg) && exists|i: int|
            0 <= i < regs.len() && #[trigger] regs[i] == (reg, Ty::Str)),
{
}

/// Fields that two sets agree on have the same labels.
proof fn lemma_labels_agree(one: Set<nat>, other: Set<nat>, bound: nat)
    requires
        forall|b: nat| b < bound ==> one.contains(b) == #[trigger] other.contains(b),
    ensures
        crate::field_text::field_labels(one, bound) == crate::field_text::field_labels(
            other,
            bound,
        ),
    decreases bound,
{
    if bound > 0 {
        lemma_labels_agree(one, other, (bound - 1) as nat);
        assert(one.contains((bound - 1) as nat) == other.contains((bound - 1) as nat));
    }
}

/// There are no labels beyond the last member, and none at all only where there are no members.
proof fn lemma_labels_stop(members: Set<nat>, bound: nat, top: nat)
    requires
        bound <= top,
        forall|b: nat| bound <= b < top ==> !#[trigger] members.contains(b),
    ensures
        crate::field_text::field_labels(members, top) == crate::field_text::field_labels(
            members,
            bound,
        ),
    decreases top,
{
    if bound < top {
        lemma_labels_stop(members, bound, (top - 1) as nat);
        assert(!members.contains((top - 1) as nat));
    }
}

proof fn lemma_no_labels(members: Set<nat>, bound: nat)
    ensures
        crate::field_text::field_labels(members, bound).len() == 0 <==> forall|b: nat|
            b < bound ==> !#[trigger] members.contains(b),
    decreases bound,
{
    if bound > 0 {
        lemma_no_labels(members, (bound - 1) as nat);
        let last = (bound - 1) as nat;
        if !members.contains(last) && forall|b: nat| b < last ==> !#[trigger] members.contains(b) {
            assert forall|b: nat| b < bound implies !#[trigger] members.contains(b) by {
                assert(b < last || b == last);
            }
        }
    }
}

/// One more label stands in front of the closing bracket, behind a comma and a space, in double
/// quotes.
proof fn lemma_one_more_label(labels: Seq<Seq<char>>, label: Seq<char>)
    ensures
        seq!['['] + crate::field_text::comma_separated(labels.push(label)) + seq![']']
            == if labels.len() == 0 {
            seq!['[', '"'] + label + seq!['"', ']']
        } else {
            (seq!['['] + crate::field_text::comma_separated(labels) + seq![']']).drop_last() + seq![
                ',',
                ' ',
                '"',
            ] + label + seq!['"', ']']
        },
{
    let more = seq!['['] + crate::field_text::comma_separated(labels.push(label)) + seq![']'];
    assert(labels.push(label).drop_last() =~= labels);
    if labels.len() == 0 {
        assert(crate::field_text::comma_separated(labels) =~= Seq::empty());
        assert(labels.push(label).len() == 1 && labels.push(label).last() == label);
        assert(crate::field_text::comma_separated(labels.push(label)) =~= seq!['"'] + label
            + seq!['"']);
        assert(more =~= seq!['[', '"'] + label + seq!['"', ']']);
    } else {
        assert(more =~= (seq!['['] + crate::field_text::comma_separated(labels)
            + seq![']']).drop_last() + seq![',', ' ', '"'] + label + seq!['"', ']']);
    }
}

/// `n` in decimal: its digits, the last of which is the remainder by ten.
pub proof fn law_digits_of_a_number(n: nat)
    ensures
        crate::field_text::decimal(n) == if n < 10 {
            seq![(48 + n) as char]
        } else {
            crate::field_text::decimal(n / 10).push((48 + n % 10) as char)
        },
{
    assert(crate::field_text::digit_char(n % 10) == (48 + n % 10) as char);
    if n < 10 {
        assert(n % 10 == n);
    }
}

/// The text of a set without members, and of one with all.
pub proof fn law_text_of_the_extremes()
    ensures
        crate::field_text::set_text(Set::empty()) == seq!['[', ']'],
        crate::field_text::set_text(Set::new(|b: nat| b <= 64)) == seq!['<', 'A', 'L', 'L', '>'],
{
    let none = Set::<nat>::empty();
    lemma_no_labels(none, 64);
    assert(crate::field_set::all_members().contains(0));
    assert(crate::field_text::labels(none) =~= Seq::empty());
    assert(crate::field_text::set_text(none) =~= seq!['[', ']']);
    assert(Set::new(|b: nat| b <= 64) =~= crate::field_set::all_members());
}

/// A field larger than all others stands last in the text: the text of a larger set is that of
/// the smaller one with the field in front of the closing bracket.
pub proof fn law_text_of_one_more_field(members: Set<nat>, next: nat)
    requires
        next <= 63,
        forall|b: nat| #[trigger] members.contains(b) ==> b < next,
    ensures
        crate::field_text::set_text(members.insert(next)) == if members == Set::<nat>::empty() {
            seq!['[', '"'] + crate::field_text::decimal(next) + seq!['"', ']']
        } else {
            crate::field_text::set_text(members).drop_last() + seq![',', ' ', '"']
                + crate::field_text::decimal(next) + seq!['"', ']']
        },
{
    let more = members.insert(next);
    assert(crate::field_set::all_members().contains(64));
    assert(!more.contains(64) && !members.contains(64));
    lemma_labels_stop(members, next, 64);
    lemma_labels_stop(more, (next + 1) as nat, 64);
    lemma_labels_agree(members, more, next);
    lemma_no_labels(members, 64);
    let labels = crate::field_text::labels(members);
    assert(crate::field_text::labels(more) =~= labels.push(crate::field_text::decimal(next)));
    lemma_one_more_label(labels, crate::field_text::decimal(next));
    if labels.len() == 0 {
        assert(members =~= Set::empty());
    }
}

/// `FI` stands behind all fields in the text.
pub proof fn law_text_of_fi(members: Set<nat>, absent: nat)
    requires
        forall|b: nat| #[trigger] members.contains(b) ==> b <= 63,
        absent <= 63,
        !members.contains(absent),
    ensures
        crate::field_text::set_text(members.insert(64)) == if members == Set::<nat>::empty() {
            seq!['[', '"'] + seq!['F', 'I', '[', '.', '.', ']'] + seq!['"', ']']
        } else {
            crate::field_text::set_text(members).drop_last() + seq![',', ' ', '"'] + seq![
                'F',
                'I',
                '[',
                '.',
                '.',
                ']',
            ] + seq!['"', ']']
        },
{
    let more = members.insert(64);
    let fi = seq!['F', 'I', '[', '.', '.', ']'];
    assert(crate::field_set::all_members().contains(absent));
    assert(!more.contains(absent));
    assert(!members.contains(64));
    lemma_labels_agree(members, more, 64);
    lemma_no_labels(members, 64);
    let labels = crate::field_text::labels(members);
    assert(crate::field_text::labels(more) =~= labels.push(fi));
    lemma_one_more_label(labels, fi);
    if labels.len() == 0 {
        assert(members =~= Set::empty());
    }
}

} // verus!
