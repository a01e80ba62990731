//! Why the fields that the analysis finds are all that a program can use.
use crate::bytecode::{Flow, Float, Instr, Int, Key, Reg, Str, Ty, Variable};
use crate::dataflow::FlowFacts;
use crate::used_fields::UsageFacts;
use vstd::prelude::*;

verus! {

/// An instruction that the analysis visits, with its flows.
pub enum Visit {
    High(Seq<Flow>),
    Low(Instr, Seq<Flow>),
}

/// A place takes on a value. A value that the map `FI` held is told apart from the others: it is
/// a field index that is known once the header is read.
pub struct Event {
    pub key: Key,
    pub value: nat,
    pub from_fi: bool,
}

impl UsageFacts {
    /// What is known after one more visit.
    pub open spec fn after(self, visit: Visit) -> UsageFacts {
        match visit {
            Visit::High(flows) => self.after_hl(flows),
            Visit::Low(inst, flows) => self.after_ll(inst, flows),
        }
    }

    /// Whether all that is known in `self` is known in `other`.
    pub open spec fn within(self, other: UsageFacts) -> bool {
        &&& self.flow.within(other.flow)
        &&& forall|i: int|
            0 <= i < self.string_cols.len() ==> other.string_cols.contains(
                #[trigger] self.string_cols[i],
            )
        &&& forall|i: int|
            0 <= i < self.float_cols.len() ==> other.float_cols.contains(
                #[trigger] self.float_cols[i],
            )
        &&& forall|i: int|
            0 <= i < self.joins.len() ==> other.joins.contains(#[trigger] self.joins[i])
    }

    /// The fields that are used as either type.
    pub open spec fn used(self) -> Set<nat> {
        self.used_strs().union(self.used_floats())
    }

    /// The fields that are used as either type, once the field `field` that `FI` names is known.
    pub open spec fn used_with_fi(self, field: nat) -> Set<nat> {
        crate::field_usage::with_field_if_fi(self.used_strs(), field).union(
            crate::field_usage::with_field_if_fi(self.used_floats(), field),
        )
    }
}

/// What is known of a program after all its instructions were visited.
pub open spec fn visited(program: Seq<Visit>) -> UsageFacts
    decreases program.len(),
{
    if program.len() == 0 {
        UsageFacts::initial()
    } else {
        visited(program.drop_last()).after(program.last())
    }
}

/// Whether a place has a value before any instruction runs: the random number generator and the
/// keys of `FI` any value, the values of `FI` the fields that it names.
pub open spec fn is_initial(event: Event) -> bool {
    if event.from_fi {
        event.key == Key::VarVal(Variable::FI)
    } else {
        event.key == Key::Rng || event.key == Key::VarKey(Variable::FI)
    }
}

/// Whether an instruction can make a value itself: a constant, what a column holds, or whatever
/// an instruction computes that the analysis does not look into. A lookup or another instruction
/// that moves values makes a zero where it moves none.
pub open spec fn makes(visit: Visit, event: Event) -> bool {
    &&& !event.from_fi
    &&& match visit {
        Visit::High(flows) => false,
        Visit::Low(inst, flows) => match inst {
            Instr::StoreConstInt(dst, c) if c >= 0 => event.key == Key::Reg(dst.number(), Ty::Int)
                && event.value == c,
            Instr::GetColumn(dst, col) => event.key == Key::Reg(dst.number(), Ty::Str),
            Instr::GetFloatColumn(dst, col) => event.key == Key::Reg(dst.number(), Ty::Float),
            Instr::JoinCSV(dst, start, end) => event.key == Key::Reg(dst.number(), Ty::Str),
            Instr::JoinTSV(dst, start, end) => event.key == Key::Reg(dst.number(), Ty::Str),
            Instr::JoinColumns(dst, start, end) => event.key == Key::Reg(dst.number(), Ty::Str),
            Instr::LoadVarStrMap(Variable::FI)
            | Instr::StoreVarStrMap(Variable::FI)
            | Instr::Lookup
            | Instr::Store
            | Instr::IterBegin
            | Instr::IterGetNext
            | Instr::Mov => event.value == 0 && flows.contains(
                Flow { dst: event.key, src: None },
            ),
            _ => exists|i: int| 0 <= i < flows.len() && (#[trigger] flows[i]).dst == event.key,
        },
    }
}

/// Whether an instruction can move a value from one place to another.
pub open spec fn moves(visit: Visit, from: Key, to: Key) -> bool {
    match visit {
        Visit::High(flows) => flows.contains(Flow { dst: to, src: Some(from) }),
        Visit::Low(inst, flows) => match inst {
            Instr::LoadVarStrMap(Variable::FI)
            | Instr::StoreVarStrMap(Variable::FI)
            | Instr::Lookup
            | Instr::Store
            | Instr::IterBegin
            | Instr::IterGetNext
            | Instr::Mov => flows.contains(Flow { dst: to, src: Some(from) }),
            _ => false,
        },
    }
}

/// Whether event `i` has a cause: it is there from the start, or an instruction makes the value,
/// or moves it from a place that had it earlier.
pub open spec fn is_caused(program: Seq<Visit>, run: Seq<Event>, i: int) -> bool {
    ||| is_initial(run[i])
    ||| exists|v: int| 0 <= v < program.len() && makes(#[trigger] program[v], run[i])
    ||| exists|v: int, j: int|
        0 <= v < program.len() && 0 <= j < i && moves(
            #[trigger] program[v],
            (#[trigger] run[j]).key,
            run[i].key,
        ) && run[j].value == run[i].value && run[j].from_fi == run[i].from_fi
}

/// Whether `run` is a history of values that the program can have, its instructions executed in
/// any order and any number of times.
pub open spec fn is_run(program: Seq<Visit>, run: Seq<Event>) -> bool {
    forall|i: int| 0 <= i < run.len() ==> #[trigger] is_caused(program, run, i)
}

/// Whether a set with these members allows for the value of an event.
pub open spec fn allows(members: Set<nat>, event: Event) -> bool {
    if event.from_fi {
        members.contains(crate::field_set::FI_INDEX as nat)
    } else {
        crate::field_set::covers(members, event.value)
    }
}

/// The facts of a visit that moves values: all its flows, and what was known before.
proof fn lemma_with_moves(facts: FlowFacts, flows: Seq<Flow>)
    requires
        facts.wf(),
    ensures
        crate::used_fields::with_moves(facts, flows).wf(),
        facts.within(crate::used_fields::with_moves(facts, flows)),
        forall|dst: Key, src: Key|
            flows.contains(Flow { dst, src: Some(src) })
                ==> #[trigger] crate::used_fields::with_moves(facts, flows).deps.contains(
                (dst, src),
            ),
        forall|dst: Key|
            flows.contains(Flow { dst, src: None })
                ==> #[trigger] crate::used_fields::with_moves(facts, flows).srcs.contains(
                (dst, crate::field_set::members_of_field(0)),
            ),
    decreases flows.len(),
{
    let after = crate::used_fields::with_moves(facts, flows);
    if flows.len() > 0 {
        let rest = flows.drop_last();
        let before = crate::used_fields::with_moves(facts, rest);
        lemma_with_moves(facts, rest);
        assert forall|src: (Key, Set<nat>)| before.srcs.contains(src) implies
            #[trigger] after.srcs.contains(src) by {
            assert(after.srcs[before.srcs.index_of(src)] == src);
        }
        assert forall|dep: (Key, Key)| before.deps.contains(dep) implies
            #[trigger] after.deps.contains(dep) by {
            assert(after.deps[before.deps.index_of(dep)] == dep);
        }
        assert forall|flow: Flow| #[trigger] flows.contains(flow) implies rest.contains(flow)
            || flow == flows.last() by {
            let i = flows.index_of(flow);
            if i < rest.len() {
                assert(rest[i] == flow);
            }
        }
        assert forall|dst: Key, src: Key| flows.contains(Flow { dst, src: Some(src) }) implies
            #[trigger] after.deps.contains((dst, src)) by {
            if rest.contains(Flow { dst, src: Some(src) }) {
                assert(before.deps.contains((dst, src)));
            } else {
                assert(after.deps.last() == (dst, src));
            }
        }
        assert forall|dst: Key| flows.contains(Flow { dst, src: None }) implies
            #[trigger] after.srcs.contains((dst, crate::field_set::members_of_field(0))) by {
            if rest.contains(Flow { dst, src: None }) {
                assert(before.srcs.contains((dst, crate::field_set::members_of_field(0))));
            } else {
                assert(after.srcs.last() == (dst, crate::field_set::members_of_field(0)));
            }
        }
    } else {
        assert forall|i: int| 0 <= i < facts.srcs.len() implies after.srcs.contains(
            #[trigger] facts.srcs[i],
        ) by {}
        assert forall|i: int| 0 <= i < facts.deps.len() implies after.deps.contains(
            #[trigger] facts.deps[i],
        ) by {}
    }
}

/// Facts that start with other facts have all of them.
proof fn lemma_within_prefix(facts: FlowFacts, more: FlowFacts)
    requires
        facts.srcs.is_prefix_of(more.srcs),
        facts.deps.is_prefix_of(more.deps),
    ensures
        facts.within(more),
{
    assert forall|i: int| 0 <= i < facts.srcs.len() implies more.srcs.contains(
        #[trigger] facts.srcs[i],
    ) by {
        assert(more.srcs[i] == facts.srcs[i]);
    }
    assert forall|i: int| 0 <= i < facts.deps.len() implies more.deps.contains(
        #[trigger] facts.deps[i],
    ) by {
        assert(more.deps[i] == facts.deps[i]);
    }
}

/// The facts of a visit that is not looked into: all that it writes, and what was known before.
proof fn lemma_with_unknowns(facts: FlowFacts, flows: Seq<Flow>)
    requires
        facts.wf(),
    ensures
        crate::used_fields::with_unknowns(facts, flows).wf(),
        facts.within(crate::used_fields::with_unknowns(facts, flows)),
        forall|i: int|
            0 <= i < flows.len() ==> crate::used_fields::with_unknowns(facts, flows).srcs.contains(
                ((#[trigger] flows[i]).dst, crate::field_set::all_members()),
            ),
{
    let after = crate::used_fields::with_unknowns(facts, flows);
    lemma_within_prefix(facts, after);
    assert forall|i: int| 0 <= i < flows.len() implies after.srcs.contains(
        ((#[trigger] flows[i]).dst, crate::field_set::all_members()),
    ) by {
        assert(after.srcs[facts.srcs.len() + i] == (
            flows[i].dst,
            crate::field_set::all_members(),
        ));
    }
}

/// The facts of a visit to a high-level instruction: all its flows, and what was known before.
proof fn lemma_with_deps(facts: FlowFacts, flows: Seq<Flow>)
    requires
        facts.wf(),
    ensures
        crate::used_fields::with_deps(facts, flows).wf(),
        facts.within(crate::used_fields::with_deps(facts, flows)),
        forall|dst: Key, src: Key|
            flows.contains(Flow { dst, src: Some(src) })
                ==> #[trigger] crate::used_fields::with_deps(facts, flows).deps.contains(
                (dst, src),
            ),
{
    let after = crate::used_fields::with_deps(facts, flows);
    lemma_within_prefix(facts, after);
    assert forall|dst: Key, src: Key| flows.contains(Flow { dst, src: Some(src) }) implies
        #[trigger] after.deps.contains((dst, src)) by {
        let i = flows.index_of(Flow { dst, src: Some(src) });
        assert(after.deps[facts.deps.len() + i] == (dst, src));
    }
}

/// A visit takes nothing away from what is known.
pub proof fn law_visits_only_add(facts: UsageFacts, visit: Visit)
    requires
        facts.flow.wf(),
    ensures
        facts.within(facts.after(visit)),
        facts.after(visit).flow.wf(),
{
    let after = facts.after(visit);
    match visit {
        Visit::High(flows) => {
            lemma_with_deps(facts.flow, flows);
        },
        Visit::Low(inst, flows) => {
            lemma_with_moves(facts.flow, flows);
            lemma_with_unknowns(facts.flow, flows);
            match inst {
                Instr::StoreConstInt(_, _)
                | Instr::GetColumn(_, _)
                | Instr::GetFloatColumn(_, _)
                | Instr::JoinCSV(_, _, _)
                | Instr::JoinTSV(_, _, _)
                | Instr::JoinColumns(_, _, _) => {
                    if after.flow.srcs.len() == facts.flow.srcs.len() + 1 {
                        lemma_within_prefix(facts.flow, after.flow);
                    }
                },
                _ => {},
            }
        },
    }
    assert forall|i: int| 0 <= i < facts.string_cols.len() implies after.string_cols.contains(
        #[trigger] facts.string_cols[i],
    ) by {
        assert(after.string_cols[i] == facts.string_cols[i]);
    }
    assert forall|i: int| 0 <= i < facts.float_cols.len() implies after.float_cols.contains(
        #[trigger] facts.float_cols[i],
    ) by {
        assert(after.float_cols[i] == facts.float_cols[i]);
    }
    assert forall|i: int| 0 <= i < facts.joins.len() implies after.joins.contains(
        #[trigger] facts.joins[i],
    ) by {
        assert(after.joins[i] == facts.joins[i]);
    }
}

proof fn lemma_within_is_transitive(a: UsageFacts, b: UsageFacts, c: UsageFacts)
    requires
        a.within(b),
        b.within(c),
    ensures
        a.within(c),
{
    assert forall|i: int| 0 <= i < a.flow.srcs.len() implies c.flow.srcs.contains(
        #[trigger] a.flow.srcs[i],
    ) by {
        assert(b.flow.srcs[b.flow.srcs.index_of(a.flow.srcs[i])] == a.flow.srcs[i]);
    }
    assert forall|i: int| 0 <= i < a.flow.deps.len() implies c.flow.deps.contains(
        #[trigger] a.flow.deps[i],
    ) by {
        assert(b.flow.deps[b.flow.deps.index_of(a.flow.deps[i])] == a.flow.deps[i]);
    }
    assert forall|i: int| 0 <= i < a.string_cols.len() implies c.string_cols.contains(
        #[trigger] a.string_cols[i],
    ) by {
        assert(b.string_cols[b.string_cols.index_of(a.string_cols[i])] == a.string_cols[i]);
    }
    assert forall|i: int| 0 <= i < a.float_cols.len() implies c.float_cols.contains(
        #[trigger] a.float_cols[i],
    ) by {
        assert(b.float_cols[b.float_cols.index_of(a.float_cols[i])] == a.float_cols[i]);
    }
    assert forall|i: int| 0 <= i < a.joins.len() implies c.joins.contains(
        #[trigger] a.joins[i],
    ) by {
        assert(b.joins[b.joins.index_of(a.joins[i])] == a.joins[i]);
    }
}

proof fn lemma_within_is_reflexive(a: UsageFacts)
    ensures
        a.within(a),
{
    lemma_within_prefix(a.flow, a.flow);
    assert forall|i: int| 0 <= i < a.string_cols.len() implies a.string_cols.contains(
        #[trigger] a.string_cols[i],
    ) by {}
    assert forall|i: int| 0 <= i < a.float_cols.len() implies a.float_cols.contains(
        #[trigger] a.float_cols[i],
    ) by {}
    assert forall|i: int| 0 <= i < a.joins.len() implies a.joins.contains(
        #[trigger] a.joins[i],
    ) by {}
}

/// What is known of a program includes what is known of its beginnings.
proof fn lemma_visited(program: Seq<Visit>, count: int)
    requires
        0 <= count <= program.len(),
    ensures
        visited(program).flow.wf(),
        visited(program.take(count)).within(visited(program)),
    decreases program.len(),
{
    if program.len() > 0 {
        let rest = program.drop_last();
        lemma_visited(rest, 0);
        law_visits_only_add(visited(rest), program.last());
    }
    if count == program.len() {
        assert(program.take(count) =~= program);
        lemma_within_is_reflexive(visited(program));
    } else {
        let rest = program.drop_last();
        lemma_visited(rest, count);
        assert(program.take(count) =~= rest.take(count));
        lemma_within_is_transitive(
            visited(program.take(count)),
            visited(rest),
            visited(program),
        );
    }
}

/// What is known of a program includes what each visit adds.
proof fn lemma_visit_is_known(program: Seq<Visit>, v: int)
    requires
        0 <= v < program.len(),
    ensures
        visited(program).flow.wf(),
        visited(program.take(v)).flow.wf(),
        visited(program.take(v)).after(program[v]).within(visited(program)),
{
    lemma_visited(program, v + 1);
    lemma_visited(program.take(v), 0);
    let upto = program.take(v + 1);
    assert(upto.drop_last() =~= program.take(v));
    assert(upto.last() == program[v]);
}

/// A place has the members of its sources, those of the places it depends on, and no others than
/// those of field sets.
proof fn lemma_facts_hold(facts: FlowFacts)
    requires
        facts.wf(),
    ensures
        forall|key: Key, members: Set<nat>| #[trigger]
            facts.srcs.contains((key, members)) ==> members.subset_of(facts.fields(key)),
        forall|dst: Key, src: Key| #[trigger]
            facts.deps.contains((dst, src)) ==> facts.fields(src).subset_of(facts.fields(dst)),
        forall|key: Key|
            (#[trigger] facts.fields(key)).subset_of(crate::field_set::all_members()),
{
    let least = |k: Key| facts.fields(k);
    let most = |k: Key| crate::field_set::all_members();
    crate::dataflow::law_fields_is_the_least_solution(facts, least);
    crate::dataflow::law_fields_is_the_least_solution(facts, most);
    assert(facts.solved_by(most));
    assert forall|key: Key, members: Set<nat>| #[trigger]
        facts.srcs.contains((key, members)) implies members.subset_of(facts.fields(key)) by {
        let i = facts.srcs.index_of((key, members));
        assert(facts.srcs[i].1.subset_of(least(facts.srcs[i].0)));
    }
    assert forall|dst: Key, src: Key| #[trigger] facts.deps.contains((dst, src)) implies
        facts.fields(src).subset_of(facts.fields(dst)) by {
        let i = facts.deps.index_of((dst, src));
        assert(least(facts.deps[i].1).subset_of(least(facts.deps[i].0)));
    }
    assert forall|key: Key| (#[trigger] facts.fields(key)).subset_of(
        crate::field_set::all_members(),
    ) by {
        assert(facts.fields(key).subset_of(most(key)));
    }
}

/// A larger set allows for at least the values that a smaller one allows for.
proof fn lemma_allows_is_monotone(small: Set<nat>, large: Set<nat>, event: Event)
    requires
        small.subset_of(large),
        large.subset_of(crate::field_set::all_members()),
        allows(small, event),
    ensures
        allows(large, event),
{
    if small == crate::field_set::all_members() {
        assert(large =~= small);
    }
}

/// What an instruction makes is known after a visit to it.
proof fn lemma_made_values(facts: UsageFacts, visit: Visit, event: Event) -> (members: Set<nat>)
    requires
        facts.flow.wf(),
        makes(visit, event),
    ensures
        facts.after(visit).flow.srcs.contains((event.key, members)),
        allows(members, event),
{
    let all = crate::field_set::all_members();
    let after = facts.after(visit).flow;
    match visit {
        Visit::High(flows) => all,
        Visit::Low(inst, flows) => {
            lemma_with_moves(facts.flow, flows);
            lemma_with_unknowns(facts.flow, flows);
            match inst {
                Instr::StoreConstInt(dst, c) if c >= 0 => {
                    let one = crate::field_set::members_of_field(c as nat);
                    assert(after.srcs.last() == (event.key, one));
                    one
                },
                Instr::GetColumn(_, _)
                | Instr::GetFloatColumn(_, _)
                | Instr::JoinCSV(_, _, _)
                | Instr::JoinTSV(_, _, _)
                | Instr::JoinColumns(_, _, _) => {
                    assert(after.srcs.last() == (event.key, all));
                    all
                },
                _ => {
                    if crate::used_fields::moves_values(inst) {
                        let zero = crate::field_set::members_of_field(0);
                        assert(after.srcs.contains((event.key, zero)));
                        zero
                    } else {
                        let i = choose|i: int|
                            0 <= i < flows.len() && (#[trigger] flows[i]).dst == event.key;
                        assert(after.srcs.contains((flows[i].dst, all)));
                        all
                    }
                },
            }
        },
    }
}

/// Every value that a place takes on in a run is one that the least solution allows for there.
pub proof fn law_fields_allow_for_every_run(program: Seq<Visit>, run: Seq<Event>, i: int)
    requires
        is_run(program, run),
        0 <= i < run.len(),
    ensures
        allows(visited(program).flow.fields(run[i].key), run[i]),
    decreases i,
{
    let facts = visited(program).flow;
    let event = run[i];
    lemma_visited(program, 0);
    lemma_facts_hold(facts);
    assert(is_caused(program, run, i));
    if is_initial(event) {
        let initial = UsageFacts::initial().flow;
        assert(initial.srcs.len() == 3);
        let s: int = if event.key == Key::Rng {
            0
        } else if event.from_fi {
            1
        } else {
            2
        };
        assert(initial.srcs[s].0 == event.key);
        assert(facts.srcs.contains((event.key, initial.srcs[s].1)));
        lemma_allows_is_monotone(initial.srcs[s].1, facts.fields(event.key), event);
    } else if exists|v: int| 0 <= v < program.len() && makes(#[trigger] program[v], event) {
        let v = choose|v: int| 0 <= v < program.len() && makes(#[trigger] program[v], event);
        let before = visited(program.take(v));
        lemma_visit_is_known(program, v);
        let after = before.after(program[v]).flow;
        let members = lemma_made_values(before, program[v], event);
        assert(after.srcs[after.srcs.index_of((event.key, members))] == (event.key, members));
        assert(facts.srcs.contains((event.key, members)));
        lemma_allows_is_monotone(members, facts.fields(event.key), event);
    } else {
        let (v, j) = choose|v: int, j: int|
            0 <= v < program.len() && 0 <= j < i && moves(
                #[trigger] program[v],
                (#[trigger] run[j]).key,
                event.key,
            ) && run[j].value == event.value && run[j].from_fi == event.from_fi;
        law_fields_allow_for_every_run(program, run, j);
        let before = visited(program.take(v));
        lemma_visit_is_known(program, v);
        let after = before.after(program[v]).flow;
        let dep = (event.key, run[j].key);
        match program[v] {
            Visit::High(flows) => {
                lemma_with_deps(before.flow, flows);
            },
            Visit::Low(inst, flows) => {
                lemma_with_moves(before.flow, flows);
            },
        }
        assert(after.deps.contains(dep));
        assert(after.deps[after.deps.index_of(dep)] == dep);
        assert(facts.deps.contains(dep));
        lemma_allows_is_monotone(facts.fields(run[j].key), facts.fields(event.key), run[j]);
    }
}

/// Whether an instruction reads the column that the value at `key` numbers: as a string, as a
/// floating-point number, or as the first one of a join.
pub open spec fn reads_column(visit: Visit, key: Key) -> bool {
    visit matches Visit::Low(inst, flows) && match inst {
        Instr::GetColumn(dst, col) => key == col.place(),
        Instr::GetFloatColumn(dst, col) => key == col.place(),
        _ => exists|end: Key| #[trigger] joins_columns(visit, key, end),
    }
}

/// Whether an instruction joins the columns from the one that the value at `start` numbers to the
/// one that the value at `end` numbers.
pub open spec fn joins_columns(visit: Visit, start: Key, end: Key) -> bool {
    visit matches Visit::Low(inst, flows) && match inst {
        Instr::JoinCSV(dst, first, last) => start == first.place() && end == last.place(),
        Instr::JoinTSV(dst, first, last) => start == first.place() && end == last.place(),
        Instr::JoinColumns(dst, first, last) => start == first.place() && end == last.place(),
        _ => false,
    }
}

/// What a join can read is monotone in where it can start and where it can end.
proof fn lemma_joined_is_monotone(
    start: Set<nat>,
    end: Set<nat>,
    more_start: Set<nat>,
    more_end: Set<nat>,
)
    requires
        start.subset_of(more_start),
        end.subset_of(more_end),
        more_start.subset_of(crate::field_set::all_members()),
        more_end.subset_of(crate::field_set::all_members()),
    ensures
        crate::used_fields::joined(start, end).subset_of(
            crate::used_fields::joined(more_start, more_end),
        ),
{
    crate::field_set::lemma_filled_is_monotone(start, end, more_start, more_end);
    let small = crate::used_fields::joined(start, end);
    assert(small.subset_of(crate::field_set::all_members()));
    if more_start == Set::<nat>::empty() {
        assert(start =~= more_start);
    }
    let low = crate::used_fields::from_one(end);
    let more_low = crate::used_fields::from_one(more_end);
    assert forall|b: nat| low.contains(b) implies more_low.contains(b) by {
        let hi = choose|hi: nat| #[trigger] crate::field_set::has_field(end, hi) && b <= hi;
        assert(crate::field_set::has_field(more_end, hi));
    }
}

/// A join is known after a visit to it, and so the result holds all that it can read.
proof fn lemma_join_is_known(program: Seq<Visit>, v: int, start: Key, end: Key)
    requires
        0 <= v < program.len(),
        joins_columns(program[v], start, end),
    ensures
        crate::used_fields::joined(
            visited(program).flow.fields(start),
            visited(program).flow.fields(end),
        ).subset_of(visited(program).used()),
        visited(program).used_strs() == crate::field_set::all_members() || visited(
            program,
        ).flow.fields(start).subset_of(visited(program).used_strs()),
        visited(program).used().subset_of(crate::field_set::all_members()),
        visited(program).used_strs().subset_of(crate::field_set::all_members()),
{
    let facts = visited(program);
    lemma_visit_is_known(program, v);
    lemma_used_are_members(facts);
    let after = visited(program.take(v)).after(program[v]);
    assert(after.joins.last() == (start, end));
    let i = facts.joins.index_of((start, end));
    assert(facts.joins[i] == (start, end));
    let between = crate::used_fields::joined(facts.flow.fields(start), facts.flow.fields(end));
    assert(between.subset_of(
        crate::used_fields::members_between(facts.flow, facts.joins),
    ));
    if between == crate::field_set::all_members() {
        assert(facts.used_strs() =~= crate::field_set::all_members());
    }
    lemma_facts_hold(facts.flow);
    assert(between.subset_of(crate::field_set::all_members()));
}

/// All that the result holds are members of field sets.
proof fn lemma_used_are_members(facts: UsageFacts)
    requires
        facts.flow.wf(),
    ensures
        facts.used().subset_of(crate::field_set::all_members()),
        facts.used_strs().subset_of(crate::field_set::all_members()),
        facts.used_floats().subset_of(crate::field_set::all_members()),
{
    lemma_facts_hold(facts.flow);
    let columns = crate::used_fields::members_at(facts.flow, facts.string_cols);
    assert forall|b: nat| columns.contains(b) implies b <= crate::field_set::FI_INDEX by {
        let i = choose|i: int|
            0 <= i < facts.string_cols.len() && facts.flow.fields(
                #[trigger] facts.string_cols[i],
            ).contains(b);
        assert(facts.flow.fields(facts.string_cols[i]).subset_of(
            crate::field_set::all_members(),
        ));
    }
    let floats = crate::used_fields::members_at(facts.flow, facts.float_cols);
    assert forall|b: nat| floats.contains(b) implies b <= crate::field_set::FI_INDEX by {
        let i = choose|i: int|
            0 <= i < facts.float_cols.len() && facts.flow.fields(
                #[trigger] facts.float_cols[i],
            ).contains(b);
        assert(facts.flow.fields(facts.float_cols[i]).subset_of(
            crate::field_set::all_members(),
        ));
    }
    let joined = crate::used_fields::members_between(facts.flow, facts.joins);
    assert forall|b: nat| joined.contains(b) implies b <= crate::field_set::FI_INDEX by {
        let i = choose|i: int|
            0 <= i < facts.joins.len() && crate::used_fields::joined(
                facts.flow.fields((#[trigger] facts.joins[i]).0),
                facts.flow.fields(facts.joins[i].1),
            ).contains(b);
        let (start, end) = facts.joins[i];
        assert(facts.flow.fields(start).subset_of(crate::field_set::all_members()));
    }
}

/// A column that an instruction reads is known after a visit to it: the result holds the fields
/// that can number it.
proof fn lemma_column_is_known(program: Seq<Visit>, v: int, key: Key)
    requires
        0 <= v < program.len(),
        reads_column(program[v], key),
    ensures
        ({
            let facts = visited(program);
            let fields = facts.flow.fields(key);
            ||| facts.used_strs() == crate::field_set::all_members()
            ||| fields.subset_of(facts.used_strs())
            ||| fields.subset_of(facts.used_floats())
        }),
{
    let facts = visited(program);
    let fields = facts.flow.fields(key);
    lemma_visit_is_known(program, v);
    let after = visited(program.take(v)).after(program[v]);
    match program[v] {
        Visit::High(flows) => {},
        Visit::Low(inst, flows) => match inst {
            Instr::GetColumn(_, _) => {
                assert(after.string_cols.last() == key);
                let i = facts.string_cols.index_of(key);
                assert(facts.string_cols[i] == key);
                assert(fields.subset_of(
                    crate::used_fields::members_at(facts.flow, facts.string_cols),
                ));
            },
            Instr::GetFloatColumn(_, _) => {
                assert(after.float_cols.last() == key);
                let i = facts.float_cols.index_of(key);
                assert(facts.float_cols[i] == key);
                assert(fields.subset_of(
                    crate::used_fields::members_at(facts.flow, facts.float_cols),
                ));
            },
            _ => {
                let end = choose|end: Key| #[trigger] joins_columns(program[v], key, end);
                lemma_join_is_known(program, v, key, end);
            },
        },
    }
}

/// A result that is told a field holds what it held before, and members of field sets only.
proof fn lemma_told_usage_is_larger(facts: UsageFacts, field: nat)
    requires
        facts.flow.wf(),
    ensures
        facts.used().subset_of(facts.used_with_fi(field)),
        facts.used_with_fi(field).subset_of(crate::field_set::all_members()),
{
    lemma_used_are_members(facts);
}

/// There are no false negatives among the columns: a field that a column read or the start of a
/// join can refer to in a run is one that the result covers. Where the field index comes from
/// `FI`, the result covers it once it is told the field with
/// [`crate::field_usage::FieldUsage::set_if_fi`].
pub proof fn law_no_column_is_missed(
    program: Seq<Visit>,
    run: Seq<Event>,
    v: int,
    i: int,
)
    requires
        is_run(program, run),
        0 <= v < program.len(),
        0 <= i < run.len(),
        reads_column(program[v], run[i].key),
    ensures
        if run[i].from_fi {
            crate::field_set::covers(visited(program).used_with_fi(run[i].value), run[i].value)
        } else {
            crate::field_set::covers(visited(program).used(), run[i].value)
        },
{
    let all = crate::field_set::all_members();
    let facts = visited(program);
    let event = run[i];
    lemma_visited(program, 0);
    lemma_used_are_members(facts);
    law_fields_allow_for_every_run(program, run, i);
    lemma_column_is_known(program, v, event.key);
    let strs = facts.used_strs();
    let floats = facts.used_floats();
    assert(all.contains(crate::field_set::FI_INDEX as nat));
    if strs == all {
        assert(allows(strs, event));
    } else if facts.flow.fields(event.key).subset_of(strs) {
        lemma_allows_is_monotone(facts.flow.fields(event.key), strs, event);
    } else {
        lemma_allows_is_monotone(facts.flow.fields(event.key), floats, event);
    }
    if event.from_fi {
        let strs_after = crate::field_usage::with_field_if_fi(strs, event.value);
        let floats_after = crate::field_usage::with_field_if_fi(floats, event.value);
        let after = facts.used_with_fi(event.value);
        let told = Event { from_fi: false, ..event };
        assert(strs_after.subset_of(all));
        assert(floats_after.subset_of(all));
        if strs.contains(crate::field_set::FI_INDEX as nat) {
            crate::field_usage::lemma_fi_field_is_covered(strs, event.value);
            lemma_allows_is_monotone(strs_after, after, told);
        } else {
            crate::field_usage::lemma_fi_field_is_covered(floats, event.value);
            lemma_allows_is_monotone(floats_after, after, told);
        }
    } else if allows(strs, event) {
        lemma_allows_is_monotone(strs, facts.used(), event);
    } else {
        lemma_allows_is_monotone(floats, facts.used(), event);
    }
}

/// The result covers every field that lies between a field where a join can start and one where
/// it can end.
pub proof fn law_joins_cover_what_lies_between(
    program: Seq<Visit>,
    v: int,
    start: Key,
    end: Key,
    first: nat,
    last: nat,
    index: nat,
)
    requires
        0 <= v < program.len(),
        joins_columns(program[v], start, end),
        crate::field_set::covers(visited(program).flow.fields(start), first),
        crate::field_set::covers(visited(program).flow.fields(end), last),
        first <= index <= last,
    ensures
        crate::field_set::covers(visited(program).used(), index),
{
    let facts = visited(program);
    lemma_visited(program, 0);
    lemma_facts_hold(facts.flow);
    lemma_join_is_known(program, v, start, end);
    crate::field_set::lemma_filled_covers_the_range(
        facts.flow.fields(start),
        facts.flow.fields(end),
        first,
        last,
        index,
    );
    let event = Event { key: start, value: index, from_fi: false };
    let between = crate::used_fields::joined(facts.flow.fields(start), facts.flow.fields(end));
    assert(allows(between, event));
    lemma_allows_is_monotone(between, facts.used(), event);
}

/// There are no false negatives among the joins: every field from the first to the last one of a
/// join in a run is one that the result covers. Where the first one comes from `FI`, the result
/// covers them once it is told that field with
/// [`crate::field_usage::FieldUsage::set_if_fi`].
pub proof fn law_no_joined_column_is_missed(
    program: Seq<Visit>,
    run: Seq<Event>,
    v: int,
    i: int,
    j: int,
    index: nat,
)
    requires
        is_run(program, run),
        0 <= v < program.len(),
        0 <= i < run.len(),
        0 <= j < run.len(),
        joins_columns(program[v], run[i].key, run[j].key),
        run[i].value <= index <= run[j].value,
    ensures
        if run[i].from_fi {
            crate::field_set::covers(visited(program).used_with_fi(run[i].value), index)
        } else {
            crate::field_set::covers(visited(program).used(), index)
        },
{
    let all = crate::field_set::all_members();
    let facts = visited(program);
    let start = facts.flow.fields(run[i].key);
    let end = facts.flow.fields(run[j].key);
    law_fields_allow_for_every_run(program, run, i);
    law_fields_allow_for_every_run(program, run, j);
    lemma_join_is_known(program, v, run[i].key, run[j].key);
    lemma_visited(program, 0);
    lemma_facts_hold(facts.flow);
    lemma_used_are_members(facts);
    let at_index = Event { key: run[i].key, value: index, from_fi: false };
    if start != Set::<nat>::empty() && end.contains(crate::field_set::FI_INDEX as nat) {
        assert(facts.used() =~= all);
    } else if !run[i].from_fi {
        law_joins_cover_what_lies_between(
            program,
            v,
            run[i].key,
            run[j].key,
            run[i].value,
            run[j].value,
            index,
        );
    } else if index > run[i].value {
        // The end is a known field, and the join can read all fields from 1 up to it.
        assert(crate::field_set::has_field(end, run[j].value));
        assert(crate::used_fields::from_one(end).contains(index));
        assert(facts.used().contains(index));
    }
    if run[i].from_fi {
        let after = facts.used_with_fi(run[i].value);
        lemma_told_usage_is_larger(facts, run[i].value);
        if index == run[i].value {
            law_no_column_is_missed(program, run, v, i);
        } else {
            lemma_allows_is_monotone(facts.used(), after, at_index);
        }
    }
}

/// More knowledge of a program never takes a field away from the result.
pub proof fn law_used_fields_grow_with_the_facts(facts: UsageFacts, more: UsageFacts)
    requires
        facts.flow.wf(),
        more.flow.wf(),
        facts.within(more),
    ensures
        facts.used().subset_of(more.used()),
{
    let all = crate::field_set::all_members();
    lemma_used_are_members(facts);
    lemma_used_are_members(more);
    lemma_facts_hold(more.flow);
    assert forall|key: Key| (#[trigger] facts.flow.fields(key)).subset_of(more.flow.fields(key)) by {
        crate::dataflow::law_fields_grow_with_the_facts(facts.flow, more.flow, key);
    }
    let strs = crate::used_fields::members_at(facts.flow, facts.string_cols);
    let more_strs = crate::used_fields::members_at(more.flow, more.string_cols);
    assert forall|b: nat| strs.contains(b) implies more_strs.contains(b) by {
        let i = choose|i: int|
            0 <= i < facts.string_cols.len() && facts.flow.fields(
                #[trigger] facts.string_cols[i],
            ).contains(b);
        let j = more.string_cols.index_of(facts.string_cols[i]);
        assert(more.string_cols[j] == facts.string_cols[i]);
        assert(facts.flow.fields(facts.string_cols[i]).subset_of(
            more.flow.fields(facts.string_cols[i]),
        ));
    }
    let floats = crate::used_fields::members_at(facts.flow, facts.float_cols);
    let more_floats = crate::used_fields::members_at(more.flow, more.float_cols);
    assert forall|b: nat| floats.contains(b) implies more_floats.contains(b) by {
        let i = choose|i: int|
            0 <= i < facts.float_cols.len() && facts.flow.fields(
                #[trigger] facts.float_cols[i],
            ).contains(b);
        let j = more.float_cols.index_of(facts.float_cols[i]);
        assert(more.float_cols[j] == facts.float_cols[i]);
        assert(facts.flow.fields(facts.float_cols[i]).subset_of(
            more.flow.fields(facts.float_cols[i]),
        ));
    }
    let joined = crate::used_fields::members_between(facts.flow, facts.joins);
    let more_joined = crate::used_fields::members_between(more.flow, more.joins);
    assert forall|b: nat| joined.contains(b) implies more_joined.contains(b) by {
        let i = choose|i: int|
            0 <= i < facts.joins.len() && crate::used_fields::joined(
                facts.flow.fields((#[trigger] facts.joins[i]).0),
                facts.flow.fields(facts.joins[i].1),
            ).contains(b);
        let (start, end) = facts.joins[i];
        let j = more.joins.index_of((start, end));
        assert(more.joins[j] == (start, end));
        lemma_joined_is_monotone(
            facts.flow.fields(start),
            facts.flow.fields(end),
            more.flow.fields(start),
            more.flow.fields(end),
        );
    }
    if more.floats_are_unknown() {
        assert(more.used() =~= all);
    } else if facts.floats_are_unknown() {
        assert(more_floats.subset_of(all)) by {
            assert(more.used_floats().subset_of(all));
        }
        assert(more_floats =~= all);
    }
}

/// The result comes from the least solution: no assignment that agrees with the facts gives
/// fewer members to the columns or to the joins.
pub proof fn law_the_result_is_below_every_solution(
    facts: UsageFacts,
    f: spec_fn(Key) -> Set<nat>,
    member: nat,
)
    requires
        facts.flow.solved_by(f),
        forall|key: Key| (#[trigger] f(key)).subset_of(crate::field_set::all_members()),
        !facts.floats_are_unknown(),
    ensures
        facts.used_floats().contains(member) ==> exists|i: int|
            0 <= i < facts.float_cols.len() && f(#[trigger] facts.float_cols[i]).contains(member),
        facts.used_strs().contains(member) ==> {
            ||| exists|i: int|
                0 <= i < facts.string_cols.len() && f(#[trigger] facts.string_cols[i]).contains(
                    member,
                )
            ||| exists|i: int|
                0 <= i < facts.joins.len() && crate::used_fields::joined(
                    f((#[trigger] facts.joins[i]).0),
                    f(facts.joins[i].1),
                ).contains(member)
        },
{
    crate::dataflow::law_fields_is_the_least_solution(facts.flow, f);
    if facts.used_floats().contains(member) {
        let i = choose|i: int|
            0 <= i < facts.float_cols.len() && facts.flow.fields(
                #[trigger] facts.float_cols[i],
            ).contains(member);
        assert(f(facts.float_cols[i]).contains(member));
    }
    if crate::used_fields::members_at(facts.flow, facts.string_cols).contains(member) {
        let i = choose|i: int|
            0 <= i < facts.string_cols.len() && facts.flow.fields(
                #[trigger] facts.string_cols[i],
            ).contains(member);
        assert(f(facts.string_cols[i]).contains(member));
    } else if facts.used_strs().contains(member) {
        let i = choose|i: int|
            0 <= i < facts.joins.len() && crate::used_fields::joined(
                facts.flow.fields((#[trigger] facts.joins[i]).0),
                facts.flow.fields(facts.joins[i].1),
            ).contains(member);
        let (start, end) = facts.joins[i];
        lemma_joined_is_monotone(
            facts.flow.fields(start),
            facts.flow.fields(end),
            f(start),
            f(end),
        );
    }
}

/// What a set allows for, it covers; a value of `FI` once the set is told of it.
proof fn lemma_allowed_is_covered(members: Set<nat>, event: Event)
    requires
        members.subset_of(crate::field_set::all_members()),
        allows(members, event),
    ensures
        crate::field_set::covers(
            if event.from_fi {
                crate::field_usage::with_field_if_fi(members, event.value)
            } else {
                members
            },
            event.value,
        ),
{
    if event.from_fi {
        crate::field_usage::lemma_fi_field_is_covered(members, event.value);
    }
}

/// No field that a column read can refer to in a run is missing from the fields to be read as
/// strings, whatever is read as a number. A field that comes from `FI` is there once the usage is
/// told of it.
pub proof fn law_no_string_read_is_missed(
    program: Seq<Visit>,
    run: Seq<Event>,
    v: int,
    i: int,
    dst: Reg<Str>,
    col: Reg<Int>,
    flows: Seq<Flow>,
)
    requires
        is_run(program, run),
        0 <= v < program.len(),
        0 <= i < run.len(),
        program[v] == Visit::Low(Instr::GetColumn(dst, col), flows),
        run[i].key == Key::Reg(col.number(), Ty::Int),
    ensures
        crate::field_set::covers(
            if run[i].from_fi {
                crate::field_usage::with_field_if_fi(
                    visited(program).used_strs(),
                    run[i].value,
                )
            } else {
                visited(program).used_strs()
            },
            run[i].value,
        ),
{
    let all = crate::field_set::all_members();
    let facts = visited(program);
    let key = run[i].key;
    lemma_visit_is_known(program, v);
    lemma_used_are_members(facts);
    law_fields_allow_for_every_run(program, run, i);
    let after = visited(program.take(v)).after(program[v]);
    assert(after.string_cols.last() == key);
    let c = facts.string_cols.index_of(key);
    assert(facts.string_cols[c] == key);
    assert(facts.flow.fields(key).subset_of(
        crate::used_fields::members_at(facts.flow, facts.string_cols),
    ));
    lemma_facts_hold(facts.flow);
    assert(facts.flow.fields(key).subset_of(facts.used_strs()));
    lemma_allows_is_monotone(facts.flow.fields(key), facts.used_strs(), run[i]);
    lemma_allowed_is_covered(facts.used_strs(), run[i]);
}

/// No field that a float read can refer to in a run is missing from the fields to be read as
/// floating-point numbers, unless all fields are to be read as strings.
pub proof fn law_no_float_read_is_missed(
    program: Seq<Visit>,
    run: Seq<Event>,
    v: int,
    i: int,
    dst: Reg<Float>,
    col: Reg<Int>,
    flows: Seq<Flow>,
)
    requires
        is_run(program, run),
        0 <= v < program.len(),
        0 <= i < run.len(),
        program[v] == Visit::Low(Instr::GetFloatColumn(dst, col), flows),
        run[i].key == Key::Reg(col.number(), Ty::Int),
    ensures
        (forall|b: nat| b <= 64 ==> #[trigger] visited(program).used_strs().contains(b))
            || crate::field_set::covers(
            if run[i].from_fi {
                crate::field_usage::with_field_if_fi(
                    visited(program).used_floats(),
                    run[i].value,
                )
            } else {
                visited(program).used_floats()
            },
            run[i].value,
        ),
{
    let facts = visited(program);
    let key = run[i].key;
    lemma_visit_is_known(program, v);
    lemma_used_are_members(facts);
    law_fields_allow_for_every_run(program, run, i);
    let after = visited(program.take(v)).after(program[v]);
    assert(after.float_cols.last() == key);
    let c = facts.float_cols.index_of(key);
    assert(facts.float_cols[c] == key);
    if !facts.floats_are_unknown() {
        assert(facts.flow.fields(key).subset_of(facts.used_floats()));
        lemma_allows_is_monotone(facts.flow.fields(key), facts.used_floats(), run[i]);
        lemma_allowed_is_covered(facts.used_floats(), run[i]);
    }
}

/// No field that a join can read in a run is missing from the fields to be read as strings. Where
/// the first one comes from `FI`, they are all there once the usage is told of it.
pub proof fn law_no_join_read_is_missed(
    program: Seq<Visit>,
    run: Seq<Event>,
    v: int,
    i: int,
    j: int,
    dst: Reg<Str>,
    start: Reg<Int>,
    end: Reg<Int>,
    flows: Seq<Flow>,
    index: nat,
)
    requires
        is_run(program, run),
        0 <= v < program.len(),
        0 <= i < run.len(),
        0 <= j < run.len(),
        program[v] == Visit::Low(Instr::JoinCSV(dst, start, end), flows) || program[v]
            == Visit::Low(Instr::JoinTSV(dst, start, end), flows) || program[v] == Visit::Low(
            Instr::JoinColumns(dst, start, end),
            flows,
        ),
        run[i].key == Key::Reg(start.number(), Ty::Int),
        run[j].key == Key::Reg(end.number(), Ty::Int),
        run[i].value <= index <= run[j].value,
    ensures
        crate::field_set::covers(
            if run[i].from_fi {
                crate::field_usage::with_field_if_fi(
                    visited(program).used_strs(),
                    run[i].value,
                )
            } else {
                visited(program).used_strs()
            },
            index,
        ),
{
    let all = crate::field_set::all_members();
    let facts = visited(program);
    let fi = crate::field_set::FI_INDEX as nat;
    let first = facts.flow.fields(run[i].key);
    let last = facts.flow.fields(run[j].key);
    let strs = facts.used_strs();
    lemma_visit_is_known(program, v);
    lemma_used_are_members(facts);
    lemma_facts_hold(facts.flow);
    law_fields_allow_for_every_run(program, run, i);
    law_fields_allow_for_every_run(program, run, j);
    let after = visited(program.take(v)).after(program[v]);
    assert(after.joins.last() == (run[i].key, run[j].key));
    let c = facts.joins.index_of((run[i].key, run[j].key));
    assert(facts.joins[c] == (run[i].key, run[j].key));
    let between = crate::used_fields::joined(first, last);
    assert(between.subset_of(all));
    assert(between.subset_of(strs));
    let at_index = Event { key: run[i].key, value: index, from_fi: false };
    if first != Set::<nat>::empty() && last.contains(fi) {
        assert(strs =~= all);
    } else if !run[i].from_fi {
        crate::field_set::lemma_filled_covers_the_range(
            first,
            last,
            run[i].value,
            run[j].value,
            index,
        );
        assert(allows(between, at_index));
        lemma_allows_is_monotone(between, strs, at_index);
    } else {
        crate::field_usage::lemma_fi_field_is_covered(strs, run[i].value);
        if index > run[i].value {
            assert(crate::field_set::has_field(last, run[j].value));
            assert(crate::used_fields::from_one(last).contains(index));
            assert(strs.contains(index));
            let told = crate::field_usage::with_field_if_fi(strs, run[i].value);
            lemma_allows_is_monotone(strs, told, at_index);
        }
    }
}

} // verus!
