//! The analysis that finds the fields a program uses.
use crate::analysis::Analysis;
use crate::bytecode::{Flow, Instr, Key, Variable};
use crate::dataflow::FlowFacts;
use crate::field_set::{FieldSet, MAX_INDEX};
use crate::field_usage::FieldUsage;
use vstd::prelude::*;

verus! {

/// Whether the analysis follows the values that an instruction moves, because they can be
/// field indexes that it knows.
pub open spec fn moves_values(inst: Instr) -> bool {
    match inst {
        Instr::LoadVarStrMap(var) => var == Variable::FI,
        Instr::StoreVarStrMap(var) => var == Variable::FI,
        Instr::Lookup | Instr::Store | Instr::IterBegin | Instr::IterGetNext | Instr::Mov => true,
        _ => false,
    }
}

/// `facts` with the flows of a high-level instruction, all of which have a source.
pub open spec fn with_deps(facts: FlowFacts, flows: Seq<Flow>) -> FlowFacts {
    FlowFacts {
        deps: facts.deps + flows.map_values(|flow: Flow| (flow.dst, flow.src.unwrap())),
        ..facts
    }
}

/// `facts` with the flows of an instruction that moves values. A value that such an instruction
/// makes itself counts as field zero.
pub open spec fn with_moves(facts: FlowFacts, flows: Seq<Flow>) -> FlowFacts
    decreases flows.len(),
{
    if flows.len() == 0 {
        facts
    } else {
        let before = with_moves(facts, flows.drop_last());
        let flow = flows.last();
        match flow.src {
            Some(src) => before.with_dep(flow.dst, src),
            None => before.with_src(flow.dst, crate::field_set::members_of_field(0)),
        }
    }
}

/// `facts` with the flows of an instruction that the analysis does not look into: what it
/// writes can be any field.
pub open spec fn with_unknowns(facts: FlowFacts, flows: Seq<Flow>) -> FlowFacts {
    FlowFacts {
        srcs: facts.srcs + flows.map_values(
            |flow: Flow| (flow.dst, crate::field_set::all_members()),
        ),
        ..facts
    }
}

/// The members that one of `keys` can hold.
pub open spec fn members_at(facts: FlowFacts, keys: Seq<Key>) -> Set<nat> {
    Set::new(
        |b: nat|
            exists|i: int| 0 <= i < keys.len() && facts.fields(#[trigger] keys[i]).contains(b),
    )
}

/// The fields from 1 to the largest one of `end`.
pub open spec fn from_one(end: Set<nat>) -> Set<nat> {
    Set::new(
        |b: nat|
            b >= 1 && exists|hi: nat| #[trigger]
                crate::field_set::has_field(end, hi) && b <= hi,
    )
}

/// What a join reads that can start at the members `start` and end at the members `end`: those
/// where it can start, and all fields from there to where it can end.
///
/// A start that comes from `FI` can be any field: the join then reads that one, for which `FI`
/// stands in the result, and the fields after it up to where the join can end. Where the end can
/// come from `FI`, a join that has a start can read any field.
pub open spec fn joined(start: Set<nat>, end: Set<nat>) -> Set<nat> {
    let fi = crate::field_set::FI_INDEX as nat;
    if end.contains(fi) && start != Set::<nat>::empty() {
        crate::field_set::all_members()
    } else if start.contains(fi) {
        crate::field_set::filled(start, end).union(from_one(end))
    } else {
        crate::field_set::filled(start, end)
    }
}

/// The members that one of `joins` reads.
pub open spec fn members_between(facts: FlowFacts, joins: Seq<(Key, Key)>) -> Set<nat> {
    Set::new(
        |b: nat|
            exists|i: int|
                0 <= i < joins.len() && joined(
                    facts.fields((#[trigger] joins[i]).0),
                    facts.fields(joins[i].1),
                ).contains(b),
    )
}

/// What the analysis knows of a program.
#[verifier::ext_equal]
pub struct UsageFacts {
    /// How values move.
    pub flow: FlowFacts,
    /// The places whose values number columns that are read as strings.
    pub string_cols: Seq<Key>,
    /// The places whose values number columns that are read as floating-point numbers.
    pub float_cols: Seq<Key>,
    /// The places whose values number the first and the last column of a join.
    pub joins: Seq<(Key, Key)>,
}

impl UsageFacts {
    /// What is known before any instruction: a random number can be any field, the values of
    /// `FI` are the fields it names, and its keys can be anything.
    pub open spec fn initial() -> UsageFacts {
        UsageFacts {
            flow: FlowFacts::none().with_src(
                Key::Rng,
                crate::field_set::all_members(),
            ).with_src(
                Key::VarVal(Variable::FI),
                set![crate::field_set::FI_INDEX as nat],
            ).with_src(Key::VarKey(Variable::FI), crate::field_set::all_members()),
            string_cols: Seq::empty(),
            float_cols: Seq::empty(),
            joins: Seq::empty(),
        }
    }

    /// After a join of the columns from `start` to `end`, which writes to `dst`.
    pub open spec fn after_join(self, dst: Key, start: Key, end: Key) -> UsageFacts {
        UsageFacts {
            flow: self.flow.with_query(start).with_query(end).with_src(
                dst,
                crate::field_set::all_members(),
            ),
            joins: self.joins.push((start, end)),
            ..self
        }
    }

    /// After a high-level instruction with the given flows.
    pub open spec fn after_hl(self, flows: Seq<Flow>) -> UsageFacts {
        UsageFacts { flow: with_deps(self.flow, flows), ..self }
    }

    /// After a low-level instruction with the given flows.
    pub open spec fn after_ll(self, inst: Instr, flows: Seq<Flow>) -> UsageFacts {
        match inst {
            Instr::StoreConstInt(dst, c) if c >= 0 => UsageFacts {
                flow: self.flow.with_src(
                    dst.place(),
                    crate::field_set::members_of_field(c as nat),
                ),
                ..self
            },
            Instr::GetColumn(dst, col) => UsageFacts {
                flow: self.flow.with_query(col.place()).with_src(
                    dst.place(),
                    crate::field_set::all_members(),
                ),
                string_cols: self.string_cols.push(col.place()),
                ..self
            },
            Instr::GetFloatColumn(dst, col) => UsageFacts {
                flow: self.flow.with_query(col.place()).with_src(
                    dst.place(),
                    crate::field_set::all_members(),
                ),
                float_cols: self.float_cols.push(col.place()),
                ..self
            },
            Instr::JoinCSV(dst, start, end) => self.after_join(
                dst.place(),
                start.place(),
                end.place(),
            ),
            Instr::JoinTSV(dst, start, end) => self.after_join(
                dst.place(),
                start.place(),
                end.place(),
            ),
            Instr::JoinColumns(dst, start, end) => self.after_join(
                dst.place(),
                start.place(),
                end.place(),
            ),
            _ => UsageFacts {
                flow: if moves_values(inst) {
                    with_moves(self.flow, flows)
                } else {
                    with_unknowns(self.flow, flows)
                },
                ..self
            },
        }
    }

    /// Whether the fields that are read as floating-point numbers are not known.
    pub open spec fn floats_are_unknown(self) -> bool {
        members_at(self.flow, self.float_cols) == crate::field_set::all_members()
    }

    /// The fields that have to be read as strings: those of the string columns and of the joins,
    /// or all, where the fields that are read as floating-point numbers are not known.
    pub open spec fn used_strs(self) -> Set<nat> {
        if self.floats_are_unknown() {
            crate::field_set::all_members()
        } else {
            members_at(self.flow, self.string_cols).union(members_between(self.flow, self.joins))
        }
    }

    /// The fields that can be read as floating-point numbers: none, where they are not known.
    pub open spec fn used_floats(self) -> Set<nat> {
        if self.floats_are_unknown() {
            Set::empty()
        } else {
            members_at(self.flow, self.float_cols)
        }
    }
}

/// The smallest field set that covers the constant `c`.
fn constant_field(c: i64) -> (r: FieldSet)
    requires
        c >= 0,
    ensures
        r@ == crate::field_set::members_of_field(c as nat),
{
    if c > MAX_INDEX as i64 {
        FieldSet::all()
    } else {
        FieldSet::singleton(c as usize)
    }
}

/// The union of the fields that the given places can hold.
fn fields_at(dfa: &mut Analysis, keys: &Vec<Key>) -> (r: FieldSet)
    requires
        old(dfa).wf(),
    ensures
        final(dfa).wf(),
        final(dfa)@ == old(dfa)@,
        r@ == members_at(old(dfa)@, keys@),
{
    let ghost facts = dfa@;
    let mut r = FieldSet::empty();
    proof {
        assert(r@ =~= members_at(facts, keys@.take(0)));
    }
    let mut i: usize = 0;
    while i < keys.len()
        invariant
            i <= keys.len(),
            dfa.wf(),
            dfa@ == facts,
            r@ == members_at(facts, keys@.take(i as int)),
        decreases keys.len() - i,
    {
        let ghost before = r@;
        r.union(&dfa.query(keys[i]));
        proof {
            let some = keys@.take(i as int);
            let more = keys@.take(i + 1);
            assert forall|b: nat| r@.contains(b) == members_at(facts, more).contains(b) by {
                if before.contains(b) {
                    let j = choose|j: int|
                        0 <= j < some.len() && facts.fields(#[trigger] some[j]).contains(b);
                    assert(more[j] == some[j]);
                }
                if facts.fields(keys[i as int]).contains(b) {
                    assert(more[i as int] == keys[i as int]);
                }
                if members_at(facts, more).contains(b) {
                    let j = choose|j: int|
                        0 <= j < more.len() && facts.fields(#[trigger] more[j]).contains(b);
                    if j < i {
                        assert(some[j] == more[j]);
                    }
                }
            }
            assert(r@ =~= members_at(facts, more));
        }
        i = i + 1;
    }
    proof {
        assert(keys@.take(keys.len() as int) =~= keys@);
    }
    r
}

/// The fields that a join reads from one of `start` to one of `end`.
fn joined_fields(start: FieldSet, end: FieldSet) -> (r: FieldSet)
    ensures
        r@ == joined(start@, end@),
{
    let ghost all = crate::field_set::all_members();
    proof {
        start.lemma_members(start);
        end.lemma_members(end);
    }
    if end.has_fi() && !start.is_empty() {
        return FieldSet::all();
    }
    let mut r = start;
    r.fill(&end);
    proof {
        assert(crate::field_set::filled(start@, end@).subset_of(all));
        assert(from_one(end@).subset_of(all));
        if start@ == all || end@ == all {
            assert(r@ =~= all);
            assert(joined(start@, end@) =~= all);
        }
    }
    let last: u32 = end.max_bit();
    if start.has_fi() && last > 1 {
        let mut low = FieldSet::singleton(1);
        low.fill(&end);
        r.union(&low);
        proof {
            assert(crate::field_set::has_field(set![1nat], 1));
            if end@ != all {
                assert(low@ =~= from_one(end@));
            }
            assert(r@ =~= joined(start@, end@));
        }
    } else {
        proof {
            assert(last <= 1 ==> from_one(end@) =~= Set::empty());
            assert(r@ =~= joined(start@, end@));
        }
    }
    r
}

/// The union of the fields that the given joins read.
fn fields_between(dfa: &mut Analysis, joins: &Vec<(Key, Key)>) -> (r: FieldSet)
    requires
        old(dfa).wf(),
    ensures
        final(dfa).wf(),
        final(dfa)@ == old(dfa)@,
        r@ == members_between(old(dfa)@, joins@),
{
    let ghost facts = dfa@;
    let mut r = FieldSet::empty();
    proof {
        assert(r@ =~= members_between(facts, joins@.take(0)));
    }
    let mut i: usize = 0;
    while i < joins.len()
        invariant
            i <= joins.len(),
            dfa.wf(),
            dfa@ == facts,
            r@ == members_between(facts, joins@.take(i as int)),
        decreases joins.len() - i,
    {
        let ghost before = r@;
        let (start, end) = joins[i];
        let start_fields = dfa.query(start);
        let end_fields = dfa.query(end);
        let fields = joined_fields(start_fields, end_fields);
        r.union(&fields);
        proof {
            let some = joins@.take(i as int);
            let more = joins@.take(i + 1);
            assert forall|b: nat| r@.contains(b) == members_between(facts, more).contains(b) by {
                if before.contains(b) {
                    let j = choose|j: int|
                        0 <= j < some.len() && joined(
                            facts.fields((#[trigger] some[j]).0),
                            facts.fields(some[j].1),
                        ).contains(b);
                    assert(more[j] == some[j]);
                }
                if fields@.contains(b) {
                    assert(more[i as int] == (start, end));
                }
                if members_between(facts, more).contains(b) {
                    let j = choose|j: int|
                        0 <= j < more.len() && joined(
                            facts.fields((#[trigger] more[j]).0),
                            facts.fields(more[j].1),
                        ).contains(b);
                    if j < i {
                        assert(some[j] == more[j]);
                    }
                }
            }
            assert(r@ =~= members_between(facts, more));
        }
        i = i + 1;
    }
    proof {
        assert(joins@.take(joins.len() as int) =~= joins@);
    }
    r
}

/// A whole-program analysis that accumulates the fields which a program refers to.
///
/// The view of an analysis is what it knows of the program.
pub struct UsedFieldAnalysis {
    dfa: Analysis,
    // A join is monotone, but it does not commute with union, so it is no function on an edge of
    // the graph. Since joins are always leaves, their columns are added after the solution.
    joins: Vec<(Key, Key)>,
    string_cols: Vec<Key>,
    float_cols: Vec<Key>,
}

impl View for UsedFieldAnalysis {
    type V = UsageFacts;

    closed spec fn view(&self) -> UsageFacts {
        UsageFacts {
            flow: self.dfa@,
            string_cols: self.string_cols@,
            float_cols: self.float_cols@,
            joins: self.joins@,
        }
    }
}

impl Default for UsedFieldAnalysis {
    fn default() -> (r: UsedFieldAnalysis)
        ensures
            r.wf(),
            r@ == UsageFacts::initial(),
    {
        let mut res = UsedFieldAnalysis {
            dfa: Analysis::default(),
            joins: Vec::new(),
            string_cols: Vec::new(),
            float_cols: Vec::new(),
        };
        res.dfa.add_src(Key::Rng, FieldSet::all());
        res.dfa.add_src(Key::VarVal(Variable::FI), FieldSet::fi());
        res.dfa.add_src(Key::VarKey(Variable::FI), FieldSet::all());
        proof {
            assert(res@ =~= UsageFacts::initial());
        }
        res
    }
}

impl UsedFieldAnalysis {
    /// Whether the analysis of the flows is well-formed.
    pub closed spec fn wf(self) -> bool {
        self.dfa.wf()
    }

    /// The facts of an analysis hold members of field sets.
    pub proof fn lemma_facts_are_well_formed(self)
        ensures
            self@.flow.wf(),
    {
        self.dfa.lemma_facts_are_well_formed();
    }

    /// Visits a high-level instruction (a call, a return, a phi) with the given flows.
    pub fn visit_hl(&mut self, flows: &[Flow])
        requires
            old(self).wf(),
            forall|i: int| 0 <= i < flows.len() ==> (#[trigger] flows[i]).src is Some,
        ensures
            final(self).wf(),
            final(self)@ == old(self)@.after_hl(flows@),
    {
        let ghost before = self@;
        let mut i: usize = 0;
        proof {
            assert(before =~= before.after_hl(flows@.take(0)));
        }
        while i < flows.len()
            invariant
                i <= flows.len(),
                self.wf(),
                self@ == before.after_hl(flows@.take(i as int)),
                forall|i: int| 0 <= i < flows.len() ==> (#[trigger] flows[i]).src is Some,
            decreases flows.len() - i,
        {
            let flow = flows[i];
            self.dfa.add_dep(flow.dst, flow.src.unwrap());
            i = i + 1;
            proof {
                assert(self@ =~= before.after_hl(flows@.take(i as int)));
            }
        }
        proof {
            assert(flows@.take(flows.len() as int) =~= flows@);
        }
    }

    /// Records the flows of an instruction that moves values.
    fn add_moves(&mut self, flows: &[Flow])
        requires
            old(self).wf(),
        ensures
            final(self).wf(),
            final(self)@ == (UsageFacts {
                flow: with_moves(old(self)@.flow, flows@),
                ..old(self)@
            }),
    {
        let ghost before = self@;
        let mut i: usize = 0;
        while i < flows.len()
            invariant
                i <= flows.len(),
                self.wf(),
                self@ == (UsageFacts {
                    flow: with_moves(before.flow, flows@.take(i as int)),
                    ..before
                }),
            decreases flows.len() - i,
        {
            let flow = flows[i];
            match flow.src {
                Some(src) => self.dfa.add_dep(flow.dst, src),
                None => self.dfa.add_src(flow.dst, FieldSet::singleton(0)),
            }
            i = i + 1;
            proof {
                assert(flows@.take(i as int).drop_last() =~= flows@.take(i - 1));
            }
        }
        proof {
            assert(flows@.take(flows.len() as int) =~= flows@);
        }
    }

    /// Records the flows of an instruction that the analysis does not look into.
    fn add_unknowns(&mut self, flows: &[Flow])
        requires
            old(self).wf(),
        ensures
            final(self).wf(),
            final(self)@ == (UsageFacts {
                flow: with_unknowns(old(self)@.flow, flows@),
                ..old(self)@
            }),
    {
        let ghost before = self@;
        let mut i: usize = 0;
        proof {
            assert(before.flow =~= with_unknowns(before.flow, flows@.take(0)));
        }
        while i < flows.len()
            invariant
                i <= flows.len(),
                self.wf(),
                self@ == (UsageFacts {
                    flow: with_unknowns(before.flow, flows@.take(i as int)),
                    ..before
                }),
            decreases flows.len() - i,
        {
            let flow = flows[i];
            self.dfa.add_src(flow.dst, FieldSet::all());
            i = i + 1;
            proof {
                assert(self@.flow =~= with_unknowns(before.flow, flows@.take(i as int)));
            }
        }
        proof {
            assert(flows@.take(flows.len() as int) =~= flows@);
        }
    }

    /// Records a join of the columns from `start` to `end`, which writes to `dst`.
    fn add_join(&mut self, dst: Key, start: Key, end: Key)
        requires
            old(self).wf(),
        ensures
            final(self).wf(),
            final(self)@ == old(self)@.after_join(dst, start, end),
    {
        self.dfa.add_query(start);
        self.dfa.add_query(end);
        self.dfa.add_src(dst, FieldSet::all());
        self.joins.push((start, end));
    }

    /// Visits a low-level instruction with the given flows.
    pub fn visit_ll(&mut self, inst: &Instr, flows: &[Flow])
        requires
            old(self).wf(),
        ensures
            final(self).wf(),
            final(self)@ == old(self)@.after_ll(*inst, flows@),
            (match *inst {
                Instr::StoreConstInt(dst, c) => c < 0,
                Instr::LoadVarStrMap(var) => var != Variable::FI,
                Instr::StoreVarStrMap(var) => var != Variable::FI,
                Instr::StrToFloat(dst, src) => true,
                Instr::Other => true,
                _ => false,
            }) ==> forall|i: int, b: nat|
                0 <= i < flows.len() ==> (#[trigger] final(self)@.flow.fields(
                    (#[trigger] flows@[i]).dst,
                ).contains(b) <==> b <= crate::field_set::FI_INDEX),
    {
        let ghost before = self@;
        proof {
            self.lemma_facts_are_well_formed();
            if (match *inst {
                Instr::StoreConstInt(dst, c) => c < 0,
                Instr::LoadVarStrMap(var) => var != Variable::FI,
                Instr::StoreVarStrMap(var) => var != Variable::FI,
                Instr::StrToFloat(dst, src) => true,
                Instr::Other => true,
                _ => false,
            }) {
                let least = |k: Key| before.flow.fields(k);
                crate::laws::law_a_visit_that_is_not_looked_into(before, *inst, flows@, least);
            }
        }
        match inst {
            Instr::StoreConstInt(dst, i) if *i >= 0 => {
                self.dfa.add_src(dst.key(), constant_field(*i));
            },
            Instr::LoadVarStrMap(Variable::FI)
            | Instr::StoreVarStrMap(Variable::FI)
            | Instr::Lookup
            | Instr::Store
            | Instr::IterBegin
            | Instr::IterGetNext
            | Instr::Mov => self.add_moves(flows),
            Instr::GetColumn(dst, col_reg) => {
                self.dfa.add_query(col_reg.key());
                self.string_cols.push(col_reg.key());
                self.dfa.add_src(dst.key(), FieldSet::all());
            },
            Instr::GetFloatColumn(dst, col_reg) => {
                self.dfa.add_query(col_reg.key());
                self.float_cols.push(col_reg.key());
                self.dfa.add_src(dst.key(), FieldSet::all());
            },
            Instr::JoinCSV(dst, start, end) => self.add_join(dst.key(), start.key(), end.key()),
            Instr::JoinTSV(dst, start, end) => self.add_join(dst.key(), start.key(), end.key()),
            Instr::JoinColumns(dst, start, end) => self.add_join(
                dst.key(),
                start.key(),
                end.key(),
            ),
            _ => self.add_unknowns(flows),
        }
    }

    /// The fields that the program uses.
    ///
    /// Where the fields that are read as floating-point numbers are not known, all fields are
    /// read as strings.
    pub fn solve(self) -> (r: FieldUsage)
        requires
            self.wf(),
        ensures
            r.strs@ == self@.used_strs(),
            r.floats@ == self@.used_floats(),
            r.floats@ != crate::field_set::all_members(),
            forall|i: int, b: nat|
                0 <= i < self@.string_cols.len() && #[trigger] self@.flow.fields(
                    #[trigger] self@.string_cols[i],
                ).contains(b) ==> r.strs@.contains(b),
            forall|i: int, b: nat|
                0 <= i < self@.float_cols.len() && #[trigger] self@.flow.fields(
                    #[trigger] self@.float_cols[i],
                ).contains(b) ==> r.floats@.contains(b) || r.strs@
                    == crate::field_set::all_members(),
    {
        let UsedFieldAnalysis { mut dfa, joins, string_cols, float_cols } = self;
        let mut strs = fields_at(&mut dfa, &string_cols);
        let floats = fields_at(&mut dfa, &float_cols);
        strs.union(&fields_between(&mut dfa, &joins));
        let all = FieldSet::all();
        proof {
            floats.lemma_members(all);
            strs.lemma_members(all);
            assert(crate::field_set::all_members().contains(0));
            let columns = members_at(self@.flow, self@.string_cols);
            assert(columns.subset_of(strs@));
            assert forall|i: int, b: nat|
                0 <= i < self@.string_cols.len() && #[trigger] self@.flow.fields(
                    #[trigger] self@.string_cols[i],
                ).contains(b) implies strs@.contains(b) by {
                assert(columns.contains(b));
            }
        }
        if floats == all {
            FieldUsage { strs: FieldSet::all(), floats: FieldSet::empty() }
        } else {
            FieldUsage { strs, floats }
        }
    }
}

} // verus!
