//! The analysis that turns column reads into type-specific ones.
use crate::bytecode::{Instr, NumTy, Reg, Str, Ty};
use crate::reg_tables::{
    map_clear, map_default, map_get, map_insert, set_clear, set_contains, set_default, set_insert,
};
use hashbrown::{HashMap, HashSet};
use vstd::prelude::*;

verus! {

/// What the analysis knows of a function.
#[verifier::ext_equal]
pub struct ColumnFacts {
    /// The string registers that columns were read into, with the registers that numbered them.
    pub columns: Map<NumTy, NumTy>,
    /// Those of them that were used later on for something else than a conversion to a
    /// floating-point number.
    pub other_uses: Set<NumTy>,
}

impl ColumnFacts {
    /// Nothing.
    pub open spec fn none() -> ColumnFacts {
        ColumnFacts { columns: Map::empty(), other_uses: Set::empty() }
    }

    /// After the column numbered by `src` was read into `dst`.
    pub open spec fn with_column(self, dst: NumTy, src: NumTy) -> ColumnFacts {
        ColumnFacts { columns: self.columns.insert(dst, src), ..self }
    }

    /// After some registers were used: the string registers among them that a column was read
    /// into have another use.
    pub open spec fn with_uses(self, regs: Seq<(NumTy, Ty)>) -> ColumnFacts {
        ColumnFacts {
            other_uses: self.other_uses.union(
                Set::new(
                    |reg: NumTy| self.columns.contains_key(reg) && regs.contains((reg, Ty::Str)),
                ),
            ),
            ..self
        }
    }
}

/// A static analysis of one function, used to replace reads of columns as strings, which are
/// then parsed, with reads of columns at the type that is needed.
///
/// The view of an analysis is what it knows of the function.
pub struct ColumnParseAnalysis {
    get_cols: HashMap<NumTy, NumTy>,
    other_uses: HashSet<NumTy>,
}

impl View for ColumnParseAnalysis {
    type V = ColumnFacts;

    closed spec fn view(&self) -> ColumnFacts {
        ColumnFacts {
            columns: crate::reg_tables::map_entries(self.get_cols),
            other_uses: crate::reg_tables::set_elements(self.other_uses),
        }
    }
}

impl Default for ColumnParseAnalysis {
    fn default() -> (r: ColumnParseAnalysis)
        ensures
            r.wf(),
            r@ == ColumnFacts::none(),
    {
        ColumnParseAnalysis { get_cols: map_default(), other_uses: set_default() }
    }
}

impl ColumnParseAnalysis {
    /// Whether only registers that columns were read into are known to have another use.
    pub open spec fn wf(self) -> bool {
        self@.other_uses.subset_of(self@.columns.dom())
    }

    /// Records the use of a register.
    fn record_key(&mut self, reg: NumTy, ty: Ty)
        requires
            old(self).wf(),
        ensures
            final(self).wf(),
            final(self)@ == old(self)@.with_uses(seq![(reg, ty)]),
    {
        let ghost before = self@;
        if ty == Ty::Str {
            if map_get(&self.get_cols, reg).is_some() {
                set_insert(&mut self.other_uses, reg);
            }
        }
        proof {
            assert(seq![(reg, ty)][0] == (reg, ty));
            assert(self@ =~= before.with_uses(seq![(reg, ty)]));
        }
    }

    /// Records the use of some registers.
    fn record_keys(&mut self, regs: &[(NumTy, Ty)])
        requires
            old(self).wf(),
        ensures
            final(self).wf(),
            final(self)@ == old(self)@.with_uses(regs@),
    {
        let ghost before = self@;
        let mut i: usize = 0;
        proof {
            assert(before =~= before.with_uses(regs@.take(0)));
        }
        while i < regs.len()
            invariant
                i <= regs.len(),
                self.wf(),
                self@ == before.with_uses(regs@.take(i as int)),
            decreases regs.len() - i,
        {
            let (reg, ty) = regs[i];
            self.record_key(reg, ty);
            proof {
                let some = regs@.take(i as int);
                let more = regs@.take(i + 1);
                assert(more =~= some.push((reg, ty)));
                assert forall|pair: (NumTy, Ty)|
                    more.contains(pair) == (some.contains(pair) || pair == (reg, ty)) by {
                    if some.contains(pair) {
                        assert(more[some.index_of(pair)] == pair);
                    }
                    assert(more[i as int] == (reg, ty));
                    if more.contains(pair) && pair != (reg, ty) {
                        assert(some[more.index_of(pair)] == pair);
                    }
                }
                assert forall|pair: (NumTy, Ty)| seq![(reg, ty)].contains(pair) == (pair == (
                    reg,
                    ty,
                )) by {
                    assert(seq![(reg, ty)][0] == (reg, ty));
                }
                assert(self@ =~= before.with_uses(more));
            }
            i = i + 1;
        }
        proof {
            assert(regs@.take(regs.len() as int) =~= regs@);
        }
    }

    /// Forgets everything.
    pub fn clear(&mut self)
        ensures
            final(self).wf(),
            final(self)@ == ColumnFacts::none(),
    {
        map_clear(&mut self.get_cols);
        set_clear(&mut self.other_uses);
    }

    /// Visits a high-level instruction with the given registers.
    pub fn visit_hl(&mut self, regs: &[(NumTy, Ty)])
        requires
            old(self).wf(),
        ensures
            final(self).wf(),
            final(self)@ == old(self)@.with_uses(regs@),
    {
        self.record_keys(regs)
    }

    /// Whether a column was read into `r`, and `r` was not seen used later on for anything but
    /// conversions to floating-point numbers, so that the column need not be read as a string.
    pub fn avoid_parse(&self, r: Reg<Str>) -> (b: bool)
        ensures
            b == (self@.columns.contains_key(r.number()) && !self@.other_uses.contains(
                r.number(),
            )),
    {
        map_get(&self.get_cols, r.num()).is_some() && !set_contains(&self.other_uses, r.num())
    }

    /// Visits a low-level instruction with the given registers.
    ///
    /// A conversion of a string that was read from a column becomes a read of that column.
    /// Returns the register that a column is read into, where the analysis follows it.
    pub fn visit_ll(
        &mut self,
        mut is_local: impl FnMut((NumTy, Ty)) -> bool,
        inst: &mut Instr,
        regs: &[(NumTy, Ty)],
    ) -> (r: Option<Reg<Str>>)
        requires
            old(self).wf(),
            *old(inst) matches Instr::GetColumn(dst, src) ==> call_requires(
                is_local,
                ((dst.number(), Ty::Str),),
            ) && (call_ensures(is_local, ((dst.number(), Ty::Str),), true) ==> call_requires(
                is_local,
                ((src.number(), Ty::Int),),
            )),
        ensures
            final(self).wf(),
            match *old(inst) {
                Instr::GetColumn(dst, src) => {
                    &&& *final(inst) == *old(inst)
                    &&& match r {
                        Some(reg) => {
                            &&& call_ensures(is_local, ((dst.number(), Ty::Str),), true)
                            &&& call_ensures(is_local, ((src.number(), Ty::Int),), true)
                            &&& reg == dst
                            &&& final(self)@ == old(self)@.with_column(dst.number(), src.number())
                        },
                        None => {
                            &&& call_ensures(is_local, ((dst.number(), Ty::Str),), false) || (
                            call_ensures(is_local, ((dst.number(), Ty::Str),), true)
                                && call_ensures(is_local, ((src.number(), Ty::Int),), false))
                            &&& final(self)@ == old(self)@.with_uses(regs@)
                        },
                    }
                },
                Instr::StrToFloat(dst, src) => {
                    &&& r is None
                    &&& final(self)@ == old(self)@
                    &&& if old(self)@.columns.contains_key(src.number()) {
                        *final(inst) matches Instr::GetFloatColumn(to, col) && to == dst
                            && col.number() == old(self)@.columns[src.number()]
                    } else {
                        *final(inst) == *old(inst)
                    }
                },
                _ => {
                    &&& r is None
                    &&& final(self)@ == old(self)@.with_uses(regs@)
                    &&& *final(inst) == *old(inst)
                },
            },
    {
        match *inst {
            Instr::GetColumn(dst, src) if is_local(dst.reflect()) && is_local(src.reflect()) => {
                map_insert(&mut self.get_cols, dst.num(), src.num());
                Some(dst)
            },
            Instr::StrToFloat(dst, src) => {
                if let Some(col) = map_get(&self.get_cols, src.num()) {
                    *inst = Instr::GetFloatColumn(dst, Reg::new(col));
                }
                None
            },
            _ => {
                self.record_keys(regs);
                None
            },
        }
    }
}

/// What a visit tells the analysis.
pub enum ColumnStep {
    /// The column numbered by the second register is read into the first one.
    Column(NumTy, NumTy),
    /// Some registers are used.
    Uses(Seq<(NumTy, Ty)>),
}

/// What is known after some steps.
pub open spec fn after_steps(steps: Seq<ColumnStep>) -> ColumnFacts
    decreases steps.len(),
{
    if steps.len() == 0 {
        ColumnFacts::none()
    } else {
        let before = after_steps(steps.drop_last());
        match steps.last() {
            ColumnStep::Column(dst, src) => before.with_column(dst, src),
            ColumnStep::Uses(regs) => before.with_uses(regs),
        }
    }
}

/// Whether a step reads a column into `reg`.
pub open spec fn reads_into(step: ColumnStep, reg: NumTy) -> bool {
    step matches ColumnStep::Column(dst, src) && dst == reg
}

/// Whether a step uses the string register `reg`.
pub open spec fn uses_string(step: ColumnStep, reg: NumTy) -> bool {
    step matches ColumnStep::Uses(regs) && regs.contains((reg, Ty::Str))
}

/// The analysis knows a register exactly where a column was read into it, and knows another use
/// of it exactly where it was used as a string later on.
pub proof fn law_only_later_uses_count(steps: Seq<ColumnStep>, reg: NumTy)
    ensures
        after_steps(steps).columns.contains_key(reg) <==> exists|i: int|
            0 <= i < steps.len() && reads_into(#[trigger] steps[i], reg),
        after_steps(steps).other_uses.contains(reg) <==> exists|i: int, j: int|
            0 <= i < j < steps.len() && reads_into(#[trigger] steps[i], reg) && uses_string(
                #[trigger] steps[j],
                reg,
            ),
    decreases steps.len(),
{
    if steps.len() > 0 {
        let rest = steps.drop_last();
        let last = steps.len() - 1;
        law_only_later_uses_count(rest, reg);
        assert forall|i: int| 0 <= i < last implies #[trigger] rest[i] == steps[i] by {}
        let before = after_steps(rest);
        let after = after_steps(steps);
        if before.columns.contains_key(reg) {
            let i = choose|i: int| 0 <= i < rest.len() && reads_into(#[trigger] rest[i], reg);
            assert(reads_into(steps[i], reg));
            if uses_string(steps[last], reg) {
                assert(after.other_uses.contains(reg));
            }
        }
        if before.other_uses.contains(reg) {
            let (i, j) = choose|i: int, j: int|
                0 <= i < j < rest.len() && reads_into(#[trigger] rest[i], reg) && uses_string(
                    #[trigger] rest[j],
                    reg,
                );
            assert(reads_into(steps[i], reg) && uses_string(steps[j], reg));
        }
        if exists|i: int| 0 <= i < steps.len() && reads_into(#[trigger] steps[i], reg) {
            let i = choose|i: int| 0 <= i < steps.len() && reads_into(#[trigger] steps[i], reg);
            if i < last {
                assert(reads_into(rest[i], reg));
            }
        }
        if exists|i: int, j: int|
            0 <= i < j < steps.len() && reads_into(#[trigger] steps[i], reg) && uses_string(
                #[trigger] steps[j],
                reg,
            ) {
            let (i, j) = choose|i: int, j: int|
                0 <= i < j < steps.len() && reads_into(#[trigger] steps[i], reg) && uses_string(
                    #[trigger] steps[j],
                    reg,
                );
            assert(reads_into(rest[i], reg));
            if j < last {
                assert(uses_string(rest[j], reg));
            }
        }
    }
}

/// The register that numbers a column is the one of the latest read.
pub proof fn law_the_latest_read_counts(steps: Seq<ColumnStep>, dst: NumTy, src: NumTy, i: int)
    requires
        0 <= i < steps.len(),
        steps[i] == ColumnStep::Column(dst, src),
        forall|j: int| i < j < steps.len() ==> !reads_into(#[trigger] steps[j], dst),
    ensures
        after_steps(steps).columns.contains_key(dst),
        after_steps(steps).columns[dst] == src,
    decreases steps.len(),
{
    let rest = steps.drop_last();
    if i < steps.len() - 1 {
        assert forall|j: int| i < j < rest.len() implies !reads_into(#[trigger] rest[j], dst) by {
            assert(rest[j] == steps[j]);
        }
        law_the_latest_read_counts(rest, dst, src, i);
        assert(!reads_into(steps[steps.len() - 1], dst));
    }
}

} // verus!
