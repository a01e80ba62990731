//! The fields that a program uses.
use crate::field_set::FieldSet;
use vstd::prelude::*;

verus! {

/// The fields that a program uses, by the type it reads them as.
#[derive(Clone, Copy, PartialEq, Eq, Structural, Debug)]
pub struct FieldUsage {
    /// The fields that are read as strings.
    pub strs: FieldSet,
    /// The fields that are read as floating-point numbers.
    pub floats: FieldSet,
}

impl Default for FieldUsage {
    fn default() -> (r: FieldUsage)
        ensures
            r.strs@ == crate::field_set::all_members(),
            r.floats@ == Set::<nat>::empty(),
    {
        FieldUsage { strs: FieldSet::all(), floats: FieldSet::empty() }
    }
}

/// `set` with field `field`, if it waits for the fields that `FI` names.
pub open spec fn with_field_if_fi(set: Set<nat>, field: nat) -> Set<nat> {
    if crate::field_set::awaits_fi(set) {
        set.union(crate::field_set::members_of_field(field))
    } else {
        set
    }
}

impl FieldUsage {
    /// The fields that are read as either type.
    pub open spec fn members(self) -> Set<nat> {
        self.strs@.union(self.floats@)
    }

    pub fn from_strs(strs: FieldSet) -> (r: FieldUsage)
        ensures
            r.strs == strs,
            r.floats@ == Set::<nat>::empty(),
    {
        FieldUsage { strs, floats: FieldSet::empty() }
    }

    /// The fields that are read as either type.
    pub fn merged(&self) -> (r: FieldSet)
        ensures
            r@ == self.members(),
            forall|b: nat| #[trigger]
                r@.contains(b) <==> self.strs@.contains(b) || self.floats@.contains(b),
    {
        let mut res = self.strs.clone();
        res.union(&self.floats);
        res
    }

    /// Whether one of the sets waits for the fields that `FI` names.
    pub fn has_fi(&self) -> (r: bool)
        ensures
            r == (crate::field_set::awaits_fi(self.strs@) || crate::field_set::awaits_fi(
                self.floats@,
            )),
    {
        self.strs.has_fi() || self.floats.has_fi()
    }

    /// Adds a field that `FI` names to the sets that wait for them.
    pub fn set_if_fi(&mut self, field: usize)
        ensures
            final(self).strs@ == with_field_if_fi(old(self).strs@, field as nat),
            final(self).floats@ == with_field_if_fi(old(self).floats@, field as nat),
            forall|b: nat| #[trigger]
                final(self).strs@.contains(b) ==> old(self).strs@.contains(b) || b == field || field
                    > crate::field_set::MAX_INDEX,
            forall|b: nat| #[trigger]
                final(self).floats@.contains(b) ==> old(self).floats@.contains(b) || b == field
                    || field > crate::field_set::MAX_INDEX,
    {
        if self.strs.has_fi() {
            self.strs.set(field);
        }
        if self.floats.has_fi() {
            self.floats.set(field);
        }
    }

    /// Whether all fields are read as strings.
    pub fn parse_all(&self) -> (r: bool)
        ensures
            r == (self.strs@ == crate::field_set::all_members()),
    {
        let all = FieldSet::all();
        proof {
            self.strs.lemma_members(all);
        }
        self.strs == all
    }
}

/// A field that `FI` names is covered once it is handed to a set that has `FI` as a member.
pub(crate) proof fn lemma_fi_field_is_covered(set: Set<nat>, field: nat)
    requires
        set.subset_of(crate::field_set::all_members()),
        set.contains(crate::field_set::FI_INDEX as nat),
    ensures
        with_field_if_fi(set, field).subset_of(crate::field_set::all_members()),
        crate::field_set::covers(with_field_if_fi(set, field), field),
{
    if set != crate::field_set::all_members() && field > crate::field_set::MAX_INDEX {
        assert(with_field_if_fi(set, field) =~= crate::field_set::all_members());
    }
}

/// After [`FieldUsage::set_if_fi`], a usage that waits for the fields which `FI` names covers the
/// field that it was handed. One that does not wait for them stays as it is.
pub proof fn law_set_if_fi_covers_the_field(usage: FieldUsage, after: FieldUsage, field: nat)
    requires
        after.strs@ == with_field_if_fi(usage.strs@, field),
        after.floats@ == with_field_if_fi(usage.floats@, field),
    ensures
        if crate::field_set::awaits_fi(usage.strs@) || crate::field_set::awaits_fi(usage.floats@) {
            crate::field_set::covers(after.members(), field)
        } else {
            after == usage
        },
{
    usage.strs.lemma_members(after.strs);
    usage.floats.lemma_members(after.floats);
    after.strs.lemma_members(after.strs);
    after.floats.lemma_members(after.floats);
    if crate::field_set::awaits_fi(usage.strs@) {
        lemma_fi_field_is_covered(usage.strs@, field);
    } else if crate::field_set::awaits_fi(usage.floats@) {
        lemma_fi_field_is_covered(usage.floats@, field);
    }
    if after.strs@ == crate::field_set::all_members() || after.floats@
        == crate::field_set::all_members() {
        assert(after.members() =~= crate::field_set::all_members());
    }
}

} // verus!
