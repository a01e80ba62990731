//! Sets of record fields.
use crate::bits;
use crate::dataflow::JoinSemiLattice;
use vstd::prelude::*;

verus! {

/// The largest field index that a [`FieldSet`] tells apart from the others.
pub const MAX_INDEX: usize = 63;

/// The member that stands for "the fields that `FI` names", beside the fields up to
/// [`MAX_INDEX`].
///
/// `FI` maps the column names of a header to field indexes, which are not known before the
/// header is read.
pub const FI_INDEX: usize = 64;

/// All members at once: the set that says "yes" to every query.
pub open spec fn all_members() -> Set<nat> {
    Set::new(|b: nat| b <= FI_INDEX)
}

/// The members of the smallest set that covers field `index`.
pub open spec fn members_of_field(index: nat) -> Set<nat> {
    if index <= MAX_INDEX {
        set![index]
    } else {
        all_members()
    }
}

/// A field of `members`: one of the members that are indexes.
pub open spec fn has_field(members: Set<nat>, index: nat) -> bool {
    index <= MAX_INDEX && members.contains(index)
}

/// Whether a set with these members covers field `index`.
pub open spec fn covers(members: Set<nat>, index: nat) -> bool {
    members == all_members() || has_field(members, index)
}

/// Whether a set with these members waits for the fields that `FI` names.
pub open spec fn awaits_fi(members: Set<nat>) -> bool {
    members != all_members() && members.contains(FI_INDEX as nat)
}

/// `left` with every field that lies between one of `left` and one of `right`, both ends
/// counted.
pub open spec fn filled(left: Set<nat>, right: Set<nat>) -> Set<nat> {
    if right == all_members() {
        all_members()
    } else {
        left.union(
            Set::new(
                |b: nat|
                    exists|lo: nat, hi: nat| #[trigger]
                        has_field(left, lo) && #[trigger] has_field(right, hi) && lo <= b <= hi,
            ),
        )
    }
}

/// A set of record fields.
///
/// Most scripts do not use more than 63 fields, so a set is a "lossy bitset": it represents
/// subsets of [0, 63] precisely, and says "yes" to all queries once a larger field is put in. It
/// is a sound and efficient choice where the fields that a program uses may be
/// overapproximated.
///
/// The view of a set is the set of its members: field indexes up to [`MAX_INDEX`], and
/// [`FI_INDEX`].
#[derive(Clone, Copy, PartialEq, Eq, Structural, Debug)]
pub struct FieldSet {
    /// One bit for each field up to [`MAX_INDEX`].
    fields: u64,
    /// Whether `FI` is a member.
    fi: bool,
}

impl View for FieldSet {
    type V = Set<nat>;

    closed spec fn view(&self) -> Set<nat> {
        Set::new(
            |b: nat|
                if b <= MAX_INDEX {
                    bits::bit_at(self.fields, b as u64)
                } else {
                    b == FI_INDEX && self.fi
                },
        )
    }
}

impl Default for FieldSet {
    fn default() -> (r: FieldSet)
        ensures
            r@ == all_members(),
    {
        FieldSet::all()
    }
}

impl FieldSet {
    /// A set is determined by its members, and every member is at most [`FI_INDEX`].
    pub proof fn lemma_members(self, other: FieldSet)
        ensures
            self@.subset_of(all_members()),
            (self@ == other@) == (self == other),
    {
        if self@ == other@ {
            assert forall|b: u64| b < 64 implies bits::bit_at(self.fields, b) == bits::bit_at(
                other.fields,
                b,
            ) by {
                assert(self@.contains(b as nat) == other@.contains(b as nat));
            }
            bits::lemma_same_bits(self.fields, other.fields);
            assert(self@.contains(FI_INDEX as nat) == other@.contains(FI_INDEX as nat));
        }
    }

    /// The members of the two extreme words.
    proof fn lemma_extremes(self)
        ensures
            (self@ == all_members()) == (self.fields == u64::MAX && self.fi),
            (self@ == Set::<nat>::empty()) == (self.fields == 0 && !self.fi),
    {
        let all = FieldSet { fields: u64::MAX, fi: true };
        let none = FieldSet { fields: 0, fi: false };
        assert forall|b: nat| all@.contains(b) == all_members().contains(b) by {
            if b < 64 {
                bits::lemma_bit_ops(0, 0, b as u64);
            }
        }
        assert(all@ =~= all_members());
        assert forall|b: nat| !none@.contains(b) by {
            if b < 64 {
                bits::lemma_bit_ops(0, 0, b as u64);
            }
        }
        assert(none@ =~= Set::<nat>::empty());
        self.lemma_members(all);
        self.lemma_members(none);
    }

    /// The set of one field, or of all fields where `index` is too large to be told apart.
    pub fn singleton(index: usize) -> (r: FieldSet)
        ensures
            r@ == members_of_field(index as nat),
    {
        if index > MAX_INDEX {
            Self::all()
        } else {
            let r = FieldSet { fields: 1u64 << index, fi: false };
            proof {
                let i = index as u64;
                assert(1u64 << index == 1u64 << i) by (bit_vector)
                    requires
                        index < 64,
                        i == index as u64,
                ;
                assert forall|b: nat| r@.contains(b) == (b == index) by {
                    if b < 64 {
                        bits::lemma_one_bit(0, i, b as u64);
                    }
                }
                assert(r@ =~= set![index as nat]);
            }
            r
        }
    }

    /// The set of the fields that `FI` names.
    pub fn fi() -> (r: FieldSet)
        ensures
            r@ == set![FI_INDEX as nat],
    {
        let r = FieldSet { fields: 0, fi: true };
        proof {
            assert forall|b: nat| r@.contains(b) == (b == FI_INDEX) by {
                if b < 64 {
                    bits::lemma_bit_ops(0, 0, b as u64);
                }
            }
            assert(r@ =~= set![FI_INDEX as nat]);
        }
        r
    }

    /// Whether the set waits for the fields that `FI` names. A set of all fields does not.
    pub fn has_fi(&self) -> (r: bool)
        ensures
            r == awaits_fi(self@),
    {
        let all = FieldSet::all();
        proof {
            self.lemma_members(all);
        }
        *self != all && self.fi
    }

    pub fn is_empty(&self) -> (r: bool)
        ensures
            r == (self@ == Set::<nat>::empty()),
    {
        proof {
            self.lemma_extremes();
        }
        self.fields == 0 && !self.fi
    }

    /// The set of all fields.
    pub fn all() -> (r: FieldSet)
        ensures
            r@ == all_members(),
    {
        let r = FieldSet { fields: u64::MAX, fi: true };
        proof {
            r.lemma_extremes();
        }
        r
    }

    /// The set of no fields.
    pub fn empty() -> (r: FieldSet)
        ensures
            r@ == Set::<nat>::empty(),
    {
        let r = FieldSet { fields: 0, fi: false };
        proof {
            r.lemma_extremes();
        }
        r
    }

    /// Adds every member of `other`.
    pub fn union(&mut self, other: &FieldSet)
        ensures
            final(self)@ == old(self)@.union(other@),
    {
        proof {
            self.lemma_union(*other);
        }
        self.fields = self.fields | other.fields;
        self.fi = self.fi || other.fi;
    }

    /// The members of the union of two words.
    proof fn lemma_union(self, other: FieldSet)
        ensures
            (FieldSet { fields: self.fields | other.fields, fi: self.fi || other.fi })@ == self@.union(other@),
    {
        let both = FieldSet { fields: self.fields | other.fields, fi: self.fi || other.fi };
        assert forall|b: nat| both@.contains(b) == (self@.contains(b) || other@.contains(b)) by {
            if b < 64 {
                bits::lemma_bit_ops(self.fields, other.fields, b as u64);
            }
        }
        assert(both@ =~= self@.union(other@));
    }

    /// The smallest field, or 64 where there is none.
    fn min_bit(&self) -> (r: u32)
        ensures
            r < 64 ==> has_field(self@, r as nat),
            forall|b: nat| #[trigger] has_field(self@, b) ==> r <= b,
            r <= 64,
    {
        let word = self.fields;
        proof {
            vstd::std_specs::bits::axiom_u64_trailing_zeros(word);
            assert forall|b: nat| #[trigger] has_field(self@, b) implies word.trailing_zeros()
                <= b by {
                assert(bits::bit_at(word, b as u64));
            }
        }
        word.trailing_zeros()
    }

    /// One more than the largest field, or 0 where there is none.
    pub(crate) fn max_bit(&self) -> (r: u32)
        ensures
            r > 0 ==> has_field(self@, (r - 1) as nat),
            forall|b: nat| #[trigger] has_field(self@, b) ==> b < r,
            r <= 64,
    {
        let word = self.fields;
        let zeros: u32 = word.leading_zeros();
        proof {
            vstd::std_specs::bits::axiom_u64_leading_zeros(word);
            assert forall|b: nat| #[trigger] has_field(self@, b) implies b < 64 - zeros by {
                assert(bits::bit_at(word, b as u64));
            }
            if zeros < 64 {
                let top = (63 - zeros) as u64;
                assert((word >> top) & 1 == 1) by (bit_vector)
                    requires
                        (word >> top) & 1 != 0,
                ;
                assert(has_field(self@, top as nat));
            }
        }
        64 - zeros
    }

    /// Adds all fields from the smallest of `self` to the largest of `rhs`, both counted.
    ///
    /// A join of fields reads from a start to an end: `self` holds the fields where it may
    /// start, `rhs` those where it may end.
    pub fn fill(&mut self, rhs: &FieldSet)
        ensures
            final(self)@ == filled(old(self)@, rhs@),
    {
        let all = FieldSet::all();
        proof {
            rhs.lemma_members(all);
        }
        if *rhs == all {
            *self = all;
            return ;
        }
        let ghost before = *self;
        let left: u32 = self.min_bit();
        let right: u32 = rhs.max_bit();
        if left >= right {
            proof {
                assert(self@ =~= filled(before@, rhs@));
            }
            return ;
        }
        let rest: u64 = if right == 64 {
            u64::MAX
        } else {
            1u64.wrapping_shl(right).wrapping_sub(1)
        };
        let mask: u64 = 1u64.wrapping_shl(left).wrapping_sub(1);
        self.fields = self.fields | (rest ^ mask);
        proof {
            let l = left as u64;
            let r = right as u64;
            assert(1u64 << left == 1u64 << l && 1u64 << l >= 1) by (bit_vector)
                requires
                    left < 64,
                    l == left as u64,
            ;
            if right < 64 {
                assert(1u64 << right == 1u64 << r && 1u64 << r >= 1) by (bit_vector)
                    requires
                        right < 64,
                        r == right as u64,
                ;
            }
            assert(has_field(before@, left as nat));
            assert(has_field(rhs@, (right - 1) as nat));
            assert forall|b: nat|
                self@.contains(b) == filled(before@, rhs@).contains(b) by {
                if b < 64 {
                    bits::lemma_bit_ops(before.fields, rest ^ mask, b as u64);
                    bits::lemma_run_of_bits(rest, mask, l, r, b as u64);
                }
            }
            assert(self@ =~= filled(before@, rhs@));
        }
    }

    /// Whether the set covers field `index`.
    pub fn get(&self, index: usize) -> (r: bool)
        ensures
            r == covers(self@, index as nat),
            index <= MAX_INDEX ==> r == self@.contains(index as nat),
            index > MAX_INDEX ==> r == (self@ == all_members()),
    {
        let all = FieldSet::all();
        proof {
            self.lemma_members(all);
        }
        if index > MAX_INDEX {
            return *self == all;
        }
        proof {
            let i = index as u64;
            assert(1u64 << index == 1u64 << i) by (bit_vector)
                requires
                    index < 64,
                    i == index as u64,
            ;
            bits::lemma_one_bit(self.fields, i, i);
            assert(self@.contains(index as nat) == bits::bit_at(self.fields, i));
            assert(all_members().contains(index as nat));
        }
        (1u64 << index) & self.fields != 0
    }

    /// Adds field `index`.
    pub fn set(&mut self, index: usize)
        ensures
            final(self)@ == old(self)@.union(members_of_field(index as nat)),
    {
        let ghost before = *self;
        if index <= MAX_INDEX {
            self.fields = self.fields | (1u64 << index);
            proof {
                let i = index as u64;
                assert(1u64 << index == 1u64 << i) by (bit_vector)
                    requires
                        index < 64,
                        i == index as u64,
                ;
                assert forall|b: nat|
                    self@.contains(b) == (before@.contains(b) || b == index) by {
                    if b < 64 {
                        bits::lemma_bit_ops(before.fields, 1u64 << i, b as u64);
                        bits::lemma_one_bit(0, i, b as u64);
                    }
                }
                assert(self@ =~= before@.union(members_of_field(index as nat)));
            }
        } else {
            *self = Self::all();
            proof {
                before.lemma_members(before);
                assert(self@ =~= before@.union(members_of_field(index as nat)));
            }
        }
    }
}

impl JoinSemiLattice for FieldSet {
    type Func = ();

    closed spec fn least() -> FieldSet {
        FieldSet { fields: 0, fi: false }
    }

    closed spec fn joined(self, other: FieldSet, func: ()) -> FieldSet {
        FieldSet { fields: self.fields | other.fields, fi: self.fi || other.fi }
    }

    fn bottom() -> (r: FieldSet)
        ensures
            r@ == Set::<nat>::empty(),
    {
        let r = FieldSet::empty();
        proof {
            r.lemma_extremes();
        }
        r
    }

    fn invoke(&mut self, other: &FieldSet, func: &()) -> (changed: bool)
        ensures
            final(self)@ == old(self)@.union(other@),
            changed == (final(self)@ != old(self)@),
    {
        let before = self.clone();
        self.union(other);
        proof {
            before.lemma_union(*other);
            self.lemma_members(FieldSet { fields: before.fields | other.fields, fi: before.fi || other.fi });
            self.lemma_members(before);
        }
        *self != before
    }
}

/// Set by set, union is the least upper bound for inclusion, and no set is larger than
/// [`FieldSet::all`] or smaller than [`FieldSet::empty`].
pub proof fn law_sets_form_a_lattice(a: FieldSet, b: FieldSet, bound: FieldSet)
    ensures
        a@.union(b@) == b@.union(a@),
        a@.subset_of(a@.union(b@)),
        a@.subset_of(bound@) && b@.subset_of(bound@) ==> a@.union(b@).subset_of(bound@),
        Set::<nat>::empty().subset_of(a@),
        a@.subset_of(all_members()),
        a@.subset_of(b@) && b@.subset_of(a@) ==> a == b,
{
    a.lemma_members(b);
    assert(a@.union(b@) =~= b@.union(a@));
    if a@.subset_of(b@) && b@.subset_of(a@) {
        assert(a@ =~= b@);
    }
}

/// A larger set covers at least the fields that a smaller one covers.
pub proof fn law_covers_is_monotone(small: FieldSet, large: FieldSet, index: nat)
    requires
        small@.subset_of(large@),
        covers(small@, index),
    ensures
        covers(large@, index),
{
    large.lemma_members(large);
    if small@ == all_members() {
        assert(large@ =~= all_members());
    }
}

/// After field `index` is added, the set covers `index` and everything it covered before. It
/// covers nothing else, unless `index` is larger than [`MAX_INDEX`] or the last member was
/// added.
pub proof fn law_set_then_get(before: FieldSet, index: nat, other: nat)
    ensures
        covers(before@.union(members_of_field(index)), index),
        covers(before@, other) ==> covers(before@.union(members_of_field(index)), other),
        covers(before@.union(members_of_field(index)), other) ==> covers(before@, other) || other
            == index || before@.union(members_of_field(index)) == all_members(),
        index > MAX_INDEX ==> before@.union(members_of_field(index)) == all_members(),
{
    let after = before@.union(members_of_field(index));
    before.lemma_members(before);
    if index > MAX_INDEX || before@ == all_members() {
        assert(after =~= all_members());
    }
}

/// Filling keeps what was there, and covers each field from any start that `start` covers to any
/// end that `end` covers.
pub(crate) proof fn lemma_filled_covers_the_range(
    start: Set<nat>,
    end: Set<nat>,
    first: nat,
    last: nat,
    index: nat,
)
    requires
        start.subset_of(all_members()),
        covers(start, first),
        covers(end, last),
        first <= index <= last,
    ensures
        start.subset_of(filled(start, end)),
        filled(start, end).subset_of(all_members()),
        covers(filled(start, end), index),
{
    let result = filled(start, end);
    assert(result.subset_of(all_members()));
    if end != all_members() {
        assert(has_field(end, last));
        if start == all_members() {
            assert(result =~= all_members());
        } else {
            assert(has_field(start, first));
            assert(result.contains(index));
        }
    }
}

/// Filling is monotone in both sets.
pub(crate) proof fn lemma_filled_is_monotone(
    start: Set<nat>,
    end: Set<nat>,
    more_start: Set<nat>,
    more_end: Set<nat>,
)
    requires
        start.subset_of(more_start),
        end.subset_of(more_end),
        more_start.subset_of(all_members()),
        more_end.subset_of(all_members()),
    ensures
        filled(start, end).subset_of(filled(more_start, more_end)),
{
    let small = filled(start, end);
    let large = filled(more_start, more_end);
    if end == all_members() {
        assert(more_end =~= all_members());
    } else {
        assert forall|b: nat| small.contains(b) implies large.contains(b) by {
            if !start.contains(b) {
                let (lo, hi) = choose|lo: nat, hi: nat| #[trigger]
                    has_field(start, lo) && #[trigger] has_field(end, hi) && lo <= b <= hi;
                assert(has_field(more_start, lo));
                assert(has_field(more_end, hi));
            }
        }
    }
}

/// `fill` keeps what was there, and covers each field from any start that `start` covers to
/// any end that `end` covers.
pub proof fn law_fill_covers_the_range(
    start: FieldSet,
    end: FieldSet,
    first: nat,
    last: nat,
    index: nat,
)
    requires
        covers(start@, first),
        covers(end@, last),
        first <= index <= last,
    ensures
        start@.subset_of(filled(start@, end@)),
        covers(filled(start@, end@), index),
{
    start.lemma_members(start);
    lemma_filled_covers_the_range(start@, end@, first, last, index);
}

/// `fill` adds no field that is not between a field of `start` and one of `end`, unless `end`
/// is the set of all fields.
pub proof fn law_fill_adds_only_the_range(start: FieldSet, end: FieldSet, member: nat)
    requires
        end@ != all_members(),
        filled(start@, end@).contains(member),
        !start@.contains(member),
    ensures
        exists|lo: nat, hi: nat| #[trigger]
            has_field(start@, lo) && #[trigger] has_field(end@, hi) && lo <= member <= hi,
{
}

/// `fill` is monotone in both sets.
pub proof fn law_fill_is_monotone(
    start: FieldSet,
    end: FieldSet,
    more_start: FieldSet,
    more_end: FieldSet,
)
    requires
        start@.subset_of(more_start@),
        end@.subset_of(more_end@),
    ensures
        filled(start@, end@).subset_of(filled(more_start@, more_end@)),
{
    more_start.lemma_members(more_start);
    more_end.lemma_members(more_end);
    lemma_filled_is_monotone(start@, end@, more_start@, more_end@);
}

} // verus!
