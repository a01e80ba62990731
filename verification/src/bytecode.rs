//! What the analyses see of a program: registers, places where values live, and instructions.
use core::marker::PhantomData;
use vstd::prelude::*;

verus! {

/// The number of a register.
pub type NumTy = u32;

/// The type of a register.
#[derive(Clone, Copy, PartialEq, Eq, Structural, Debug)]
pub enum Ty {
    Int,
    Float,
    Str,
    /// A map or an iterator type, by its number.
    Other(NumTy),
}

/// A builtin variable.
#[derive(Clone, Copy, PartialEq, Eq, Structural, Debug)]
pub enum Variable {
    /// The map from the column names of a header to field indexes.
    FI,
    /// Any other builtin variable, by its number.
    Other(NumTy),
}

/// Marks registers that hold integers.
#[derive(Clone, Copy, Debug)]
pub struct Int;

/// Marks registers that hold floating-point numbers.
#[derive(Clone, Copy, Debug)]
pub struct Float;

/// Marks registers that hold strings.
#[derive(Clone, Copy, Debug)]
pub struct Str;

/// The types that a register can be marked with.
pub trait RegTy {
    /// The marked type.
    spec fn marked() -> Ty;

    fn ty() -> (r: Ty)
        ensures
            r == Self::marked(),
    ;
}

impl RegTy for Int {
    open spec fn marked() -> Ty {
        Ty::Int
    }

    fn ty() -> (r: Ty) {
        Ty::Int
    }
}

impl RegTy for Float {
    open spec fn marked() -> Ty {
        Ty::Float
    }

    fn ty() -> (r: Ty) {
        Ty::Float
    }
}

impl RegTy for Str {
    open spec fn marked() -> Ty {
        Ty::Str
    }

    fn ty() -> (r: Ty) {
        Ty::Str
    }
}

/// A register with its type.
#[derive(Debug)]
pub struct Reg<T> {
    num: NumTy,
    marker: PhantomData<T>,
}

impl<T> Copy for Reg<T> {

}

impl<T> Clone for Reg<T> {
    fn clone(&self) -> (r: Self)
        ensures
            r == *self,
    {
        *self
    }
}

impl<T: RegTy> Reg<T> {
    /// The number of the register.
    pub closed spec fn number(self) -> NumTy {
        self.num
    }

    /// A register of a type is determined by its number.
    pub proof fn lemma_number(self, other: Reg<T>)
        ensures
            (self.number() == other.number()) == (self == other),
    {
    }

    /// The register as a place where values live.
    pub open spec fn place(self) -> Key {
        Key::Reg(self.number(), T::marked())
    }

    pub fn new(num: NumTy) -> (r: Reg<T>)
        ensures
            r.number() == num,
    {
        Reg { num, marker: PhantomData }
    }

    /// The number of the register.
    pub fn num(&self) -> (r: NumTy)
        ensures
            r == self.number(),
    {
        self.num
    }

    /// The register's number and type.
    pub fn reflect(&self) -> (r: (NumTy, Ty))
        ensures
            r == (self.number(), T::marked()),
    {
        (self.num, T::ty())
    }

    /// The place of the register.
    pub fn key(&self) -> (r: Key)
        ensures
            r == self.place(),
            r == Key::Reg(self.number(), T::marked()),
    {
        Key::Reg(self.num, T::ty())
    }
}

/// A place where values live.
#[derive(Clone, Copy, PartialEq, Eq, Structural, Debug)]
pub enum Key {
    /// A register.
    Reg(NumTy, Ty),
    /// The random number generator.
    Rng,
    /// The value of a builtin variable, or the values where it is a map.
    VarVal(Variable),
    /// The keys of a builtin variable that is a map.
    VarKey(Variable),
    /// Any other place, by its number: the keys or the values of a map, the result of a function.
    Other(u64),
}

/// A way in which an instruction moves values: `dst` can take on any value of `src`, or, where
/// there is no `src`, a value that the instruction makes itself.
#[derive(Clone, Copy, Debug)]
pub struct Flow {
    pub dst: Key,
    pub src: Option<Key>,
}

/// A low-level instruction, with those of its operands that the analyses read by name. The flows
/// and the registers of an instruction are handed over beside it.
#[derive(Clone, Copy, Debug)]
pub enum Instr {
    /// Stores a constant in a register.
    StoreConstInt(Reg<Int>, i64),
    /// Loads a builtin map with string keys.
    LoadVarStrMap(Variable),
    /// Stores to a builtin map with string keys.
    StoreVarStrMap(Variable),
    /// Looks a key up in a map.
    Lookup,
    /// Stores a key and its value in a map.
    Store,
    /// Starts to iterate over a map.
    IterBegin,
    /// Gets the next key of an iteration.
    IterGetNext,
    /// Copies a register.
    Mov,
    /// Stores the column numbered by the second register in the first one.
    GetColumn(Reg<Str>, Reg<Int>),
    /// Parses the column numbered by the second register, and stores it in the first one.
    GetFloatColumn(Reg<Float>, Reg<Int>),
    /// Parses the string in the second register, and stores it in the first one.
    StrToFloat(Reg<Float>, Reg<Str>),
    /// Joins the columns from the second register's to the third one's, as comma-separated
    /// values, and stores the result in the first one.
    JoinCSV(Reg<Str>, Reg<Int>, Reg<Int>),
    /// The same, as tab-separated values.
    JoinTSV(Reg<Str>, Reg<Int>, Reg<Int>),
    /// The same, with a separator from a register.
    JoinColumns(Reg<Str>, Reg<Int>, Reg<Int>),
    /// Any other instruction.
    Other,
}

} // verus!
