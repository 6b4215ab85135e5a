//! Any ordered set of symbols as a numeric base: conversion of `u64`
//! values to their representation in that base and back.
//!
//! An alphabet holds characters (`BaseCustom<char>`), text tokens with an
//! optional delimiter (`BaseCustom<String>`) or bytes (`BaseCustom<u8>`).
//! Repeated symbols are dropped when an alphabet is built, the first
//! occurrence of each staying in place; a symbol's position is its digit
//! value.
use vstd::prelude::*;

mod char;
mod digits;
mod string;
mod symbol;
mod tokens;
mod u8;
mod util;

pub use crate::char::{ordinal_chars, END_ORDINAL, FIRST_ORDINAL};
pub use crate::digits::{digits_of, from_digits, nats, numeral, to_digits, value_of};
pub use crate::symbol::{position_of, views, Symbol};
pub use crate::string::units_of;
pub use crate::tokens::{render, singles, split_from, split_step, tokens, SplitState};
pub use crate::util::{dedup, unique};

use crate::digits::{lemma_numeral_digits_small, lemma_value_of_numeral};
use crate::util::lemma_dedup_idempotent;

verus! {

/// Why an alphabet could not be built or a representation not read.
#[derive(Clone, Copy, Debug, PartialEq, Eq, Structural)]
pub enum BaseError {
    /// Fewer than two distinct symbols.
    TooFewSymbols,
    /// More than 255 distinct symbols.
    TooManySymbols,
    /// A unit of the representation is not a symbol of the alphabet.
    UnknownSymbol,
    /// The representation stands for a number above `u64::MAX`.
    Overflow,
}

/// The most distinct symbols an alphabet may hold.
pub const MAX_SYMBOLS: usize = 255;

/// The alphabet that the symbol list `s` gives once repeats are dropped, or
/// the reason it gives none.
pub open spec fn alphabet_of<A>(s: Seq<A>) -> Result<Seq<A>, BaseError> {
    let u = dedup(s);
    if u.len() < 2 {
        Err(BaseError::TooFewSymbols)
    } else if u.len() > MAX_SYMBOLS {
        Err(BaseError::TooManySymbols)
    } else {
        Ok(u)
    }
}

/// Building from a list gives what building from the list with its repeats
/// removed gives.
pub proof fn lemma_alphabet_ignores_repeats<A>(s: Seq<A>)
    ensures
        alphabet_of(dedup(s)) == alphabet_of(s),
{
    lemma_dedup_idempotent(s);
}

/// Fewer than two distinct symbols give `TooFewSymbols`, more than 255 give
/// `TooManySymbols`, and any count in between gives an alphabet.
pub proof fn lemma_alphabet_limits<A>(s: Seq<A>)
    ensures
        dedup(s).len() < 2 ==> alphabet_of(s) == Err::<Seq<A>, BaseError>(
            BaseError::TooFewSymbols,
        ),
        dedup(s).len() > MAX_SYMBOLS ==> alphabet_of(s) == Err::<Seq<A>, BaseError>(
            BaseError::TooManySymbols,
        ),
        2 <= dedup(s).len() <= MAX_SYMBOLS ==> alphabet_of(s) == Ok::<Seq<A>, BaseError>(
            dedup(s),
        ),
{
}

/// A custom numeric base: an ordered alphabet of distinct symbols, whose
/// positions are the digit values, and for token alphabets an optional
/// delimiter.
///
/// An instance is built with `BaseCustom::<char>::new`,
/// `BaseCustom::<char>::from_ordinal_range`, `BaseCustom::<String>::new` or
/// `BaseCustom::<u8>::new`; `gen` and `decimal` convert.
#[derive(Clone, Debug)]
pub struct BaseCustom<T> {
    primitives: Vec<T>,
    /// The size of the base.
    pub base: u64,
    delim: Option<char>,
}

impl<T: Symbol> BaseCustom<T> {
    /// The alphabet, by position.
    pub open(crate) spec fn symbols(&self) -> Seq<T::V> {
        views(self.primitives@)
    }

    /// The delimiter; only token alphabets may have one.
    pub open(crate) spec fn delimiter(&self) -> Option<char> {
        self.delim
    }

    /// The value of the public `base` field.
    pub open(crate) spec fn base_value(&self) -> u64 {
        self.base
    }

    /// Between 2 and 255 distinct symbols, `base` their count, each symbol
    /// fit for the delimiter.
    pub open(crate) spec fn wf(&self) -> bool {
        &&& 2 <= self.symbols().len() <= MAX_SYMBOLS
        &&& self.base == self.symbols().len()
        &&& self.symbols().no_duplicates()
        &&& forall|i: int|
            0 <= i < self.symbols().len() ==> #[trigger] T::is_unit(
                self.symbols()[i],
                self.delimiter(),
            )
    }

    /// Equal symbols, base and delimiter; how a table is looked up is no
    /// part of it.
    pub open spec fn same_table(&self, other: &Self) -> bool {
        self.symbols() == other.symbols() && self.base_value() == other.base_value()
            && self.delimiter() == other.delimiter()
    }

    /// The number of symbols, which is the radix.
    pub open spec fn radix(&self) -> nat {
        self.symbols().len()
    }

    /// The symbols that spell the digits `ds`.
    pub open spec fn spell(&self, ds: Seq<nat>) -> Seq<T::V> {
        ds.map_values(|d: nat| self.symbols()[d as int])
    }

    /// The symbols that write `v`, most significant first.
    pub open spec fn write(&self, v: u64) -> Seq<T::V> {
        self.spell(numeral(v as nat, self.radix()))
    }

    /// Whether every unit is a symbol of the alphabet.
    pub open spec fn all_known(&self, units: Seq<T::V>) -> bool {
        forall|i: int| 0 <= i < units.len() ==> self.symbols().contains(#[trigger] units[i])
    }

    /// The digit values of the units.
    pub open spec fn digit_values(&self, units: Seq<T::V>) -> Seq<nat> {
        units.map_values(|u: T::V| self.symbols().index_of(u) as nat)
    }

    /// The number that the units stand for, most significant first, or why
    /// there is none.
    pub open spec fn read(&self, units: Seq<T::V>) -> Result<u64, BaseError> {
        if !self.all_known(units) {
            Err(BaseError::UnknownSymbol)
        } else if value_of(self.digit_values(units), self.radix()) > u64::MAX {
            Err(BaseError::Overflow)
        } else {
            Ok(value_of(self.digit_values(units), self.radix()) as u64)
        }
    }

    /// Reading what `write` gives for `v` yields `v` again.
    pub proof fn lemma_read_write(&self, v: u64)
        requires
            self.wf(),
        ensures
            self.read(self.write(v)) == Ok::<u64, BaseError>(v),
    {
        let b = self.radix();
        let ds = numeral(v as nat, b);
        let units = self.write(v);
        let syms = self.symbols();
        lemma_numeral_digits_small(v as nat, b);
        assert forall|i: int| 0 <= i < units.len() implies syms.contains(#[trigger] units[i]) by {
            assert(units[i] == syms[ds[i] as int]);
        }
        assert forall|i: int| 0 <= i < ds.len() implies #[trigger] self.digit_values(units)[i]
            == ds[i] by {
            let k = syms.index_of(units[i]);
            assert(syms.contains(units[i]));
            assert(syms[k] == syms[ds[i] as int]);
        }
        assert(self.digit_values(units) =~= ds);
        lemma_value_of_numeral(v as nat, b);
    }

    /// The table made of the alphabet `syms` and the delimiter `delim`.
    pub(crate) fn from_symbols(syms: Vec<T>, delim: Option<char>) -> (r: Self)
        requires
            2 <= syms@.len() <= MAX_SYMBOLS,
            views(syms@).no_duplicates(),
            forall|i: int| 0 <= i < syms@.len() ==> #[trigger] T::is_unit(syms@[i]@, delim),
        ensures
            r.wf(),
            r.symbols() == views(syms@),
            r.delimiter() == delim,
    {
        let n = syms.len();
        let r = BaseCustom { primitives: syms, base: n as u64, delim };
        assert forall|i: int| 0 <= i < r.symbols().len() implies #[trigger] T::is_unit(
            r.symbols()[i],
            r.delimiter(),
        ) by {
            assert(r.symbols()[i] == syms@[i]@);
        }
        r
    }

    /// The digit value of each unit, or `None` where one is not a symbol of
    /// the alphabet.
    fn digits_for(&self, units: &[T]) -> (r: Option<Vec<u8>>)
        requires
            self.wf(),
        ensures
            match r {
                Some(ds) => self.all_known(views(units@)) && nats(ds@) == self.digit_values(
                    views(units@),
                ),
                None => !self.all_known(views(units@)),
            },
    {
        let ghost us = views(units@);
        let mut ds: Vec<u8> = Vec::new();
        let mut i: usize = 0;
        while i < units.len()
            invariant
                self.wf(),
                i <= units@.len(),
                us == views(units@),
                ds@.len() == i,
                forall|j: int| 0 <= j < i ==> self.symbols().contains(#[trigger] us[j]),
                forall|j: int|
                    0 <= j < i ==> #[trigger] nats(ds@)[j] == self.symbols().index_of(us[j]),
            decreases units@.len() - i,
        {
            match position_of(self.primitives.as_slice(), &units[i]) {
                Some(k) => {
                    proof {
                        let syms = self.symbols();
                        assert(syms[k as int] == us[i as int]);
                        assert(syms.contains(us[i as int]));
                        let c = syms.index_of(us[i as int]);
                        assert(syms[c] == us[i as int]);
                        assert(c == k);
                    }
                    let ghost before = ds@;
                    ds.push(k as u8);
                    proof {
                        assert forall|j: int| 0 <= j < i + 1 implies #[trigger] nats(ds@)[j]
                            == self.symbols().index_of(us[j]) by {
                            if j < i {
                                assert(nats(ds@)[j] == nats(before)[j]);
                            }
                        }
                    }
                },
                None => {
                    proof {
                        assert(!self.symbols().contains(us[i as int]));
                    }
                    return None;
                },
            }
            i = i + 1;
        }
        proof {
            assert(nats(ds@) =~= self.digit_values(us));
        }
        Some(ds)
    }

    /// The number that `units` stand for, most significant first.
    pub(crate) fn read_units(&self, units: &[T]) -> (r: Result<u64, BaseError>)
        requires
            self.wf(),
        ensures
            r == self.read(views(units@)),
    {
        match self.digits_for(units) {
            None => Err(BaseError::UnknownSymbol),
            Some(ds) => match from_digits(ds.as_slice(), self.base) {
                Some(v) => Ok(v),
                None => Err(BaseError::Overflow),
            },
        }
    }

    /// Whether two tables hold the same symbols in the same order.
    fn same_symbols(&self, other: &Self) -> (r: bool)
        ensures
            r == (self.symbols() == other.symbols()),
    {
        let n = self.primitives.len();
        if n != other.primitives.len() {
            proof {
                assert(self.symbols().len() != other.symbols().len());
            }
            return false;
        }
        let mut i: usize = 0;
        while i < n
            invariant
                n == self.primitives@.len() == other.primitives@.len(),
                i <= n,
                forall|j: int| 0 <= j < i ==> self.symbols()[j] == other.symbols()[j],
            decreases n - i,
        {
            if !self.primitives[i].same(&other.primitives[i]) {
                proof {
                    assert(self.symbols()[i as int] != other.symbols()[i as int]);
                }
                return false;
            }
            i = i + 1;
        }
        proof {
            assert(self.symbols() =~= other.symbols());
        }
        true
    }
}

impl<T: Symbol> PartialEq for BaseCustom<T> {
    /// Tables are equal when their symbols, base and delimiter are.
    fn eq(&self, other: &Self) -> (r: bool) {
        let same_delim = match (self.delim, other.delim) {
            (Some(a), Some(b)) => a == b,
            (None, None) => true,
            _ => false,
        };
        self.same_symbols(other) && self.base == other.base && same_delim
    }
}

impl<T: Symbol> vstd::std_specs::cmp::PartialEqSpecImpl for BaseCustom<T> {
    open spec fn obeys_eq_spec() -> bool {
        true
    }

    open spec fn eq_spec(&self, other: &Self) -> bool {
        self.symbols() == other.symbols() && self.base_value() == other.base_value()
            && self.delimiter()
            == other.delimiter()
    }
}

} // verus!
