//! The capability that a value needs to serve as one symbol of an alphabet.
use vstd::prelude::*;

verus! {

/// The views of a sequence of symbols.
pub open spec fn views<T: View>(s: Seq<T>) -> Seq<T::V> {
    s.map_values(|x: T| x@)
}

/// A unit of an alphabet: a character, a text token or a byte.
///
/// Two symbols are the same when their views are equal.
pub trait Symbol: Sized + View {
    /// Whether a symbol with view `v` can stand in an alphabet whose
    /// delimiter is `delim`.
    spec fn is_unit(v: Self::V, delim: Option<char>) -> bool;

    /// Compares two symbols by their views.
    fn same(&self, other: &Self) -> (r: bool)
        ensures
            r == (self@ == other@),
    ;
}

impl Symbol for char {
    open spec fn is_unit(v: char, delim: Option<char>) -> bool {
        delim is None
    }

    fn same(&self, other: &char) -> (r: bool) {
        *self == *other
    }
}

impl Symbol for u8 {
    open spec fn is_unit(v: u8, delim: Option<char>) -> bool {
        delim is None
    }

    fn same(&self, other: &u8) -> (r: bool) {
        *self == *other
    }
}

impl Symbol for String {
    /// With a delimiter a token is any non-empty text free of it; without
    /// one, a token is a single character.
    open spec fn is_unit(v: Seq<char>, delim: Option<char>) -> bool {
        match delim {
            Some(d) => v.len() > 0 && !v.contains(d),
            None => v.len() == 1,
        }
    }

    fn same(&self, other: &String) -> (r: bool) {
        *self == *other
    }
}

/// The first position of a symbol with the view of `x` in `syms`, if any.
pub fn position_of<T: Symbol>(syms: &[T], x: &T) -> (r: Option<usize>)
    ensures
        match r {
            Some(i) => i < syms@.len() && syms@[i as int]@ == x@ && forall|j: int|
                0 <= j < i ==> syms@[j]@ != x@,
            None => !views(syms@).contains(x@),
        },
{
    let mut i: usize = 0;
    while i < syms.len()
        invariant
            i <= syms@.len(),
            forall|j: int| 0 <= j < i ==> syms@[j]@ != x@,
        decreases syms@.len() - i,
    {
        if syms[i].same(x) {
            return Some(i);
        }
        i = i + 1;
    }
    proof {
        if views(syms@).contains(x@) {
            let k = choose|k: int| 0 <= k < views(syms@).len() && views(syms@)[k] == x@;
            assert(syms@[k]@ == x@);
        }
    }
    None
}

} // verus!
