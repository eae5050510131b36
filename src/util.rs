use vstd::prelude::*;

use crate::word::Word;

verus! {

/// Conversion between two number types, in both directions. A conversion fails, with
/// `None`, exactly where the target type cannot hold the number.
pub trait UtilFromInto<T> where Self: Sized {
    /// Whether `v` and `t` stand for the same number.
    spec fn same_number(v: Self, t: T) -> bool;

    fn util_from(n: T) -> (r: Option<Self>)
        ensures
            match r {
                Some(v) => Self::same_number(v, n),
                None => forall|v: Self| !Self::same_number(v, n),
            },
    ;

    fn util_into(self) -> (r: Option<T>)
        ensures
            match r {
                Some(t) => Self::same_number(self, t),
                None => forall|t: T| !Self::same_number(self, t),
            },
    ;
}

impl UtilFromInto<Word> for usize {
    open spec fn same_number(v: usize, t: Word) -> bool {
        v as nat == t.value()
    }

    fn util_from(n: Word) -> (r: Option<usize>) {
        n.to_usize()
    }

    fn util_into(self) -> (r: Option<Word>) {
        Some(Word::from_u64(self as u64))
    }
}

impl UtilFromInto<usize> for Word {
    open spec fn same_number(v: Word, t: usize) -> bool {
        v.value() == t as nat
    }

    fn util_from(n: usize) -> (r: Option<Word>) {
        Some(Word::from_u64(n as u64))
    }

    fn util_into(self) -> (r: Option<usize>) {
        self.to_usize()
    }
}

} // verus!
