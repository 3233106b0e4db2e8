//! Functor interning table.
//!
//! A functor is a `(name, arity)` pair such as `h/2`.  Names are interned in
//! a [`Functors`] table, so that a functor travels through the machine as a
//! pair of small integers: the index of its name and its arity.  Two
//! functors made from the same name and arity in the same table are equal.

use vstd::prelude::*;

verus! {

/// A compact functor handle: an index into a [`Functors`] table plus the
/// arity.  Equality of handles from one table coincides with equality of
/// the underlying `(name, arity)` pairs.
#[derive(Copy, Clone, Debug, PartialEq, Eq, Hash, Structural)]
pub struct Functor {
    pub sym: usize,
    pub arity: usize,
}

impl Functor {
    /// The number of arguments a structure with this functor carries.
    pub fn arity(self) -> (n: usize)
        ensures
            n == self.arity,
    {
        self.arity
    }
}

/// The interning table for functor names.  Interning the same name twice
/// yields the same index, so handle equality decides name equality.
pub struct Functors {
    names: Vec<String>,
}

impl Functors {
    /// The interned names, as mathematical character sequences.
    pub closed spec fn names_seq(&self) -> Seq<Seq<char>> {
        self.names@.map(|i: int, s: String| s@)
    }

    /// No name is interned twice.
    pub open spec fn wf(&self) -> bool {
        forall|i: int, j: int|
            0 <= i < j < self.names_seq().len() ==> self.names_seq()[i] != self.names_seq()[j]
    }

    /// A functor handle that this table can resolve to a name.
    pub open spec fn resolves(&self, f: Functor) -> bool {
        f.sym < self.names_seq().len()
    }

    pub fn new() -> (fs: Functors)
        ensures
            fs.wf(),
            fs.names_seq().len() == 0,
    {
        Functors { names: Vec::new() }
    }

    /// Intern `(text, arity)`: the returned handle points at the unique
    /// entry holding `text`, which is appended if it was not present.
    pub fn functor(&mut self, text: &str, arity: usize) -> (f: Functor)
        requires
            old(self).wf(),
        ensures
            final(self).wf(),
            f.arity == arity,
            final(self).resolves(f),
            final(self).names_seq()[f.sym as int] == text@,
            old(self).names_seq().len() <= final(self).names_seq().len() <= old(
                self,
            ).names_seq().len() + 1,
            forall|i: int|
                0 <= i < old(self).names_seq().len() ==> final(self).names_seq()[i] == old(
                    self,
                ).names_seq()[i],
    {
        let owned = String::from_str(text);
        let n = self.names.len();
        for i in 0..n
            invariant
                n == self.names_seq().len(),
                owned@ == text@,
                self.wf(),
                forall|j: int| 0 <= j < i ==> self.names_seq()[j] != text@,
        {
            if self.names[i] == owned {
                return Functor { sym: i, arity };
            }
        }
        self.names.push(owned);
        assert(self.names_seq() =~= old(self).names_seq().push(text@));
        Functor { sym: n, arity }
    }

    /// The number of interned names.
    pub fn len(&self) -> (n: usize)
        ensures
            n == self.names_seq().len(),
    {
        self.names.len()
    }

    /// The name a handle stands for.
    pub fn text(&self, f: Functor) -> (t: &str)
        requires
            self.resolves(f),
        ensures
            t@ == self.names_seq()[f.sym as int],
    {
        self.names[f.sym].as_str()
    }
}

} // verus!
