//! Terms: variables and structures.
//!
//! A term is either a named variable or a structure, a functor applied to an
//! ordered sequence of argument terms.  Terms are immutable values; the
//! machine never sees them directly, they are lowered to instructions by the
//! compiler in [`crate::interpret`].

use vstd::prelude::*;

use crate::functor::{Functor, Functors};

verus! {

pub enum Term {
    Variable(String),
    Structure(Structure),
}

pub struct Structure {
    pub functor: Functor,
    pub terms: Vec<Term>,
}

impl Term {
    /// The arity of every functor in the term equals its number of children.
    pub open spec fn wf(self) -> bool
        decreases self,
    {
        match self {
            Term::Variable(_) => true,
            Term::Structure(s) => s.wf(),
        }
    }

    /// Every functor in the term has a name in `fs`.
    pub open spec fn resolves_in(self, fs: Functors) -> bool
        decreases self,
    {
        match self {
            Term::Variable(_) => true,
            Term::Structure(s) => s.resolves_in(fs),
        }
    }

    /// The rendered form of the term: `?x` for a variable, the functor name
    /// followed by the parenthesised children for a structure.
    pub open spec fn text_spec(self, fs: Functors) -> Seq<char>
        decreases self,
    {
        match self {
            Term::Variable(v) => seq!['?'] + v@,
            Term::Structure(s) => s.text_spec(fs),
        }
    }

    /// Render the term.
    pub fn text(&self, fs: &Functors) -> (r: String)
        requires
            self.resolves_in(*fs),
        ensures
            r@ == self.text_spec(*fs),
        decreases *self,
    {
        match self {
            Term::Variable(v) => {
                let mut r = String::from_str("?");
                proof {
                    reveal_strlit("?");
                    assert(r@ =~= seq!['?']);
                }
                r.append(v.as_str());
                r
            },
            Term::Structure(s) => s.text(fs),
        }
    }
}

impl Structure {
    pub open spec fn wf(self) -> bool
        decreases self,
    {
        &&& self.functor.arity == self.terms@.len()
        &&& forall|i: int| #![trigger self.terms@[i]] 0 <= i < self.terms@.len() ==> self.terms@[i].wf()
    }

    pub open spec fn resolves_in(self, fs: Functors) -> bool
        decreases self,
    {
        &&& fs.resolves(self.functor)
        &&& forall|i: int| #![trigger self.terms@[i]]
            0 <= i < self.terms@.len() ==> self.terms@[i].resolves_in(fs)
    }

    pub open spec fn text_spec(self, fs: Functors) -> Seq<char>
        decreases self,
    {
        if self.terms@.len() == 0 {
            fs.names_seq()[self.functor.sym as int]
        } else {
            fs.names_seq()[self.functor.sym as int] + seq!['('] + args_text_spec(
                fs,
                self.terms@,
            ) + seq![')']
        }
    }

    /// Render the structure.
    pub fn text(&self, fs: &Functors) -> (r: String)
        requires
            self.resolves_in(*fs),
        ensures
            r@ == self.text_spec(*fs),
        decreases *self,
    {
        let mut r = String::from_str(fs.text(self.functor));
        let n = self.terms.len();
        if n == 0 {
            return r;
        }

        r.append("(");
        proof {
            reveal_strlit("(");
            assert(r@ =~= fs.names_seq()[self.functor.sym as int] + seq!['(']);
        }
        for i in 0..n
            invariant
                n == self.terms@.len(),
                self.resolves_in(*fs),
                forall|j: int| #![trigger self.terms@[j]] 0 <= j < n ==> self.terms@[j].resolves_in(*fs),
                r@ == fs.names_seq()[self.functor.sym as int] + seq!['('] + args_text_spec(
                    *fs,
                    self.terms@.take(i as int),
                ),
            decreases n - i,
        {
            if i > 0 {
                r.append(",");
                proof {
                    reveal_strlit(",");
                }
            }
            let sub = self.terms[i].text(fs);
            r.append(sub.as_str());
            proof {
                assert(self.terms@.take(i + 1 as int).drop_last() =~= self.terms@.take(i as int));
                assert(self.terms@.take(i + 1 as int).last() == self.terms@[i as int]);
            }
        }
        r.append(")");
        proof {
            reveal_strlit(")");
            assert(self.terms@.take(n as int) =~= self.terms@);
            assert(r@ =~= self.text_spec(*fs));
        }
        r
    }
}

/// The children of a structure, rendered and separated by commas.
pub open spec fn args_text_spec(fs: Functors, ts: Seq<Term>) -> Seq<char>
    decreases ts,
{
    if ts.len() == 0 {
        Seq::empty()
    } else if ts.len() == 1 {
        ts[0].text_spec(fs)
    } else {
        args_text_spec(fs, ts.drop_last()) + seq![','] + ts.last().text_spec(fs)
    }
}

} // verus!
