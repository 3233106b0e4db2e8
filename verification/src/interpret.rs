//! Compile terms into machine instructions.
//!
//! Both compilers share one register-allocation rule: register 0 is the
//! root, and walking a structure's direct children left to right, a variable
//! gets the next free register on first sight (and keeps it), while every
//! structure child gets a fresh register.  They differ in traversal order:
//! a query is built bottom-up (children before their parent), a program is
//! matched top-down (parent before its children).
//!
//! The instruction stream each compiler hands to its consumer is pinned by
//! the specification functions [`query_stream`] and [`program_stream`].

use vstd::prelude::*;

use crate::ast::{Structure, Term};
use crate::machine::{Instruction, MachineOps};
use crate::mem::{Fallible, Register};

verus! {

/// The compiler's bookkeeping: which variable sits in which register, which
/// variables have already been emitted once, and the next free register.
#[verifier::ext_equal]
pub struct CompState {
    pub map: Map<Seq<char>, int>,
    pub gen: Set<Seq<char>>,
    pub next_reg: int,
}

/// Allocate a register for one direct child.
pub open spec fn alloc_term(cs: CompState, t: Term) -> (CompState, int) {
    match t {
        Term::Structure(_) => (
            CompState { next_reg: cs.next_reg + 1, ..cs },
            cs.next_reg,
        ),
        Term::Variable(v) => {
            if cs.map.dom().contains(v@) {
                (cs, cs.map[v@])
            } else {
                (
                    CompState {
                        map: cs.map.insert(v@, cs.next_reg),
                        next_reg: cs.next_reg + 1,
                        ..cs
                    },
                    cs.next_reg,
                )
            }
        },
    }
}

/// Allocate registers for all direct children, left to right.
pub open spec fn alloc_terms(cs: CompState, ts: Seq<Term>) -> (CompState, Seq<int>)
    decreases ts.len(),
{
    if ts.len() == 0 {
        (cs, Seq::empty())
    } else {
        let (cs1, rs) = alloc_terms(cs, ts.drop_last());
        let (cs2, r) = alloc_term(cs1, ts.last());
        (cs2, rs.push(r))
    }
}

/// The `set` instruction for one child of a query structure: `set_variable`
/// the first time a variable's register is the target, `set_value` after,
/// and always `set_value` for a structure child, which was built before.
pub open spec fn query_emit(cs: CompState, t: Term, reg: int) -> (CompState, Instruction) {
    match t {
        Term::Structure(_) => (cs, Instruction::SetValue(Register(reg as usize))),
        Term::Variable(v) => {
            if cs.gen.contains(v@) {
                (cs, Instruction::SetValue(Register(reg as usize)))
            } else {
                (
                    CompState { gen: cs.gen.insert(v@), ..cs },
                    Instruction::SetVariable(Register(reg as usize)),
                )
            }
        },
    }
}

pub open spec fn query_emits(cs: CompState, ts: Seq<Term>, regs: Seq<int>) -> (
    CompState,
    Seq<Instruction>,
)
    decreases ts.len(),
{
    if ts.len() == 0 {
        (cs, Seq::empty())
    } else {
        let (cs1, ins) = query_emits(cs, ts.drop_last(), regs.drop_last());
        let (cs2, i) = query_emit(cs1, ts.last(), regs.last());
        (cs2, ins.push(i))
    }
}

/// The instructions that build the structure `s` into register `into`,
/// bottom-up: first the streams of the structure children, then the
/// structure's own `put_structure` and one `set` instruction per child.
pub open spec fn query_stream(cs: CompState, s: Structure, into: int) -> (
    CompState,
    Seq<Instruction>,
)
    decreases s, 1int,
{
    let (cs1, regs) = alloc_terms(cs, s.terms@);
    let (cs2, sub) = query_substreams(cs1, s.terms@, regs);
    let (cs3, emits) = query_emits(cs2, s.terms@, regs);
    (
        cs3,
        sub + seq![Instruction::PutStructure(s.functor, Register(into as usize))] + emits,
    )
}

pub open spec fn query_substreams(cs: CompState, ts: Seq<Term>, regs: Seq<int>) -> (
    CompState,
    Seq<Instruction>,
)
    decreases ts, 0int,
{
    if ts.len() == 0 {
        (cs, Seq::empty())
    } else {
        let (cs1, ins) = query_substreams(cs, ts.drop_last(), regs.drop_last());
        match ts.last() {
            Term::Structure(sub) => {
                let (cs2, ins2) = query_stream(cs1, sub, regs.last());
                (cs2, ins + ins2)
            },
            Term::Variable(_) => (cs1, ins),
        }
    }
}

/// The `unify` instruction for one child of a program structure.
pub open spec fn program_emit(cs: CompState, t: Term, reg: int) -> (CompState, Instruction) {
    match t {
        Term::Structure(_) => (cs, Instruction::UnifyVariable(Register(reg as usize))),
        Term::Variable(v) => {
            if cs.gen.contains(v@) {
                (cs, Instruction::UnifyValue(Register(reg as usize)))
            } else {
                (
                    CompState { gen: cs.gen.insert(v@), ..cs },
                    Instruction::UnifyVariable(Register(reg as usize)),
                )
            }
        },
    }
}

pub open spec fn program_emits(cs: CompState, ts: Seq<Term>, regs: Seq<int>) -> (
    CompState,
    Seq<Instruction>,
)
    decreases ts.len(),
{
    if ts.len() == 0 {
        (cs, Seq::empty())
    } else {
        let (cs1, ins) = program_emits(cs, ts.drop_last(), regs.drop_last());
        let (cs2, i) = program_emit(cs1, ts.last(), regs.last());
        (cs2, ins.push(i))
    }
}

/// The instructions that match the structure `s` against register `into`,
/// top-down: the structure's own `get_structure` and one `unify` instruction
/// per child, then the streams of the structure children.
pub open spec fn program_stream(cs: CompState, s: Structure, into: int) -> (
    CompState,
    Seq<Instruction>,
)
    decreases s, 1int,
{
    let (cs1, regs) = alloc_terms(cs, s.terms@);
    let (cs2, emits) = program_emits(cs1, s.terms@, regs);
    let (cs3, sub) = program_substreams(cs2, s.terms@, regs);
    (
        cs3,
        seq![Instruction::GetStructure(s.functor, Register(into as usize))] + emits + sub,
    )
}

pub open spec fn program_substreams(cs: CompState, ts: Seq<Term>, regs: Seq<int>) -> (
    CompState,
    Seq<Instruction>,
)
    decreases ts, 0int,
{
    if ts.len() == 0 {
        (cs, Seq::empty())
    } else {
        let (cs1, ins) = program_substreams(cs, ts.drop_last(), regs.drop_last());
        match ts.last() {
            Term::Structure(sub) => {
                let (cs2, ins2) = program_stream(cs1, sub, regs.last());
                (cs2, ins + ins2)
            },
            Term::Variable(_) => (cs1, ins),
        }
    }
}

/// A sound compiler state: allocated registers lie below the counter, and
/// every emitted variable has a register.
pub open spec fn cs_wf(cs: CompState) -> bool {
    &&& cs.next_reg >= 1
    &&& forall|v: Seq<char>|
        #[trigger] cs.map.dom().contains(v) ==> 0 <= cs.map[v] < cs.next_reg
    &&& forall|v: Seq<char>| #[trigger] cs.gen.contains(v) ==> cs.map.dom().contains(v)
}

/// Every emitted variable's register holds a term cell of the consumer.
pub open spec fn vars_ready<M: MachineOps>(cs: CompState, m: M) -> bool {
    forall|v: Seq<char>|
        #[trigger] cs.gen.contains(v) ==> cs.map.dom().contains(v) && m.reg_ready(cs.map[v])
}


/// The variable map and the emitted set, as mathematical values.
pub open spec fn map_of(es: Seq<(String, usize)>) -> Map<Seq<char>, int>
    decreases es.len(),
{
    if es.len() == 0 {
        Map::empty()
    } else {
        map_of(es.drop_last()).insert(es.last().0@, es.last().1 as int)
    }
}

pub open spec fn set_of(names: Seq<String>) -> Set<Seq<char>>
    decreases names.len(),
{
    if names.len() == 0 {
        Set::empty()
    } else {
        set_of(names.drop_last()).insert(names.last()@)
    }
}

pub open spec fn distinct_names(es: Seq<(String, usize)>) -> bool {
    forall|k1: int, k2: int| 0 <= k1 < k2 < es.len() ==> es[k1].0@ != es[k2].0@
}

proof fn lemma_map_of_found(es: Seq<(String, usize)>, k: int)
    requires
        distinct_names(es),
        0 <= k < es.len(),
    ensures
        map_of(es).dom().contains(es[k].0@),
        map_of(es)[es[k].0@] == es[k].1 as int,
    decreases es.len(),
{
    if k < es.len() - 1 {
        assert(es.drop_last()[k] == es[k]);
        lemma_map_of_found(es.drop_last(), k);
        assert(es.last().0@ != es[k].0@);
    }
}

proof fn lemma_map_of_absent(es: Seq<(String, usize)>, v: Seq<char>)
    requires
        forall|k: int| 0 <= k < es.len() ==> es[k].0@ != v,
    ensures
        !map_of(es).dom().contains(v),
    decreases es.len(),
{
    if es.len() > 0 {
        lemma_map_of_absent(es.drop_last(), v);
    }
}

proof fn lemma_map_of_in_dom(es: Seq<(String, usize)>, v: Seq<char>)
    requires
        map_of(es).dom().contains(v),
    ensures
        exists|k: int| 0 <= k < es.len() && es[k].0@ == v,
    decreases es.len(),
{
    if es.len() > 0 {
        if es.last().0@ != v {
            lemma_map_of_in_dom(es.drop_last(), v);
            let k = choose|k: int| 0 <= k < es.drop_last().len() && es.drop_last()[k].0@ == v;
            assert(es[k].0@ == v);
        } else {
            assert(es[es.len() - 1].0@ == v);
        }
    }
}

proof fn lemma_set_of_found(names: Seq<String>, k: int)
    requires
        0 <= k < names.len(),
    ensures
        set_of(names).contains(names[k]@),
    decreases names.len(),
{
    if k < names.len() - 1 {
        assert(names.drop_last()[k] == names[k]);
        lemma_set_of_found(names.drop_last(), k);
    }
}

proof fn lemma_set_of_absent(names: Seq<String>, v: Seq<char>)
    requires
        forall|k: int| 0 <= k < names.len() ==> names[k]@ != v,
    ensures
        !set_of(names).contains(v),
    decreases names.len(),
{
    if names.len() > 0 {
        lemma_set_of_absent(names.drop_last(), v);
    }
}

/// Allocation moves the counter up by at most one, keeps every existing
/// binding, and leaves the emitted set alone.
proof fn lemma_alloc_term_props(cs: CompState, t: Term)
    requires
        cs_wf(cs),
    ensures
        ({
            let (cs2, reg) = alloc_term(cs, t);
            &&& cs_wf(cs2)
            &&& cs.next_reg <= cs2.next_reg <= cs.next_reg + 1
            &&& 0 <= reg < cs2.next_reg
            &&& cs2.gen == cs.gen
            &&& forall|v: Seq<char>|
                #[trigger] cs.map.dom().contains(v) ==> cs2.map.dom().contains(v) && cs2.map[v]
                    == cs.map[v]
            &&& (t matches Term::Variable(name) ==> cs2.map.dom().contains(name@)
                && reg == cs2.map[name@])
        }),
{
}

proof fn lemma_alloc_terms_props(cs: CompState, ts: Seq<Term>)
    requires
        cs_wf(cs),
    ensures
        ({
            let (cs2, regs) = alloc_terms(cs, ts);
            &&& cs_wf(cs2)
            &&& cs.next_reg <= cs2.next_reg
            &&& regs.len() == ts.len()
            &&& cs2.gen == cs.gen
            &&& forall|v: Seq<char>|
                #[trigger] cs.map.dom().contains(v) ==> cs2.map.dom().contains(v) && cs2.map[v]
                    == cs.map[v]
            &&& forall|k: int| 0 <= k < regs.len() ==> 0 <= #[trigger] regs[k] < cs2.next_reg
            &&& forall|k: int|
                0 <= k < ts.len() ==> (#[trigger] ts[k] matches Term::Variable(name) ==> (
                cs2.map.dom().contains(name@) && regs[k] == cs2.map[name@]))
        }),
    decreases ts.len(),
{
    if ts.len() > 0 {
        lemma_alloc_terms_props(cs, ts.drop_last());
        let (cs1, rs) = alloc_terms(cs, ts.drop_last());
        lemma_alloc_term_props(cs1, ts.last());
        let (cs2, regs) = alloc_terms(cs, ts);
        assert forall|k: int|
            0 <= k < ts.len() implies (#[trigger] ts[k] matches Term::Variable(name) ==> (
        cs2.map.dom().contains(name@) && regs[k] == cs2.map[name@])) by {
            if k < ts.len() - 1 {
                assert(ts.drop_last()[k] == ts[k]);
                assert(rs[k] == regs[k]);
            }
        }
        assert forall|k: int| 0 <= k < regs.len() implies 0 <= #[trigger] regs[k]
            < cs2.next_reg by {
            if k < ts.len() - 1 {
                assert(rs[k] == regs[k]);
            }
        }
    }
}

/// Emission keeps the counter and the variable map, and only grows the
/// emitted set within the map's domain.
proof fn lemma_query_emits_props(cs: CompState, ts: Seq<Term>, regs: Seq<int>)
    requires
        cs_wf(cs),
        forall|k: int|
            0 <= k < ts.len() ==> (#[trigger] ts[k] matches Term::Variable(name)
                ==> cs.map.dom().contains(name@)),
    ensures
        ({
            let (cs2, ins) = query_emits(cs, ts, regs);
            &&& cs_wf(cs2)
            &&& cs2.next_reg == cs.next_reg
            &&& cs2.map == cs.map
            &&& forall|v: Seq<char>| #[trigger] cs.gen.contains(v) ==> cs2.gen.contains(v)
            &&& ins.len() == ts.len()
        }),
    decreases ts.len(),
{
    if ts.len() > 0 {
        assert forall|k: int|
            0 <= k < ts.drop_last().len() implies (#[trigger] ts.drop_last()[k]
                matches Term::Variable(name) ==> cs.map.dom().contains(name@)) by {
            assert(ts.drop_last()[k] == ts[k]);
        }
        lemma_query_emits_props(cs, ts.drop_last(), regs.drop_last());
        assert(ts[ts.len() - 1] == ts.last());
    }
}

proof fn lemma_program_emits_props(cs: CompState, ts: Seq<Term>, regs: Seq<int>)
    requires
        cs_wf(cs),
        forall|k: int|
            0 <= k < ts.len() ==> (#[trigger] ts[k] matches Term::Variable(name)
                ==> cs.map.dom().contains(name@)),
    ensures
        ({
            let (cs2, ins) = program_emits(cs, ts, regs);
            &&& cs_wf(cs2)
            &&& cs2.next_reg == cs.next_reg
            &&& cs2.map == cs.map
            &&& forall|v: Seq<char>| #[trigger] cs.gen.contains(v) ==> cs2.gen.contains(v)
            &&& ins.len() == ts.len()
        }),
    decreases ts.len(),
{
    if ts.len() > 0 {
        assert forall|k: int|
            0 <= k < ts.drop_last().len() implies (#[trigger] ts.drop_last()[k]
                matches Term::Variable(name) ==> cs.map.dom().contains(name@)) by {
            assert(ts.drop_last()[k] == ts[k]);
        }
        lemma_program_emits_props(cs, ts.drop_last(), regs.drop_last());
        assert(ts[ts.len() - 1] == ts.last());
    }
}

/// A whole compilation pass only raises the counter, keeps every existing
/// binding, and only grows the emitted set.
proof fn lemma_query_stream_props(cs: CompState, s: Structure, into: int)
    requires
        cs_wf(cs),
    ensures
        ({
            let (cs2, ins) = query_stream(cs, s, into);
            &&& cs_wf(cs2)
            &&& cs.next_reg <= cs2.next_reg
            &&& forall|v: Seq<char>|
                #[trigger] cs.map.dom().contains(v) ==> cs2.map.dom().contains(v) && cs2.map[v]
                    == cs.map[v]
            &&& forall|v: Seq<char>| #[trigger] cs.gen.contains(v) ==> cs2.gen.contains(v)
        }),
    decreases s, 1int,
{
    let (cs1, regs) = alloc_terms(cs, s.terms@);
    lemma_alloc_terms_props(cs, s.terms@);
    lemma_query_substreams_props(cs1, s.terms@, regs);
    let (cs2, _) = query_substreams(cs1, s.terms@, regs);
    assert forall|k: int|
        0 <= k < s.terms@.len() implies (#[trigger] s.terms@[k] matches Term::Variable(name)
            ==> cs2.map.dom().contains(name@)) by {
        match s.terms@[k] {
            Term::Variable(nm) => {
                assert(cs1.map.dom().contains(nm@));
            },
            _ => {},
        }
    }
    lemma_query_emits_props(cs2, s.terms@, regs);
}

proof fn lemma_query_substreams_props(cs: CompState, ts: Seq<Term>, regs: Seq<int>)
    requires
        cs_wf(cs),
    ensures
        ({
            let (cs2, ins) = query_substreams(cs, ts, regs);
            &&& cs_wf(cs2)
            &&& cs.next_reg <= cs2.next_reg
            &&& forall|v: Seq<char>|
                #[trigger] cs.map.dom().contains(v) ==> cs2.map.dom().contains(v) && cs2.map[v]
                    == cs.map[v]
            &&& forall|v: Seq<char>| #[trigger] cs.gen.contains(v) ==> cs2.gen.contains(v)
        }),
    decreases ts, 0int,
{
    if ts.len() > 0 {
        lemma_query_substreams_props(cs, ts.drop_last(), regs.drop_last());
        let (cs1, _) = query_substreams(cs, ts.drop_last(), regs.drop_last());
        match ts.last() {
            Term::Structure(sub) => {
                lemma_query_stream_props(cs1, sub, regs.last());
            },
            Term::Variable(_) => {},
        }
    }
}

proof fn lemma_program_stream_props(cs: CompState, s: Structure, into: int)
    requires
        cs_wf(cs),
    ensures
        ({
            let (cs2, ins) = program_stream(cs, s, into);
            &&& cs_wf(cs2)
            &&& cs.next_reg <= cs2.next_reg
            &&& forall|v: Seq<char>|
                #[trigger] cs.map.dom().contains(v) ==> cs2.map.dom().contains(v) && cs2.map[v]
                    == cs.map[v]
            &&& forall|v: Seq<char>| #[trigger] cs.gen.contains(v) ==> cs2.gen.contains(v)
        }),
    decreases s, 1int,
{
    let (cs1, regs) = alloc_terms(cs, s.terms@);
    lemma_alloc_terms_props(cs, s.terms@);
    assert forall|k: int|
        0 <= k < s.terms@.len() implies (#[trigger] s.terms@[k] matches Term::Variable(name)
            ==> cs1.map.dom().contains(name@)) by {}
    lemma_program_emits_props(cs1, s.terms@, regs);
    let (cs2, _) = program_emits(cs1, s.terms@, regs);
    lemma_program_substreams_props(cs2, s.terms@, regs);
}

proof fn lemma_program_substreams_props(cs: CompState, ts: Seq<Term>, regs: Seq<int>)
    requires
        cs_wf(cs),
    ensures
        ({
            let (cs2, ins) = program_substreams(cs, ts, regs);
            &&& cs_wf(cs2)
            &&& cs.next_reg <= cs2.next_reg
            &&& forall|v: Seq<char>|
                #[trigger] cs.map.dom().contains(v) ==> cs2.map.dom().contains(v) && cs2.map[v]
                    == cs.map[v]
            &&& forall|v: Seq<char>| #[trigger] cs.gen.contains(v) ==> cs2.gen.contains(v)
        }),
    decreases ts, 0int,
{
    if ts.len() > 0 {
        lemma_program_substreams_props(cs, ts.drop_last(), regs.drop_last());
        let (cs1, _) = program_substreams(cs, ts.drop_last(), regs.drop_last());
        match ts.last() {
            Term::Structure(sub) => {
                lemma_program_stream_props(cs1, sub, regs.last());
            },
            Term::Variable(_) => {},
        }
    }
}


/// Allocate the next free register.
pub fn bump_register(registers: &mut usize) -> (r: Register)
    requires
        *old(registers) < usize::MAX,
    ensures
        r.0 == *old(registers),
        *final(registers) == *old(registers) + 1,
{
    let r = Register(*registers);
    *registers = *registers + 1;
    r
}

/// Look a variable up in the allocation list.
fn assoc_lookup(entries: &Vec<(String, usize)>, v: &String) -> (r: Option<usize>)
    requires
        distinct_names(entries@),
    ensures
        match r {
            Some(x) => map_of(entries@).dom().contains(v@) && map_of(entries@)[v@] == x as int,
            None => !map_of(entries@).dom().contains(v@),
        },
{
    let n = entries.len();
    for i in 0..n
        invariant
            n == entries@.len(),
            distinct_names(entries@),
            forall|j: int| 0 <= j < i ==> entries@[j].0@ != v@,
        decreases n - i,
    {
        if entries[i].0 == *v {
            proof {
                lemma_map_of_found(entries@, i as int);
            }
            return Some(entries[i].1);
        }
    }
    proof {
        lemma_map_of_absent(entries@, v@);
    }
    None
}

/// Whether a variable has already been emitted once.
fn gen_contains(names: &Vec<String>, v: &String) -> (b: bool)
    ensures
        b == set_of(names@).contains(v@),
{
    let n = names.len();
    for i in 0..n
        invariant
            n == names@.len(),
            forall|j: int| 0 <= j < i ==> names@[j]@ != v@,
        decreases n - i,
    {
        if names[i] == *v {
            proof {
                lemma_set_of_found(names@, i as int);
            }
            return true;
        }
    }
    proof {
        lemma_set_of_absent(names@, v@);
    }
    false
}

/// The query compiler's running state.
pub struct QueryInterpreter {
    registers: usize,
    map: Vec<(String, usize)>,
    generated: Vec<String>,
}

impl QueryInterpreter {
    /// The state as the specification sees it.
    pub closed spec fn cs(&self) -> CompState {
        CompState {
            map: map_of(self.map@),
            gen: set_of(self.generated@),
            next_reg: self.registers as int,
        }
    }

    pub closed spec fn wf(&self) -> bool {
        &&& cs_wf(self.cs())
        &&& distinct_names(self.map@)
    }

    /// Allocate a register for one direct child, reusing a variable's
    /// register when the variable was seen before.
    fn register(&mut self, term: &Term) -> (reg: Register)
        requires
            old(self).wf(),
            alloc_term(old(self).cs(), *term).0.next_reg <= usize::MAX,
        ensures
            final(self).wf(),
            final(self).cs() == alloc_term(old(self).cs(), *term).0,
            reg.0 as int == alloc_term(old(self).cs(), *term).1,
            reg.0 < final(self).registers_spec(),
        decreases *term,
    {
        match term {
            Term::Structure(_) => {
                let r = bump_register(&mut self.registers);
                proof {
                    assert(distinct_names(self.map@));
                    assert(self.cs().map == old(self).cs().map);
                    assert(cs_wf(self.cs()));
                    assert(self.cs() =~= alloc_term(old(self).cs(), *term).0);
                }
                r
            },
            Term::Variable(v) => {
                match assoc_lookup(&self.map, v) {
                    Some(r) => Register(r),
                    None => {
                        let r = bump_register(&mut self.registers);
                        let name = v.clone();
                        self.map.push((name, r.0));
                        proof {
                            assert(self.map@.drop_last() =~= old(self).map@);
                            assert(map_of(self.map@) == map_of(old(self).map@).insert(
                                v@,
                                r.0 as int,
                            ));
                            assert forall|k: int|
                                0 <= k < old(self).map@.len() implies old(self).map@[k].0@
                                != v@ by {
                                if old(self).map@[k].0@ == v@ {
                                    lemma_map_of_found(old(self).map@, k);
                                }
                            }
                            assert(distinct_names(self.map@));
                        }
                        r
                    },
                }
            },
        }
    }

    /// The register counter, for bounds in contracts.
    pub closed spec fn registers_spec(&self) -> int {
        self.registers as int
    }
}


/// Allocating registers for more children only raises the counter further.
proof fn lemma_alloc_terms_prefix(cs: CompState, ts: Seq<Term>, i: int)
    requires
        cs_wf(cs),
        0 <= i <= ts.len(),
    ensures
        alloc_terms(cs, ts.take(i)).0.next_reg <= alloc_terms(cs, ts).0.next_reg,
    decreases ts.len(),
{
    if i == ts.len() {
        assert(ts.take(i) =~= ts);
    } else {
        assert(ts.take(i) =~= ts.drop_last().take(i));
        lemma_alloc_terms_prefix(cs, ts.drop_last(), i);
        lemma_alloc_terms_props(cs, ts.drop_last());
        lemma_alloc_term_props(alloc_terms(cs, ts.drop_last()).0, ts.last());
    }
}

/// Compiling more structure children only raises the counter further.
proof fn lemma_query_substreams_prefix(cs: CompState, ts: Seq<Term>, regs: Seq<int>, i: int)
    requires
        cs_wf(cs),
        regs.len() == ts.len(),
        0 <= i <= ts.len(),
    ensures
        query_substreams(cs, ts.take(i), regs.take(i)).0.next_reg <= query_substreams(
            cs,
            ts,
            regs,
        ).0.next_reg,
    decreases ts.len(),
{
    if i == ts.len() {
        assert(ts.take(i) =~= ts);
        assert(regs.take(i) =~= regs);
    } else {
        assert(ts.take(i) =~= ts.drop_last().take(i));
        assert(regs.take(i) =~= regs.drop_last().take(i));
        lemma_query_substreams_prefix(cs, ts.drop_last(), regs.drop_last(), i);
        lemma_query_substreams_props(cs, ts.drop_last(), regs.drop_last());
        let (cs1, _) = query_substreams(cs, ts.drop_last(), regs.drop_last());
        match ts.last() {
            Term::Structure(sub) => {
                lemma_query_stream_props(cs1, sub, regs.last());
            },
            Term::Variable(_) => {},
        }
    }
}

proof fn lemma_program_substreams_prefix(cs: CompState, ts: Seq<Term>, regs: Seq<int>, i: int)
    requires
        cs_wf(cs),
        regs.len() == ts.len(),
        0 <= i <= ts.len(),
    ensures
        program_substreams(cs, ts.take(i), regs.take(i)).0.next_reg <= program_substreams(
            cs,
            ts,
            regs,
        ).0.next_reg,
    decreases ts.len(),
{
    if i == ts.len() {
        assert(ts.take(i) =~= ts);
        assert(regs.take(i) =~= regs);
    } else {
        assert(ts.take(i) =~= ts.drop_last().take(i));
        assert(regs.take(i) =~= regs.drop_last().take(i));
        lemma_program_substreams_prefix(cs, ts.drop_last(), regs.drop_last(), i);
        lemma_program_substreams_props(cs, ts.drop_last(), regs.drop_last());
        let (cs1, _) = program_substreams(cs, ts.drop_last(), regs.drop_last());
        match ts.last() {
            Term::Structure(sub) => {
                lemma_program_stream_props(cs1, sub, regs.last());
            },
            Term::Variable(_) => {},
        }
    }
}

/// The allocated registers of the children, as mathematical integers.
pub open spec fn regs_ints(rs: Seq<Register>) -> Seq<int> {
    rs.map(|k: int, r: Register| r.0 as int)
}

impl QueryInterpreter {
    /// Compile the structure `s` into register `into`, bottom-up: allocate
    /// registers for the direct children, build the structure children
    /// first, then emit this structure's own instructions.
    #[verifier::rlimit(100)]
    fn structure<M: MachineOps>(&mut self, machine: &mut M, s: &Structure, into: Register)
        requires
            old(self).wf(),
            s.wf(),
            old(machine).inv(),
            old(machine).building(),
            old(machine).arg_budget() == 0,
            into.0 < old(machine).reg_capacity(),
            vars_ready(old(self).cs(), *old(machine)),
            query_stream(old(self).cs(), *s, into.0 as int).0.next_reg <= old(
                machine,
            ).reg_capacity(),
            old(machine).reg_capacity() <= usize::MAX,
        ensures
            final(self).wf(),
            final(machine).inv(),
            final(machine).building(),
            final(machine).arg_budget() == 0,
            final(machine).reg_capacity() == old(machine).reg_capacity(),
            final(self).cs() == query_stream(old(self).cs(), *s, into.0 as int).0,
            final(machine).ops_log() == old(machine).ops_log() + query_stream(
                old(self).cs(),
                *s,
                into.0 as int,
            ).1,
            final(machine).reg_ready(into.0 as int),
            forall|j: int| old(machine).reg_ready(j) ==> final(machine).reg_ready(j),
            final(machine).infallible() == old(machine).infallible(),
            vars_ready(final(self).cs(), *final(machine)),
        decreases *s,
    {
        let ghost cs0 = self.cs();
        let ghost cap = machine.reg_capacity();
        let ghost csa = alloc_terms(cs0, s.terms@).0;
        let ghost regsa = alloc_terms(cs0, s.terms@).1;
        let ghost csb = query_substreams(csa, s.terms@, regsa).0;
        let ghost insb = query_substreams(csa, s.terms@, regsa).1;
        proof {
            lemma_alloc_terms_props(cs0, s.terms@);
            lemma_query_substreams_props(csa, s.terms@, regsa);
            lemma_query_emits_props(csb, s.terms@, regsa);
        }
        let n = s.terms.len();
        let mut regs: Vec<Register> = Vec::new();
        for i in 0..n
            invariant
                old(self).wf(),
                self.wf(),
                s.wf(),
                n == s.terms@.len(),
                regs@.len() == i,
                cs0 == old(self).cs(),
                csa == alloc_terms(cs0, s.terms@).0,
                csa.next_reg <= csb.next_reg <= cap <= usize::MAX,
                cs_wf(cs0),
                self.cs() == alloc_terms(cs0, s.terms@.take(i as int)).0,
                regs_ints(regs@) == alloc_terms(cs0, s.terms@.take(i as int)).1,
                forall|k: int| 0 <= k < i ==> (#[trigger] regs@[k]).0 < self.registers_spec(),
            decreases n - i,
        {
            proof {
                assert(s.terms@.take(i + 1).drop_last() =~= s.terms@.take(i as int));
                assert(s.terms@.take(i + 1).last() == s.terms@[i as int]);
                lemma_alloc_terms_props(cs0, s.terms@.take(i as int));
                lemma_alloc_terms_prefix(cs0, s.terms@, i + 1);
                lemma_alloc_terms_props(cs0, s.terms@.take(i + 1));
            }
            let reg = self.register(&s.terms[i]);
            regs.push(reg);
            proof {
                assert(regs_ints(regs@) =~= alloc_terms(cs0, s.terms@.take(i + 1)).1);
            }
        }
        proof {
            assert(s.terms@.take(n as int) =~= s.terms@);
            assert(self.cs() == csa);
            assert(regs_ints(regs@) == regsa);
        }
        // build the structure children, bottom-up
        let ghost log0 = machine.ops_log();
        let ghost m0 = *machine;
        for i in 0..n
            invariant
                self.wf(),
                s.wf(),
                n == s.terms@.len(),
                regs@.len() == n,
                cs_wf(csa),
                machine.inv(),
                machine.building(),
                machine.arg_budget() == 0,
                machine.reg_capacity() == cap,
                cap <= usize::MAX,
                regs_ints(regs@) == regsa,
                csb == query_substreams(csa, s.terms@, regsa).0,
                insb == query_substreams(csa, s.terms@, regsa).1,
                csa.next_reg <= csb.next_reg <= cap,
                self.cs() == query_substreams(csa, s.terms@.take(i as int), regsa.take(i as int)).0,
                machine.ops_log() == log0 + query_substreams(
                    csa,
                    s.terms@.take(i as int),
                    regsa.take(i as int),
                ).1,
                vars_ready(self.cs(), *machine),
                forall|j: int| m0.reg_ready(j) ==> machine.reg_ready(j),
                machine.infallible() == old(machine).infallible(),
                forall|k: int|
                    0 <= k < i && s.terms@[k] is Structure ==> machine.reg_ready(
                        (#[trigger] regs@[k]).0 as int,
                    ),
                forall|k: int| 0 <= k < n ==> 0 <= (#[trigger] regs@[k]).0 < csa.next_reg,
            decreases n - i,
        {
            proof {
                assert(s.terms@.take(i + 1).drop_last() =~= s.terms@.take(i as int));
                assert(regsa.take(i + 1).drop_last() =~= regsa.take(i as int));
                assert(s.terms@.take(i + 1).last() == s.terms@[i as int]);
                assert(regsa.take(i + 1).last() == regsa[i as int]);
                lemma_query_substreams_props(csa, s.terms@.take(i as int), regsa.take(i as int));
            }
            match &s.terms[i] {
                Term::Structure(sub) => {
                    proof {
                        lemma_query_substreams_prefix(csa, s.terms@, regsa, i + 1);
                        assert(s.terms@[i as int].wf());
                    }
                    let r = regs[i];
                    self.structure(machine, sub, r);
                },
                Term::Variable(_) => {},
            }
        }
        proof {
            assert(s.terms@.take(n as int) =~= s.terms@);
            assert(regsa.take(n as int) =~= regsa);
            assert(self.cs() == csb);
            assert(machine.ops_log() == log0 + insb);
        }
        // emit this structure
        machine.put_structure(s.functor, into);
        let ghost m1 = *machine;
        let ghost log1 = machine.ops_log();
        for i in 0..n
            invariant
                self.wf(),
                s.wf(),
                n == s.terms@.len(),
                regs@.len() == n,
                cs_wf(csb),
                machine.inv(),
                machine.building(),
                machine.arg_budget() == n - i,
                machine.reg_capacity() == cap,
                regs_ints(regs@) == regsa,
                s.functor.arity == n,
                forall|k: int| 0 <= k < n ==> 0 <= (#[trigger] regs@[k]).0 < csb.next_reg <= cap,
                self.cs() == query_emits(csb, s.terms@.take(i as int), regsa.take(i as int)).0,
                machine.ops_log() == log1 + query_emits(
                    csb,
                    s.terms@.take(i as int),
                    regsa.take(i as int),
                ).1,
                vars_ready(self.cs(), *machine),
                forall|j: int| m1.reg_ready(j) ==> machine.reg_ready(j),
                machine.infallible() == old(machine).infallible(),
                forall|k: int|
                    0 <= k < n && s.terms@[k] is Structure ==> machine.reg_ready(
                        (#[trigger] regs@[k]).0 as int,
                    ),
                self.cs().map == csb.map,
                self.cs().next_reg == csb.next_reg,
                forall|k: int|
                    0 <= k < n ==> (#[trigger] s.terms@[k] matches Term::Variable(nm) ==> (
                    csb.map.dom().contains(nm@) && regsa[k] == csb.map[nm@])),
            decreases n - i,
        {
            proof {
                assert(s.terms@.take(i + 1).drop_last() =~= s.terms@.take(i as int));
                assert(regsa.take(i + 1).drop_last() =~= regsa.take(i as int));
                assert(s.terms@.take(i + 1).last() == s.terms@[i as int]);
                assert(regsa.take(i + 1).last() == regsa[i as int]);
                lemma_query_emits_props(csb, s.terms@.take(i as int), regsa.take(i as int));
            }
            let r = regs[i];
            let ghost m_it = *machine;
            let ghost gen_it = self.cs().gen;
            match &s.terms[i] {
                Term::Structure(_) => {
                    machine.set_value(r);
                },
                Term::Variable(v) => {
                    proof {
                        assert(self.cs().map.dom().contains(v@) && regsa[i as int]
                            == self.cs().map[v@]);
                    }
                    if gen_contains(&self.generated, v) {
                        proof {
                            assert(self.cs().gen.contains(v@));
                            assert(machine.reg_ready(r.0 as int));
                        }
                        machine.set_value(r);
                    } else {
                        machine.set_variable(r);
                        let ghost g0 = self.generated@;
                        let name = v.clone();
                        self.generated.push(name);
                        proof {
                            assert(self.generated@.drop_last() =~= g0);
                            assert(set_of(self.generated@) == set_of(g0).insert(v@));
                            assert(machine.reg_ready(r.0 as int));
                            assert forall|v2: Seq<char>|
                                #[trigger] self.cs().gen.contains(v2) implies (
                            self.cs().map.dom().contains(v2) && machine.reg_ready(
                                self.cs().map[v2],
                            )) by {
                                if v2 != v@ {
                                    assert(set_of(g0).contains(v2));
                                    assert(gen_it.contains(v2));
                                    assert(m_it.reg_ready(self.cs().map[v2]));
                                }
                            }
                        }
                    }
                },
            }
        }
        proof {
            assert(s.terms@.take(n as int) =~= s.terms@);
            assert(regsa.take(n as int) =~= regsa);
        }
    }
}


/// The compiler state before anything of a term was seen: no variables, no
/// emissions, register 1 the next free one (register 0 is the root).
pub open spec fn initial_cs() -> CompState {
    CompState { map: Map::empty(), gen: Set::empty(), next_reg: 1 }
}

/// Compile `structure` as a query: build it bottom-up into register 0.
/// The instructions handed to `machine` are exactly
/// `query_stream(initial_cs(), *structure, 0).1`.
pub fn query<M: MachineOps>(machine: &mut M, structure: &Structure)
    requires
        structure.wf(),
        old(machine).inv(),
        old(machine).building(),
        old(machine).arg_budget() == 0,
        1 <= old(machine).reg_capacity() <= usize::MAX,
        query_stream(initial_cs(), *structure, 0).0.next_reg <= old(machine).reg_capacity(),
    ensures
        final(machine).inv(),
        final(machine).building(),
        final(machine).arg_budget() == 0,
        final(machine).reg_capacity() == old(machine).reg_capacity(),
        final(machine).ops_log() == old(machine).ops_log() + query_stream(
            initial_cs(),
            *structure,
            0,
        ).1,
        final(machine).reg_ready(0),
        forall|j: int| old(machine).reg_ready(j) ==> final(machine).reg_ready(j),
        final(machine).infallible() == old(machine).infallible(),
{
    let mut interpreter = QueryInterpreter {
        registers: 1,
        map: Vec::new(),
        generated: Vec::new(),
    };
    proof {
        assert(interpreter.cs() =~= initial_cs());
    }
    interpreter.structure(machine, structure, Register(0));
}

/// The program compiler's running state.
pub struct ProgramInterpreter {
    registers: usize,
    map: Vec<(String, usize)>,
    generated: Vec<String>,
}

impl ProgramInterpreter {
    /// The state as the specification sees it.
    pub closed spec fn cs(&self) -> CompState {
        CompState {
            map: map_of(self.map@),
            gen: set_of(self.generated@),
            next_reg: self.registers as int,
        }
    }

    pub closed spec fn wf(&self) -> bool {
        &&& cs_wf(self.cs())
        &&& distinct_names(self.map@)
    }

    /// The register counter, for bounds in contracts.
    pub closed spec fn registers_spec(&self) -> int {
        self.registers as int
    }

    /// Allocate a register for one direct child, reusing a variable's
    /// register when the variable was seen before.
    fn register(&mut self, term: &Term) -> (reg: Register)
        requires
            old(self).wf(),
            alloc_term(old(self).cs(), *term).0.next_reg <= usize::MAX,
        ensures
            final(self).wf(),
            final(self).cs() == alloc_term(old(self).cs(), *term).0,
            reg.0 as int == alloc_term(old(self).cs(), *term).1,
            reg.0 < final(self).registers_spec(),
        decreases *term,
    {
        match term {
            Term::Structure(_) => {
                let r = bump_register(&mut self.registers);
                proof {
                    assert(self.cs() =~= alloc_term(old(self).cs(), *term).0);
                }
                r
            },
            Term::Variable(v) => {
                match assoc_lookup(&self.map, v) {
                    Some(r) => Register(r),
                    None => {
                        let r = bump_register(&mut self.registers);
                        let name = v.clone();
                        self.map.push((name, r.0));
                        proof {
                            assert(self.map@.drop_last() =~= old(self).map@);
                            assert(map_of(self.map@) == map_of(old(self).map@).insert(
                                v@,
                                r.0 as int,
                            ));
                            assert forall|k: int|
                                0 <= k < old(self).map@.len() implies old(self).map@[k].0@
                                != v@ by {
                                if old(self).map@[k].0@ == v@ {
                                    lemma_map_of_found(old(self).map@, k);
                                }
                            }
                            assert(distinct_names(self.map@));
                        }
                        r
                    },
                }
            },
        }
    }

    /// Match the structure `s` against register `into`, top-down: allocate
    /// registers for the direct children, emit this structure's own
    /// instructions, then match the structure children.  The first functor
    /// clash aborts the stream with `Err`.
    #[verifier::rlimit(100)]
    fn structure<M: MachineOps>(&mut self, machine: &mut M, s: &Structure, into: Register) -> (res:
        Fallible)
        requires
            old(self).wf(),
            s.wf(),
            old(machine).inv(),
            old(machine).arg_budget() == 0,
            into.0 < old(machine).reg_capacity(),
            old(machine).reg_ready(into.0 as int),
            vars_ready(old(self).cs(), *old(machine)),
            program_stream(old(self).cs(), *s, into.0 as int).0.next_reg <= old(
                machine,
            ).reg_capacity(),
            old(machine).reg_capacity() <= usize::MAX,
        ensures
            final(self).wf(),
            final(machine).inv(),
            final(machine).reg_capacity() == old(machine).reg_capacity(),
            forall|j: int| old(machine).reg_ready(j) ==> final(machine).reg_ready(j),
            final(machine).infallible() == old(machine).infallible(),
            old(machine).infallible() ==> res is Ok,
            res is Ok ==> ({
                &&& final(machine).arg_budget() == 0
                &&& final(self).cs() == program_stream(old(self).cs(), *s, into.0 as int).0
                &&& final(machine).ops_log() == old(machine).ops_log() + program_stream(
                    old(self).cs(),
                    *s,
                    into.0 as int,
                ).1
                &&& vars_ready(final(self).cs(), *final(machine))
            }),
            res is Err ==> cut_short(
                old(machine).ops_log(),
                final(machine).ops_log(),
                program_stream(old(self).cs(), *s, into.0 as int).1,
            ),
        decreases *s,
    {
        let ghost cs0 = self.cs();
        let ghost cap = machine.reg_capacity();
        let ghost csa = alloc_terms(cs0, s.terms@).0;
        let ghost regsa = alloc_terms(cs0, s.terms@).1;
        let ghost csb = program_emits(csa, s.terms@, regsa).0;
        let ghost insb = program_emits(csa, s.terms@, regsa).1;
        proof {
            lemma_alloc_terms_props(cs0, s.terms@);
            assert forall|k: int|
                0 <= k < s.terms@.len() implies (#[trigger] s.terms@[k] matches Term::Variable(nm)
                    ==> csa.map.dom().contains(nm@)) by {}
            lemma_program_emits_props(csa, s.terms@, regsa);
            lemma_program_substreams_props(csb, s.terms@, regsa);
        }
        let n = s.terms.len();
        let mut regs: Vec<Register> = Vec::new();
        for i in 0..n
            invariant
                old(self).wf(),
                self.wf(),
                s.wf(),
                n == s.terms@.len(),
                regs@.len() == i,
                cs0 == old(self).cs(),
                csa == alloc_terms(cs0, s.terms@).0,
                csa.next_reg <= csb.next_reg,
                csb == program_emits(csa, s.terms@, regsa).0,
                program_substreams(csb, s.terms@, regsa).0.next_reg <= cap <= usize::MAX,
                csb.next_reg <= program_substreams(csb, s.terms@, regsa).0.next_reg,
                cs_wf(cs0),
                self.cs() == alloc_terms(cs0, s.terms@.take(i as int)).0,
                regs_ints(regs@) == alloc_terms(cs0, s.terms@.take(i as int)).1,
                forall|k: int| 0 <= k < i ==> (#[trigger] regs@[k]).0 < self.registers_spec(),
            decreases n - i,
        {
            proof {
                assert(s.terms@.take(i + 1).drop_last() =~= s.terms@.take(i as int));
                assert(s.terms@.take(i + 1).last() == s.terms@[i as int]);
                lemma_alloc_terms_props(cs0, s.terms@.take(i as int));
                lemma_alloc_terms_prefix(cs0, s.terms@, i + 1);
                lemma_alloc_terms_props(cs0, s.terms@.take(i + 1));
            }
            let reg = self.register(&s.terms[i]);
            regs.push(reg);
            proof {
                assert(regs_ints(regs@) =~= alloc_terms(cs0, s.terms@.take(i + 1)).1);
            }
        }
        proof {
            assert(s.terms@.take(n as int) =~= s.terms@);
            assert(self.cs() == csa);
            assert(regs_ints(regs@) == regsa);
        }
        // emit this structure
        let ghost log0 = machine.ops_log();
        let res0 = machine.get_structure(s.functor, into);
        match res0 {
            Ok(()) => {},
            Err(()) => {
                proof {
                    let geti = Instruction::GetStructure(s.functor, into);
                    let full = program_stream(cs0, *s, into.0 as int).1;
                    assert(full == seq![geti] + insb + program_substreams(
                        csb,
                        s.terms@,
                        regsa,
                    ).1);
                    assert(full.take(1) =~= seq![geti]);
                    assert(machine.ops_log() =~= old(machine).ops_log() + full.take(1));
                    assert(full[0] is GetStructure);
                    assert(cut_short(old(machine).ops_log(), machine.ops_log(), full));
                }
                return Err(());
            },
        }
        let ghost m1 = *machine;
        let ghost log1 = machine.ops_log();
        for i in 0..n
            invariant
                self.wf(),
                s.wf(),
                n == s.terms@.len(),
                regs@.len() == n,
                cs_wf(csa),
                machine.inv(),
                machine.arg_budget() == n - i,
                machine.reg_capacity() == cap,
                cap == old(machine).reg_capacity(),
                cap <= usize::MAX,
                forall|j: int| old(machine).reg_ready(j) ==> machine.reg_ready(j),
                machine.infallible() == old(machine).infallible(),
                regs_ints(regs@) == regsa,
                s.functor.arity == n,
                csb == program_emits(csa, s.terms@, regsa).0,
                insb == program_emits(csa, s.terms@, regsa).1,
                cs0 == old(self).cs(),
                csa == alloc_terms(cs0, s.terms@).0,
                regsa == alloc_terms(cs0, s.terms@).1,
                regsa.len() == n,
                log1 == old(machine).ops_log().push(Instruction::GetStructure(s.functor, into)),
                csa.next_reg <= cap,
                forall|k: int| 0 <= k < n ==> 0 <= (#[trigger] regs@[k]).0 < csa.next_reg,
                self.cs() == program_emits(csa, s.terms@.take(i as int), regsa.take(i as int)).0,
                machine.ops_log() == log1 + program_emits(
                    csa,
                    s.terms@.take(i as int),
                    regsa.take(i as int),
                ).1,
                vars_ready(self.cs(), *machine),
                forall|j: int| m1.reg_ready(j) ==> machine.reg_ready(j),
                forall|k: int|
                    0 <= k < i ==> machine.reg_ready((#[trigger] regs@[k]).0 as int),
                self.cs().map == csa.map,
                self.cs().next_reg == csa.next_reg,
                forall|k: int|
                    0 <= k < n ==> (#[trigger] s.terms@[k] matches Term::Variable(nm) ==> (
                    csa.map.dom().contains(nm@) && regsa[k] == csa.map[nm@])),
            decreases n - i,
        {
            proof {
                assert(s.terms@.take(i + 1).drop_last() =~= s.terms@.take(i as int));
                assert(regsa.take(i + 1).drop_last() =~= regsa.take(i as int));
                assert(s.terms@.take(i + 1).last() == s.terms@[i as int]);
                assert(regsa.take(i + 1).last() == regsa[i as int]);
                lemma_program_emits_props(csa, s.terms@.take(i as int), regsa.take(i as int));
            }
            let r = regs[i];
            let ghost m_it = *machine;
            let ghost gen_it = self.cs().gen;
            match &s.terms[i] {
                Term::Structure(_) => {
                    machine.unify_variable(r);
                },
                Term::Variable(v) => {
                    proof {
                        assert(self.cs().map.dom().contains(v@) && regsa[i as int]
                            == self.cs().map[v@]);
                    }
                    if gen_contains(&self.generated, v) {
                        proof {
                            assert(self.cs().gen.contains(v@));
                            assert(machine.reg_ready(r.0 as int));
                        }
                        let u = machine.unify_value(r);
                        match u {
                            Ok(()) => {},
                            Err(()) => {
                                proof {
                                    let geti = Instruction::GetStructure(s.functor, into);
                                    let full = program_stream(cs0, *s, into.0 as int).1;
                                    assert(full == seq![geti] + insb + program_substreams(
                                        csb,
                                        s.terms@,
                                        regsa,
                                    ).1);
                                    let uv = Instruction::UnifyValue(r);
                                    assert(program_emits(
                                        csa,
                                        s.terms@.take(i + 1),
                                        regsa.take(i + 1),
                                    ).1 == program_emits(
                                        csa,
                                        s.terms@.take(i as int),
                                        regsa.take(i as int),
                                    ).1.push(uv));
                                    lemma_program_emits_take(csa, s.terms@, regsa, i + 1);
                                    let k = 2 + i as int;
                                    assert(full.take(k) =~= seq![geti] + insb.take(i + 1));
                                    assert(machine.ops_log() =~= old(machine).ops_log()
                                        + full.take(k));
                                    assert(insb.take(i + 1)[i as int] == uv);
                                    assert(full[k - 1] == insb[i as int]);
                                    assert(full[k - 1] == uv);
                                    assert(1 <= k <= full.len());
                                    assert(cut_short(
                                        old(machine).ops_log(),
                                        machine.ops_log(),
                                        full,
                                    ));
                                }
                                return Err(());
                            },
                        }
                    } else {
                        machine.unify_variable(r);
                        let ghost g0 = self.generated@;
                        let name = v.clone();
                        self.generated.push(name);
                        proof {
                            assert(self.generated@.drop_last() =~= g0);
                            assert(set_of(self.generated@) == set_of(g0).insert(v@));
                            assert(machine.reg_ready(r.0 as int));
                            assert forall|v2: Seq<char>|
                                #[trigger] self.cs().gen.contains(v2) implies (
                            self.cs().map.dom().contains(v2) && machine.reg_ready(
                                self.cs().map[v2],
                            )) by {
                                if v2 != v@ {
                                    assert(set_of(g0).contains(v2));
                                    assert(gen_it.contains(v2));
                                    assert(m_it.reg_ready(self.cs().map[v2]));
                                }
                            }
                        }
                    }
                },
            }
        }
        proof {
            assert(s.terms@.take(n as int) =~= s.terms@);
            assert(regsa.take(n as int) =~= regsa);
            assert(self.cs() == csb);
            assert(machine.ops_log() == log1 + insb);
        }
        // match the structure children, top-down
        let ghost m2 = *machine;
        let ghost log2 = machine.ops_log();
        for i in 0..n
            invariant
                self.wf(),
                s.wf(),
                n == s.terms@.len(),
                regs@.len() == n,
                cs_wf(csb),
                machine.inv(),
                machine.arg_budget() == 0,
                machine.reg_capacity() == cap,
                cap == old(machine).reg_capacity(),
                cap <= usize::MAX,
                forall|j: int| old(machine).reg_ready(j) ==> machine.reg_ready(j),
                machine.infallible() == old(machine).infallible(),
                regs_ints(regs@) == regsa,
                csb == program_emits(csa, s.terms@, regsa).0,
                insb == program_emits(csa, s.terms@, regsa).1,
                cs0 == old(self).cs(),
                csa == alloc_terms(cs0, s.terms@).0,
                regsa == alloc_terms(cs0, s.terms@).1,
                regsa.len() == n,
                log2 == old(machine).ops_log() + seq![
                    Instruction::GetStructure(s.functor, into),
                ] + insb,
                program_substreams(csb, s.terms@, regsa).0.next_reg <= cap,
                csb.next_reg <= program_substreams(csb, s.terms@, regsa).0.next_reg,
                csa.next_reg <= csb.next_reg,
                forall|k: int| 0 <= k < n ==> 0 <= (#[trigger] regs@[k]).0 < csa.next_reg,
                self.cs() == program_substreams(csb, s.terms@.take(i as int), regsa.take(i as int)).0,
                machine.ops_log() == log2 + program_substreams(
                    csb,
                    s.terms@.take(i as int),
                    regsa.take(i as int),
                ).1,
                vars_ready(self.cs(), *machine),
                forall|j: int| m2.reg_ready(j) ==> machine.reg_ready(j),
                forall|k: int| 0 <= k < n ==> machine.reg_ready((#[trigger] regs@[k]).0 as int),
            decreases n - i,
        {
            proof {
                assert(s.terms@.take(i + 1).drop_last() =~= s.terms@.take(i as int));
                assert(regsa.take(i + 1).drop_last() =~= regsa.take(i as int));
                assert(s.terms@.take(i + 1).last() == s.terms@[i as int]);
                assert(regsa.take(i + 1).last() == regsa[i as int]);
                lemma_program_substreams_props(csb, s.terms@.take(i as int), regsa.take(i as int));
            }
            match &s.terms[i] {
                Term::Structure(sub) => {
                    proof {
                        lemma_program_substreams_prefix(csb, s.terms@, regsa, i + 1);
                        assert(s.terms@[i as int].wf());
                    }
                    let r = regs[i];
                    let ghost cs_at = self.cs();
                    let ghost log_at = machine.ops_log();
                    let sres = self.structure(machine, sub, r);
                    match sres {
                        Ok(()) => {},
                        Err(()) => {
                            proof {
                                let geti = Instruction::GetStructure(s.functor, into);
                                let full = program_stream(cs0, *s, into.0 as int).1;
                                let subs_full = program_substreams(csb, s.terms@, regsa).1;
                                assert(full == seq![geti] + insb + subs_full);
                                let part = program_substreams(
                                    csb,
                                    s.terms@.take(i as int),
                                    regsa.take(i as int),
                                ).1;
                                let childfull = program_stream(cs_at, *sub, r.0 as int).1;
                                // the child's stream follows the first `i` children's streams
                                assert(program_substreams(
                                    csb,
                                    s.terms@.take(i + 1),
                                    regsa.take(i + 1),
                                ).1 == part + childfull);
                                lemma_program_substreams_take(csb, s.terms@, regsa, i + 1);
                                let rest = choose|rest: Seq<Instruction>|
                                    subs_full == #[trigger] (program_substreams(
                                        csb,
                                        s.terms@.take(i + 1),
                                        regsa.take(i + 1),
                                    ).1 + rest);
                                let kc = choose|kc: int|
                                    1 <= kc <= childfull.len() && machine.ops_log() == #[trigger] (
                                log_at + childfull.take(kc)) && (childfull[kc - 1] is GetStructure
                                    || childfull[kc - 1] is UnifyValue);
                                let head = seq![geti] + insb + part;
                                let k = head.len() + kc;
                                assert(full =~= head + (childfull + rest));
                                lemma_take_concat(head, childfull + rest, kc);
                                assert((childfull + rest).take(kc) =~= childfull.take(kc));
                                assert(full.take(k) =~= head + childfull.take(kc));
                                assert(machine.ops_log() =~= old(machine).ops_log() + full.take(
                                    k,
                                ));
                                assert(full[k - 1] == (childfull + rest)[kc - 1]);
                                assert(full[k - 1] == childfull[kc - 1]);
                                assert(1 <= k <= full.len());
                                assert(cut_short(
                                    old(machine).ops_log(),
                                    machine.ops_log(),
                                    full,
                                ));
                            }
                            return Err(());
                        },
                    }
                },
                Term::Variable(_) => {},
            }
        }
        proof {
            assert(s.terms@.take(n as int) =~= s.terms@);
            assert(regsa.take(n as int) =~= regsa);
        }
        Ok(())
    }
}

/// Compile `structure` as a program: match it top-down against register 0.
/// On `Ok` the instructions handed to `machine` are exactly
/// `program_stream(initial_cs(), *structure, 0).1`; on `Err` the stream was
/// cut short at the failing instruction.
pub fn program<M: MachineOps>(machine: &mut M, structure: &Structure) -> (res: Fallible)
    requires
        structure.wf(),
        old(machine).inv(),
        old(machine).arg_budget() == 0,
        old(machine).reg_ready(0),
        1 <= old(machine).reg_capacity() <= usize::MAX,
        program_stream(initial_cs(), *structure, 0).0.next_reg <= old(machine).reg_capacity(),
    ensures
        final(machine).inv(),
        final(machine).reg_capacity() == old(machine).reg_capacity(),
        forall|j: int| old(machine).reg_ready(j) ==> final(machine).reg_ready(j),
        final(machine).infallible() == old(machine).infallible(),
        old(machine).infallible() ==> res is Ok,
        res is Ok ==> (final(machine).arg_budget() == 0 && final(machine).ops_log() == old(
            machine,
        ).ops_log() + program_stream(initial_cs(), *structure, 0).1),
        res is Err ==> cut_short(
            old(machine).ops_log(),
            final(machine).ops_log(),
            program_stream(initial_cs(), *structure, 0).1,
        ),
{
    let mut interpreter = ProgramInterpreter {
        registers: 1,
        map: Vec::new(),
        generated: Vec::new(),
    };
    proof {
        assert(interpreter.cs() =~= initial_cs());
    }
    interpreter.structure(machine, structure, Register(0))
}


/// The consumer received a non-empty prefix of `stream`, cut at the
/// fallible instruction that failed.
pub open spec fn cut_short(
    pre_log: Seq<Instruction>,
    post_log: Seq<Instruction>,
    stream: Seq<Instruction>,
) -> bool {
    exists|k: int|
        1 <= k <= stream.len() && post_log == #[trigger] (pre_log + stream.take(k)) && (stream[k
            - 1] is GetStructure || stream[k - 1] is UnifyValue)
}

/// Taking a prefix across a concatenation.
proof fn lemma_take_concat(a: Seq<Instruction>, b: Seq<Instruction>, k: int)
    requires
        0 <= k <= b.len(),
    ensures
        (a + b).take(a.len() + k) =~= a + b.take(k),
{
}

/// The emissions for the first `i` children are a prefix of the emissions
/// for all children.
proof fn lemma_program_emits_take(cs: CompState, ts: Seq<Term>, regs: Seq<int>, i: int)
    requires
        regs.len() == ts.len(),
        0 <= i <= ts.len(),
    ensures
        program_emits(cs, ts, regs).1.take(i) =~= program_emits(
            cs,
            ts.take(i),
            regs.take(i),
        ).1,
        program_emits(cs, ts, regs).1.len() == ts.len(),
    decreases ts.len(),
{
    if ts.len() > 0 {
        lemma_program_emits_take(cs, ts.drop_last(), regs.drop_last(), if i < ts.len() {
            i
        } else {
            i - 1
        });
        if i == ts.len() {
            assert(ts.take(i) =~= ts);
            assert(regs.take(i) =~= regs);
        } else {
            assert(ts.take(i) =~= ts.drop_last().take(i));
            assert(regs.take(i) =~= regs.drop_last().take(i));
        }
    }
}

/// The streams of the first `i` structure children are a prefix of the
/// streams of all of them.
proof fn lemma_program_substreams_take(cs: CompState, ts: Seq<Term>, regs: Seq<int>, i: int)
    requires
        regs.len() == ts.len(),
        0 <= i <= ts.len(),
    ensures
        exists|rest: Seq<Instruction>|
            program_substreams(cs, ts, regs).1 == #[trigger] (program_substreams(
                cs,
                ts.take(i),
                regs.take(i),
            ).1 + rest),
    decreases ts.len(),
{
    if i == ts.len() {
        assert(ts.take(i) =~= ts);
        assert(regs.take(i) =~= regs);
        assert(program_substreams(cs, ts, regs).1 == program_substreams(
            cs,
            ts.take(i),
            regs.take(i),
        ).1 + Seq::<Instruction>::empty()) by {
            assert(program_substreams(cs, ts, regs).1 =~= program_substreams(
                cs,
                ts.take(i),
                regs.take(i),
            ).1 + Seq::<Instruction>::empty());
        }
    } else {
        assert(ts.take(i) =~= ts.drop_last().take(i));
        assert(regs.take(i) =~= regs.drop_last().take(i));
        lemma_program_substreams_take(cs, ts.drop_last(), regs.drop_last(), i);
        let head = program_substreams(cs, ts.take(i), regs.take(i)).1;
        let rest0 = choose|rest: Seq<Instruction>|
            program_substreams(cs, ts.drop_last(), regs.drop_last()).1 == #[trigger] (head + rest);
        match ts.last() {
            Term::Structure(sub) => {
                let (cs1, _) = program_substreams(cs, ts.drop_last(), regs.drop_last());
                let tail = program_stream(cs1, sub, regs.last()).1;
                assert(program_substreams(cs, ts, regs).1 =~= head + (rest0 + tail));
            },
            Term::Variable(_) => {
                assert(program_substreams(cs, ts, regs).1 == head + rest0);
            },
        }
    }
}

} // verus!
