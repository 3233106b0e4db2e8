//! The abstract machine: a memory plus a read/write mode.
//!
//! The six instructions come in two groups.  `put_structure` and the `set_*`
//! instructions build a term bottom-up on the heap; `get_structure` and the
//! `unify_*` instructions match a term top-down against what is already
//! there, toggling between write mode (build the missing part) and read mode
//! (inspect the existing part).
//!
//! The [`MachineOps`] trait is the face the compiler drives: any consumer
//! with an invariant, a register file, and an instruction log.  The real
//! [`Machine`] implements it by mutating its memory; a
//! [`crate::recorder::Recorder`] implements it by writing the instruction
//! stream down.

use vstd::prelude::*;

use crate::functor::Functor;
use crate::mem::{
    clash_path, lemma_resolves_in_bind, lemma_resolves_in_grow, mem_updated, unified_pairs,
    Address, Cell, Fallible, Memory, Pointer, Register, Slot, MGU,
};

verus! {

/// One machine instruction, as handed to a [`MachineOps`] consumer.
#[derive(Copy, Clone, Debug, PartialEq, Eq, Structural)]
pub enum Instruction {
    PutStructure(Functor, Register),
    SetVariable(Register),
    SetValue(Register),
    GetStructure(Functor, Register),
    UnifyVariable(Register),
    UnifyValue(Register),
}

/// The machine mode.  In read mode the slot is the next argument cell to
/// inspect, and the ghost bound is the end of the argument block that
/// `get_structure` opened.
#[derive(Copy, Clone)]
pub enum Mode {
    Read(Slot, Ghost<int>),
    Write,
}

/// What a consumer of machine instructions must provide, and what every
/// instruction guarantees, so that a compiler can be verified against any
/// consumer.
///
/// The abstract state is: an invariant, the size of the register file, which
/// registers hold a term cell, how many more argument cells the pending
/// structure expects (`arg_budget`), and the instructions received so far.
pub trait MachineOps: Sized {
    /// The consumer's invariant; every instruction preserves it.
    spec fn inv(&self) -> bool;

    /// How many registers the consumer has.
    spec fn reg_capacity(&self) -> int;

    /// Register `r` holds a term cell that later instructions may read.
    spec fn reg_ready(&self, r: int) -> bool;

    /// The consumer is in write mode; `put_structure` and the `set_*`
    /// instructions assume it, and only they and `new` guarantee it.
    spec fn building(&self) -> bool;

    /// `n` more argument cells may be filled or inspected before the block
    /// that the last `put_structure`/`get_structure` opened is exhausted.
    spec fn arg_budget(&self) -> int;

    /// The consumer accepts any structure: its fallible instructions
    /// always report success.
    spec fn infallible(&self) -> bool;

    /// The instructions received so far.
    spec fn ops_log(&self) -> Seq<Instruction>;

    /// Begin a structure: write its header onto the heap and point `r` at it.
    fn put_structure(&mut self, f: Functor, r: Register)
        requires
            old(self).inv(),
            old(self).building(),
            0 <= r.0 < old(self).reg_capacity(),
            old(self).arg_budget() == 0,
        ensures
            final(self).inv(),
            final(self).building(),
            final(self).reg_capacity() == old(self).reg_capacity(),
            final(self).reg_ready(r.0 as int),
            forall|j: int| old(self).reg_ready(j) ==> final(self).reg_ready(j),
            final(self).arg_budget() == f.arity,
            final(self).ops_log() == old(self).ops_log().push(
                Instruction::PutStructure(f, r),
            ),
            final(self).infallible() == old(self).infallible(),
    ;

    /// Fill the next argument cell with a fresh unbound variable, kept in `r`.
    fn set_variable(&mut self, r: Register)
        requires
            old(self).inv(),
            old(self).building(),
            0 <= r.0 < old(self).reg_capacity(),
        ensures
            final(self).inv(),
            final(self).building(),
            final(self).reg_capacity() == old(self).reg_capacity(),
            final(self).reg_ready(r.0 as int),
            forall|j: int| old(self).reg_ready(j) ==> final(self).reg_ready(j),
            final(self).arg_budget() == if old(self).arg_budget() >= 1 {
                old(self).arg_budget() - 1
            } else {
                0
            },
            final(self).ops_log() == old(self).ops_log().push(Instruction::SetVariable(r)),
            final(self).infallible() == old(self).infallible(),
    ;

    /// Fill the next argument cell with the cell register `r` holds.
    fn set_value(&mut self, r: Register)
        requires
            old(self).inv(),
            old(self).building(),
            0 <= r.0 < old(self).reg_capacity(),
            old(self).reg_ready(r.0 as int),
        ensures
            final(self).inv(),
            final(self).building(),
            final(self).reg_capacity() == old(self).reg_capacity(),
            forall|j: int| old(self).reg_ready(j) ==> final(self).reg_ready(j),
            final(self).arg_budget() == if old(self).arg_budget() >= 1 {
                old(self).arg_budget() - 1
            } else {
                0
            },
            final(self).ops_log() == old(self).ops_log().push(Instruction::SetValue(r)),
            final(self).infallible() == old(self).infallible(),
    ;

    /// Match a structure against the term register `r` points at: open its
    /// argument block for reading, or bind an unbound variable and open a
    /// fresh block for writing.  `Err` means the functors clash.
    fn get_structure(&mut self, f: Functor, r: Register) -> (res: Fallible)
        requires
            old(self).inv(),
            0 <= r.0 < old(self).reg_capacity(),
            old(self).reg_ready(r.0 as int),
            old(self).arg_budget() == 0,
        ensures
            final(self).inv(),
            final(self).reg_capacity() == old(self).reg_capacity(),
            forall|j: int| old(self).reg_ready(j) ==> final(self).reg_ready(j),
            res is Ok ==> final(self).arg_budget() == f.arity,
            res is Err ==> final(self).arg_budget() == 0,
            final(self).ops_log() == old(self).ops_log().push(
                Instruction::GetStructure(f, r),
            ),
            final(self).infallible() == old(self).infallible(),
            old(self).infallible() ==> res is Ok,
    ;

    /// Take the next argument cell as is, into register `r`: read it in read
    /// mode, create a fresh unbound variable in write mode.
    fn unify_variable(&mut self, r: Register)
        requires
            old(self).inv(),
            0 <= r.0 < old(self).reg_capacity(),
            old(self).building() || old(self).arg_budget() >= 1,
        ensures
            final(self).inv(),
            final(self).reg_capacity() == old(self).reg_capacity(),
            final(self).reg_ready(r.0 as int),
            forall|j: int| old(self).reg_ready(j) ==> final(self).reg_ready(j),
            final(self).arg_budget() == if old(self).arg_budget() >= 1 {
                old(self).arg_budget() - 1
            } else {
                0
            },
            final(self).ops_log() == old(self).ops_log().push(Instruction::UnifyVariable(r)),
            final(self).infallible() == old(self).infallible(),
    ;

    /// Unify the next argument cell with the term register `r` holds: unify
    /// the two terms in read mode, write the register's cell in write mode.
    /// `Err` means two functors clash.
    fn unify_value(&mut self, r: Register) -> (res: Fallible)
        requires
            old(self).inv(),
            0 <= r.0 < old(self).reg_capacity(),
            old(self).reg_ready(r.0 as int),
            old(self).building() || old(self).arg_budget() >= 1,
        ensures
            final(self).inv(),
            final(self).reg_capacity() == old(self).reg_capacity(),
            forall|j: int| old(self).reg_ready(j) ==> final(self).reg_ready(j),
            res is Ok ==> final(self).arg_budget() == if old(self).arg_budget() >= 1 {
                old(self).arg_budget() - 1
            } else {
                0
            },
            final(self).ops_log() == old(self).ops_log().push(Instruction::UnifyValue(r)),
            final(self).infallible() == old(self).infallible(),
            old(self).infallible() ==> res is Ok,
    ;
}

/// The machine: a memory, a mode, and a ghost log of the instructions run.
pub struct Machine {
    pub(crate) mem: Memory,
    pub(crate) mode: Mode,
    pub(crate) pending: Ghost<int>,
    pub(crate) log: Ghost<Seq<Instruction>>,
}

/// Validity of one heap cell while `pending` argument cells are still owed:
/// as [`Memory::heap_cell_wf`], except that a structure's argument block may
/// run up to `pending` cells past the end of the heap, and only the argument
/// cells that exist are required to be term cells.
pub open spec fn cell_fits(mem: Memory, pending: int, c: Cell) -> bool {
    match c {
        Cell::Uninitialized => false,
        Cell::Functor(_) => true,
        Cell::Ref(s) => {
            &&& s.0 < mem.heap_seq().len()
            &&& !(mem.heap_seq()[s.0 as int] is Functor)
            &&& !(mem.heap_seq()[s.0 as int] is Uninitialized)
        },
        Cell::Structure(s) => {
            &&& s.0 < mem.heap_seq().len()
            &&& match mem.heap_seq()[s.0 as int] {
                Cell::Functor(f) => {
                    &&& s.0 + f.arity < mem.heap_seq().len() + pending
                    &&& forall|u: int|
                        #![trigger mem.heap_seq()[u]]
                        s.0 < u <= s.0 + f.arity && u < mem.heap_seq().len() ==> (mem.heap_seq()[u]
                            is Ref || mem.heap_seq()[u] is Structure)
                },
                _ => false,
            }
        },
    }
}

/// Validity of the whole memory while `pending` argument cells are owed.
pub open spec fn mem_fits(mem: Memory, pending: int) -> bool {
    &&& forall|i: int|
        #![trigger cell_fits(mem, pending, mem.heap_seq()[i])]
        0 <= i < mem.heap_seq().len() ==> cell_fits(mem, pending, mem.heap_seq()[i])
    &&& forall|i: int|
        #![trigger cell_fits(mem, pending, mem.regs_seq()[i])]
        0 <= i < mem.regs_seq().len() ==> (mem.regs_seq()[i] is Uninitialized || ((
        mem.regs_seq()[i] is Ref || mem.regs_seq()[i] is Structure) && cell_fits(
            mem,
            pending,
            mem.regs_seq()[i],
        )))
    &&& mem.chains_wf()
}

/// With no cells owed, `mem_fits` is exactly well-formedness.
pub proof fn lemma_mem_fits_zero(mem: Memory)
    requires
        mem_fits(mem, 0),
    ensures
        mem.wf(),
{
    assert forall|i: int|
        #![trigger mem.heap_seq()[i]]
        0 <= i < mem.heap_seq().len() implies mem.heap_cell_wf(mem.heap_seq()[i]) by {
        assert(cell_fits(mem, 0, mem.heap_seq()[i]));
    }
    assert forall|i: int|
        #![trigger mem.regs_seq()[i]]
        0 <= i < mem.regs_seq().len() implies mem.reg_cell_wf(mem.regs_seq()[i]) by {
        assert(mem.regs_seq()[i] is Uninitialized || cell_fits(mem, 0, mem.regs_seq()[i]));
    }
}

/// A well-formed memory fits any non-negative debt.
pub proof fn lemma_wf_fits(mem: Memory, pending: int)
    requires
        mem.wf(),
        pending >= 0,
    ensures
        mem_fits(mem, pending),
{
    assert forall|i: int|
        #![trigger mem.heap_seq()[i]]
        0 <= i < mem.heap_seq().len() implies cell_fits(mem, pending, mem.heap_seq()[i]) by {
        assert(mem.heap_cell_wf(mem.heap_seq()[i]));
    }
    assert forall|i: int|
        #![trigger mem.regs_seq()[i]]
        0 <= i < mem.regs_seq().len() implies (mem.regs_seq()[i] is Uninitialized || ((
    mem.regs_seq()[i] is Ref || mem.regs_seq()[i] is Structure) && cell_fits(
        mem,
        pending,
        mem.regs_seq()[i],
    ))) by {
        assert(mem.reg_cell_wf(mem.regs_seq()[i]));
    }
}

impl Machine {
    /// The memory, for specification purposes.
    pub closed spec fn mem_spec(&self) -> Memory {
        self.mem
    }

    /// The mode, for specification purposes.
    pub closed spec fn mode_spec(&self) -> Mode {
        self.mode
    }

    /// The argument cells still owed to the structure being built.
    pub closed spec fn pending_spec(&self) -> int {
        self.pending@
    }

    /// The instructions run so far.
    pub closed spec fn log_spec(&self) -> Seq<Instruction> {
        self.log@
    }

    /// The machine's argument budget: cells still owed in write mode, cells
    /// left to inspect in read mode.
    pub open spec fn budget(&self) -> int {
        match self.mode_spec() {
            Mode::Write => self.pending_spec(),
            Mode::Read(next, end) => end@ - next.0,
        }
    }

    /// The next argument slot to inspect, in read mode.
    pub open spec fn read_next(&self) -> int {
        match self.mode_spec() {
            Mode::Read(next, _) => next.0 as int,
            Mode::Write => -1,
        }
    }

    /// The end of the argument block being read, in read mode.
    pub open spec fn read_end(&self) -> int {
        match self.mode_spec() {
            Mode::Read(_, end) => end@,
            Mode::Write => -1,
        }
    }

    /// Register `r` holds a term cell.
    pub open spec fn reg_holds(&self, r: int) -> bool {
        &&& 0 <= r < self.mem_spec().regs_seq().len()
        &&& !(self.mem_spec().regs_seq()[r] is Uninitialized)
    }

    /// The machine invariant: the memory fits the current debt, and in read
    /// mode the debt is zero and the remaining argument block lies on the
    /// heap and holds term cells.
    pub open spec fn machine_wf(&self) -> bool {
        &&& self.pending_spec() >= 0
        &&& mem_fits(self.mem_spec(), self.pending_spec())
        &&& match self.mode_spec() {
            Mode::Write => true,
            Mode::Read(next, end) => {
                &&& self.pending_spec() == 0
                &&& next.0 <= end@ <= self.mem_spec().heap_seq().len()
                &&& forall|j: int|
                    #![trigger self.mem_spec().heap_seq()[j]]
                    next.0 <= j < end@ ==> (self.mem_spec().heap_seq()[j] is Ref
                        || self.mem_spec().heap_seq()[j] is Structure)
            },
        }
    }

    /// A fresh machine: empty heap, `num_registers` unused registers, write
    /// mode, nothing run yet.
    pub fn new(num_registers: usize) -> (m: Machine)
        ensures
            m.machine_wf(),
            m.mem_spec().heap_seq().len() == 0,
            m.mem_spec().regs_seq().len() == num_registers,
            forall|i: int|
                0 <= i < num_registers ==> m.mem_spec().regs_seq()[i] == Cell::Uninitialized,
            m.mode_spec() is Write,
            m.pending_spec() == 0,
            m.log_spec() == Seq::<Instruction>::empty(),
    {
        let mem = Memory::new(num_registers);
        let m = Machine { mem, mode: Mode::Write, pending: Ghost(0), log: Ghost(Seq::empty()) };
        proof {
            lemma_wf_fits(m.mem_spec(), 0);
        }
        m
    }

    /// The memory, for inspection.
    pub fn memory(&self) -> (m: &Memory)
        ensures
            *m == self.mem_spec(),
    {
        &self.mem
    }

    /// The most general unifier rooted at `addr`, ready to be rendered.
    pub fn mgu<P: Pointer>(&self, addr: P) -> (m: MGU<'_>)
        ensures
            m.mem_spec() == self.mem_spec(),
            m.addr_spec() == addr.address(),
    {
        MGU::new(&self.mem, addr.to_address())
    }
}

/// `mem_fits` keeps every reference on the heap.
pub proof fn lemma_fits_refs_bounded(mem: Memory, pending: int)
    requires
        mem_fits(mem, pending),
    ensures
        mem.refs_bounded(),
{
    assert forall|i: int|
        #![trigger mem.heap_seq()[i]]
        0 <= i < mem.heap_seq().len() implies (mem.heap_seq()[i] matches Cell::Ref(s) ==> s.0
        < mem.heap_seq().len()) by {
        assert(cell_fits(mem, pending, mem.heap_seq()[i]));
    }
    assert forall|i: int|
        #![trigger mem.regs_seq()[i]]
        0 <= i < mem.regs_seq().len() implies (mem.regs_seq()[i] matches Cell::Ref(s) ==> s.0
        < mem.heap_seq().len()) by {
        assert(mem.regs_seq()[i] is Uninitialized || cell_fits(mem, pending, mem.regs_seq()[i]));
    }
}

/// Pushing one argument cell onto the heap pays off one cell of debt (or
/// keeps a settled heap settled).  The cell is a fresh unbound variable or
/// a copy of a cell that fits, and may also be stored into register `ri`
/// (none if `ri` is negative).
pub proof fn lemma_fits_push_arg(pre: Memory, post: Memory, pending: int, c: Cell, ri: int)
    requires
        mem_fits(pre, pending),
        pending >= 0,
        post.heap_seq() == pre.heap_seq().push(c),
        0 <= ri ==> ri < pre.regs_seq().len() && post.regs_seq() == pre.regs_seq().update(ri, c),
        ri < 0 ==> post.regs_seq() == pre.regs_seq(),
        (c is Ref || c is Structure),
        c == Cell::Ref(Slot(pre.heap_seq().len() as usize)) || cell_fits(pre, pending, c),
        pre.heap_seq().len() + 1 <= usize::MAX,
    ensures
        mem_fits(post, if pending >= 1 { pending - 1 } else { 0 }),
{
    let hl = pre.heap_seq().len() as int;
    let pending2: int = if pending >= 1 { pending - 1 } else { 0 };
    assert forall|i: int|
        #![trigger post.heap_seq()[i]]
        0 <= i < post.heap_seq().len() implies cell_fits(post, pending2, post.heap_seq()[i]) by {
        if i < hl {
            assert(cell_fits(pre, pending, pre.heap_seq()[i]));
            lemma_cell_fits_after_push(pre, post, pending, c, pre.heap_seq()[i]);
        } else {
            if c == Cell::Ref(Slot(pre.heap_seq().len() as usize)) {
                assert(post.heap_seq()[hl] == c);
            } else {
                lemma_cell_fits_after_push(pre, post, pending, c, c);
            }
        }
    }
    assert forall|i: int|
        #![trigger post.regs_seq()[i]]
        0 <= i < post.regs_seq().len() implies (post.regs_seq()[i] is Uninitialized || ((
    post.regs_seq()[i] is Ref || post.regs_seq()[i] is Structure) && cell_fits(
        post,
        pending2,
        post.regs_seq()[i],
    ))) by {
        if i == ri {
            assert(post.heap_seq()[hl] == c);
            if c == Cell::Ref(Slot(pre.heap_seq().len() as usize)) {
            } else {
                lemma_cell_fits_after_push(pre, post, pending, c, c);
            }
        } else if !(pre.regs_seq()[i] is Uninitialized) {
            assert(cell_fits(pre, pending, pre.regs_seq()[i]));
            lemma_cell_fits_after_push(pre, post, pending, c, pre.regs_seq()[i]);
        }
    }
    lemma_fits_chains_grow(pre, post, pending);
}

/// One cell's fit survives a push, with one less cell owed.
proof fn lemma_cell_fits_after_push(pre: Memory, post: Memory, pending: int, c: Cell, x: Cell)
    requires
        pending >= 0,
        post.heap_seq() == pre.heap_seq().push(c),
        (c is Ref || c is Structure),
        cell_fits(pre, pending, x),
    ensures
        cell_fits(post, if pending >= 1 { pending - 1 } else { 0 }, x),
{
    match x {
        Cell::Structure(s) => {
            match pre.heap_seq()[s.0 as int] {
                Cell::Functor(f) => {
                    assert forall|u: int|
                        #![trigger post.heap_seq()[u]]
                        s.0 < u <= s.0 + f.arity && u < post.heap_seq().len() implies (
                    post.heap_seq()[u] is Ref || post.heap_seq()[u] is Structure) by {
                        if u < pre.heap_seq().len() {
                            assert(pre.heap_seq()[u] is Ref || pre.heap_seq()[u] is Structure);
                        }
                    }
                },
                _ => {},
            }
        },
        _ => {},
    }
}

/// Chains stay resolvable when the heap only grows: each new cell is a
/// non-reference, a fresh unbound variable, or a copy of a reference into
/// the old heap.
proof fn lemma_fits_chains_grow(pre: Memory, post: Memory, pending: int)
    requires
        mem_fits(pre, pending),
        pre.heap_seq().len() <= post.heap_seq().len(),
        post.heap_seq().len() <= usize::MAX,
        forall|i: int|
            #![trigger post.heap_seq()[i]]
            0 <= i < pre.heap_seq().len() ==> post.heap_seq()[i] == pre.heap_seq()[i],
        forall|i: int|
            #![trigger post.heap_seq()[i]]
            pre.heap_seq().len() <= i < post.heap_seq().len() ==> (post.heap_seq()[i]
                matches Cell::Ref(s) ==> (s.0 < pre.heap_seq().len() || s.0 == i)),
    ensures
        post.chains_wf(),
{
    lemma_fits_refs_bounded(pre, pending);
    assert forall|i: int|
        #![trigger post.resolvable(Address::Heap(i as usize))]
        0 <= i < post.heap_seq().len() implies post.resolvable(Address::Heap(i as usize)) by {
        let a = Address::Heap(i as usize);
        if i < pre.heap_seq().len() {
            assert(pre.resolvable(Address::Heap(i as usize)));
            let n = choose|n: nat| pre.resolves_in(a, n);
            lemma_resolves_in_grow(pre, post, a, n);
        } else {
            match post.heap_seq()[i] {
                Cell::Ref(s) => {
                    if s.0 == i {
                        assert(post.resolved(a));
                        assert(post.resolves_in(a, 0));
                    } else {
                        let si: int = s.0 as int;
                        assert(pre.resolvable(Address::Heap(si as usize)));
                        let t = Address::Heap(s.0);
                        assert(Address::Heap(si as usize) == t);
                        assert(pre.resolvable(t));
                        let n = choose|n: nat| pre.resolves_in(t, n);
                        lemma_resolves_in_grow(pre, post, t, n);
                        assert(post.resolves_in(a, n + 1));
                    }
                },
                _ => {
                    assert(post.resolved(a));
                    assert(post.resolves_in(a, 0));
                },
            }
        }
    }
}

/// Opening a structure block: the header pointer and the functor header go
/// onto a heap with no debt, and a register may be pointed at the new cell.
pub proof fn lemma_fits_put_block(pre: Memory, post: Memory, f: Functor)
    requires
        mem_fits(pre, 0),
        pre.heap_seq().len() + 2 <= usize::MAX,
        ({
            let c = Cell::Structure(Slot((pre.heap_seq().len() + 1) as usize));
            post.heap_seq() == pre.heap_seq().push(c).push(Cell::Functor(f))
        }),
        post.regs_seq() == pre.regs_seq() || (exists|ri: int|
            0 <= ri < pre.regs_seq().len() && post.regs_seq() == #[trigger] pre.regs_seq().update(
                ri,
                Cell::Structure(Slot((pre.heap_seq().len() + 1) as usize)),
            )),
    ensures
        mem_fits(post, f.arity as int),
{
    let hl = pre.heap_seq().len() as int;
    let c = Cell::Structure(Slot((hl + 1) as usize));
    assert forall|i: int|
        #![trigger post.heap_seq()[i]]
        0 <= i < post.heap_seq().len() implies cell_fits(post, f.arity as int, post.heap_seq()[i]) by {
        if i < hl {
            assert(cell_fits(pre, 0, pre.heap_seq()[i]));
            lemma_cell_fits_block(pre, post, f, pre.heap_seq()[i]);
        } else if i == hl {
            assert(post.heap_seq()[hl + 1] == Cell::Functor(f));
        }
    }
    assert forall|i: int|
        #![trigger post.regs_seq()[i]]
        0 <= i < post.regs_seq().len() implies (post.regs_seq()[i] is Uninitialized || ((
    post.regs_seq()[i] is Ref || post.regs_seq()[i] is Structure) && cell_fits(
        post,
        f.arity as int,
        post.regs_seq()[i],
    ))) by {
        if post.regs_seq()[i] == pre.regs_seq()[i] {
            if !(pre.regs_seq()[i] is Uninitialized) {
                assert(cell_fits(pre, 0, pre.regs_seq()[i]));
                lemma_cell_fits_block(pre, post, f, pre.regs_seq()[i]);
            }
        } else {
            assert(post.regs_seq()[i] == c);
            assert(post.heap_seq()[hl + 1] == Cell::Functor(f));
        }
    }
    lemma_fits_chains_grow(pre, post, 0);
}

/// One cell's fit survives opening a block.
proof fn lemma_cell_fits_block(pre: Memory, post: Memory, f: Functor, x: Cell)
    requires
        pre.heap_seq().len() + 1 <= usize::MAX,
        post.heap_seq() == pre.heap_seq().push(
            Cell::Structure(Slot((pre.heap_seq().len() + 1) as usize)),
        ).push(Cell::Functor(f)),
        cell_fits(pre, 0, x),
    ensures
        cell_fits(post, f.arity as int, x),
{
    match x {
        Cell::Structure(s) => {
            match pre.heap_seq()[s.0 as int] {
                Cell::Functor(g) => {
                    assert forall|u: int|
                        #![trigger post.heap_seq()[u]]
                        s.0 < u <= s.0 + g.arity && u < post.heap_seq().len() implies (
                    post.heap_seq()[u] is Ref || post.heap_seq()[u] is Structure) by {
                        assert(u < pre.heap_seq().len());
                        assert(pre.heap_seq()[u] is Ref || pre.heap_seq()[u] is Structure);
                    }
                },
                _ => {},
            }
        },
        _ => {},
    }
}

/// Binding an unbound variable to a fitting term cell keeps the memory fit.
pub proof fn lemma_fits_bind(pre: Memory, post: Memory, k: usize, c: Cell, pending: int)
    requires
        mem_fits(pre, pending),
        pending >= 0,
        k < pre.heap_seq().len(),
        pre.heap_seq()[k as int] == Cell::Ref(Slot(k)),
        mem_updated(pre, post, Address::Heap(k), c),
        (c is Ref || c is Structure),
        cell_fits(pre, pending, c),
        c matches Cell::Ref(s) ==> s.0 != k && pre.cell_at(Address::Heap(s.0)) == Cell::Ref(s),
    ensures
        mem_fits(post, pending),
    {
    assert forall|i: int|
        #![trigger post.heap_seq()[i]]
        0 <= i < post.heap_seq().len() implies cell_fits(post, pending, post.heap_seq()[i]) by {
        if i != k {
            assert(cell_fits(pre, pending, pre.heap_seq()[i]));
        }
        lemma_cell_fits_bind(pre, post, k, c, post.heap_seq()[i], pending);
    }
    assert forall|i: int|
        #![trigger post.regs_seq()[i]]
        0 <= i < post.regs_seq().len() implies (post.regs_seq()[i] is Uninitialized || ((
    post.regs_seq()[i] is Ref || post.regs_seq()[i] is Structure) && cell_fits(
        post,
        pending,
        post.regs_seq()[i],
    ))) by {
        if !(pre.regs_seq()[i] is Uninitialized) {
            assert(cell_fits(pre, pending, pre.regs_seq()[i]));
            lemma_cell_fits_bind(pre, post, k, c, pre.regs_seq()[i], pending);
        }
    }
    assert forall|i: int|
        #![trigger post.resolvable(Address::Heap(i as usize))]
        0 <= i < post.heap_seq().len() implies post.resolvable(Address::Heap(i as usize)) by {
        let a = Address::Heap(i as usize);
        assert(pre.resolvable(Address::Heap(i as usize)));
        let n = choose|n: nat| pre.resolves_in(a, n);
        match c {
            Cell::Ref(s) => {
                assert(post.cell_at(Address::Heap(s.0)) == Cell::Ref(s));
                assert(post.resolved(Address::Heap(s.0)));
            },
            _ => {},
        }
        lemma_resolves_in_bind(pre, post, k, c, a, n);
    }
}

/// One cell's fit survives binding an unbound variable.
proof fn lemma_cell_fits_bind(
    pre: Memory,
    post: Memory,
    k: usize,
    c: Cell,
    x: Cell,
    pending: int,
)
    requires
        k < pre.heap_seq().len(),
        pre.heap_seq()[k as int] == Cell::Ref(Slot(k)),
        mem_updated(pre, post, Address::Heap(k), c),
        (c is Ref || c is Structure),
        cell_fits(pre, pending, x) || (x == c && cell_fits(pre, pending, c)),
    ensures
        cell_fits(post, pending, x),
{
    match x {
        Cell::Structure(s) => {
            assert(post.heap_seq()[s.0 as int] == pre.heap_seq()[s.0 as int]);
            match pre.heap_seq()[s.0 as int] {
                Cell::Functor(g) => {
                    assert forall|u: int|
                        #![trigger post.heap_seq()[u]]
                        s.0 < u <= s.0 + g.arity && u < post.heap_seq().len() implies (
                    post.heap_seq()[u] is Ref || post.heap_seq()[u] is Structure) by {
                        assert(pre.heap_seq()[u] is Ref || pre.heap_seq()[u] is Structure);
                    }
                },
                _ => {},
            }
        },
        Cell::Ref(s) => {
            assert(post.heap_seq()[s.0 as int] == pre.heap_seq()[s.0 as int] || s.0 == k);
        },
        _ => {},
    }
}

/// Storing a fitting term cell into a register keeps the memory fit.
pub proof fn lemma_fits_store_reg(pre: Memory, post: Memory, ri: usize, c: Cell, pending: int)
    requires
        mem_fits(pre, pending),
        ri < pre.regs_seq().len(),
        mem_updated(pre, post, Address::Register(ri), c),
        (c is Ref || c is Structure),
        cell_fits(pre, pending, c),
    ensures
        mem_fits(post, pending),
{
    assert(post.heap_seq() == pre.heap_seq());
    assert forall|i: int|
        #![trigger post.heap_seq()[i]]
        0 <= i < post.heap_seq().len() implies cell_fits(post, pending, post.heap_seq()[i]) by {
        assert(cell_fits(pre, pending, pre.heap_seq()[i]));
        lemma_cell_fits_same_heap(pre, post, pre.heap_seq()[i], pending);
    }
    assert forall|i: int|
        #![trigger post.regs_seq()[i]]
        0 <= i < post.regs_seq().len() implies (post.regs_seq()[i] is Uninitialized || ((
    post.regs_seq()[i] is Ref || post.regs_seq()[i] is Structure) && cell_fits(
        post,
        pending,
        post.regs_seq()[i],
    ))) by {
        if i != ri {
            if !(pre.regs_seq()[i] is Uninitialized) {
                assert(cell_fits(pre, pending, pre.regs_seq()[i]));
                lemma_cell_fits_same_heap(pre, post, pre.regs_seq()[i], pending);
            }
        } else {
            lemma_cell_fits_same_heap(pre, post, c, pending);
        }
    }
    assert forall|i: int|
        #![trigger post.resolvable(Address::Heap(i as usize))]
        0 <= i < post.heap_seq().len() implies post.resolvable(Address::Heap(i as usize)) by {
        let a = Address::Heap(i as usize);
        assert(pre.resolvable(Address::Heap(i as usize)));
        let n = choose|n: nat| pre.resolves_in(a, n);
        lemma_resolves_in_same_heap(pre, post, a, n);
    }
}

/// A cell's fit depends only on the heap.
proof fn lemma_cell_fits_same_heap(pre: Memory, post: Memory, x: Cell, pending: int)
    requires
        post.heap_seq() == pre.heap_seq(),
        cell_fits(pre, pending, x),
    ensures
        cell_fits(post, pending, x),
{
    match x {
        Cell::Structure(s) => {
            match pre.heap_seq()[s.0 as int] {
                Cell::Functor(g) => {
                    assert forall|u: int|
                        #![trigger post.heap_seq()[u]]
                        s.0 < u <= s.0 + g.arity && u < post.heap_seq().len() implies (
                    post.heap_seq()[u] is Ref || post.heap_seq()[u] is Structure) by {
                        assert(pre.heap_seq()[u] is Ref || pre.heap_seq()[u] is Structure);
                    }
                },
                _ => {},
            }
        },
        _ => {},
    }
}

/// Resolution of heap chains depends only on the heap.
proof fn lemma_resolves_in_same_heap(pre: Memory, post: Memory, a: Address, n: nat)
    requires
        post.heap_seq() == pre.heap_seq(),
        a is Heap,
        pre.resolves_in(a, n),
    ensures
        post.resolves_in(a, n),
    decreases n,
{
    if !pre.resolved(a) {
        match pre.cell_at(a) {
            Cell::Ref(s) => {
                lemma_resolves_in_same_heap(pre, post, Address::Heap(s.0), (n - 1) as nat);
            },
            _ => {},
        }
    }
}

impl Machine {
    /// Lay out a structure header on the heap and point register `r` at it:
    /// a `Structure` cell, then the functor cell; the `f.arity` argument
    /// cells are owed and follow through `set_variable`/`set_value`.
    pub fn put_structure(&mut self, f: Functor, r: Register)
        requires
            old(self).machine_wf(),
            old(self).mode_spec() is Write,
            old(self).pending_spec() == 0,
            r.0 < old(self).mem_spec().regs_seq().len(),
        ensures
            final(self).machine_wf(),
            final(self).mode_spec() is Write,
            final(self).pending_spec() == f.arity,
            ({
                let pre = old(self).mem_spec();
                let c = Cell::Structure(Slot((pre.heap_seq().len() + 1) as usize));
                &&& final(self).mem_spec().heap_seq() == pre.heap_seq().push(c).push(
                    Cell::Functor(f),
                )
                &&& final(self).mem_spec().regs_seq() == pre.regs_seq().update(r.0 as int, c)
            }),
            final(self).log_spec() == old(self).log_spec().push(Instruction::PutStructure(f, r)),
    {
        let s = self.mem.next_slot();
        self.mem.push(Cell::Uninitialized);
        let h = self.mem.next_slot();
        let c = Cell::Structure(h);
        self.mem.push(Cell::Functor(f));
        self.mem.store(s, c);
        self.mem.store(r, c);
        let e = self.mem.next_slot();
        proof {
            assert(old(self).mem_spec().heap_seq().len() + 2 == e.0);
            self.pending@ = f.arity as int;
            self.log@ = self.log@.push(Instruction::PutStructure(f, r));
            let pre = old(self).mem_spec();
            assert(self.mem.heap_seq() =~= pre.heap_seq().push(c).push(Cell::Functor(f)));
            assert(self.mem.regs_seq() == pre.regs_seq().update(r.0 as int, c));
            lemma_fits_put_block(pre, self.mem, f);
        }
    }

    /// Fill the next owed argument cell with a fresh unbound variable and
    /// keep it in register `r`.
    pub fn set_variable(&mut self, r: Register)
        requires
            old(self).machine_wf(),
            old(self).mode_spec() is Write,
            r.0 < old(self).mem_spec().regs_seq().len(),
        ensures
            final(self).machine_wf(),
            final(self).mode_spec() is Write,
            final(self).pending_spec() == if old(self).pending_spec() >= 1 {
                old(self).pending_spec() - 1
            } else {
                0
            },
            ({
                let pre = old(self).mem_spec();
                let c = Cell::Ref(Slot(pre.heap_seq().len() as usize));
                &&& final(self).mem_spec().heap_seq() == pre.heap_seq().push(c)
                &&& final(self).mem_spec().regs_seq() == pre.regs_seq().update(r.0 as int, c)
            }),
            final(self).log_spec() == old(self).log_spec().push(Instruction::SetVariable(r)),
    {
        let s = self.mem.next_slot();
        let c = Cell::Ref(s);
        self.mem.push(c);
        self.mem.store(r, c);
        let e = self.mem.next_slot();
        proof {
            assert(old(self).mem_spec().heap_seq().len() + 1 == e.0);
            let p = self.pending@;
            self.pending@ = if p >= 1 {
                p - 1
            } else {
                0
            };
            self.log@ = self.log@.push(Instruction::SetVariable(r));
            lemma_fits_push_arg(old(self).mem_spec(), self.mem, p, c, r.0 as int);
        }
    }

    /// Fill the next owed argument cell with the cell register `r` holds.
    pub fn set_value(&mut self, r: Register)
        requires
            old(self).machine_wf(),
            old(self).mode_spec() is Write,
            r.0 < old(self).mem_spec().regs_seq().len(),
            !(old(self).mem_spec().regs_seq()[r.0 as int] is Uninitialized),
        ensures
            final(self).machine_wf(),
            final(self).mode_spec() is Write,
            final(self).pending_spec() == if old(self).pending_spec() >= 1 {
                old(self).pending_spec() - 1
            } else {
                0
            },
            final(self).mem_spec().heap_seq() == old(self).mem_spec().heap_seq().push(
                old(self).mem_spec().regs_seq()[r.0 as int],
            ),
            final(self).mem_spec().regs_seq() == old(self).mem_spec().regs_seq(),
            final(self).log_spec() == old(self).log_spec().push(Instruction::SetValue(r)),
    {
        let c = self.mem.load(r);
        self.mem.push(c);
        let e = self.mem.next_slot();
        proof {
            assert(old(self).mem_spec().heap_seq().len() + 1 == e.0);
            let p = self.pending@;
            self.pending@ = if p >= 1 {
                p - 1
            } else {
                0
            };
            self.log@ = self.log@.push(Instruction::SetValue(r));
            let pre = old(self).mem_spec();
            assert(cell_fits(pre, p, c));
            lemma_fits_push_arg(pre, self.mem, p, c, -1);
        }
    }
}


impl Machine {
    /// The write half of `get_structure`: lay out a fresh `f` block on the
    /// heap and bind the unbound variable at `addr` to it.  The instruction
    /// log is left to the caller.
    #[verifier::rlimit(100)]
    fn bind_fresh_block(&mut self, f: Functor, addr: Address)
        requires
            old(self).pending_spec() == 0,
            mem_fits(old(self).mem_spec(), 0),
            old(self).mem_spec().valid_root(addr),
            old(self).mem_spec().resolved(addr),
            old(self).mem_spec().cell_at(addr) is Ref,
        ensures
            final(self).machine_wf(),
            final(self).mode_spec() is Write,
            final(self).pending_spec() == f.arity,
            final(self).log_spec() == old(self).log_spec(),
            final(self).mem_spec().regs_seq() == old(self).mem_spec().regs_seq(),
            ({
                let pre = old(self).mem_spec();
                let c = Cell::Structure(Slot((pre.heap_seq().len() + 1) as usize));
                addr matches Address::Heap(k) && final(self).mem_spec().heap_seq()
                    == pre.heap_seq().push(c).push(Cell::Functor(f)).update(k as int, c)
            }),
    {
        let s = self.mem.next_slot();
        self.mem.push(Cell::Uninitialized);
        let h = self.mem.next_slot();
        let c = Cell::Structure(h);
        self.mem.push(Cell::Functor(f));
        self.mem.store(s, c);
        let e = self.mem.next_slot();
        proof {
            let pre = old(self).mem_spec();
            assert(pre.heap_seq().len() + 2 == e.0);
            assert(self.mem.heap_seq() =~= pre.heap_seq().push(c).push(Cell::Functor(f)));
            lemma_fits_put_block(pre, self.mem, f);
        }
        let ghost mid = self.mem;
        self.mem.bind(addr, s.to_address());
        self.mode = Mode::Write;
        proof {
            self.pending@ = f.arity as int;
            let pre = old(self).mem_spec();
            let k = addr->Heap_0;
            assert(mid.heap_seq()[k as int] == Cell::Ref(Slot(k)));
            assert(mid.heap_seq()[pre.heap_seq().len() as int] == c);
            assert(cell_fits(mid, f.arity as int, c));
            lemma_fits_bind(mid, self.mem, k, c, f.arity as int);
        }
    }

    /// The read half of `unify_value`: unify the term in register `r` with
    /// the argument cell under the read cursor and advance the cursor.  The
    /// instruction log is left to the caller.
    #[verifier::rlimit(100)]
    fn unify_read_arg(&mut self, r: Register, next: Slot, end: Ghost<int>) -> (res: Fallible)
        requires
            old(self).machine_wf(),
            old(self).mode_spec() == Mode::Read(next, end),
            next.0 < end@,
            r.0 < old(self).mem_spec().regs_seq().len(),
            !(old(self).mem_spec().regs_seq()[r.0 as int] is Uninitialized),
        ensures
            final(self).machine_wf(),
            final(self).log_spec() == old(self).log_spec(),
            Memory::binds_only(old(self).mem_spec(), final(self).mem_spec()),
            old(self).mem_spec().deref_spec(Address::Register(r.0)) == old(
                self,
            ).mem_spec().deref_spec(Address::Heap(next.0)) ==> (res is Ok && final(self).mem_spec()
                == old(self).mem_spec()),
            res is Ok ==> (final(self).mode_spec() is Read && final(self).read_next() == next.0 + 1
                && final(self).read_end() == end@),
            res is Ok ==> exists|w: Set<(Address, Address)>|
                #[trigger] unified_pairs(final(self).mem_spec(), w) && w.contains(
                    (Address::Register(r.0), Address::Heap(next.0)),
                ),
            res is Err ==> final(self).mode_spec() == old(self).mode_spec(),
            res is Err ==> exists|path: Seq<(Address, Address)>|
                #[trigger] clash_path(
                    final(self).mem_spec(),
                    (Address::Register(r.0), Address::Heap(next.0)),
                    path,
                ),
    {
        proof {
            lemma_mem_fits_zero(self.mem);
        }
        let ghost pre = self.mem;
        let res = self.mem.unify(Address::Register(r.0), Address::Heap(next.0));
        let e = self.mem.next_slot();
        proof {
            assert(next.0 < e.0);
        }
        match res {
            Ok(()) => {
                self.mode = Mode::Read(Slot(next.0 + 1), end);
            },
            Err(()) => {},
        }
        proof {
            lemma_wf_fits(self.mem, 0);
            match self.mode_spec() {
                Mode::Read(n2, e2) => {
                    assert forall|j: int|
                        #![trigger self.mem.heap_seq()[j]]
                        n2.0 <= j < e2@ implies (self.mem.heap_seq()[j] is Ref
                        || self.mem.heap_seq()[j] is Structure) by {
                        assert(pre.heap_seq()[j] is Ref || pre.heap_seq()[j] is Structure);
                    }
                },
                Mode::Write => {},
            }
        }
        res
    }
}

impl Machine {
    /// The read half of `get_structure`: compare the functor of the found
    /// structure with `f` and open its argument block for reading.  The
    /// instruction log is left to the caller.
    #[verifier::rlimit(100)]
    fn start_read(&mut self, f: Functor, v: Slot) -> (res: Fallible)
        requires
            old(self).machine_wf(),
            old(self).pending_spec() == 0,
            old(self).mem_spec().heap_cell_wf(Cell::Structure(v)),
        ensures
            final(self).machine_wf(),
            final(self).log_spec() == old(self).log_spec(),
            final(self).mem_spec() == old(self).mem_spec(),
            final(self).pending_spec() == 0,
            ({
                let pre = old(self).mem_spec();
                if pre.heap_seq()[v.0 as int] == Cell::Functor(f) {
                    &&& res is Ok
                    &&& final(self).mode_spec() is Read
                    &&& final(self).read_next() == v.0 + 1
                    &&& final(self).budget() == f.arity
                } else {
                    &&& res is Err
                    &&& final(self).mode_spec() == old(self).mode_spec()
                }
            }),
    {
        let e = self.mem.next_slot();
        let g = self.mem.load_functor(v);
        if g == f {
            let next = Slot(v.0 + 1);
            self.mode = Mode::Read(next, Ghost(v.0 + 1 + f.arity as int));
            proof {
                assert forall|j: int|
                    #![trigger self.mem.heap_seq()[j]]
                    v.0 < j < v.0 + 1 + f.arity implies (self.mem.heap_seq()[j] is Ref
                    || self.mem.heap_seq()[j] is Structure) by {}
            }
            Ok(())
        } else {
            Err(())
        }
    }

    /// Match the structure `f` against the term register `r` points at.
    ///
    /// If the register dereferences to an unbound variable, a fresh `f`
    /// structure is laid out on the heap, the variable is bound to it, and
    /// the machine enters write mode owing the `f.arity` argument cells.  If
    /// it dereferences to a structure with the same functor, the machine
    /// enters read mode over that structure's arguments.  A structure with
    /// another functor is a mismatch: `Err`, and the memory is unchanged.
    #[verifier::rlimit(100)]
    pub fn get_structure(&mut self, f: Functor, r: Register) -> (res: Fallible)
        requires
            old(self).machine_wf(),
            old(self).budget() == 0,
            r.0 < old(self).mem_spec().regs_seq().len(),
            !(old(self).mem_spec().regs_seq()[r.0 as int] is Uninitialized),
        ensures
            final(self).machine_wf(),
            final(self).log_spec() == old(self).log_spec().push(Instruction::GetStructure(f, r)),
            final(self).mem_spec().regs_seq() == old(self).mem_spec().regs_seq(),
            res is Ok ==> final(self).budget() == f.arity,
            res is Err ==> (final(self).mem_spec().heap_seq() == old(self).mem_spec().heap_seq()
                && final(self).budget() == 0),
            ({
                let pre = old(self).mem_spec();
                let a = pre.deref_spec(Address::Register(r.0));
                match pre.cell_at(a) {
                    Cell::Ref(_) => {
                        let c = Cell::Structure(Slot((pre.heap_seq().len() + 1) as usize));
                        &&& res is Ok
                        &&& final(self).mode_spec() is Write
                        &&& final(self).pending_spec() == f.arity
                        &&& (a matches Address::Heap(k) && final(self).mem_spec().heap_seq()
                            == pre.heap_seq().push(c).push(Cell::Functor(f)).update(k as int, c))
                    },
                    Cell::Structure(v) => {
                        if pre.heap_seq()[v.0 as int] == Cell::Functor(f) {
                            &&& res is Ok
                            &&& final(self).mem_spec().heap_seq() == pre.heap_seq()
                            &&& final(self).mode_spec() is Read
                            &&& final(self).read_next() == v.0 + 1
                        } else {
                            &&& res is Err
                            &&& final(self).mem_spec().heap_seq() == pre.heap_seq()
                            &&& final(self).mode_spec() == old(self).mode_spec()
                        }
                    },
                    _ => true,
                }
            }),
    {
        proof {
            lemma_mem_fits_zero(self.mem);
        }
        let addr = self.mem.deref(Address::Register(r.0));
        match self.mem.load(addr) {
            Cell::Ref(_) => {
                self.bind_fresh_block(f, addr);
                proof {
                    self.log@ = self.log@.push(Instruction::GetStructure(f, r));
                }
                Ok(())
            },
            Cell::Structure(v) => {
                proof {
                    match addr {
                        Address::Heap(i) => {
                            assert(self.mem.heap_cell_wf(self.mem.heap_seq()[i as int]));
                        },
                        Address::Register(i) => {
                            assert(self.mem.reg_cell_wf(self.mem.regs_seq()[i as int]));
                        },
                    }
                }
                let res = self.start_read(f, v);
                proof {
                    self.log@ = self.log@.push(Instruction::GetStructure(f, r));
                }
                res
            },
            _ => unreached(),
        }
    }

            /// Take the next argument cell into register `r`: copy the cell under
    /// the read cursor, or push a fresh unbound variable in write mode.
    #[verifier::rlimit(100)]
    pub fn unify_variable(&mut self, r: Register)
        requires
            old(self).machine_wf(),
            old(self).mode_spec() is Write || old(self).budget() >= 1,
            r.0 < old(self).mem_spec().regs_seq().len(),
        ensures
            final(self).machine_wf(),
            final(self).budget() == if old(self).budget() >= 1 {
                old(self).budget() - 1
            } else {
                0
            },
            final(self).log_spec() == old(self).log_spec().push(Instruction::UnifyVariable(r)),
            ({
                let pre = old(self).mem_spec();
                match old(self).mode_spec() {
                    Mode::Read(next, _) => {
                        &&& final(self).mem_spec().heap_seq() == pre.heap_seq()
                        &&& final(self).mem_spec().regs_seq() == pre.regs_seq().update(
                            r.0 as int,
                            pre.heap_seq()[next.0 as int],
                        )
                        &&& final(self).mode_spec() is Read
                        &&& final(self).read_next() == next.0 + 1
                    },
                    Mode::Write => {
                        let c = Cell::Ref(Slot(pre.heap_seq().len() as usize));
                        &&& final(self).mem_spec().heap_seq() == pre.heap_seq().push(c)
                        &&& final(self).mem_spec().regs_seq() == pre.regs_seq().update(
                            r.0 as int,
                            c,
                        )
                        &&& final(self).mode_spec() is Write
                    },
                }
            }),
    {
        match self.mode {
            Mode::Read(next, end) => {
                let c = self.mem.load(next);
                let e = self.mem.next_slot();
                proof {
                    assert(next.0 < e.0);
                    assert(cell_fits(self.mem, 0, c));
                }
                self.mem.store(r, c);
                self.mode = Mode::Read(Slot(next.0 + 1), end);
                proof {
                    self.log@ = self.log@.push(Instruction::UnifyVariable(r));
                    lemma_fits_store_reg(old(self).mem_spec(), self.mem, r.0, c, 0);
                }
            },
            Mode::Write => {
                let s = self.mem.next_slot();
                let c = Cell::Ref(s);
                self.mem.push(c);
                self.mem.store(r, c);
                let e = self.mem.next_slot();
                proof {
                    assert(old(self).mem_spec().heap_seq().len() + 1 == e.0);
                    let p = self.pending@;
                    self.pending@ = if p >= 1 {
                        p - 1
                    } else {
                        0
                    };
                    self.log@ = self.log@.push(Instruction::UnifyVariable(r));
                    lemma_fits_push_arg(old(self).mem_spec(), self.mem, p, c, r.0 as int);
                }
            },
        }
    }

    /// Unify the next argument cell with the term register `r` holds: run
    /// full unification in read mode (on `Ok` the two terms are unified in
    /// the final memory, on `Err` the cursor and mode are left alone), or
    /// push the register's cell in write mode.  `Err` means two functors
    /// clash somewhere in the walk.
    #[verifier::rlimit(100)]
    pub fn unify_value(&mut self, r: Register) -> (res: Fallible)
        requires
            old(self).machine_wf(),
            old(self).mode_spec() is Write || old(self).budget() >= 1,
            r.0 < old(self).mem_spec().regs_seq().len(),
            !(old(self).mem_spec().regs_seq()[r.0 as int] is Uninitialized),
        ensures
            final(self).machine_wf(),
            res is Ok ==> final(self).budget() == if old(self).budget() >= 1 {
                old(self).budget() - 1
            } else {
                0
            },
            res is Err ==> final(self).mode_spec() == old(self).mode_spec(),
            final(self).log_spec() == old(self).log_spec().push(Instruction::UnifyValue(r)),
            ({
                let pre = old(self).mem_spec();
                match old(self).mode_spec() {
                    Mode::Read(next, _) => {
                        &&& Memory::binds_only(pre, final(self).mem_spec())
                        &&& (pre.deref_spec(Address::Register(r.0)) == pre.deref_spec(
                            Address::Heap(next.0),
                        ) ==> res is Ok && final(self).mem_spec() == pre)
                        &&& (res is Ok ==> (final(self).mode_spec() is Read
                            && final(self).read_next() == next.0 + 1))
                        &&& (res is Ok ==> exists|w: Set<(Address, Address)>|
                            #[trigger] unified_pairs(final(self).mem_spec(), w) && w.contains(
                                (Address::Register(r.0), Address::Heap(next.0)),
                            ))
                        &&& (res is Err ==> exists|path: Seq<(Address, Address)>|
                            #[trigger] clash_path(
                                final(self).mem_spec(),
                                (Address::Register(r.0), Address::Heap(next.0)),
                                path,
                            ))
                    },
                    Mode::Write => {
                        &&& res is Ok
                        &&& final(self).mem_spec().heap_seq() == pre.heap_seq().push(
                            pre.regs_seq()[r.0 as int],
                        )
                        &&& final(self).mem_spec().regs_seq() == pre.regs_seq()
                        &&& final(self).mode_spec() is Write
                    },
                }
            }),
    {
        match self.mode {
            Mode::Read(next, end) => {
                let res = self.unify_read_arg(r, next, end);
                proof {
                    self.log@ = self.log@.push(Instruction::UnifyValue(r));
                }
                res
            },
            Mode::Write => {
                let c = self.mem.load(r);
                self.mem.push(c);
                let e = self.mem.next_slot();
                proof {
                    assert(old(self).mem_spec().heap_seq().len() + 1 == e.0);
                    let p = self.pending@;
                    self.pending@ = if p >= 1 {
                        p - 1
                    } else {
                        0
                    };
                    self.log@ = self.log@.push(Instruction::UnifyValue(r));
                    assert(cell_fits(old(self).mem_spec(), p, c));
                    lemma_fits_push_arg(old(self).mem_spec(), self.mem, p, c, -1);
                }
                Ok(())
            },
        }
    }
}


impl MachineOps for Machine {
    open spec fn inv(&self) -> bool {
        self.machine_wf()
    }

    open spec fn reg_capacity(&self) -> int {
        self.mem_spec().regs_seq().len() as int
    }

    open spec fn reg_ready(&self, r: int) -> bool {
        self.reg_holds(r)
    }

    open spec fn building(&self) -> bool {
        self.mode_spec() is Write
    }

    open spec fn arg_budget(&self) -> int {
        self.budget()
    }

    open spec fn infallible(&self) -> bool {
        false
    }

    open spec fn ops_log(&self) -> Seq<Instruction> {
        self.log_spec()
    }

    fn put_structure(&mut self, f: Functor, r: Register) {
        Machine::put_structure(self, f, r);
    }

    fn set_variable(&mut self, r: Register) {
        Machine::set_variable(self, r);
    }

    fn set_value(&mut self, r: Register) {
        Machine::set_value(self, r);
    }

    fn get_structure(&mut self, f: Functor, r: Register) -> (res: Fallible) {
        Machine::get_structure(self, f, r)
    }

    fn unify_variable(&mut self, r: Register) {
        Machine::unify_variable(self, r);
    }

    fn unify_value(&mut self, r: Register) -> (res: Fallible) {
        Machine::unify_value(self, r)
    }
}

} // verus!
