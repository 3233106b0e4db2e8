//! Tagged-cell memory: the heap and the register file.
//!
//! The heap grows monotonically and holds tagged cells; registers mirror
//! heap cells by value.  Three pointer flavours index into the memory: a
//! [`Slot`] is a heap index, a [`Register`] is a register index, and an
//! [`Address`] is either.  The [`Pointer`] trait gives `load`, `store` and
//! `deref` a single face over all three.
//!
//! A self-referential `Ref` cell is an unbound variable.  `deref` chases
//! `Ref` chains to a non-`Ref` cell or a self-reference, `bind` writes a
//! value over an unbound cell, and `unify` walks two resolved terms,
//! binding variables until they agree or two functors clash.

use vstd::prelude::*;

use crate::functor::{Functor, Functors};

verus! {

/// `Ok(())` when unification succeeds, `Err(())` when two functors clash.
pub type Fallible = Result<(), ()>;

/// An index into the heap.
#[derive(Copy, Clone, Debug, PartialEq, Eq, Hash, Structural)]
pub struct Slot(pub usize);

/// An index into the register file.
#[derive(Copy, Clone, Debug, PartialEq, Eq, Hash, Structural)]
pub struct Register(pub usize);

/// A pointer into either region of the memory.
#[derive(Copy, Clone, Debug, PartialEq, Eq, Hash, Structural)]
pub enum Address {
    Heap(usize),
    Register(usize),
}

/// A tagged cell.
///
/// `Structure(s)` points at the functor header of a structure laid out on
/// the heap: slot `s` holds `Functor(f)` and the following `f.arity` slots
/// hold the argument cells.  `Ref(s)` points at another cell; a `Ref` that
/// points at its own slot is an unbound variable.  Registers start out
/// `Uninitialized`.
#[derive(Copy, Clone, Debug, PartialEq, Eq, Structural)]
pub enum Cell {
    Structure(Slot),
    Ref(Slot),
    Functor(Functor),
    Uninitialized,
}

impl Slot {
    /// Step to the next heap slot.
    pub fn bump(&mut self)
        requires
            old(self).0 < usize::MAX,
        ensures
            final(self).0 == old(self).0 + 1,
    {
        self.0 = self.0 + 1;
    }
}

/// A pointer flavour that can be widened to an [`Address`].
pub trait Pointer: Sized + Copy {
    /// The address this pointer stands for.
    spec fn address(self) -> Address;

    /// Widen to an address.
    fn to_address(self) -> (a: Address)
        ensures
            a == self.address(),
    ;

    /// The heap slot this pointer stands for, if it points into the heap.
    fn to_slot(self) -> (s: Option<Slot>)
        ensures
            match self.address() {
                Address::Heap(i) => s == Some(Slot(i)),
                Address::Register(_) => s is None,
            },
    ;

    /// Whether two pointers of one flavour stand for the same address.
    fn same(self, other: Self) -> (b: bool)
        ensures
            b == (self.address() == other.address()),
    ;
}

/// A pointer flavour that a heap slot can be narrowed into; `deref` needs
/// this to keep its result in the flavour of its argument.
pub trait FromSlot: Pointer {
    fn from_slot(slot: Slot) -> (p: Self)
        ensures
            p.address() == Address::Heap(slot.0),
    ;
}

impl Pointer for Address {
    open spec fn address(self) -> Address {
        self
    }

    fn to_address(self) -> (a: Address) {
        self
    }

    fn to_slot(self) -> (s: Option<Slot>) {
        match self {
            Address::Heap(i) => Some(Slot(i)),
            Address::Register(_) => None,
        }
    }

    fn same(self, other: Self) -> (b: bool) {
        match (self, other) {
            (Address::Heap(i), Address::Heap(j)) => i == j,
            (Address::Register(i), Address::Register(j)) => i == j,
            _ => false,
        }
    }
}

impl FromSlot for Address {
    fn from_slot(slot: Slot) -> (p: Self) {
        Address::Heap(slot.0)
    }
}

impl Pointer for Slot {
    open spec fn address(self) -> Address {
        Address::Heap(self.0)
    }

    fn to_address(self) -> (a: Address) {
        Address::Heap(self.0)
    }

    fn to_slot(self) -> (s: Option<Slot>) {
        Some(self)
    }

    fn same(self, other: Self) -> (b: bool) {
        self.0 == other.0
    }
}

impl FromSlot for Slot {
    fn from_slot(slot: Slot) -> (p: Self) {
        slot
    }
}

impl Pointer for Register {
    open spec fn address(self) -> Address {
        Address::Register(self.0)
    }

    fn to_address(self) -> (a: Address) {
        Address::Register(self.0)
    }

    fn to_slot(self) -> (s: Option<Slot>) {
        None
    }

    fn same(self, other: Self) -> (b: bool) {
        self.0 == other.0
    }
}

/// The heap and the register file.
pub struct Memory {
    heap: Vec<Cell>,
    registers: Vec<Cell>,
}

impl Memory {
    /// The heap contents.
    pub closed spec fn heap_seq(&self) -> Seq<Cell> {
        self.heap@
    }

    /// The register file contents.
    pub closed spec fn regs_seq(&self) -> Seq<Cell> {
        self.registers@
    }

    /// The cell an address points at; out-of-bounds addresses read as
    /// `Uninitialized`.
    pub open spec fn cell_at(&self, a: Address) -> Cell {
        match a {
            Address::Heap(i) => if i < self.heap_seq().len() {
                self.heap_seq()[i as int]
            } else {
                Cell::Uninitialized
            },
            Address::Register(i) => if i < self.regs_seq().len() {
                self.regs_seq()[i as int]
            } else {
                Cell::Uninitialized
            },
        }
    }

    /// The address points into the allocated part of the memory.
    pub open spec fn in_bounds(&self, a: Address) -> bool {
        match a {
            Address::Heap(i) => i < self.heap_seq().len(),
            Address::Register(i) => i < self.regs_seq().len(),
        }
    }

    pub fn new(num_regs: usize) -> (mem: Memory)
        ensures
            mem.heap_seq().len() == 0,
            mem.regs_seq().len() == num_regs,
            forall|i: int| 0 <= i < num_regs ==> mem.regs_seq()[i] == Cell::Uninitialized,
            mem.wf(),
    {
        let mut registers: Vec<Cell> = Vec::new();
        for k in 0..num_regs
            invariant
                registers@.len() == k,
                forall|i: int| 0 <= i < k ==> registers@[i] == Cell::Uninitialized,
            decreases num_regs - k,
        {
            registers.push(Cell::Uninitialized);
        }
        let mem = Memory { heap: Vec::new(), registers };
        proof {
            assert forall|a: Address| mem.resolvable(a) by {
                assert(mem.resolves_in(a, 0));
            }
        }
        mem
    }

    /// The heap, for inspection.
    pub fn heap(&self) -> (h: &[Cell])
        ensures
            h@ == self.heap_seq(),
    {
        self.heap.as_slice()
    }

    /// The register file, for inspection.
    pub fn registers(&self) -> (r: &[Cell])
        ensures
            r@ == self.regs_seq(),
    {
        self.registers.as_slice()
    }

    /// Where the next `push` will land.
    pub fn next_slot(&self) -> (s: Slot)
        ensures
            s.0 == self.heap_seq().len(),
    {
        Slot(self.heap.len())
    }

    /// Append a cell to the heap.
    pub fn push(&mut self, cell: Cell)
        ensures
            final(self).heap_seq() == old(self).heap_seq().push(cell),
            final(self).regs_seq() == old(self).regs_seq(),
    {
        self.heap.push(cell);
    }

    /// Read the cell a pointer points at.
    pub fn load<P: Pointer>(&self, p: P) -> (c: Cell)
        requires
            self.in_bounds(p.address()),
        ensures
            c == self.cell_at(p.address()),
    {
        match p.to_address() {
            Address::Heap(i) => self.heap[i],
            Address::Register(i) => self.registers[i],
        }
    }

    /// Read a functor header.
    pub fn load_functor<P: Pointer>(&self, p: P) -> (f: Functor)
        requires
            self.in_bounds(p.address()),
            self.cell_at(p.address()) is Functor,
        ensures
            self.cell_at(p.address()) == Cell::Functor(f),
    {
        match self.load(p) {
            Cell::Functor(f) => f,
            _ => unreached(),
        }
    }

    /// Overwrite the cell a pointer points at.
    pub fn store<P: Pointer>(&mut self, p: P, cell: Cell)
        requires
            old(self).in_bounds(p.address()),
        ensures
            mem_updated(*old(self), *final(self), p.address(), cell),
    {
        match p.to_address() {
            Address::Heap(i) => {
                self.heap[i] = cell;
            },
            Address::Register(i) => {
                self.registers[i] = cell;
            },
        }
    }
}

// Well-formedness of the memory.
//
// Every heap cell is a functor header, a reference to an allocated
// non-header cell, or a structure pointer whose header and argument cells
// lie on the heap; and every chain of references resolves in finitely many
// steps.  Registers hold either `Uninitialized` or a cell that would be
// valid on the heap.
impl Memory {
    /// A cell that may lie on the heap, judged against this heap.
    pub open spec fn heap_cell_wf(&self, c: Cell) -> bool {
        match c {
            Cell::Uninitialized => false,
            Cell::Functor(_) => true,
            Cell::Ref(s) => {
                &&& s.0 < self.heap_seq().len()
                &&& !(self.heap_seq()[s.0 as int] is Functor)
                &&& !(self.heap_seq()[s.0 as int] is Uninitialized)
            },
            Cell::Structure(s) => {
                &&& s.0 < self.heap_seq().len()
                &&& match self.heap_seq()[s.0 as int] {
                    Cell::Functor(f) => {
                        &&& s.0 + f.arity < self.heap_seq().len()
                        &&& forall|u: int|
                            #![trigger self.heap_seq()[u]]
                            s.0 < u <= s.0 + f.arity ==> (self.heap_seq()[u] is Ref
                                || self.heap_seq()[u] is Structure)
                    },
                    _ => false,
                }
            },
        }
    }

    pub open spec fn heap_wf(&self) -> bool {
        forall|i: int|
            #![trigger self.heap_seq()[i]]
            0 <= i < self.heap_seq().len() ==> self.heap_cell_wf(self.heap_seq()[i])
    }

    /// A cell that may sit in a register: unused, or a non-header heap cell.
    pub open spec fn reg_cell_wf(&self, c: Cell) -> bool {
        c is Uninitialized || ((c is Ref || c is Structure) && self.heap_cell_wf(c))
    }

    pub open spec fn regs_wf(&self) -> bool {
        forall|i: int|
            #![trigger self.regs_seq()[i]]
            0 <= i < self.regs_seq().len() ==> self.reg_cell_wf(self.regs_seq()[i])
    }

    /// Dereferencing stops at `a`: its cell is not a reference elsewhere.
    pub open spec fn resolved(&self, a: Address) -> bool {
        match self.cell_at(a) {
            Cell::Ref(s) => a == Address::Heap(s.0),
            _ => true,
        }
    }

    /// The reference chain starting at `a` resolves within `n` steps.
    pub open spec fn resolves_in(&self, a: Address, n: nat) -> bool
        decreases n,
    {
        self.resolved(a) || (n > 0 && match self.cell_at(a) {
            Cell::Ref(s) => self.resolves_in(Address::Heap(s.0), (n - 1) as nat),
            _ => false,
        })
    }

    /// A chain that resolves within `n` steps resolves within more.
    pub proof fn lemma_resolves_in_mono(&self, a: Address, n: nat, m: nat)
        requires
            self.resolves_in(a, n),
            n <= m,
        ensures
            self.resolves_in(a, m),
        decreases n,
    {
        if !self.resolved(a) {
            match self.cell_at(a) {
                Cell::Ref(s) => {
                    self.lemma_resolves_in_mono(Address::Heap(s.0), (n - 1) as nat, (m - 1) as nat);
                },
                _ => {},
            }
        }
    }

    /// The reference chain starting at `a` resolves.
    pub open spec fn resolvable(&self, a: Address) -> bool {
        exists|n: nat| self.resolves_in(a, n)
    }

    /// Every reference points at an allocated heap cell.
    pub open spec fn refs_bounded(&self) -> bool {
        &&& forall|i: int|
            #![trigger self.heap_seq()[i]]
            0 <= i < self.heap_seq().len() ==> (self.heap_seq()[i] matches Cell::Ref(s) ==> s.0
                < self.heap_seq().len())
        &&& forall|i: int|
            #![trigger self.regs_seq()[i]]
            0 <= i < self.regs_seq().len() ==> (self.regs_seq()[i] matches Cell::Ref(s) ==> s.0
                < self.heap_seq().len())
    }

    pub open spec fn chains_wf(&self) -> bool {
        forall|i: int|
            #![trigger self.resolvable(Address::Heap(i as usize))]
            0 <= i < self.heap_seq().len() ==> self.resolvable(Address::Heap(i as usize))
    }

    pub open spec fn wf(&self) -> bool {
        self.heap_wf() && self.regs_wf() && self.chains_wf()
    }

    /// Follow the reference chain from `a` for at most `fuel` steps.
    pub open spec fn walk(&self, a: Address, fuel: nat) -> Address
        decreases fuel,
    {
        if self.resolved(a) || fuel == 0 {
            a
        } else {
            match self.cell_at(a) {
                Cell::Ref(s) => self.walk(Address::Heap(s.0), (fuel - 1) as nat),
                _ => a,
            }
        }
    }

    /// Where the reference chain from `a` ends; `a` itself if it never does.
    pub open spec fn deref_spec(&self, a: Address) -> Address {
        if self.resolvable(a) {
            self.walk(a, choose|n: nat| self.resolves_in(a, n))
        } else {
            a
        }
    }

    proof fn lemma_walk_resolved(&self, a: Address, n: nat)
        requires
            self.resolves_in(a, n),
        ensures
            self.resolved(self.walk(a, n)),
        decreases n,
    {
        if !self.resolved(a) {
            match self.cell_at(a) {
                Cell::Ref(s) => {
                    self.lemma_walk_resolved(Address::Heap(s.0), (n - 1) as nat);
                },
                _ => {},
            }
        }
    }

    proof fn lemma_walk_agree(&self, a: Address, n: nat, m: nat)
        requires
            self.resolves_in(a, n),
            self.resolves_in(a, m),
        ensures
            self.walk(a, n) == self.walk(a, m),
        decreases n,
    {
        if !self.resolved(a) {
            match self.cell_at(a) {
                Cell::Ref(s) => {
                    self.lemma_walk_agree(Address::Heap(s.0), (n - 1) as nat, (m - 1) as nat);
                },
                _ => {},
            }
        }
    }

    /// For a resolvable address, `deref_spec` is the end of the chain: it is
    /// resolved, and any step count that resolves the chain reaches it.
    pub proof fn lemma_deref_spec_resolves(&self, a: Address)
        requires
            self.resolvable(a),
        ensures
            self.resolved(self.deref_spec(a)),
            forall|n: nat|
                self.resolves_in(a, n) ==> self.deref_spec(a) == self.walk(a, n),
    {
        let n0 = choose|n: nat| self.resolves_in(a, n);
        self.lemma_walk_resolved(a, n0);
        assert forall|n: nat| self.resolves_in(a, n) implies self.deref_spec(a) == self.walk(
            a,
            n,
        ) by {
            self.lemma_walk_agree(a, n0, n);
        }
    }

    /// Dereferencing is idempotent: the end of a chain is its own end.
    pub proof fn lemma_deref_idempotent(&self, a: Address)
        ensures
            self.deref_spec(self.deref_spec(a)) == self.deref_spec(a),
    {
        if self.resolvable(a) {
            self.lemma_deref_spec_resolves(a);
            let b = self.deref_spec(a);
            assert(self.resolves_in(b, 0));
            self.lemma_deref_spec_resolves(b);
        }
    }

    /// A well-formed memory resolves every reference chain.
    pub proof fn lemma_wf_resolvable(&self, a: Address)
        requires
            self.wf(),
        ensures
            self.resolvable(a),
    {
        if self.resolved(a) {
            assert(self.resolves_in(a, 0));
        } else {
            match self.cell_at(a) {
                Cell::Ref(s) => {
                    // The cell is a reference elsewhere, so its target is an
                    // allocated heap cell, whose chain resolves by `chains_wf`.
                    match a {
                        Address::Heap(i) => {
                            assert(self.heap_cell_wf(self.heap_seq()[i as int]));
                        },
                        Address::Register(i) => {
                            assert(self.reg_cell_wf(self.regs_seq()[i as int]));
                        },
                    }
                    assert(s.0 < self.heap_seq().len());
                    let si: int = s.0 as int;
                    assert(self.resolvable(Address::Heap(si as usize)));
                    assert(self.resolvable(Address::Heap(s.0)));
                    let n = choose|n: nat| self.resolves_in(Address::Heap(s.0), n);
                    assert(self.resolves_in(a, n + 1));
                },
                _ => {
                    assert(self.resolves_in(a, 0));
                },
            }
        }
    }
}

impl Memory {
    /// Chase references from `ptr` to a non-reference cell or an unbound
    /// variable, in the pointer flavour of `ptr`.  The memory is unchanged.
    pub fn deref<P: Pointer + FromSlot>(&mut self, ptr: P) -> (r: P)
        requires
            old(self).wf(),
            old(self).valid_root(ptr.address()),
        ensures
            *final(self) == *old(self),
            r.address() == old(self).deref_spec(ptr.address()),
            final(self).resolved(r.address()),
            final(self).valid_root(r.address()),
    {
        proof {
            self.lemma_wf_resolvable(ptr.address());
        }
        let ghost n0 = choose|n: nat| self.resolves_in(ptr.address(), n);
        let mut cur = ptr;
        let ghost mut fuel = n0;
        loop
            invariant
                *self == *old(self),
                self.wf(),
                self.valid_root(cur.address()),
                self.resolves_in(cur.address(), fuel),
                self.walk(cur.address(), fuel) == self.walk(ptr.address(), n0),
            ensures
                *self == *old(self),
                self.resolved(cur.address()),
                self.valid_root(cur.address()),
                cur.address() == self.walk(ptr.address(), n0),
            decreases fuel,
        {
            let c = self.load(cur);
            match c {
                Cell::Ref(s) => {
                    let referent = P::from_slot(s);
                    if cur.same(referent) {
                        break ;
                    } else {
                        proof {
                            match cur.address() {
                                Address::Heap(i) => {
                                    assert(self.heap_cell_wf(self.heap_seq()[i as int]));
                                },
                                Address::Register(i) => {
                                    assert(self.reg_cell_wf(self.regs_seq()[i as int]));
                                },
                            }
                            fuel = (fuel - 1) as nat;
                        }
                        cur = referent;
                    }
                },
                _ => {
                    break ;
                },
            }
        }
        proof {
            self.lemma_deref_spec_resolves(ptr.address());
        }
        cur
    }
}

/// `post` is `pre` with the cell at `a` replaced by `c`.
pub open spec fn mem_updated(pre: Memory, post: Memory, a: Address, c: Cell) -> bool {
    match a {
        Address::Heap(i) => post.heap_seq() == pre.heap_seq().update(i as int, c)
            && post.regs_seq() == pre.regs_seq(),
        Address::Register(i) => post.heap_seq() == pre.heap_seq() && post.regs_seq()
            == pre.regs_seq().update(i as int, c),
    }
}

/// How one heap cell may change while the memory stays well-formed: functor
/// headers are immutable, term cells stay term cells.
pub open spec fn cell_evolves(o: Cell, n: Cell) -> bool {
    match o {
        Cell::Functor(_) => n == o,
        Cell::Ref(_) => n is Ref || n is Structure,
        Cell::Structure(_) => n is Ref || n is Structure,
        Cell::Uninitialized => true,
    }
}

/// The heap of `post` extends the heap of `pre`, changing kept cells only as
/// [`cell_evolves`] allows.
pub open spec fn heap_evolves(pre: Memory, post: Memory) -> bool {
    &&& pre.heap_seq().len() <= post.heap_seq().len()
    &&& forall|i: int|
        #![trigger post.heap_seq()[i]]
        0 <= i < pre.heap_seq().len() ==> cell_evolves(pre.heap_seq()[i], post.heap_seq()[i])
}

/// Cell validity survives heap evolution.
pub proof fn lemma_cell_wf_evolves(pre: Memory, post: Memory, c: Cell)
    requires
        heap_evolves(pre, post),
        pre.heap_cell_wf(c),
    ensures
        post.heap_cell_wf(c),
{
    match c {
        Cell::Ref(s) => {
            assert(cell_evolves(pre.heap_seq()[s.0 as int], post.heap_seq()[s.0 as int]));
        },
        Cell::Structure(s) => {
            assert(cell_evolves(pre.heap_seq()[s.0 as int], post.heap_seq()[s.0 as int]));
            match pre.heap_seq()[s.0 as int] {
                Cell::Functor(f) => {
                    assert forall|u: int|
                        #![trigger post.heap_seq()[u]]
                        s.0 < u <= s.0 + f.arity implies (post.heap_seq()[u] is Ref
                        || post.heap_seq()[u] is Structure) by {
                        assert(pre.heap_seq()[u] is Ref || pre.heap_seq()[u] is Structure);
                        assert(cell_evolves(pre.heap_seq()[u], post.heap_seq()[u]));
                    }
                },
                _ => {},
            }
        },
        _ => {},
    }
}

/// Reference chains stay resolvable when the heap only grows.
pub proof fn lemma_resolves_in_grow(pre: Memory, post: Memory, a: Address, n: nat)
    requires
        pre.refs_bounded(),
        pre.heap_seq().len() <= post.heap_seq().len(),
        forall|i: int|
            #![trigger post.heap_seq()[i]]
            0 <= i < pre.heap_seq().len() ==> post.heap_seq()[i] == pre.heap_seq()[i],
        pre.cell_at(a) == post.cell_at(a),
        pre.resolves_in(a, n),
    ensures
        post.resolves_in(a, n),
    decreases n,
{
    if pre.resolved(a) {
        assert(post.resolved(a));
    } else {
        match pre.cell_at(a) {
            Cell::Ref(s) => {
                match a {
                    Address::Heap(i) => {
                        assert(pre.heap_seq()[i as int] matches Cell::Ref(t) ==> t.0
                            < pre.heap_seq().len());
                    },
                    Address::Register(i) => {
                        assert(pre.regs_seq()[i as int] matches Cell::Ref(t) ==> t.0
                            < pre.heap_seq().len());
                    },
                }
                assert(post.heap_seq()[s.0 as int] == pre.heap_seq()[s.0 as int]);
                lemma_resolves_in_grow(pre, post, Address::Heap(s.0), (n - 1) as nat);
            },
            _ => {},
        }
    }
}

/// Reference chains stay resolvable, one step longer, when an unbound cell
/// is bound to a value that is itself resolved.
pub proof fn lemma_resolves_in_bind(
    pre: Memory,
    post: Memory,
    k: usize,
    c: Cell,
    a: Address,
    n: nat,
)
    requires
        k < pre.heap_seq().len(),
        pre.heap_seq()[k as int] == Cell::Ref(Slot(k)),
        mem_updated(pre, post, Address::Heap(k), c),
        c matches Cell::Ref(s) ==> s.0 != k && post.resolved(Address::Heap(s.0)),
        pre.resolves_in(a, n),
    ensures
        post.resolves_in(a, (n + 1) as nat),
    decreases n,
{
    if pre.resolved(a) {
        if a == Address::Heap(k) {
            match c {
                Cell::Ref(s) => {
                    assert(post.resolves_in(Address::Heap(s.0), 0));
                    assert(post.resolves_in(a, 1));
                    post.lemma_resolves_in_mono(a, 1, (n + 1) as nat);
                },
                _ => {
                    assert(post.resolved(a));
                },
            }
        } else {
            assert(post.cell_at(a) == pre.cell_at(a));
            assert(post.resolved(a));
        }
    } else {
        match pre.cell_at(a) {
            Cell::Ref(s) => {
                assert(a != Address::Heap(k));
                assert(post.cell_at(a) == pre.cell_at(a));
                lemma_resolves_in_bind(pre, post, k, c, Address::Heap(s.0), (n - 1) as nat);
            },
            _ => {},
        }
    }
}

/// Whether the heap cell at `i` is an unbound variable.
pub open spec fn is_unbound(heap: Seq<Cell>, i: int) -> bool {
    0 <= i < heap.len() && heap[i] == Cell::Ref(Slot(i as usize))
}

/// The number of unbound variables among the first `upto` heap cells.
pub open spec fn unbound_count(heap: Seq<Cell>, upto: int) -> nat
    decreases upto,
{
    if upto <= 0 {
        0
    } else {
        unbound_count(heap, upto - 1) + if is_unbound(heap, upto - 1) {
            1nat
        } else {
            0nat
        }
    }
}


/// Binding one unbound cell lowers the unbound count by one.
proof fn lemma_unbound_count_update(pre: Seq<Cell>, post: Seq<Cell>, k: int, upto: int)
    requires
        post.len() == pre.len(),
        forall|i: int| #![trigger post[i]] 0 <= i < pre.len() && i != k ==> post[i] == pre[i],
        is_unbound(pre, k),
        !is_unbound(post, k),
    ensures
        unbound_count(post, upto) == if k < upto {
            unbound_count(pre, upto) - 1
        } else {
            unbound_count(pre, upto) as int
        },
    decreases upto,
{
    if upto > 0 {
        lemma_unbound_count_update(pre, post, k, upto - 1);
    }
}

/// An address that `unify` may start from or reach: allocated, and holding a
/// term cell rather than a functor header or an unused register.
impl Memory {
    pub open spec fn valid_root(&self, a: Address) -> bool {
        &&& self.in_bounds(a)
        &&& (self.cell_at(a) is Ref || self.cell_at(a) is Structure)
    }

    /// Both components of a pair are valid roots.
    pub open spec fn roots_pair_ok(&self, p: (Address, Address)) -> bool {
        self.valid_root(p.0) && self.valid_root(p.1)
    }
}

impl Memory {
    /// Bind a reference: store the cell at the non-reference side over the
    /// reference side.  When both sides are references, the first is bound
    /// to the cell of the second.
    pub fn bind(&mut self, addr1: Address, addr2: Address)
        requires
            old(self).in_bounds(addr1),
            old(self).in_bounds(addr2),
            old(self).cell_at(addr1) is Ref || old(self).cell_at(addr2) is Ref,
        ensures
            if old(self).cell_at(addr1) is Ref {
                mem_updated(*old(self), *final(self), addr1, old(self).cell_at(addr2))
            } else {
                mem_updated(*old(self), *final(self), addr2, old(self).cell_at(addr1))
            },
    {
        let c1 = self.load(addr1);
        let c2 = self.load(addr2);
        match c1 {
            Cell::Ref(_) => {
                self.store(addr1, c2);
            },
            _ => {
                self.store(addr2, c1);
            },
        }
    }

    /// The cells that `unify` may rewrite: an unbound variable may become
    /// any term cell, everything else stays as it was.
    pub open spec fn binds_only(pre: Memory, post: Memory) -> bool {
        &&& post.heap_seq().len() == pre.heap_seq().len()
        &&& post.regs_seq() == pre.regs_seq()
        &&& forall|i: int|
            #![trigger post.heap_seq()[i]]
            0 <= i < pre.heap_seq().len() ==> (post.heap_seq()[i] == pre.heap_seq()[i] || (
            is_unbound(pre.heap_seq(), i) && ((post.heap_seq()[i] is Ref) || (post.heap_seq()[i]
                is Structure))))
    }


    /// One pair of the unification walk: pop it, dereference both sides,
    /// and either skip it, bind a variable, or descend into two structures.
    /// `Err` means two functor headers disagreed.
    #[verifier::rlimit(100)]
    fn unify_step(
        &mut self,
        stack: &mut Vec<(Address, Address)>,
        seen: &mut Vec<(Address, Address)>,
        root: Ghost<(Address, Address)>,
        done_in: Ghost<Set<(Address, Address)>>,
        paths_in: Ghost<Seq<Seq<(Address, Address)>>>,
        hlen: usize,
        rlen: usize,
    ) -> (out: (Fallible, Ghost<Set<(Address, Address)>>, Ghost<Seq<Seq<(Address, Address)>>>))
        requires
            old(self).wf(),
            hlen == old(self).heap_seq().len(),
            rlen == old(self).regs_seq().len(),
            old(stack)@.len() > 0,
            forall|k: int|
                0 <= k < old(stack)@.len() ==> old(self).roots_pair_ok(#[trigger] old(stack)@[k]),
            seen_wf(old(seen)@, hlen as int, rlen as int),
            old(seen)@.len() <= (hlen + rlen) * (hlen + rlen),
            unify_ghost_inv(*old(self), root@, old(stack)@, old(seen)@, done_in@, paths_in@),
        ensures
            final(self).wf(),
            Memory::binds_only(*old(self), *final(self)),
            forall|k: int|
                0 <= k < final(stack)@.len() ==> final(self).roots_pair_ok(
                    #[trigger] final(stack)@[k],
                ),
            seen_wf(final(seen)@, hlen as int, rlen as int),
            final(seen)@.len() <= (hlen + rlen) * (hlen + rlen),
            old(seen)@.len() <= final(seen)@.len(),
            unbound_count(final(self).heap_seq(), hlen as int) <= unbound_count(
                old(self).heap_seq(),
                hlen as int,
            ),
            unbound_count(final(self).heap_seq(), hlen as int) < unbound_count(
                old(self).heap_seq(),
                hlen as int,
            ) || final(seen)@.len() > old(seen)@.len() || final(stack)@.len() < old(
                stack,
            )@.len(),
            out.0 is Ok ==> unify_ghost_inv(
                *final(self),
                root@,
                final(stack)@,
                final(seen)@,
                out.1@,
                out.2@,
            ),
            out.0 is Err ==> exists|path: Seq<(Address, Address)>|
                #[trigger] clash_path(*final(self), root@, path),
    {
        let ghost hl = hlen as int;
        let ghost rl = rlen as int;
        let ghost mut done: Set<(Address, Address)> = done_in@;
        let ghost mut paths: Seq<Seq<(Address, Address)>> = paths_in@;
        let ghost stack_pre = stack@;
        let ghost paths_pre = paths;
        let (t1, t2) = stack.pop().unwrap();
        let ghost path_t = paths_pre.last();
        let d1 = self.deref(t1);
        let d2 = self.deref(t2);
        if d1.same(d2) {
            proof {
                lemma_unify_same_arm(
                    *self,
                    root@,
                    t1,
                    t2,
                    done,
                    stack_pre,
                    stack@,
                    seen@,
                    paths_pre,
                );
                done = done.insert((t1, t2));
                paths = paths_pre.drop_last();
            }
            return (Ok(()), Ghost(done), Ghost(paths));
        }
        let c1 = self.load(d1);
        let c2 = self.load(d2);
        match (c1, c2) {
            (Cell::Ref(_), _) | (_, Cell::Ref(_)) => {
                let ghost pre = *self;
                self.bind_roots(d1, d2);
                proof {
                    lemma_binds_only_trans(*old(self), pre, *self);
                    lemma_roots_preserved(pre, *self, stack@);
                    lemma_unify_bind_arm(
                        pre,
                        *self,
                        root@,
                        t1,
                        t2,
                        d1,
                        d2,
                        done,
                        stack_pre,
                        stack@,
                        seen@,
                        paths_pre,
                    );
                    done = done.insert((t1, t2));
                    paths = paths_pre.drop_last();
                }
            },
            (Cell::Structure(v1), Cell::Structure(v2)) => {
                if seen_contains(&seen, d1, d2) {
                    proof {
                        let i0 = choose|i0: int|
                            0 <= i0 < seen@.len() && seen@[i0] == (d1, d2);
                        lemma_ghost_inv_seen(
                            *self,
                            root@,
                            stack_pre,
                            seen@,
                            done,
                            paths_pre,
                            i0,
                        );
                        assert(done.contains((d1, d2)));
                        lemma_unify_skip_arm(
                            *self,
                            root@,
                            t1,
                            t2,
                            d1,
                            d2,
                            done,
                            stack_pre,
                            stack@,
                            seen@,
                            paths_pre,
                        );
                        done = done.insert((t1, t2));
                        paths = paths_pre.drop_last();
                    }
                    return (Ok(()), Ghost(done), Ghost(paths));
                }
                let ghost seen0 = seen@;
                seen.push((d1, d2));
                proof {
                    lemma_seen_wf_push(seen0, (d1, d2), hl, rl);
                }
                proof {
                    match d1 {
                        Address::Heap(i) => {
                            assert(self.heap_cell_wf(self.heap_seq()[i as int]));
                        },
                        Address::Register(i) => {
                            assert(self.reg_cell_wf(self.regs_seq()[i as int]));
                        },
                    }
                    match d2 {
                        Address::Heap(i) => {
                            assert(self.heap_cell_wf(self.heap_seq()[i as int]));
                        },
                        Address::Register(i) => {
                            assert(self.reg_cell_wf(self.regs_seq()[i as int]));
                        },
                    }
                }
                let f1 = self.load_functor(v1);
                let f2 = self.load_functor(v2);
                if f1 == f2 {
                    let arity = f1.arity();
                    let ghost stack_mid = stack@;
                    self.push_arg_pairs(stack, v1, v2, arity);
                    proof {
                        let (done2, paths2) = lemma_unify_struct_arm(
                            *self,
                            root@,
                            t1,
                            t2,
                            d1,
                            d2,
                            v1,
                            v2,
                            f1,
                            done,
                            stack_pre,
                            stack_mid,
                            stack@,
                            seen0,
                            paths_pre,
                        );
                        done = done2;
                        paths = paths2;
                    }
                } else {
                    proof {
                        lemma_ghost_inv_top(
                            *self,
                            root@,
                            stack_pre,
                            seen0,
                            done,
                            paths_pre,
                        );
                        reveal(pair_clash);
                        reveal(clash_path);
                        assert(self.deref_spec(t1) == d1);
                        assert(self.deref_spec(t2) == d2);
                        assert(pair_clash(*self, (t1, t2)));
                        assert(clash_path(*self, root@, path_t));
                    }
                    return (Err(()), Ghost(done), Ghost(paths));
                }
            },
            _ => {
                return unreached();
            },
        }
        (Ok(()), Ghost(done), Ghost(paths))
    }

    /// Unify the terms rooted at the two addresses.
    ///
    /// Pairs of argument addresses are kept on an explicit stack rather
    /// than walked recursively, and pairs of structures already visited are
    /// skipped, so the walk also terminates on self-referential terms.
    ///
    /// On `Ok`, the two terms have been made equal: some set of address
    /// pairs containing `(addr1, addr2)` is a unification witness
    /// ([`unified_pairs`]) in the final memory, and the only change to the
    /// memory is that unbound variables were bound.  On `Err`, two functor
    /// headers disagreed: a descent through corresponding arguments leads
    /// from `(addr1, addr2)` to a clashing pair ([`clash_path`]), and `Err`
    /// is returned for no other reason.  Unifying two addresses that
    /// dereference to the same cell changes nothing.
    #[verifier::rlimit(100)]
    pub fn unify(&mut self, addr1: Address, addr2: Address) -> (r: Fallible)
        requires
            old(self).wf(),
            old(self).valid_root(addr1),
            old(self).valid_root(addr2),
        ensures
            final(self).wf(),
            Memory::binds_only(*old(self), *final(self)),
            old(self).deref_spec(addr1) == old(self).deref_spec(addr2) ==> (r is Ok
                && *final(self) == *old(self)),
            r is Ok ==> exists|w: Set<(Address, Address)>|
                #[trigger] unified_pairs(*final(self), w) && w.contains((addr1, addr2)),
            r is Err ==> exists|path: Seq<(Address, Address)>|
                #[trigger] clash_path(*final(self), (addr1, addr2), path),
    {
        let hlen = self.heap.len();
        let rlen = self.registers.len();
        let ghost hl = hlen as int;
        let ghost rl = rlen as int;
        {
            // A pair that dereferences to one cell needs no work at all.
            let e1 = self.deref(addr1);
            let e2 = self.deref(addr2);
            if e1.same(e2) {
                proof {
                    reveal(pair_merged);
                    reveal(pair_unified);
                    reveal(unified_pairs);
                    let w = Set::<(Address, Address)>::empty().insert((addr1, addr2));
                    assert(pair_merged(*self, addr1, addr2));
                    assert forall|p: (Address, Address)| #[trigger] w.contains(p) implies
                        pair_unified(*self, w, p) by {
                        assert(p == (addr1, addr2));
                    }
                    assert(unified_pairs(*self, w) && w.contains((addr1, addr2)));
                }
                return Ok(());
            }
        }
        let mut stack: Vec<(Address, Address)> = Vec::new();
        let mut seen: Vec<(Address, Address)> = Vec::new();
        stack.push((addr1, addr2));
        let ghost mut done: Set<(Address, Address)> = Set::empty();
        let ghost mut paths: Seq<Seq<(Address, Address)>> = seq![seq![(addr1, addr2)]];
        proof {
            lemma_ghost_inv_init(*self, (addr1, addr2));
            lemma_seen_wf_empty(hl, rl);
            assert(stack@ =~= seq![(addr1, addr2)]);
            assert(seen@ =~= Seq::<(Address, Address)>::empty());
        }
        loop
            invariant
                self.wf(),
                Memory::binds_only(*old(self), *self),
                hl == self.heap_seq().len(),
                rl == self.regs_seq().len(),
                hl == hlen as int,
                rl == rlen as int,
                forall|k: int| 0 <= k < stack@.len() ==> self.roots_pair_ok(#[trigger] stack@[k]),
                seen_wf(seen@, hl, rl),
                seen@.len() <= (hl + rl) * (hl + rl),
                old(self).deref_spec(addr1) != old(self).deref_spec(addr2),
                unify_ghost_inv(*self, (addr1, addr2), stack@, seen@, done, paths),
            ensures
                self.wf(),
                Memory::binds_only(*old(self), *self),
                exists|w: Set<(Address, Address)>|
                    #[trigger] unified_pairs(*self, w) && w.contains((addr1, addr2)),
            decreases
                    unbound_count(self.heap_seq(), hl),
                    (hl + rl) * (hl + rl) - seen@.len(),
                    stack@.len(),
        {
            if stack.len() == 0 {
                proof {
                    lemma_ghost_inv_final(*self, (addr1, addr2), stack@, seen@, done, paths);
                    assert(unified_pairs(*self, done) && done.contains((addr1, addr2)));
                }
                break ;
            }
            let ghost prev = *self;
            let (res, done2, paths2) = self.unify_step(
                &mut stack,
                &mut seen,
                Ghost((addr1, addr2)),
                Ghost(done),
                Ghost(paths),
                hlen,
                rlen,
            );
            proof {
                done = done2@;
                paths = paths2@;
                lemma_binds_only_trans(*old(self), prev, *self);
            }
            match res {
                Ok(()) => {},
                Err(()) => {
                    return Err(());
                },
            }
        }
        Ok(())
    }
}

/// One `bind` step of `unify` preserves well-formedness and the frame.
#[verifier::rlimit(50)]
proof fn lemma_unify_bind_step(pre: Memory, post: Memory, k: usize, c: Cell)
    requires
        pre.wf(),
        pre.heap_seq().len() <= usize::MAX,
        k < pre.heap_seq().len(),
        pre.heap_seq()[k as int] == Cell::Ref(Slot(k)),
        c is Structure || (c matches Cell::Ref(s) && s.0 != k && pre.cell_at(Address::Heap(s.0))
            == Cell::Ref(s) && s.0 < pre.heap_seq().len()),
        pre.heap_cell_wf(c),
        mem_updated(pre, post, Address::Heap(k), c),
    ensures
        post.wf(),
        Memory::binds_only(pre, post),
        unbound_count(post.heap_seq(), pre.heap_seq().len() as int) < unbound_count(
            pre.heap_seq(),
            pre.heap_seq().len() as int,
        ),
{
    assert(heap_evolves(pre, post));
    assert forall|i: int|
        0 <= i < post.heap_seq().len() implies pre.heap_cell_wf(
        #[trigger] post.heap_seq()[i],
    ) by {
        if i != k {
            assert(pre.heap_cell_wf(pre.heap_seq()[i]));
        }
    }
    assert forall|i: int|
        0 <= i < post.heap_seq().len() implies post.heap_cell_wf(
        #[trigger] post.heap_seq()[i],
    ) by {
        lemma_cell_wf_evolves(pre, post, post.heap_seq()[i]);
    }
    assert forall|i: int|
        0 <= i < post.regs_seq().len() implies post.reg_cell_wf(
        #[trigger] post.regs_seq()[i],
    ) by {
        assert(pre.reg_cell_wf(pre.regs_seq()[i]));
        if !(pre.regs_seq()[i] is Uninitialized) {
            lemma_cell_wf_evolves(pre, post, pre.regs_seq()[i]);
        }
    }
    assert forall|i: int|
        #![trigger post.resolvable(Address::Heap(i as usize))]
        0 <= i < post.heap_seq().len() implies post.resolvable(Address::Heap(i as usize)) by {
        let a = Address::Heap(i as usize);
        pre.lemma_wf_resolvable(a);
        let n = choose|n: nat| pre.resolves_in(a, n);
        match c {
            Cell::Ref(s) => {
                assert(post.cell_at(Address::Heap(s.0)) == Cell::Ref(s));
                assert(post.resolved(Address::Heap(s.0)));
            },
            _ => {},
        }
        lemma_resolves_in_bind(pre, post, k, c, a, n);
        assert(post.resolves_in(a, (n + 1) as nat));
    }
    assert(post.heap_wf());
    assert(post.regs_wf());
    assert(post.chains_wf());
    assert(post.wf());
    assert(!is_unbound(post.heap_seq(), k as int));
    lemma_unbound_count_update(
        pre.heap_seq(),
        post.heap_seq(),
        k as int,
        pre.heap_seq().len() as int,
    );
}

impl Memory {
    /// One binding step of `unify`: two distinct resolved roots, at least
    /// one of them an unbound variable.
    fn bind_roots(&mut self, d1: Address, d2: Address)
        requires
            old(self).wf(),
            old(self).valid_root(d1),
            old(self).valid_root(d2),
            old(self).resolved(d1),
            old(self).resolved(d2),
            d1 != d2,
            old(self).cell_at(d1) is Ref || old(self).cell_at(d2) is Ref,
        ensures
            final(self).wf(),
            Memory::binds_only(*old(self), *final(self)),
            unbound_count(final(self).heap_seq(), old(self).heap_seq().len() as int)
                < unbound_count(old(self).heap_seq(), old(self).heap_seq().len() as int),
            exists|k: usize, c: Cell| #[trigger] bind_write(*old(self), *final(self), k, c),
            pair_merged(*final(self), d1, d2),
    {
        let ghost hlen = self.heap.len();
        let ghost pre = *self;
        self.bind(d1, d2);
        proof {
            let (bound, k, c) = if pre.cell_at(d1) is Ref {
                (d1, pre.cell_at(d1)->Ref_0.0, pre.cell_at(d2))
            } else {
                (d2, pre.cell_at(d2)->Ref_0.0, pre.cell_at(d1))
            };
            assert(bound == Address::Heap(k));
            assert(k < pre.heap_seq().len());
            match c {
                Cell::Ref(s2) => {
                    assert(Address::Heap(s2.0) == if pre.cell_at(d1) is Ref {
                        d2
                    } else {
                        d1
                    });
                    assert(s2.0 != k);
                },
                _ => {},
            }
            match (if pre.cell_at(d1) is Ref {
                d2
            } else {
                d1
            }) {
                Address::Heap(i) => {
                    assert(pre.heap_cell_wf(pre.heap_seq()[i as int]));
                },
                Address::Register(i) => {
                    assert(pre.reg_cell_wf(pre.regs_seq()[i as int]));
                },
            }
            lemma_unify_bind_step(pre, *self, k, c);
            assert(bind_write(pre, *self, k, c));
            reveal(pair_merged);
            let other = if pre.cell_at(d1) is Ref {
                d2
            } else {
                d1
            };
            assert(other != bound);
            assert(self.cell_at(other) == pre.cell_at(other));
            assert(self.cell_at(other) == c);
            match c {
                Cell::Ref(s2) => {
                    assert(other == Address::Heap(s2.0));
                    assert(self.resolved(other));
                    self.lemma_deref_of_resolved(other);
                    assert(!self.resolved(bound));
                    self.lemma_wf_resolvable(bound);
                    self.lemma_deref_spec_unfold(bound);
                    assert(self.deref_spec(bound) == self.deref_spec(other));
                },
                _ => {
                    assert(self.resolved(bound));
                    assert(self.resolved(other));
                    self.lemma_deref_of_resolved(bound);
                    self.lemma_deref_of_resolved(other);
                },
            }
            assert(pair_merged(*self, d1, d2));
        }
    }

    /// Push the pairs of corresponding argument addresses of two structures
    /// whose headers both carry `arity` arguments.
    fn push_arg_pairs(&self, stack: &mut Vec<(Address, Address)>, v1: Slot, v2: Slot, arity: usize)
        requires
            self.wf(),
            self.heap_cell_wf(Cell::Structure(v1)),
            self.heap_cell_wf(Cell::Structure(v2)),
            self.cell_at(Address::Heap(v1.0)) matches Cell::Functor(f) && f.arity == arity,
            self.cell_at(Address::Heap(v2.0)) matches Cell::Functor(g) && g.arity == arity,
        ensures
            final(stack)@.len() == old(stack)@.len() + arity,
            forall|k: int|
                0 <= k < old(stack)@.len() ==> #[trigger] final(stack)@[k] == old(stack)@[k],
            forall|k: int|
                old(stack)@.len() <= k < final(stack)@.len() ==> self.roots_pair_ok(
                    #[trigger] final(stack)@[k],
                ),
            forall|k: int|
                0 <= k < arity ==> #[trigger] final(stack)@[old(stack)@.len() + k] == (
                Address::Heap((v1.0 + k + 1) as usize), Address::Heap((v2.0 + k + 1) as usize)),
    {
        let hlen = self.heap.len();
        let ghost stack0 = stack@;
        for i in 0..arity
            invariant
                self.wf(),
                hlen == self.heap_seq().len(),
                self.heap_cell_wf(Cell::Structure(v1)),
                self.heap_cell_wf(Cell::Structure(v2)),
                self.cell_at(Address::Heap(v1.0)) matches Cell::Functor(f) && f.arity == arity,
                self.cell_at(Address::Heap(v2.0)) matches Cell::Functor(g) && g.arity == arity,
                stack@.len() == stack0.len() + i,
                forall|k: int| 0 <= k < stack0.len() ==> #[trigger] stack@[k] == stack0[k],
                forall|k: int|
                    stack0.len() <= k < stack@.len() ==> self.roots_pair_ok(#[trigger] stack@[k]),
                forall|k: int|
                    0 <= k < i ==> #[trigger] stack@[stack0.len() + k] == (Address::Heap((v1.0 + k
                        + 1) as usize), Address::Heap((v2.0 + k + 1) as usize)),
            decreases arity - i,
        {
            proof {
                assert(self.heap_seq()[v1.0 + (i + 1)] is Ref || self.heap_seq()[v1.0 + (i + 1)]
                    is Structure);
                assert(self.heap_seq()[v2.0 + (i + 1)] is Ref || self.heap_seq()[v2.0 + (i + 1)]
                    is Structure);
            }
            stack.push((Address::Heap(v1.0 + i + 1), Address::Heap(v2.0 + i + 1)));
        }
    }
}

/// `binds_only` composes.
proof fn lemma_binds_only_trans(a: Memory, b: Memory, c: Memory)
    requires
        Memory::binds_only(a, b),
        Memory::binds_only(b, c),
    ensures
        Memory::binds_only(a, c),
{
    assert forall|i: int|
        #![trigger c.heap_seq()[i]]
        0 <= i < a.heap_seq().len() implies (c.heap_seq()[i] == a.heap_seq()[i] || (is_unbound(
        a.heap_seq(),
        i,
    ) && ((c.heap_seq()[i] is Ref) || (c.heap_seq()[i] is Structure)))) by {
        assert(b.heap_seq()[i] == a.heap_seq()[i] || (is_unbound(a.heap_seq(), i) && ((
        b.heap_seq()[i] is Ref) || (b.heap_seq()[i] is Structure))));
    }
}

/// Binding unbound variables keeps every valid root valid.
proof fn lemma_valid_root_binds(pre: Memory, post: Memory, a: Address)
    requires
        Memory::binds_only(pre, post),
        pre.valid_root(a),
    ensures
        post.valid_root(a),
{
    match a {
        Address::Heap(i) => {
            assert(post.heap_seq()[i as int] == pre.heap_seq()[i as int] || (is_unbound(
                pre.heap_seq(),
                i as int,
            ) && ((post.heap_seq()[i as int] is Ref) || (post.heap_seq()[i as int]
                is Structure))));
        },
        Address::Register(_) => {},
    }
}


/// The walked-pairs record: structure pairs, each recorded once.
#[verifier::opaque]
spec fn seen_wf(seen: Seq<(Address, Address)>, hl: int, rl: int) -> bool {
    &&& seen.no_duplicates()
    &&& forall|k: int| 0 <= k < seen.len() ==> pair_in_space(hl, rl, #[trigger] seen[k])
}

proof fn lemma_seen_wf_empty(hl: int, rl: int)
    ensures
        seen_wf(Seq::empty(), hl, rl),
{
    reveal(seen_wf);
}

/// Recording a fresh in-space pair keeps the record sound and bounded.
proof fn lemma_seen_wf_push(
    seen0: Seq<(Address, Address)>,
    p: (Address, Address),
    hl: int,
    rl: int,
)
    requires
        seen_wf(seen0, hl, rl),
        hl >= 0,
        rl >= 0,
        !seen0.contains(p),
        pair_in_space(hl, rl, p),
    ensures
        seen_wf(seen0.push(p), hl, rl),
        seen0.push(p).len() <= (hl + rl) * (hl + rl),
{
    reveal(seen_wf);
    let seen1 = seen0.push(p);
    assert forall|i: int, j: int|
        0 <= i < seen1.len() && 0 <= j < seen1.len() && i != j implies seen1[i] != seen1[j] by {
        if i < seen0.len() && j < seen0.len() {
            assert(seen0[i] != seen0[j]);
        } else {
            assert(!seen0.contains(p));
        }
    }
    assert forall|k: int| 0 <= k < seen1.len() implies pair_in_space(hl, rl, #[trigger] seen1[k]) by {
        if k < seen0.len() {
            assert(pair_in_space(hl, rl, seen0[k]));
        }
    }
    lemma_seen_bound(seen1, hl, rl);
}

/// Binding variables keeps every pending pair a pair of valid roots.
proof fn lemma_roots_preserved(
    pre: Memory,
    post: Memory,
    stack: Seq<(Address, Address)>,
)
    requires
        Memory::binds_only(pre, post),
        forall|k: int| 0 <= k < stack.len() ==> pre.roots_pair_ok(#[trigger] stack[k]),
    ensures
        forall|k: int| 0 <= k < stack.len() ==> post.roots_pair_ok(#[trigger] stack[k]),
{
    assert forall|k: int| 0 <= k < stack.len() implies post.roots_pair_ok(
        #[trigger] stack[k],
    ) by {
        lemma_valid_root_binds(pre, post, stack[k].0);
        lemma_valid_root_binds(pre, post, stack[k].1);
    }
}

/// Whether `seen` holds the pair `(d1, d2)`.
fn seen_contains(seen: &Vec<(Address, Address)>, d1: Address, d2: Address) -> (b: bool)
    ensures
        b == seen@.contains((d1, d2)),
{
    let n = seen.len();
    for i in 0..n
        invariant
            n == seen@.len(),
            forall|j: int| 0 <= j < i ==> seen@[j] != (d1, d2),
        decreases n - i,
    {
        let (a, b) = seen[i];
        if a.same(d1) && b.same(d2) {
            assert(seen@[i as int] == (d1, d2));
            return true;
        }
    }
    false
}

/// A code below `(hl + rl) * (hl + rl)` for a pair of addresses into a heap
/// of `hl` cells and a register file of `rl` cells.
spec fn addr_code(hl: int, a: Address) -> int {
    match a {
        Address::Heap(i) => i as int,
        Address::Register(j) => hl + j,
    }
}

spec fn pair_code(hl: int, rl: int, p: (Address, Address)) -> int {
    addr_code(hl, p.0) * (hl + rl) + addr_code(hl, p.1)
}

spec fn pair_in_space(hl: int, rl: int, p: (Address, Address)) -> bool {
    &&& match p.0 {
        Address::Heap(i) => i < hl,
        Address::Register(j) => j < rl,
    }
    &&& match p.1 {
        Address::Heap(i) => i < hl,
        Address::Register(j) => j < rl,
    }
}

/// There are no more distinct address pairs than `(hl + rl) * (hl + rl)`.
proof fn lemma_seen_bound(seen: Seq<(Address, Address)>, hl: int, rl: int)
    requires
        hl >= 0,
        rl >= 0,
        seen.no_duplicates(),
        forall|k: int| 0 <= k < seen.len() ==> pair_in_space(hl, rl, #[trigger] seen[k]),
    ensures
        seen.len() <= (hl + rl) * (hl + rl),
{
    broadcast use vstd::seq_lib::seq_to_set_is_finite;

    let n = hl + rl;
    let codes = seen.map(|i: int, p: (Address, Address)| pair_code(hl, rl, p));
    assert forall|k1: int, k2: int| 0 <= k1 < k2 < codes.len() implies codes[k1] != codes[k2] by {
        let p1 = seen[k1];
        let p2 = seen[k2];
        assert(pair_in_space(hl, rl, p1));
        assert(pair_in_space(hl, rl, p2));
        let a1 = addr_code(hl, p1.0);
        let b1 = addr_code(hl, p1.1);
        let a2 = addr_code(hl, p2.0);
        let b2 = addr_code(hl, p2.1);
        assert(0 <= a1 < n && 0 <= b1 < n && 0 <= a2 < n && 0 <= b2 < n);
        if a1 * n + b1 == a2 * n + b2 {
            assert(a1 == a2 && b1 == b2) by (nonlinear_arith)
                requires
                    0 <= a1 < n,
                    0 <= b1 < n,
                    0 <= a2 < n,
                    0 <= b2 < n,
                    a1 * n + b1 == a2 * n + b2,
            ;
            assert(p1 != p2);
            assert(false);
        }
    }
    codes.unique_seq_to_set();
    assert forall|c: int| codes.to_set().contains(c) implies vstd::set_lib::set_int_range(
        0,
        n * n,
    ).contains(c) by {
        let k = choose|k: int| 0 <= k < codes.len() && codes[k] == c;
        let p = seen[k];
        assert(pair_in_space(hl, rl, p));
        let a = addr_code(hl, p.0);
        let b = addr_code(hl, p.1);
        assert(0 <= a * n + b < n * n) by (nonlinear_arith)
            requires
                0 <= a < n,
                0 <= b < n,
        ;
    }
    vstd::set_lib::lemma_int_range(0, n * n);
    vstd::set_lib::lemma_len_subset(codes.to_set(), vstd::set_lib::set_int_range(0, n * n));
}


/// The rendering of the term rooted at `a`, chasing references, with at
/// most `fuel` steps of recursion: the functor name with the parenthesised
/// comma-separated arguments for a structure, `?` for an unbound variable.
/// `None` when the fuel gives out (only possible on a self-referential
/// term), when a name is missing from the table, or when the walk leaves
/// the heap or hits a header cell.
pub open spec fn render_spec(mem: Memory, fs: Functors, a: Address, fuel: nat) -> Option<Seq<char>>
    decreases fuel, 0nat,
{
    if fuel == 0 {
        None
    } else {
        match mem.cell_at(a) {
            Cell::Structure(s) => match mem.cell_at(Address::Heap(s.0)) {
                Cell::Functor(f) => {
                    if !fs.resolves(f) || !mem.in_bounds(Address::Heap(s.0)) {
                        None
                    } else if f.arity == 0 {
                        Some(fs.names_seq()[f.sym as int])
                    } else {
                        match render_args_spec(mem, fs, s.0 as int + 1, f.arity as nat, (fuel
                            - 1) as nat) {
                            Some(args) => Some(
                                fs.names_seq()[f.sym as int] + seq!['('] + args + seq![')'],
                            ),
                            None => None,
                        }
                    }
                },
                _ => None,
            },
            Cell::Ref(t) => {
                if a == Address::Heap(t.0) {
                    Some(seq!['?'])
                } else {
                    render_spec(mem, fs, Address::Heap(t.0), (fuel - 1) as nat)
                }
            },
            _ => None,
        }
    }
}

/// The renderings of `count` argument cells starting at heap index `start`,
/// separated by commas.
pub open spec fn render_args_spec(
    mem: Memory,
    fs: Functors,
    start: int,
    count: nat,
    fuel: nat,
) -> Option<Seq<char>>
    decreases fuel, count,
{
    if count == 0 {
        Some(Seq::empty())
    } else if start < 0 || start > usize::MAX {
        None
    } else {
        match render_spec(mem, fs, Address::Heap(start as usize), fuel) {
            Some(first) => {
                if count == 1 {
                    Some(first)
                } else {
                    match render_args_spec(mem, fs, start + 1, (count - 1) as nat, fuel) {
                        Some(rest) => Some(first + seq![','] + rest),
                        None => None,
                    }
                }
            },
            None => None,
        }
    }
}

/// The most general unifier rooted at an address: a view of the memory from
/// which the resolved term can be rendered.
pub struct MGU<'m> {
    mem: &'m Memory,
    addr: Address,
}

impl<'m> MGU<'m> {
    pub closed spec fn mem_spec(&self) -> Memory {
        *self.mem
    }

    pub closed spec fn addr_spec(&self) -> Address {
        self.addr
    }

    pub fn new(mem: &'m Memory, addr: Address) -> (m: MGU<'m>)
        ensures
            m.mem_spec() == *mem,
            m.addr_spec() == addr,
    {
        MGU { mem, addr }
    }

    /// Render the term, resolving names in `fs`.  `None` only on a
    /// self-referential term, a name missing from the table, or a
    /// malformed heap.
    pub fn text(&self, fs: &Functors) -> (r: Option<String>)
        ensures
            ({
                let fuel = (2 * self.mem_spec().heap_seq().len() + 2) as nat;
                match r {
                    Some(t) => render_spec(self.mem_spec(), *fs, self.addr_spec(), fuel)
                        == Some(t@),
                    None => render_spec(self.mem_spec(), *fs, self.addr_spec(), fuel)
                        is None,
                }
            }),
    {
        let n = self.mem.next_slot();
        let fuel: u128 = 2 * (n.0 as u128) + 2;
        render(self.mem, fs, self.addr, fuel)
    }
}

/// Render the term rooted at `a`; the executable mirror of [`render_spec`].
fn render(mem: &Memory, fs: &Functors, a: Address, fuel: u128) -> (r: Option<String>)
    ensures
        match r {
            Some(t) => render_spec(*mem, *fs, a, fuel as nat) == Some(t@),
            None => render_spec(*mem, *fs, a, fuel as nat) is None,
        },
    decreases fuel, 0nat,
{
    if fuel == 0 {
        return None;
    }
    let n = mem.next_slot();
    let ok = match a {
        Address::Heap(i) => i < n.0,
        Address::Register(i) => i < mem.registers().len(),
    };
    if !ok {
        return None;
    }
    match mem.load(a) {
        Cell::Structure(s) => {
            if s.0 >= n.0 {
                return None;
            }
            match mem.load(s) {
                Cell::Functor(f) => {
                    if f.sym >= fs_len(fs) {
                        return None;
                    }
                    if f.arity == 0 {
                        return Some(String::from_str(fs.text(f)));
                    }
                    match render_args(mem, fs, s.0, 1, f.arity, fuel - 1) {
                        Some(args) => {
                            let mut out = String::from_str(fs.text(f));
                            out.append("(");
                            out.append(args.as_str());
                            out.append(")");
                            proof {
                                reveal_strlit("(");
                                reveal_strlit(")");
                                assert(out@ =~= fs.names_seq()[f.sym as int] + seq!['('] + args@
                                    + seq![')']);
                            }
                            Some(out)
                        },
                        None => None,
                    }
                },
                _ => None,
            }
        },
        Cell::Ref(t) => {
            let self_ref = match a {
                Address::Heap(i) => i == t.0,
                Address::Register(_) => false,
            };
            if self_ref {
                let q = String::from_str("?");
                proof {
                    reveal_strlit("?");
                    assert(q@ =~= seq!['?']);
                }
                Some(q)
            } else {
                render(mem, fs, Address::Heap(t.0), fuel - 1)
            }
        },
        _ => None,
    }
}

/// Render `count` argument cells starting one past `base + offset - 1`;
/// the executable mirror of [`render_args_spec`].
fn render_args(mem: &Memory, fs: &Functors, base: usize, offset: usize, count: usize, fuel: u128)
    -> (r: Option<String>)
    requires
        base + offset <= usize::MAX,
    ensures
        match r {
            Some(t) => render_args_spec(*mem, *fs, base + offset, count as nat, fuel as nat)
                == Some(t@),
            None => render_args_spec(*mem, *fs, base + offset, count as nat, fuel as nat)
                is None,
        },
    decreases fuel, count,
{
    if count == 0 {
        let empty = String::new();
        return Some(empty);
    }
    let start = base + offset;
    match render(mem, fs, Address::Heap(start), fuel) {
        Some(first) => {
            if count == 1 {
                Some(first)
            } else {
                if start == usize::MAX {
                    proof {
                        assert(render_args_spec(*mem, *fs, start + 1 as int, (count - 1) as nat,
                            fuel as nat) is None);
                    }
                    return None;
                }
                match render_args(mem, fs, start, 1, count - 1, fuel) {
                    Some(rest) => {
                        let mut out = first;
                        out.append(",");
                        out.append(rest.as_str());
                        proof {
                            reveal_strlit(",");
                        }
                        Some(out)
                    },
                    None => None,
                }
            }
        },
        None => None,
    }
}

/// The number of interned names.
fn fs_len(fs: &Functors) -> (n: usize)
    ensures
        n == fs.names_seq().len(),
{
    fs.len()
}


/// Every structure cell points at a functor header on the heap, and every
/// reference cell points at an allocated non-header cell; an unbound
/// variable is exactly a reference cell that points at its own slot.
pub proof fn lemma_heap_shape(mem: Memory)
    requires
        mem.wf(),
    ensures
        forall|i: int|
            #![trigger mem.heap_seq()[i]]
            0 <= i < mem.heap_seq().len() ==> (mem.heap_seq()[i] matches Cell::Structure(s) ==> (
            s.0 < mem.heap_seq().len() && mem.heap_seq()[s.0 as int] is Functor)),
        forall|i: int|
            #![trigger mem.heap_seq()[i]]
            0 <= i < mem.heap_seq().len() ==> (mem.heap_seq()[i] matches Cell::Ref(s) ==> (s.0
                < mem.heap_seq().len() && !(mem.heap_seq()[s.0 as int] is Functor) && !(
            mem.heap_seq()[s.0 as int] is Uninitialized))),
        forall|i: usize|
            is_unbound(mem.heap_seq(), i as int) <==> (i < mem.heap_seq().len()
                && mem.heap_seq()[i as int] == Cell::Ref(Slot(i)) && mem.resolved(
                Address::Heap(i),
            )),
{
    assert forall|i: int|
        #![trigger mem.heap_seq()[i]]
        0 <= i < mem.heap_seq().len() implies (mem.heap_seq()[i] matches Cell::Structure(s) ==> (
    s.0 < mem.heap_seq().len() && mem.heap_seq()[s.0 as int] is Functor)) && (mem.heap_seq()[i]
        matches Cell::Ref(s) ==> (s.0 < mem.heap_seq().len() && !(mem.heap_seq()[s.0 as int]
        is Functor) && !(mem.heap_seq()[s.0 as int] is Uninitialized))) by {
        assert(mem.heap_cell_wf(mem.heap_seq()[i]));
    }
}


/// The terms at `a` and `b` have been made equal outright: both dereference
/// to one cell, or to two structure cells sharing one header.
#[verifier::opaque]
pub open spec fn pair_merged(mem: Memory, a: Address, b: Address) -> bool {
    mem.deref_spec(a) == mem.deref_spec(b) || (match (
        mem.cell_at(mem.deref_spec(a)),
        mem.cell_at(mem.deref_spec(b)),
    ) {
        (Cell::Structure(v1), Cell::Structure(v2)) => v1 == v2,
        _ => false,
    })
}

/// The pair `p` is unified, granted that every pair in `w` is: its sides are
/// merged, or they dereference to structures with equal functors whose
/// corresponding argument pairs all lie in `w`.
#[verifier::opaque]
pub open spec fn pair_unified(mem: Memory, w: Set<(Address, Address)>, p: (Address, Address)) -> bool {
    pair_merged(mem, p.0, p.1) || ({
        let da = mem.deref_spec(p.0);
        let db = mem.deref_spec(p.1);
        match (mem.cell_at(da), mem.cell_at(db)) {
            (Cell::Structure(v1), Cell::Structure(v2)) => {
                match (mem.cell_at(Address::Heap(v1.0)), mem.cell_at(Address::Heap(v2.0))) {
                    (Cell::Functor(f), Cell::Functor(g)) => {
                        &&& f == g
                        &&& forall|j: int|
                            1 <= j <= f.arity ==> #[trigger] w.contains(
                                (
                                    Address::Heap((v1.0 + j) as usize),
                                    Address::Heap((v2.0 + j) as usize),
                                ),
                            )
                    },
                    _ => false,
                }
            },
            _ => false,
        }
    })
}

/// `w` is a unification witness: every pair it holds is unified, closed
/// under descending into corresponding arguments.
#[verifier::opaque]
pub open spec fn unified_pairs(mem: Memory, w: Set<(Address, Address)>) -> bool {
    forall|p: (Address, Address)| #[trigger] w.contains(p) ==> pair_unified(mem, w, p)
}

/// One binding: the unbound variable at slot `k` was overwritten with `c`,
/// a structure cell or a reference to an unbound variable elsewhere.
pub open spec fn bind_write(pre: Memory, post: Memory, k: usize, c: Cell) -> bool {
    &&& k < pre.heap_seq().len()
    &&& pre.heap_seq()[k as int] == Cell::Ref(Slot(k))
    &&& mem_updated(pre, post, Address::Heap(k), c)
    &&& (c is Structure || (c matches Cell::Ref(s2) && s2.0 != k && pre.cell_at(
        Address::Heap(s2.0),
    ) == Cell::Ref(s2)))
}

impl Memory {
    /// A resolved address is its own dereference.
    pub proof fn lemma_deref_of_resolved(&self, a: Address)
        requires
            self.resolved(a),
        ensures
            self.deref_spec(a) == a,
    {
        assert(self.resolves_in(a, 0));
        self.lemma_deref_spec_resolves(a);
    }

    /// An unresolved address dereferences through its reference cell.
    pub proof fn lemma_deref_spec_unfold(&self, a: Address)
        requires
            self.resolvable(a),
            !self.resolved(a),
        ensures
            self.cell_at(a) matches Cell::Ref(t) && self.deref_spec(a) == self.deref_spec(
                Address::Heap(t.0),
            ),
    {
        let n = choose|n: nat| self.resolves_in(a, n);
        self.lemma_deref_spec_resolves(a);
        match self.cell_at(a) {
            Cell::Ref(t) => {
                assert(self.resolves_in(Address::Heap(t.0), (n - 1) as nat));
                self.lemma_deref_spec_resolves(Address::Heap(t.0));
                assert(self.walk(a, n) == self.walk(Address::Heap(t.0), (n - 1) as nat));
            },
            _ => {},
        }
    }
}

/// After one binding, dereferencing factors through the old dereference.
proof fn lemma_deref_after_bind(pre: Memory, post: Memory, k: usize, c: Cell, a: Address)
    requires
        pre.wf(),
        post.wf(),
        bind_write(pre, post, k, c),
    ensures
        post.deref_spec(a) == post.deref_spec(pre.deref_spec(a)),
{
    pre.lemma_wf_resolvable(a);
    let n = choose|n: nat| pre.resolves_in(a, n);
    lemma_deref_after_bind_rec(pre, post, k, c, a, n);
}

proof fn lemma_deref_after_bind_rec(
    pre: Memory,
    post: Memory,
    k: usize,
    c: Cell,
    a: Address,
    n: nat,
)
    requires
        pre.wf(),
        post.wf(),
        bind_write(pre, post, k, c),
        pre.resolves_in(a, n),
    ensures
        post.deref_spec(a) == post.deref_spec(pre.deref_spec(a)),
    decreases n,
{
    if pre.resolved(a) {
        pre.lemma_deref_of_resolved(a);
    } else {
        match pre.cell_at(a) {
            Cell::Ref(t) => {
                assert(a != Address::Heap(k));
                assert(post.cell_at(a) == pre.cell_at(a));
                assert(pre.resolvable(a));
                pre.lemma_deref_spec_unfold(a);
                post.lemma_wf_resolvable(a);
                assert(!post.resolved(a));
                post.lemma_deref_spec_unfold(a);
                lemma_deref_after_bind_rec(pre, post, k, c, Address::Heap(t.0), (n - 1) as nat);
            },
            _ => {},
        }
    }
}

/// Pair facts only read dereferences, so equal dereferences transfer them.
proof fn lemma_pair_unified_same_deref(
    mem: Memory,
    w: Set<(Address, Address)>,
    p: (Address, Address),
    q: (Address, Address),
)
    requires
        mem.deref_spec(p.0) == mem.deref_spec(q.0),
        mem.deref_spec(p.1) == mem.deref_spec(q.1),
        pair_unified(mem, w, q),
    ensures
        pair_unified(mem, w, p),
{
    reveal(pair_unified);
    reveal(pair_merged);
}

/// Larger witnesses keep a pair unified.
proof fn lemma_pair_unified_mono(
    mem: Memory,
    w1: Set<(Address, Address)>,
    w2: Set<(Address, Address)>,
    p: (Address, Address),
)
    requires
        pair_unified(mem, w1, p),
        w1.subset_of(w2),
    ensures
        pair_unified(mem, w2, p),
{
    reveal(pair_unified);
    reveal(pair_merged);
}

/// A binding keeps every already-unified pair unified: dereferences that
/// ended at a structure still do, and merged sides stay merged.
proof fn lemma_pair_unified_stable(
    pre: Memory,
    post: Memory,
    k: usize,
    c: Cell,
    w: Set<(Address, Address)>,
    p: (Address, Address),
)
    requires
        pre.wf(),
        post.wf(),
        bind_write(pre, post, k, c),
        pair_unified(pre, w, p),
    ensures
        pair_unified(post, w, p),
{
    reveal(pair_unified);
    reveal(pair_merged);
    let da = pre.deref_spec(p.0);
    let db = pre.deref_spec(p.1);
    lemma_deref_after_bind(pre, post, k, c, p.0);
    lemma_deref_after_bind(pre, post, k, c, p.1);
    if pair_merged(pre, p.0, p.1) {
        if da == db {
            assert(post.deref_spec(p.0) == post.deref_spec(p.1));
        } else {
            lemma_structure_deref_stable(pre, post, k, c, da);
            lemma_structure_deref_stable(pre, post, k, c, db);
        }
    } else {
        lemma_structure_deref_stable(pre, post, k, c, da);
        lemma_structure_deref_stable(pre, post, k, c, db);
        match (pre.cell_at(da), pre.cell_at(db)) {
            (Cell::Structure(v1), Cell::Structure(v2)) => {
                assert(post.cell_at(Address::Heap(v1.0)) == pre.cell_at(Address::Heap(v1.0)));
                assert(post.cell_at(Address::Heap(v2.0)) == pre.cell_at(Address::Heap(v2.0)));
            },
            _ => {},
        }
    }
}

/// A resolved address holding a structure cell dereferences to itself,
/// before and after a binding elsewhere.
proof fn lemma_structure_deref_stable(pre: Memory, post: Memory, k: usize, c: Cell, d: Address)
    requires
        pre.wf(),
        post.wf(),
        bind_write(pre, post, k, c),
        pre.resolved(d),
        pre.cell_at(d) is Structure,
    ensures
        post.cell_at(d) == pre.cell_at(d),
        post.deref_spec(d) == d,
        pre.deref_spec(d) == d,
    {
    assert(d != Address::Heap(k));
    assert(post.cell_at(d) == pre.cell_at(d));
    assert(post.resolved(d));
    post.lemma_deref_of_resolved(d);
    pre.lemma_deref_of_resolved(d);
}


/// Popping a stack splits its element set off by the popped element.
proof fn lemma_to_set_pop(s: Seq<(Address, Address)>)
    requires
        s.len() > 0,
    ensures
        s.to_set() =~= s.drop_last().to_set().insert(s.last()),
{
    assert forall|x: (Address, Address)| s.to_set().contains(x) implies s.drop_last(
    ).to_set().insert(s.last()).contains(x) by {
        let i = choose|i: int| 0 <= i < s.len() && s[i] == x;
        if i < s.len() - 1 {
            assert(s.drop_last()[i] == x);
            assert(s.drop_last().contains(x));
        }
    }
    assert forall|x: (Address, Address)|
        s.drop_last().to_set().insert(s.last()).contains(x) implies s.to_set().contains(x) by {
        if x == s.last() {
            assert(s[s.len() - 1] == x);
        } else {
            let i = choose|i: int| 0 <= i < s.drop_last().len() && s.drop_last()[i] == x;
            assert(s[i] == x);
        }
    }
}

/// A stack that keeps its old elements keeps its old element set.
proof fn lemma_to_set_prefix(s1: Seq<(Address, Address)>, s2: Seq<(Address, Address)>)
    requires
        s1.len() <= s2.len(),
        forall|i: int| 0 <= i < s1.len() ==> s2[i] == #[trigger] s1[i],
    ensures
        s1.to_set().subset_of(s2.to_set()),
{
    assert forall|x: (Address, Address)| s1.to_set().contains(x) implies s2.to_set().contains(
        x,
    ) by {
        let i = choose|i: int| 0 <= i < s1.len() && s1[i] == x;
        assert(s2[i] == x);
    }
}


/// The two sides of `p` dereference to structures whose functors disagree.
#[verifier::opaque]
pub open spec fn pair_clash(mem: Memory, p: (Address, Address)) -> bool {
    match (mem.cell_at(mem.deref_spec(p.0)), mem.cell_at(mem.deref_spec(p.1))) {
        (Cell::Structure(v1), Cell::Structure(v2)) => {
            match (mem.cell_at(Address::Heap(v1.0)), mem.cell_at(Address::Heap(v2.0))) {
                (Cell::Functor(f), Cell::Functor(g)) => f != g,
                _ => false,
            }
        },
        _ => false,
    }
}

/// `q` is a pair of corresponding arguments of the structures that the two
/// sides of `p` dereference to, whose functors agree.
#[verifier::opaque]
pub open spec fn pair_step(mem: Memory, p: (Address, Address), q: (Address, Address)) -> bool {
    match (mem.cell_at(mem.deref_spec(p.0)), mem.cell_at(mem.deref_spec(p.1))) {
        (Cell::Structure(v1), Cell::Structure(v2)) => {
            match (mem.cell_at(Address::Heap(v1.0)), mem.cell_at(Address::Heap(v2.0))) {
                (Cell::Functor(f), Cell::Functor(g)) => {
                    &&& f == g
                    &&& match (q.0, q.1) {
                        (Address::Heap(x), Address::Heap(y)) => {
                            &&& v1.0 < x <= v1.0 + f.arity
                            &&& x - v1.0 == y - v2.0
                        },
                        _ => false,
                    }
                },
                _ => false,
            }
        },
        _ => false,
    }
}

/// A descent from `p0` through corresponding arguments to the pair at the
/// end of `path`.
#[verifier::opaque]
pub open spec fn pair_chain(mem: Memory, p0: (Address, Address), path: Seq<(Address, Address)>) -> bool {
    &&& path.len() >= 1
    &&& path[0] == p0
    &&& forall|i: int| 0 <= i < path.len() - 1 ==> pair_step(mem, #[trigger] path[i], path[i + 1])
}

/// A descent from `p0` that ends at a functor clash.
#[verifier::opaque]
pub open spec fn clash_path(mem: Memory, p0: (Address, Address), path: Seq<(Address, Address)>) -> bool {
    &&& pair_chain(mem, p0, path)
    &&& pair_clash(mem, path.last())
}

/// A binding keeps an argument-descent step intact: both dereferences ended
/// at structure cells, which a binding never rewrites.
proof fn lemma_pair_step_stable(
    pre: Memory,
    post: Memory,
    k: usize,
    c: Cell,
    p: (Address, Address),
    q: (Address, Address),
)
    requires
        pre.wf(),
        post.wf(),
        bind_write(pre, post, k, c),
        pair_step(pre, p, q),
    ensures
        pair_step(post, p, q),
{
    reveal(pair_step);
    lemma_deref_after_bind(pre, post, k, c, p.0);
    lemma_deref_after_bind(pre, post, k, c, p.1);
    let da = pre.deref_spec(p.0);
    let db = pre.deref_spec(p.1);
    lemma_structure_deref_stable(pre, post, k, c, da);
    lemma_structure_deref_stable(pre, post, k, c, db);
    match (pre.cell_at(da), pre.cell_at(db)) {
        (Cell::Structure(v1), Cell::Structure(v2)) => {
            assert(post.cell_at(Address::Heap(v1.0)) == pre.cell_at(Address::Heap(v1.0)));
            assert(post.cell_at(Address::Heap(v2.0)) == pre.cell_at(Address::Heap(v2.0)));
        },
        _ => {},
    }
}



/// The ghost state `unify` threads: every finished pair is unified against
/// the finished-or-pending pairs, every walked structure pair is finished,
/// the root pair is finished or pending, and every pending pair carries a
/// descent from the root pair.
#[verifier::opaque]
spec fn unify_ghost_inv(
    mem: Memory,
    root: (Address, Address),
    stack: Seq<(Address, Address)>,
    seen: Seq<(Address, Address)>,
    done: Set<(Address, Address)>,
    paths: Seq<Seq<(Address, Address)>>,
) -> bool {
    &&& forall|p: (Address, Address)| #[trigger] done.contains(p) ==> pair_unified(
        mem,
        done.union(stack.to_set()),
        p,
    )
    &&& forall|k: int| 0 <= k < seen.len() ==> done.contains(#[trigger] seen[k])
    &&& done.union(stack.to_set()).contains(root)
    &&& paths.len() == stack.len()
    &&& forall|i: int|
        0 <= i < stack.len() ==> (pair_chain(mem, root, #[trigger] paths[i]) && paths[i].last()
            == stack[i])
}

/// The ghost state before the first pair is popped.
proof fn lemma_ghost_inv_init(mem: Memory, root: (Address, Address))
    ensures
        unify_ghost_inv(mem, root, seq![root], Seq::empty(), Set::empty(), seq![seq![root]]),
{
    reveal(unify_ghost_inv);
    reveal(pair_chain);
    let stack = seq![root];
    assert(stack[0] == root);
    assert(stack.contains(root));
    assert(stack.to_set().contains(root));
    assert(pair_chain(mem, root, seq![root]));
}

/// The pending pair on top of the stack carries a descent from the root.
proof fn lemma_ghost_inv_top(
    mem: Memory,
    root: (Address, Address),
    stack: Seq<(Address, Address)>,
    seen: Seq<(Address, Address)>,
    done: Set<(Address, Address)>,
    paths: Seq<Seq<(Address, Address)>>,
)
    requires
        unify_ghost_inv(mem, root, stack, seen, done, paths),
        stack.len() > 0,
    ensures
        paths.len() == stack.len(),
        pair_chain(mem, root, paths.last()),
        paths.last().last() == stack.last(),
{
    reveal(unify_ghost_inv);
    assert(pair_chain(mem, root, paths[stack.len() - 1]));
}

/// A walked structure pair is a finished pair.
proof fn lemma_ghost_inv_seen(
    mem: Memory,
    root: (Address, Address),
    stack: Seq<(Address, Address)>,
    seen: Seq<(Address, Address)>,
    done: Set<(Address, Address)>,
    paths: Seq<Seq<(Address, Address)>>,
    i: int,
)
    requires
        unify_ghost_inv(mem, root, stack, seen, done, paths),
        0 <= i < seen.len(),
    ensures
        done.contains(seen[i]),
{
    reveal(unify_ghost_inv);
}

/// With nothing pending, the finished set is a unification witness for the
/// root pair.
proof fn lemma_ghost_inv_final(
    mem: Memory,
    root: (Address, Address),
    stack: Seq<(Address, Address)>,
    seen: Seq<(Address, Address)>,
    done: Set<(Address, Address)>,
    paths: Seq<Seq<(Address, Address)>>,
)
    requires
        unify_ghost_inv(mem, root, stack, seen, done, paths),
        stack.len() == 0,
    ensures
        unified_pairs(mem, done),
        done.contains(root),
{
    reveal(unify_ghost_inv);
    reveal(unified_pairs);
    assert(stack.to_set() =~= Set::<(Address, Address)>::empty());
    assert(done.union(stack.to_set()) =~= done);
    assert forall|p: (Address, Address)| #[trigger] done.contains(p) implies pair_unified(
        mem,
        done,
        p,
    ) by {
        assert(pair_unified(mem, done.union(stack.to_set()), p));
        lemma_pair_unified_mono(mem, done.union(stack.to_set()), done, p);
    }
}

/// The ghost bookkeeping for one binding step of `unify`: the processed
/// pair joins the finished set as merged, every finished pair stays
/// unified, and the recorded descents survive the binding.
proof fn lemma_unify_bind_arm(
    pre: Memory,
    post: Memory,
    root: (Address, Address),
    t1: Address,
    t2: Address,
    d1: Address,
    d2: Address,
    done0: Set<(Address, Address)>,
    stack_pre: Seq<(Address, Address)>,
    stack_now: Seq<(Address, Address)>,
    seen: Seq<(Address, Address)>,
    paths_pre: Seq<Seq<(Address, Address)>>,
)
    requires
        unify_ghost_inv(pre, root, stack_pre, seen, done0, paths_pre),
        pre.wf(),
        post.wf(),
        exists|k: usize, c: Cell| #[trigger] bind_write(pre, post, k, c),
        stack_pre.len() > 0,
        stack_pre.last() == (t1, t2),
        stack_now == stack_pre.drop_last(),
        pre.deref_spec(t1) == d1,
        pre.deref_spec(t2) == d2,
        pre.resolved(d1),
        pre.resolved(d2),
        pair_merged(post, d1, d2),
    ensures
        unify_ghost_inv(
            post,
            root,
            stack_now,
            seen,
            done0.insert((t1, t2)),
            paths_pre.drop_last(),
        ),
{
    reveal(unify_ghost_inv);
    reveal(pair_unified);
    reveal(pair_merged);
    reveal(pair_chain);
    lemma_to_set_pop(stack_pre);
    let (bk, bc) = choose|bk: usize, bc: Cell| #[trigger] bind_write(pre, post, bk, bc);
    let done1 = done0.insert((t1, t2));
    let ctx0 = done0.union(stack_pre.to_set());
    let ctx1 = done1.union(stack_now.to_set());
    assert(ctx0 =~= ctx1);
    assert forall|q: (Address, Address)| #[trigger] done1.contains(q) implies pair_unified(
        post,
        ctx1,
        q,
    ) by {
        if q == (t1, t2) {
            lemma_deref_after_bind(pre, post, bk, bc, t1);
            lemma_deref_after_bind(pre, post, bk, bc, t2);
            pre.lemma_deref_of_resolved(d1);
            pre.lemma_deref_of_resolved(d2);
            assert(post.deref_spec(t1) == post.deref_spec(d1));
            assert(post.deref_spec(t2) == post.deref_spec(d2));
            assert(pair_merged(post, t1, t2));
        } else {
            assert(done0.contains(q));
            assert(pair_unified(pre, ctx0, q));
            lemma_pair_unified_stable(pre, post, bk, bc, ctx0, q);
        }
    }
    assert forall|i: int|
        0 <= i < stack_now.len() implies (pair_chain(
        post,
        root,
        #[trigger] paths_pre.drop_last()[i],
    ) && paths_pre.drop_last()[i].last() == stack_now[i]) by {
        assert(paths_pre.drop_last()[i] == paths_pre[i]);
        assert(stack_now[i] == stack_pre[i]);
        assert(pair_chain(pre, root, paths_pre[i]));
        assert forall|j: int|
            0 <= j < paths_pre[i].len() - 1 implies pair_step(
            post,
            #[trigger] paths_pre[i][j],
            paths_pre[i][j + 1],
        ) by {
            lemma_pair_step_stable(pre, post, bk, bc, paths_pre[i][j], paths_pre[i][j + 1]);
        }
    }
}

/// The ghost bookkeeping for one structure step of `unify`: the processed
/// pair and the structure pair join the finished set, the argument pairs
/// join the stack with their descents extended by one step, and everything
/// already finished stays so.
proof fn lemma_unify_struct_arm(
    mem: Memory,
    root: (Address, Address),
    t1: Address,
    t2: Address,
    d1: Address,
    d2: Address,
    v1: Slot,
    v2: Slot,
    f: Functor,
    done0: Set<(Address, Address)>,
    stack_pre: Seq<(Address, Address)>,
    stack_mid: Seq<(Address, Address)>,
    stack_now: Seq<(Address, Address)>,
    seen0: Seq<(Address, Address)>,
    paths_pre: Seq<Seq<(Address, Address)>>,
) -> (r: (Set<(Address, Address)>, Seq<Seq<(Address, Address)>>))
    requires
        unify_ghost_inv(mem, root, stack_pre, seen0, done0, paths_pre),
        mem.deref_spec(t1) == d1,
        mem.deref_spec(t2) == d2,
        mem.resolved(d1),
        mem.resolved(d2),
        mem.cell_at(d1) == Cell::Structure(v1),
        mem.cell_at(d2) == Cell::Structure(v2),
        mem.cell_at(Address::Heap(v1.0)) == Cell::Functor(f),
        mem.cell_at(Address::Heap(v2.0)) == Cell::Functor(f),
        v1.0 + f.arity < mem.heap_seq().len(),
        v2.0 + f.arity < mem.heap_seq().len(),
        mem.heap_seq().len() <= usize::MAX,
        stack_pre.len() > 0,
        stack_pre.last() == (t1, t2),
        stack_mid == stack_pre.drop_last(),
        stack_now.len() == stack_mid.len() + f.arity,
        forall|k: int| 0 <= k < stack_mid.len() ==> #[trigger] stack_now[k] == stack_mid[k],
        forall|k: int|
            0 <= k < f.arity ==> #[trigger] stack_now[stack_mid.len() + k] == (
            Address::Heap((v1.0 + k + 1) as usize), Address::Heap((v2.0 + k + 1) as usize)),
    ensures
        r.0 == done0.insert((t1, t2)).insert((d1, d2)),
        unify_ghost_inv(mem, root, stack_now, seen0.push((d1, d2)), r.0, r.1),
{
    reveal(unify_ghost_inv);
    reveal(pair_unified);
    reveal(pair_merged);
    reveal(pair_chain);
    reveal(pair_step);
    let path_t = paths_pre.last();
    assert(pair_chain(mem, root, path_t) && path_t.last() == (t1, t2)) by {
        assert(pair_chain(mem, root, paths_pre[stack_pre.len() - 1]));
    }
    lemma_to_set_pop(stack_pre);
    lemma_to_set_prefix(stack_mid, stack_now);
    let done1 = done0.insert((t1, t2)).insert((d1, d2));
    let ctx0 = done0.union(stack_pre.to_set());
    let ctx1 = done1.union(stack_now.to_set());
    assert(ctx0.subset_of(ctx1)) by {
        assert forall|x: (Address, Address)| ctx0.contains(x) implies ctx1.contains(x) by {
            if !done0.contains(x) && x != (t1, t2) {
                assert(stack_mid.to_set().contains(x));
            }
        }
    }
    mem.lemma_deref_of_resolved(d1);
    mem.lemma_deref_of_resolved(d2);
    assert forall|j: int|
        1 <= j <= f.arity implies #[trigger] ctx1.contains(
        (Address::Heap((v1.0 + j) as usize), Address::Heap((v2.0 + j) as usize)),
    ) by {
        let idx = stack_mid.len() as int + (j - 1);
        assert(stack_now[stack_mid.len() + (j - 1)] == (
            Address::Heap((v1.0 + (j - 1) + 1) as usize),
            Address::Heap((v2.0 + (j - 1) + 1) as usize),
        ));
        assert(stack_now.contains(
            (Address::Heap((v1.0 + j) as usize), Address::Heap((v2.0 + j) as usize)),
        ));
    }
    assert(pair_unified(mem, ctx1, (d1, d2)));
    assert forall|q: (Address, Address)| #[trigger] done1.contains(q) implies pair_unified(
        mem,
        ctx1,
        q,
    ) by {
        if q == (t1, t2) {
            lemma_pair_unified_same_deref(mem, ctx1, (t1, t2), (d1, d2));
        } else if q == (d1, d2) {
        } else {
            assert(done0.contains(q));
            assert(pair_unified(mem, ctx0, q));
            lemma_pair_unified_mono(mem, ctx0, ctx1, q);
        }
    }
    let paths1 = paths_pre.drop_last() + Seq::new(
        f.arity as nat,
        |j: int| path_t.push(
            (
                Address::Heap((v1.0 + j + 1) as usize),
                Address::Heap((v2.0 + j + 1) as usize),
            ),
        ),
    );
    assert forall|i: int|
        0 <= i < stack_now.len() implies (pair_chain(mem, root, #[trigger] paths1[i])
        && paths1[i].last() == stack_now[i]) by {
        if i < stack_mid.len() {
            assert(paths1[i] == paths_pre[i]);
            assert(stack_now[i] == stack_pre[i]);
            assert(pair_chain(mem, root, paths_pre[i]));
        } else {
            let j = i - stack_mid.len();
            let q = (
                Address::Heap((v1.0 + j + 1) as usize),
                Address::Heap((v2.0 + j + 1) as usize),
            );
            assert(paths1[i] == path_t.push(q));
            assert(stack_now[stack_mid.len() + j] == (
                Address::Heap((v1.0 + j + 1) as usize),
                Address::Heap((v2.0 + j + 1) as usize),
            ));
            assert(stack_now[i] == q);
            assert(0 <= v1.0 + j + 1 <= usize::MAX);
            assert(0 <= v2.0 + j + 1 <= usize::MAX);
            assert(pair_step(mem, (t1, t2), q));
            assert forall|j2: int|
                0 <= j2 < path_t.push(q).len() - 1 implies pair_step(
                mem,
                #[trigger] path_t.push(q)[j2],
                path_t.push(q)[j2 + 1],
            ) by {
                if j2 < path_t.len() - 1 {
                    assert(path_t.push(q)[j2] == path_t[j2]);
                    assert(path_t.push(q)[j2 + 1] == path_t[j2 + 1]);
                } else {
                    assert(path_t.push(q)[j2] == (t1, t2));
                    assert(path_t.push(q)[j2 + 1] == q);
                }
            }
        }
    }
    (done1, paths1)
}

/// The ghost bookkeeping when a popped pair already dereferences to one
/// cell: it joins the finished set as merged.
proof fn lemma_unify_same_arm(
    mem: Memory,
    root: (Address, Address),
    t1: Address,
    t2: Address,
    done0: Set<(Address, Address)>,
    stack_pre: Seq<(Address, Address)>,
    stack_now: Seq<(Address, Address)>,
    seen: Seq<(Address, Address)>,
    paths_pre: Seq<Seq<(Address, Address)>>,
)
    requires
        unify_ghost_inv(mem, root, stack_pre, seen, done0, paths_pre),
        stack_pre.len() > 0,
        stack_pre.last() == (t1, t2),
        stack_now == stack_pre.drop_last(),
        mem.deref_spec(t1) == mem.deref_spec(t2),
    ensures
        unify_ghost_inv(
            mem,
            root,
            stack_now,
            seen,
            done0.insert((t1, t2)),
            paths_pre.drop_last(),
        ),
{
    reveal(unify_ghost_inv);
    reveal(pair_unified);
    reveal(pair_merged);
    lemma_to_set_pop(stack_pre);
    let done1 = done0.insert((t1, t2));
    let ctx0 = done0.union(stack_pre.to_set());
    let ctx1 = done1.union(stack_now.to_set());
    assert(ctx0 =~= ctx1);
    assert(pair_merged(mem, t1, t2));
    assert forall|q: (Address, Address)| #[trigger] done1.contains(q) implies pair_unified(
        mem,
        ctx1,
        q,
    ) by {
        if q != (t1, t2) {
            assert(done0.contains(q));
        }
    }
    assert forall|i: int|
        0 <= i < stack_now.len() implies (pair_chain(mem, root, #[trigger] paths_pre.drop_last()[i])
        && paths_pre.drop_last()[i].last() == stack_now[i]) by {
        assert(paths_pre.drop_last()[i] == paths_pre[i]);
        assert(stack_now[i] == stack_pre[i]);
        assert(pair_chain(mem, root, paths_pre[i]));
    }
}

/// The ghost bookkeeping when a popped pair dereferences to a structure
/// pair that was walked before: the finished pairs cover it.
proof fn lemma_unify_skip_arm(
    mem: Memory,
    root: (Address, Address),
    t1: Address,
    t2: Address,
    d1: Address,
    d2: Address,
    done0: Set<(Address, Address)>,
    stack_pre: Seq<(Address, Address)>,
    stack_now: Seq<(Address, Address)>,
    seen: Seq<(Address, Address)>,
    paths_pre: Seq<Seq<(Address, Address)>>,
)
    requires
        unify_ghost_inv(mem, root, stack_pre, seen, done0, paths_pre),
        stack_pre.len() > 0,
        stack_pre.last() == (t1, t2),
        stack_now == stack_pre.drop_last(),
        mem.deref_spec(t1) == d1,
        mem.deref_spec(t2) == d2,
        mem.resolved(d1),
        mem.resolved(d2),
        done0.contains((d1, d2)),
    ensures
        unify_ghost_inv(
            mem,
            root,
            stack_now,
            seen,
            done0.insert((t1, t2)),
            paths_pre.drop_last(),
        ),
{
    reveal(unify_ghost_inv);
    reveal(pair_unified);
    reveal(pair_merged);
    lemma_to_set_pop(stack_pre);
    let done1 = done0.insert((t1, t2));
    let ctx0 = done0.union(stack_pre.to_set());
    let ctx1 = done1.union(stack_now.to_set());
    assert(ctx0 =~= ctx1);
    assert forall|q: (Address, Address)| #[trigger] done1.contains(q) implies pair_unified(
        mem,
        ctx1,
        q,
    ) by {
        if q == (t1, t2) {
            assert(pair_unified(mem, ctx0, (d1, d2)));
            mem.lemma_deref_of_resolved(d1);
            mem.lemma_deref_of_resolved(d2);
            lemma_pair_unified_same_deref(mem, ctx0, (t1, t2), (d1, d2));
        } else {
            assert(done0.contains(q));
        }
    }
    assert forall|i: int|
        0 <= i < stack_now.len() implies (pair_chain(mem, root, #[trigger] paths_pre.drop_last()[i])
        && paths_pre.drop_last()[i].last() == stack_now[i]) by {
        assert(paths_pre.drop_last()[i] == paths_pre[i]);
        assert(stack_now[i] == stack_pre[i]);
        assert(pair_chain(mem, root, paths_pre[i]));
    }
}


/// The mirror image of a set of address pairs.
pub open spec fn swapped_pairs(w: Set<(Address, Address)>) -> Set<(Address, Address)> {
    Set::new(|p: (Address, Address)| w.contains((p.1, p.0)))
}

/// Being unified is symmetric: a unification witness read in the other
/// order is again a unification witness.
pub proof fn lemma_unified_pairs_symmetric(mem: Memory, w: Set<(Address, Address)>)
    requires
        unified_pairs(mem, w),
    ensures
        unified_pairs(mem, swapped_pairs(w)),
        forall|a: Address, b: Address|
            #[trigger] w.contains((a, b)) ==> swapped_pairs(w).contains((b, a)),
{
    reveal(unified_pairs);
    reveal(pair_unified);
    reveal(pair_merged);
    let sw = swapped_pairs(w);
    assert forall|p: (Address, Address)| #[trigger] sw.contains(p) implies pair_unified(
        mem,
        sw,
        p,
    ) by {
        let q = (p.1, p.0);
        assert(w.contains(q));
        assert(pair_unified(mem, w, q));
        if !pair_merged(mem, p.0, p.1) {
            let da = mem.deref_spec(p.0);
            let db = mem.deref_spec(p.1);
            match (mem.cell_at(db), mem.cell_at(da)) {
                (Cell::Structure(v2), Cell::Structure(v1)) => {
                    match (
                        mem.cell_at(Address::Heap(v2.0)),
                        mem.cell_at(Address::Heap(v1.0)),
                    ) {
                        (Cell::Functor(f), Cell::Functor(g)) => {
                            assert forall|j: int|
                                1 <= j <= g.arity implies #[trigger] sw.contains(
                                (
                                    Address::Heap((v1.0 + j) as usize),
                                    Address::Heap((v2.0 + j) as usize),
                                ),
                            ) by {
                                assert(w.contains(
                                    (
                                        Address::Heap((v2.0 + j) as usize),
                                        Address::Heap((v1.0 + j) as usize),
                                    ),
                                ));
                            }
                        },
                        _ => {},
                    }
                },
                _ => {},
            }
        }
    }
}

} // verus!
