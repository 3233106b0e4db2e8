use wam::ast::{Structure, Term};
use wam::functor::Functors;
use wam::interpret;
use wam::machine::{Instruction, Machine};
use wam::mem::{Address, Cell, Fallible, Memory, Register, Slot};
use wam::recorder::Recorder;

fn var(name: &str) -> Term {
    Term::Variable(name.to_string())
}

fn structure(fs: &mut Functors, name: &str, args: Vec<Term>) -> Structure {
    let functor = fs.functor(name, args.len());
    Structure { functor, terms: args }
}

fn app(fs: &mut Functors, name: &str, args: Vec<Term>) -> Term {
    Term::Structure(structure(fs, name, args))
}

/// The textual form of one recorded instruction, as the stream tests expect.
fn instruction_text(fs: &Functors, i: &Instruction) -> String {
    match *i {
        Instruction::PutStructure(f, r) => {
            format!("put_structure {}/{},R{}", fs.text(f), f.arity(), r.0)
        }
        Instruction::SetVariable(r) => format!("set_variable R{}", r.0),
        Instruction::SetValue(r) => format!("set_value R{}", r.0),
        Instruction::GetStructure(f, r) => {
            format!("get_structure {}/{},R{}", fs.text(f), f.arity(), r.0)
        }
        Instruction::UnifyVariable(r) => format!("unify_variable R{}", r.0),
        Instruction::UnifyValue(r) => format!("unify_value R{}", r.0),
    }
}

fn check_ops(fs: &Functors, recorder: &Recorder, expected: Vec<&str>) {
    let ops = recorder.instructions();
    let actual: Vec<String> = ops.iter().map(|i| instruction_text(fs, i)).collect();
    for (e, a) in expected.iter().zip(actual.iter()) {
        assert_eq!(e, a);
    }
    assert_eq!(expected.len(), actual.len());
}

/// The textual form of one heap cell, as the heap tests expect.
fn cell_text(fs: &Functors, c: &Cell) -> String {
    match *c {
        Cell::Structure(s) => format!("Structure(H{})", s.0),
        Cell::Ref(s) => format!("Ref(H{})", s.0),
        Cell::Functor(f) => format!("Functor({}/{})", fs.text(f), f.arity()),
        Cell::Uninitialized => "Uninitialized".to_string(),
    }
}

fn check_heap(fs: &Functors, mem: &Memory, expected: Vec<&str>) {
    let heap = mem.heap();
    let actual: Vec<String> = heap
        .iter()
        .enumerate()
        .map(|(idx, cell)| format!("H{}: {}", idx, cell_text(fs, cell)))
        .collect();
    for (a, e) in actual.iter().zip(expected.iter()) {
        assert_eq!(a, e);
    }
    assert_eq!(actual.len(), expected.len());
}

fn mgu_text(machine: &Machine, fs: &Functors) -> String {
    machine.mgu(Register(0)).text(fs).unwrap()
}

// ---------------------------------------------------------------------------
// Terms

#[test]
fn var_terms() {
    let fs = Functors::new();
    let t1 = var("X");
    assert_eq!(&t1.text(&fs), "?X");
}

#[test]
fn complex_terms() {
    let mut fs = Functors::new();
    let b = app(&mut fs, "b", vec![var("Y")]);
    let c = app(&mut fs, "c", vec![var("X"), var("Y")]);
    let d = app(&mut fs, "d", vec![]);
    let t = app(&mut fs, "a", vec![var("X"), b, c, d]);
    assert_eq!(&t.text(&fs), "a(?X,b(?Y),c(?X,?Y),d)");
}

// ---------------------------------------------------------------------------
// Compilation streams

/// `p(Z, h(Z, W), f(W))`.
fn term_p_z_hzw_fw(fs: &mut Functors) -> Structure {
    let h = app(fs, "h", vec![var("Z"), var("W")]);
    let f = app(fs, "f", vec![var("W")]);
    structure(fs, "p", vec![var("Z"), h, f])
}

/// `p(f(X), h(Y, f(a)), Y)`.
fn term_p_fx_hyfa_y(fs: &mut Functors) -> Structure {
    let fx = app(fs, "f", vec![var("X")]);
    let a = app(fs, "a", vec![]);
    let fa = app(fs, "f", vec![a]);
    let h = app(fs, "h", vec![var("Y"), fa]);
    structure(fs, "p", vec![fx, h, var("Y")])
}

#[test]
fn test1() {
    let mut fs = Functors::new();
    let s = term_p_z_hzw_fw(&mut fs);
    let mut r = Recorder::new();
    interpret::query(&mut r, &s);
    check_ops(
        &fs,
        &r,
        vec![
            "put_structure h/2,R2",
            "set_variable R1",
            "set_variable R4",
            "put_structure f/1,R3",
            "set_value R4",
            "put_structure p/3,R0",
            "set_value R1",
            "set_value R2",
            "set_value R3",
        ],
    );
}

#[test]
fn program1() {
    let mut fs = Functors::new();
    let s = term_p_fx_hyfa_y(&mut fs);
    let mut r = Recorder::new();
    let res = interpret::program(&mut r, &s);
    assert!(res.is_ok());
    check_ops(
        &fs,
        &r,
        vec![
            "get_structure p/3,R0",
            "unify_variable R1",
            "unify_variable R2",
            "unify_variable R3",
            "get_structure f/1,R1",
            "unify_variable R4",
            "get_structure h/2,R2",
            "unify_value R3",
            "unify_variable R5",
            "get_structure f/1,R5",
            "unify_variable R6",
            "get_structure a/0,R6",
        ],
    );
}

// ---------------------------------------------------------------------------
// The machine

/// The hand-compiled query stream for `p(Z, h(Z, W), f(W))`.
fn figure2_3(fs: &mut Functors, machine: &mut Machine) {
    let h2 = fs.functor("h", 2);
    let f1 = fs.functor("f", 1);
    let p3 = fs.functor("p", 3);
    machine.put_structure(h2, Register(2));
    machine.set_variable(Register(1));
    machine.set_variable(Register(4));
    machine.put_structure(f1, Register(3));
    machine.set_value(Register(4));
    machine.put_structure(p3, Register(0));
    machine.set_value(Register(1));
    machine.set_value(Register(2));
    machine.set_value(Register(3));
}

/// The hand-compiled program stream for `p(f(X), h(Y, f(a)), Y)`.
fn figure2_4(fs: &mut Functors, machine: &mut Machine) -> Fallible {
    let p3 = fs.functor("p", 3);
    let f1 = fs.functor("f", 1);
    let h2 = fs.functor("h", 2);
    let a0 = fs.functor("a", 0);
    machine.get_structure(p3, Register(0))?;
    machine.unify_variable(Register(1));
    machine.unify_variable(Register(2));
    machine.unify_variable(Register(3));
    machine.get_structure(f1, Register(1))?;
    machine.unify_variable(Register(4));
    machine.get_structure(h2, Register(2))?;
    machine.unify_value(Register(3))?;
    machine.unify_variable(Register(5));
    machine.get_structure(f1, Register(5))?;
    machine.unify_variable(Register(6));
    machine.get_structure(a0, Register(6))?;
    Ok(())
}

#[test]
fn exercise2_1() {
    let mut fs = Functors::new();
    let mut machine = Machine::new(5);
    figure2_3(&mut fs, &mut machine);
    check_heap(
        &fs,
        machine.memory(),
        vec![
            "H0: Structure(H1)",
            "H1: Functor(h/2)",
            "H2: Ref(H2)",
            "H3: Ref(H3)",
            "H4: Structure(H5)",
            "H5: Functor(f/1)",
            "H6: Ref(H3)",
            "H7: Structure(H8)",
            "H8: Functor(p/3)",
            "H9: Ref(H2)",
            "H10: Structure(H1)",
            "H11: Structure(H5)",
        ],
    );
}

#[test]
fn exercise2_3() {
    let mut fs = Functors::new();
    let mut machine = Machine::new(7);
    figure2_3(&mut fs, &mut machine);
    figure2_4(&mut fs, &mut machine).unwrap();
    assert_eq!(&mgu_text(&machine, &fs), "p(f(f(a)),h(f(f(a)),f(a)),f(f(a)))");
}

#[test]
fn exercise2_3_1() {
    // same as above, but using `interpret` to drive the machine,
    // instead of a hardcoded sequence of instructions
    let mut fs = Functors::new();
    let mut machine = Machine::new(7);
    let q = term_p_z_hzw_fw(&mut fs);
    let t = term_p_fx_hyfa_y(&mut fs);
    interpret::query(&mut machine, &q);
    interpret::program(&mut machine, &t).unwrap();
    assert_eq!(&mgu_text(&machine, &fs), "p(f(f(a)),h(f(f(a)),f(a)),f(f(a)))");
}

#[test]
fn fail_to_unify1() {
    let mut fs = Functors::new();
    let mut machine = Machine::new(7);
    let q = structure(&mut fs, "p", vec![var("Z"), var("Z")]);
    let fx = app(&mut fs, "f", vec![var("X")]);
    let gx = app(&mut fs, "g", vec![var("X")]);
    let t = structure(&mut fs, "p", vec![fx, gx]);
    interpret::query(&mut machine, &q);
    assert!(interpret::program(&mut machine, &t).is_err());
}

#[test]
fn exercise2_3_5() {
    let mut fs = Functors::new();
    let mut machine = Machine::new(7);
    let q = term_p_fx_hyfa_y(&mut fs);
    let t = term_p_z_hzw_fw(&mut fs);
    interpret::query(&mut machine, &q);
    interpret::program(&mut machine, &t).unwrap();
    assert_eq!(&mgu_text(&machine, &fs), "p(f(f(a)),h(f(f(a)),f(a)),f(f(a)))");
}

// ---------------------------------------------------------------------------
// Further checks

#[test]
fn trivial_atoms_unify() {
    let mut fs = Functors::new();
    let mut machine = Machine::new(1);
    let q = structure(&mut fs, "a", vec![]);
    let t = structure(&mut fs, "a", vec![]);
    interpret::query(&mut machine, &q);
    interpret::program(&mut machine, &t).unwrap();
    assert_eq!(&mgu_text(&machine, &fs), "a");
}

#[test]
fn distinct_atoms_do_not_unify() {
    let mut fs = Functors::new();
    let mut machine = Machine::new(1);
    let q = structure(&mut fs, "a", vec![]);
    let t = structure(&mut fs, "b", vec![]);
    interpret::query(&mut machine, &q);
    assert!(interpret::program(&mut machine, &t).is_err());
}

#[test]
fn arity_mismatch_does_not_unify() {
    let mut fs = Functors::new();
    let mut machine = Machine::new(3);
    let q = structure(&mut fs, "p", vec![var("X")]);
    let t = structure(&mut fs, "p", vec![var("X"), var("Y")]);
    interpret::query(&mut machine, &q);
    assert!(interpret::program(&mut machine, &t).is_err());
}

#[test]
fn interning_is_stable() {
    let mut fs = Functors::new();
    let f1 = fs.functor("f", 1);
    let g1 = fs.functor("g", 1);
    let f1_again = fs.functor("f", 1);
    let f2 = fs.functor("f", 2);
    assert_eq!(f1, f1_again);
    assert_ne!(f1, g1);
    assert_ne!(f1, f2);
    assert_eq!(fs.text(f1), "f");
    assert_eq!(f2.arity(), 2);
}

#[test]
fn structure_cells_point_at_functors() {
    // every Structure(s) cell points at a Functor cell (heap and registers)
    let mut fs = Functors::new();
    let mut machine = Machine::new(7);
    let q = term_p_z_hzw_fw(&mut fs);
    let t = term_p_fx_hyfa_y(&mut fs);
    interpret::query(&mut machine, &q);
    interpret::program(&mut machine, &t).unwrap();
    let heap = machine.memory().heap();
    let regs = machine.memory().registers();
    for cell in heap.iter().chain(regs.iter()) {
        if let Cell::Structure(s) = cell {
            assert!(matches!(heap[s.0], Cell::Functor(_)));
        }
    }
}

#[test]
fn unbound_variables_are_self_references() {
    // an unbound variable reads back as a self-referential Ref cell
    let mut fs = Functors::new();
    let mut machine = Machine::new(2);
    let q = structure(&mut fs, "p", vec![var("X")]);
    interpret::query(&mut machine, &q);
    let heap = machine.memory().heap();
    // the structure header sits at H0..H1, the variable cell follows it
    assert_eq!(heap[0], Cell::Structure(Slot(1)));
    assert_eq!(heap[2], Cell::Ref(Slot(2)));
    assert_eq!(&mgu_text(&machine, &fs), "p(?)");
}

/// A small heap: an unbound variable, a reference chain onto it, and an
/// `f/1` structure whose argument points back at the variable.
fn small_memory(fs: &mut Functors) -> Memory {
    let f1 = fs.functor("f", 1);
    let mut mem = Memory::new(2);
    mem.push(Cell::Ref(Slot(0)));
    mem.push(Cell::Ref(Slot(0)));
    mem.push(Cell::Structure(Slot(3)));
    mem.push(Cell::Functor(f1));
    mem.push(Cell::Ref(Slot(0)));
    mem
}

#[test]
fn deref_is_idempotent() {
    let mut fs = Functors::new();
    let mut mem = small_memory(&mut fs);
    for i in [0usize, 1, 2, 4] {
        let d1 = mem.deref(Address::Heap(i));
        let d2 = mem.deref(d1);
        assert_eq!(d1, d2);
    }
    assert_eq!(mem.deref(Address::Heap(1)), Address::Heap(0));
    assert_eq!(mem.deref(Address::Heap(2)), Address::Heap(2));
}

#[test]
fn unify_same_target_is_noop() {
    let mut fs = Functors::new();
    let mut mem = small_memory(&mut fs);
    let before: Vec<Cell> = mem.heap().to_vec();
    // both addresses dereference to the unbound variable at H0
    let res = mem.unify(Address::Heap(1), Address::Heap(4));
    assert!(res.is_ok());
    assert_eq!(before, mem.heap().to_vec());
}

#[test]
fn unify_binds_the_unbound_side() {
    let mut fs = Functors::new();
    let mut mem = small_memory(&mut fs);
    // H1 dereferences to the unbound H0, H2 is an f/1 structure
    let res = mem.unify(Address::Heap(1), Address::Heap(2));
    assert!(res.is_ok());
    assert_eq!(mem.heap()[0], Cell::Structure(Slot(3)));
}

#[test]
fn fresh_variable_renders_unbound() {
    // a lone unbound variable reads back as a question mark
    let fs = Functors::new();
    let mut machine = Machine::new(1);
    machine.set_variable(Register(0));
    assert_eq!(machine.mgu(Register(0)).text(&fs).unwrap(), "?");
}

#[test]
fn unification_is_symmetric() {
    // both orders succeed and read back the same unifier
    let mut fs = Functors::new();
    let q = term_p_z_hzw_fw(&mut fs);
    let t = term_p_fx_hyfa_y(&mut fs);

    let mut m1 = Machine::new(7);
    interpret::query(&mut m1, &q);
    let r1 = interpret::program(&mut m1, &t);

    let mut m2 = Machine::new(7);
    interpret::query(&mut m2, &t);
    let r2 = interpret::program(&mut m2, &q);

    assert_eq!(r1.is_ok(), r2.is_ok());
    assert_eq!(mgu_text(&m1, &fs), mgu_text(&m2, &fs));
}
