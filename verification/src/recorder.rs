//! A consumer that writes the instruction stream down instead of running
//! it, for inspecting what the compiler emits.

use vstd::prelude::*;

use crate::functor::Functor;
use crate::machine::{Instruction, MachineOps};
use crate::mem::{Fallible, Register};

verus! {

/// Records every instruction it is handed; `get_structure` and
/// `unify_value` always report success.
pub struct Recorder {
    ops: Vec<Instruction>,
    budget: Ghost<int>,
}

impl Recorder {
    pub fn new() -> (r: Recorder)
        ensures
            r.inv(),
            r.building(),
            r.infallible(),
            r.reg_capacity() == usize::MAX,
            r.arg_budget() == 0,
            r.ops_log() == Seq::<Instruction>::empty(),
    {
        Recorder { ops: Vec::new(), budget: Ghost(0) }
    }

    /// The recorded instructions.
    pub fn instructions(&self) -> (ops: &Vec<Instruction>)
        ensures
            ops@ == self.ops_log(),
    {
        &self.ops
    }
}

impl MachineOps for Recorder {
    open spec fn inv(&self) -> bool {
        true
    }

    open spec fn reg_capacity(&self) -> int {
        usize::MAX as int
    }

    open spec fn reg_ready(&self, r: int) -> bool {
        true
    }

    open spec fn building(&self) -> bool {
        true
    }

    open spec fn infallible(&self) -> bool {
        true
    }

    closed spec fn arg_budget(&self) -> int {
        self.budget@
    }

    closed spec fn ops_log(&self) -> Seq<Instruction> {
        self.ops@
    }

    fn put_structure(&mut self, f: Functor, r: Register) {
        proof {
            self.budget@ = f.arity as int;
        }
        self.ops.push(Instruction::PutStructure(f, r));
    }

    fn set_variable(&mut self, r: Register) {
        proof {
            self.budget@ = if self.budget@ >= 1 {
                self.budget@ - 1
            } else {
                0
            };
        }
        self.ops.push(Instruction::SetVariable(r));
    }

    fn set_value(&mut self, r: Register) {
        proof {
            self.budget@ = if self.budget@ >= 1 {
                self.budget@ - 1
            } else {
                0
            };
        }
        self.ops.push(Instruction::SetValue(r));
    }

    fn get_structure(&mut self, f: Functor, r: Register) -> (res: Fallible)
        ensures
            res is Ok,
    {
        proof {
            self.budget@ = f.arity as int;
        }
        self.ops.push(Instruction::GetStructure(f, r));
        Ok(())
    }

    fn unify_variable(&mut self, r: Register) {
        proof {
            self.budget@ = if self.budget@ >= 1 {
                self.budget@ - 1
            } else {
                0
            };
        }
        self.ops.push(Instruction::UnifyVariable(r));
    }

    fn unify_value(&mut self, r: Register) -> (res: Fallible)
        ensures
            res is Ok,
    {
        proof {
            self.budget@ = if self.budget@ >= 1 {
                self.budget@ - 1
            } else {
                0
            };
        }
        self.ops.push(Instruction::UnifyValue(r));
        Ok(())
    }
}

} // verus!
