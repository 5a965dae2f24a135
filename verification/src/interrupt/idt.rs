//! Interrupt descriptor table.

use vstd::prelude::*;

verus! {

/// Privilege level a gate runs at.
#[derive(PartialEq, Eq, Structural)]
pub enum DPL {
    Machine,
    Supervisor,
    User,
}

/// Kind of gate.
#[derive(PartialEq, Eq, Structural)]
pub enum GATE {
    Interrupt,
    Trap,
    System,
}

/// Where the handler of one interrupt is found: `offset` indexes the table
/// of handler functions.
pub struct Gate {
    pub base: usize,
    pub offset: usize,
    pub dpl: DPL,
    pub gtype: GATE,
}

impl Gate {
    /// A gate with the given fields.
    pub fn new(gate_base: usize, gate_offset: usize, gate_dpl: DPL, gate_type: GATE) -> (r: Self)
        ensures
            r.base == gate_base,
            r.offset == gate_offset,
            r.dpl == gate_dpl,
            r.gtype == gate_type,
    {
        Gate { base: gate_base, offset: gate_offset, dpl: gate_dpl, gtype: gate_type }
    }
}

/// Interrupt descriptor table of ten gates.
pub struct IDT {
    pub length: usize,
    pub gates: [Gate; 10],
}

impl IDT {
    /// The table whose gate `i` has base `0`, offset `i`, supervisor level
    /// and interrupt kind.
    pub fn new() -> (r: Self)
        ensures
            r.length == 10,
            forall|i: int|
                0 <= i < 10 ==> {
                    let g = #[trigger] r.gates@[i];
                    &&& g.base == 0
                    &&& g.offset == i
                    &&& g.dpl == DPL::Supervisor
                    &&& g.gtype == GATE::Interrupt
                },
    {
        IDT {
            length: 10,
            gates: [
                Gate::new(0, 0, DPL::Supervisor, GATE::Interrupt),
                Gate::new(0, 1, DPL::Supervisor, GATE::Interrupt),
                Gate::new(0, 2, DPL::Supervisor, GATE::Interrupt),
                Gate::new(0, 3, DPL::Supervisor, GATE::Interrupt),
                Gate::new(0, 4, DPL::Supervisor, GATE::Interrupt),
                Gate::new(0, 5, DPL::Supervisor, GATE::Interrupt),
                Gate::new(0, 6, DPL::Supervisor, GATE::Interrupt),
                Gate::new(0, 7, DPL::Supervisor, GATE::Interrupt),
                Gate::new(0, 8, DPL::Supervisor, GATE::Interrupt),
                Gate::new(0, 9, DPL::Supervisor, GATE::Interrupt),
            ],
        }
    }
}

} // verus!
