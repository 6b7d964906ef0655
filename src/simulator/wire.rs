use vstd::prelude::*;

verus! {

/// One electrically connected wire of the circuit.
pub struct Wire {
    /// Gates whose output drives this wire.
    pub gate_in_ids: Vec<u32>,
    /// Gates whose input reads this wire.
    pub gate_out_ids: Vec<u32>,
    /// The wire's resolved logical level.
    pub state: bool,
}

impl Default for Wire {
    fn default() -> (r: Self)
        ensures
            r.gate_in_ids@.len() == 0,
            r.gate_out_ids@.len() == 0,
            !r.state,
    {
        Wire { gate_in_ids: Vec::new(), gate_out_ids: Vec::new(), state: false }
    }
}

impl Wire {
    /// A low wire with no gates attached.
    pub fn new() -> (r: Self)
        ensures
            r.gate_in_ids@.len() == 0,
            r.gate_out_ids@.len() == 0,
            !r.state,
    {
        Self::default()
    }
}

} // verus!
