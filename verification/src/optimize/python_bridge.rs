//! Messages exchanged with the external SAT optimizer, and how a reply is
//! read.  Sending and receiving them is left to the caller.
use vstd::prelude::*;

verus! {

/// Request to the optimizer: the output truth tables of a subcircuit.
#[derive(Debug, Clone)]
pub struct OptimizeRequest {
    pub num_inputs: usize,
    pub output_truth_tables: Vec<String>,
    pub current_num_gates: usize,
    pub time_limit: u32,
}

/// Reply of the optimizer.
#[derive(Debug, Clone)]
pub struct OptimizeResponse {
    pub success: bool,
    pub gates: Option<Vec<[u8; 3]>>,
    pub num_gates: Option<usize>,
    pub error: Option<String>,
}

/// The request for a subcircuit, with the optimizer's time limit of 30.
pub fn optimize_request(truth_tables: Vec<String>, num_inputs: usize, current_gates: usize) -> (r:
    OptimizeRequest)
    ensures
        r.num_inputs == num_inputs,
        r.output_truth_tables == truth_tables,
        r.current_num_gates == current_gates,
        r.time_limit == 30,
{
    OptimizeRequest {
        num_inputs,
        output_truth_tables: truth_tables,
        current_num_gates: current_gates,
        time_limit: 30,
    }
}

/// The optimized gates of a reply: its gates when it reports success,
/// `None` otherwise.
pub fn optimized_gates(response: OptimizeResponse) -> (r: Option<Vec<[u8; 3]>>)
    ensures
        response.success ==> r == response.gates,
        !response.success ==> r is None,
{
    if response.success {
        response.gates
    } else {
        None
    }
}

} // verus!
