//! Plain value types handed to the circuit-side collaborators: lists of
//! qubit line numbers naming the targets and controls of a gate
//! application. The constructors copy a borrowed slice of line numbers
//! into an owned list.

use vstd::prelude::*;

verus! {

/// Target qubit lines for a gate application.
pub struct Targets {
    pub targets: Vec<usize>,
}

/// Control qubit lines for a controlled gate application.
pub struct Controls {
    pub controls: Vec<usize>,
}

/// Copies a borrowed slice of qubit line numbers into an owned list.
fn copy_lines(lines: &[usize]) -> (r: Vec<usize>)
    ensures
        r@ == lines@,
{
    let mut v: Vec<usize> = Vec::new();
    let mut i: usize = 0;
    while i < lines.len()
        invariant
            i <= lines@.len(),
            v@ == lines@.take(i as int),
        decreases lines@.len() - i,
    {
        v.push(lines[i]);
        i = i + 1;
    }
    proof {
        assert(v@ == lines@.take(lines@.len() as int));
        assert(lines@.take(lines@.len() as int) == lines@);
    }
    v
}

/// Builds the target list for a gate application.
#[allow(non_snake_case)]
pub fn Targets(targets: &[usize]) -> (r: Targets)
    ensures
        r.targets@ == targets@,
{
    Targets { targets: copy_lines(targets) }
}

/// Builds the control list for a controlled gate application.
#[allow(non_snake_case)]
pub fn Controls(controls: &[usize]) -> (r: Controls)
    ensures
        r.controls@ == controls@,
{
    Controls { controls: copy_lines(controls) }
}

/// Copies a borrowed slice of qubit line numbers into an owned list.
#[allow(non_snake_case)]
pub fn Qubits(qubits: &[usize]) -> (r: Vec<usize>)
    ensures
        r@ == qubits@,
{
    copy_lines(qubits)
}

} // verus!
