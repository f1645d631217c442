use quojo_rust::circuits::{Controls, Qubits, Targets};

#[test]
fn targets_copies_the_lines() {
    let t = Targets(&[0, 2, 5]);
    assert_eq!(t.targets, vec![0, 2, 5]);
}

#[test]
fn targets_of_empty_slice_is_empty() {
    let t = Targets(&[]);
    assert!(t.targets.is_empty());
}

#[test]
fn controls_copies_the_lines() {
    let c = Controls(&[1, 3]);
    assert_eq!(c.controls, vec![1, 3]);
}

#[test]
fn qubits_copies_the_lines() {
    assert_eq!(Qubits(&[4, 4, 0]), vec![4, 4, 0]);
}
