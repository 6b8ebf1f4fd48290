use bankers::error::ValidationError;
use bankers::process::Process;
use bankers::system::{BankersAlgorithm, SystemBuilder};

fn build(resources: Vec<u8>, processes: Vec<(Vec<u8>, Vec<u8>)>) -> Result<BankersAlgorithm, ValidationError> {
    let mut builder = SystemBuilder::new(resources);
    for (allocation, max_need) in processes {
        builder.add_process(allocation, max_need)?;
    }
    builder.finalize()
}

fn textbook_system() -> BankersAlgorithm {
    build(
        vec![10, 5, 7],
        vec![
            (vec![0, 1, 0], vec![7, 5, 3]),
            (vec![2, 0, 0], vec![3, 2, 2]),
            (vec![3, 0, 2], vec![9, 0, 2]),
            (vec![2, 1, 1], vec![2, 2, 2]),
            (vec![0, 0, 2], vec![4, 3, 3]),
        ],
    )
    .unwrap()
}

#[test]
fn process_need_is_max_need_minus_allocation() {
    let p = Process::new(3, vec![2, 0, 5], vec![7, 0, 9]).unwrap();
    assert_eq!(p.id(), 3);
    assert_eq!(p.allocation(), &vec![2, 0, 5]);
    assert_eq!(p.max_need(), &vec![7, 0, 9]);
    assert_eq!(p.need(), &vec![5, 0, 4]);
}

#[test]
fn process_with_empty_vectors_is_valid() {
    let p = Process::new(0, vec![], vec![]).unwrap();
    assert!(p.need().is_empty());
}

#[test]
fn process_length_mismatch() {
    let r = Process::new(0, vec![1, 2], vec![3]);
    assert_eq!(r.unwrap_err(), ValidationError::LengthMismatch);
}

#[test]
fn process_over_allocation_names_first_index() {
    let r = Process::new(0, vec![1, 5, 9], vec![1, 4, 2]);
    assert_eq!(r.unwrap_err(), ValidationError::OverAllocation { index: 1 });
}

#[test]
fn process_over_allocation_is_never_clamped() {
    for k in 0..4usize {
        let mut allocation = vec![1u8, 1, 1, 1];
        let max_need = vec![1u8, 1, 1, 1];
        allocation[k] = 2;
        let r = Process::new(7, allocation, max_need);
        assert_eq!(r.unwrap_err(), ValidationError::OverAllocation { index: k });
    }
}

#[test]
fn builder_assigns_sequential_ids() {
    let mut b = SystemBuilder::new(vec![4, 4]);
    assert_eq!(b.process_count(), 0);
    assert_eq!(b.add_process(vec![1, 0], vec![2, 2]), Ok(0));
    assert_eq!(b.add_process(vec![0, 1], vec![1, 1]), Ok(1));
    assert_eq!(b.process_count(), 2);
    assert_eq!(b.resources(), &vec![4, 4]);
}

#[test]
fn builder_rejects_length_mismatch_without_committing() {
    let mut b = SystemBuilder::new(vec![4, 4]);
    assert_eq!(b.add_process(vec![1], vec![2]), Err(ValidationError::LengthMismatch));
    assert_eq!(b.add_process(vec![1, 1], vec![2, 2, 2]), Err(ValidationError::LengthMismatch));
    assert_eq!(b.process_count(), 0);
    assert_eq!(b.add_process(vec![1, 1], vec![2, 2]), Ok(0));
}

#[test]
fn builder_rejects_over_allocation() {
    let mut b = SystemBuilder::new(vec![4, 4]);
    assert_eq!(
        b.add_process(vec![1, 3], vec![2, 2]),
        Err(ValidationError::OverAllocation { index: 1 })
    );
    assert_eq!(b.process_count(), 0);
}

#[test]
fn builder_rejects_need_beyond_capacity() {
    let mut b = SystemBuilder::new(vec![4, 4, 4]);
    assert_eq!(
        b.add_process(vec![0, 1, 0], vec![1, 6, 9]),
        Err(ValidationError::ExceedsCapacity { index: 1, value: 6, limit: 4 })
    );
    assert_eq!(
        b.add_process(vec![0, 1, 3], vec![1, 5, 0]),
        Err(ValidationError::OverAllocation { index: 2 })
    );
    assert_eq!(
        b.add_process(vec![0, 5, 0], vec![1, 5, 1]),
        Err(ValidationError::ExceedsCapacity { index: 1, value: 5, limit: 4 })
    );
    assert_eq!(b.process_count(), 0);
    let s = {
        assert_eq!(b.add_process(vec![0, 4, 0], vec![4, 4, 4]), Ok(0));
        b.finalize().unwrap()
    };
    assert_eq!(s.available(), &vec![4, 0, 4]);
}

#[test]
fn finalize_empty_system_fails() {
    let b = SystemBuilder::new(vec![3, 3]);
    assert_eq!(b.finalize().err(), Some(ValidationError::EmptySystem));
}

#[test]
fn finalize_overcommitted_fails() {
    let r = build(vec![5], vec![(vec![3], vec![5]), (vec![3], vec![5])]);
    assert_eq!(r.err(), Some(ValidationError::OverCommitted { index: 0, deficit: 1 }));
}

#[test]
fn finalize_overcommitted_reports_first_index() {
    let r = build(
        vec![5, 2, 1],
        vec![(vec![1, 2, 1], vec![1, 2, 1]), (vec![1, 2, 1], vec![5, 2, 1])],
    );
    assert_eq!(r.err(), Some(ValidationError::OverCommitted { index: 1, deficit: 2 }));
}

#[test]
fn finalize_exactly_full_system() {
    let s = build(vec![255], vec![(vec![255], vec![255])]).unwrap();
    assert_eq!(s.available(), &vec![0]);
    assert_eq!(s.is_safe_state(), Some(vec![0]));
}

#[test]
fn finalized_system_conserves_units() {
    let s = textbook_system();
    assert_eq!(s.resources(), &vec![10, 5, 7]);
    assert_eq!(s.available(), &vec![3, 3, 2]);
    for k in 0..3 {
        let held: u32 = s.processes().iter().map(|p| p.allocation()[k] as u32).sum();
        assert_eq!(held + s.available()[k] as u32, s.resources()[k] as u32);
    }
}

#[test]
fn textbook_system_is_safe() {
    let s = textbook_system();
    assert_eq!(s.is_safe_state(), Some(vec![1, 3, 4, 0, 2]));
}

#[test]
fn safe_sequence_never_needs_more_than_is_free() {
    let s = textbook_system();
    let sequence = s.is_safe_state().unwrap();
    let mut work: Vec<u32> = s.available().iter().map(|&a| a as u32).collect();
    for &id in &sequence {
        let p = &s.processes()[id];
        for k in 0..work.len() {
            assert!(p.need()[k] as u32 <= work[k]);
            work[k] += p.allocation()[k] as u32;
        }
    }
    assert_eq!(work, vec![10, 5, 7]);
}

#[test]
fn check_is_repeatable() {
    let s = textbook_system();
    let first = s.is_safe_state();
    let second = s.is_safe_state();
    assert_eq!(first, second);
    let unsafe_system = build(vec![3], vec![(vec![1], vec![3]); 3]).unwrap();
    assert_eq!(unsafe_system.is_safe_state(), unsafe_system.is_safe_state());
}

#[test]
fn three_waiting_processes_are_unsafe() {
    let s = build(vec![3], vec![(vec![1], vec![3]), (vec![1], vec![3]), (vec![1], vec![3])]).unwrap();
    assert_eq!(s.available(), &vec![0]);
    assert_eq!(s.is_safe_state(), None);
}

#[test]
fn satisfied_single_process_is_safe() {
    let s = build(vec![4, 2, 9], vec![(vec![4, 2, 0], vec![4, 2, 0])]).unwrap();
    assert_eq!(s.available(), &vec![0, 0, 9]);
    assert_eq!(s.is_safe_state(), Some(vec![0]));
}

#[test]
fn later_grant_in_same_scan_helps_later_process() {
    // P1 finishes first and frees enough for P2 in the same scan; P0 only
    // fits on the second scan.
    let s = build(
        vec![4],
        vec![(vec![0], vec![4]), (vec![1], vec![2]), (vec![2], vec![4])],
    )
    .unwrap();
    assert_eq!(s.available(), &vec![1]);
    assert_eq!(s.is_safe_state(), Some(vec![1, 2, 0]));
}

#[test]
fn partially_safe_system_is_unsafe() {
    // P0 can finish, but what it frees is not enough for either of the others.
    let s = build(vec![4], vec![(vec![1], vec![1]), (vec![1], vec![4]), (vec![1], vec![4])]).unwrap();
    assert_eq!(s.available(), &vec![1]);
    assert_eq!(s.is_safe_state(), None);
}
