use hptp::stream::{AcceptScheduler, SHUFFLE_PERIOD};

#[test]
fn pick_takes_first_ready_in_probe_order() {
    let s = AcceptScheduler::new(3);
    assert_eq!(s.pick(&vec![false, true, true]), Some(1));
    assert_eq!(s.pick(&vec![true, true, true]), Some(0));
    assert_eq!(s.pick(&vec![false, false, true]), Some(2));
    assert_eq!(s.pick(&vec![false, false, false]), None);
}

#[test]
fn reshuffle_changes_the_probe_order() {
    let mut s = AcceptScheduler::new(3);
    assert!(s.reshuffle(&vec![2, 0, 1]));
    // all ready: the first of the new order wins
    assert_eq!(s.pick(&vec![true, true, true]), Some(2));
    assert_eq!(s.pick(&vec![true, true, false]), Some(0));
}

#[test]
fn reshuffle_rejects_non_permutations() {
    let mut s = AcceptScheduler::new(3);
    assert!(!s.reshuffle(&vec![0, 1]));
    assert!(!s.reshuffle(&vec![0, 1, 3]));
    assert!(!s.reshuffle(&vec![0, 1, 1]));
    // the schedule is unchanged
    assert_eq!(s.pick(&vec![true, true, true]), Some(0));
}

#[test]
fn shuffle_becomes_due_only_after_many_accepts() {
    let mut s = AcceptScheduler::new(2);
    for _ in 0..SHUFFLE_PERIOD - 1 {
        assert!(!s.note_accept());
    }
    assert!(s.note_accept());
    // due stays raised until a successful reshuffle resets it
    assert!(s.note_accept());
    assert!(s.reshuffle(&vec![1, 0]));
    assert!(!s.note_accept());
}
