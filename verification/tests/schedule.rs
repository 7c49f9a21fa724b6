use energy_monitor::schedule::Periodic;

#[test]
fn schedule_fires_on_period_and_phase() {
    let s = Periodic::new(10, 1);
    assert!(s.due(1));
    assert!(s.due(11));
    assert!(!s.due(10));
    assert_eq!(s.next_after(0), 1);
    assert_eq!(s.next_after(1), 11);
    assert_eq!(s.next_after(15), 21);
}

#[test]
fn hourly_schedule_fires_at_its_phase() {
    let s = Periodic::new(3600, 120);
    assert!(s.due(120));
    assert!(s.due(3720));
    assert_eq!(s.next_after(120), 3720);
    assert_eq!(s.next_after(3000), 3720);
}
