use spanda::clock::WallClock;

#[test]
fn wall_clock_returns_positive() {
    let mut clock = WallClock::new();
    let wait = std::time::Instant::now();
    while wait.elapsed() < std::time::Duration::from_millis(10) {}
    let dt = clock.lap().as_secs_f32();
    assert!(dt > 0.0);
}

#[test]
fn wall_clock_laps_restart() {
    let mut clock = WallClock::new();
    let wait = std::time::Instant::now();
    while wait.elapsed() < std::time::Duration::from_millis(20) {}
    let first = clock.lap();
    let second = clock.lap();
    assert!(first >= std::time::Duration::from_millis(20));
    assert!(second < first);
}

#[test]
fn wall_clock_lap_at_measures_from_previous_reading() {
    let start = std::time::Instant::now();
    let mut clock = WallClock::starting_at(start);
    let later = start + std::time::Duration::from_millis(250);
    assert_eq!(clock.lap_at(later), std::time::Duration::from_millis(250));
    let later2 = later + std::time::Duration::from_millis(100);
    assert_eq!(clock.lap_at(later2), std::time::Duration::from_millis(100));
    // a reading earlier than the lap start gives zero
    assert_eq!(clock.lap_at(start), std::time::Duration::ZERO);
}
