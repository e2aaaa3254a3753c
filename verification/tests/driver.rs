use spanda::driver::{AnimationDriver, AnimationId};

/// A stand-in animation that runs for a fixed number of ticks.
struct Ticks(u32);

fn tick(driver: &mut AnimationDriver<Ticks>) {
    let n = driver.active_count();
    let mut running = Vec::new();
    for i in 0..n {
        let anim = driver.animation_mut(i);
        anim.0 = anim.0.saturating_sub(1);
        running.push(anim.0 > 0);
    }
    driver.retain_running(&running);
}

#[test]
fn completed_animations_are_removed() {
    let mut driver = AnimationDriver::new();
    driver.add(Ticks(1));
    assert_eq!(driver.active_count(), 1);
    tick(&mut driver);
    assert_eq!(driver.active_count(), 0);
}

#[test]
fn cancel_removes_animation() {
    let mut driver = AnimationDriver::new();
    let id = driver.add(Ticks(10));
    assert_eq!(driver.active_count(), 1);
    driver.cancel(id);
    assert_eq!(driver.active_count(), 0);
}

#[test]
fn cancel_all_clears_everything() {
    let mut driver = AnimationDriver::new();
    driver.add(Ticks(10));
    driver.add(Ticks(10));
    driver.add(Ticks(10));
    assert_eq!(driver.active_count(), 3);
    driver.cancel_all();
    assert_eq!(driver.active_count(), 0);
}

#[test]
fn multiple_animations_tick_independently() {
    let mut driver = AnimationDriver::new();
    driver.add(Ticks(1));
    driver.add(Ticks(2));
    tick(&mut driver);
    assert_eq!(driver.active_count(), 1);
    tick(&mut driver);
    assert_eq!(driver.active_count(), 0);
}

#[test]
fn cancel_nonexistent_id_is_noop() {
    let mut driver = AnimationDriver::new();
    driver.add(Ticks(10));
    driver.cancel(AnimationId::new(999));
    assert_eq!(driver.active_count(), 1);
}

#[test]
fn ids_are_sequential_and_not_reused() {
    let mut driver = AnimationDriver::new();
    let a = driver.add(Ticks(5));
    let b = driver.add(Ticks(5));
    assert_eq!(a, AnimationId::new(0));
    assert_eq!(b, AnimationId::new(1));
    driver.cancel(a);
    let c = driver.add(Ticks(5));
    assert_eq!(c, AnimationId::new(2));
    // cancelling the id just added undoes the addition
    driver.cancel(c);
    assert_eq!(driver.active_count(), 1);
    assert_eq!(driver.animation_mut(0).0, 5);
}

#[test]
fn retain_keeps_order_of_running() {
    let mut driver = AnimationDriver::new();
    driver.add(Ticks(3));
    driver.add(Ticks(1));
    driver.add(Ticks(4));
    tick(&mut driver);
    assert_eq!(driver.active_count(), 2);
    assert_eq!(driver.animation_mut(0).0, 2);
    assert_eq!(driver.animation_mut(1).0, 3);
}

#[test]
fn ids_from_same_value_are_equal() {
    assert_eq!(AnimationId::new(7), AnimationId::new(7));
    assert_ne!(AnimationId::new(7), AnimationId::new(8));
}

#[test]
fn tick_with_steps_each_once_and_keeps_running_in_order() {
    let mut driver = AnimationDriver::new();
    let a = driver.add(Ticks(3));
    driver.add(Ticks(1));
    let c = driver.add(Ticks(2));
    driver.tick_with(|mut t: Ticks| {
        t.0 -= 1;
        let running = t.0 > 0;
        (t, running)
    });
    assert_eq!(driver.active_count(), 2);
    assert_eq!(driver.animation_mut(0).0, 2);
    assert_eq!(driver.animation_mut(1).0, 1);
    driver.cancel(a);
    driver.cancel(c);
    assert_eq!(driver.active_count(), 0);
}
