use maze_search::clock::Clock;
use maze_search::clock::StepBudget;
use maze_search::clock::TimeKeeper;

#[test]
fn step_budget_lets_its_checks_pass_then_expires() {
    let mut clock = StepBudget::new(3);
    assert_eq!(clock.left(), 3);
    assert!(!clock.expired());
    assert!(!clock.expired());
    assert_eq!(clock.left(), 1);
    assert!(!clock.expired());
    assert_eq!(clock.left(), 0);
    assert!(clock.expired());
    assert!(clock.expired());
    assert_eq!(clock.left(), 0);
}

#[test]
fn step_budget_of_zero_is_over_at_once() {
    let mut clock = StepBudget::new(0);
    assert!(clock.expired());
}

#[test]
fn time_keeper_with_no_budget_is_over_at_once() {
    let keeper = TimeKeeper::new(0);
    assert!(keeper.is_time_over());
    let mut keeper = keeper;
    assert!(keeper.expired());
}

#[test]
fn time_keeper_with_a_long_budget_is_not_over() {
    let mut keeper = TimeKeeper::new(3_600_000);
    assert!(!keeper.is_time_over());
    assert!(!keeper.expired());
}

#[test]
fn time_keeper_is_over_once_the_budget_has_passed() {
    let keeper = TimeKeeper::new(20);
    let start = std::time::Instant::now();
    while start.elapsed().as_millis() < 25 {
        std::hint::spin_loop();
    }
    assert!(keeper.is_time_over());
}

#[test]
fn time_keeper_is_over_from_its_budget_on() {
    let keeper = TimeKeeper::new(20);
    assert!(!keeper.is_over_after(0));
    assert!(!keeper.is_over_after(19));
    assert!(keeper.is_over_after(20));
    assert!(keeper.is_over_after(21));
    assert!(keeper.is_over_after(u128::MAX));
    let none = TimeKeeper::new(0);
    assert!(none.is_over_after(0));
    let long = TimeKeeper::new(usize::MAX);
    assert!(!long.is_over_after(usize::MAX as u128 - 1));
    assert!(long.is_over_after(usize::MAX as u128));
}
