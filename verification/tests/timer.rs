use simple_graphics_controller::timer::TimerList;

#[derive(Clone, Copy, Debug, PartialEq)]
enum Task {
    First,
    Second,
}

fn run(list: &mut TimerList<Task>, now: u64, counts: &mut (usize, usize)) {
    for task in list.fire_due(now) {
        match task {
            Task::First => counts.0 += 1,
            Task::Second => counts.1 += 1,
        }
    }
}

#[test]
fn fires_due_timer_once_and_reschedules_from_now() {
    let mut list: TimerList<Task> = TimerList::new();
    let mut fires = (0, 0);
    let t0 = 1000;
    list.register(t0, 10, Task::First);

    // Not due yet (first deadline t0 + 10).
    run(&mut list, t0 + 5, &mut fires);
    assert_eq!(fires.0, 0, "must not fire before the deadline");

    // Due: fires once, re-arms exactly a period after the fire time.
    let t_fire = t0 + 20;
    run(&mut list, t_fire, &mut fires);
    assert_eq!(fires.0, 1);
    assert_eq!(
        list.next_deadline(),
        Some(t_fire + 10),
        "re-armed from the fire time, not the missed deadline"
    );

    // Late wake-up: fires once, no catch-up burst.
    run(&mut list, t_fire + 50, &mut fires);
    assert_eq!(fires.0, 2, "late pass must fire exactly once");
}

#[test]
fn multiple_timers_fire_independently() {
    let mut list: TimerList<Task> = TimerList::new();
    let mut counts = (0, 0);
    let t0 = 0;
    list.register(t0, 10, Task::First);
    list.register(t0, 20, Task::Second);

    run(&mut list, t0 + 15, &mut counts);
    assert_eq!(counts, (1, 0), "only the 10ms timer is due at 15ms");

    run(&mut list, t0 + 25, &mut counts);
    assert_eq!(counts, (2, 1), "both due at 25ms");
}

#[test]
fn empty_list_has_no_deadline() {
    let mut list: TimerList<Task> = TimerList::new();
    assert_eq!(list.next_deadline(), None);
    assert!(list.fire_due(u64::MAX).is_empty());
}

#[test]
fn earliest_deadline_wins_and_order_is_kept() {
    let mut list: TimerList<Task> = TimerList::new();
    list.register(0, 33, Task::Second);
    list.register(0, 16, Task::First);
    assert_eq!(list.next_deadline(), Some(16));
    assert_eq!(list.fire_due(40), vec![Task::Second, Task::First]);
    assert_eq!(list.next_deadline(), Some(56));
    assert!(list.fire_due(40).is_empty());
    assert_eq!(list.fire_due(56), vec![Task::First]);
}
