use yazi_shared::{Event, Poller, Progress};

fn run(events: Vec<Event<&'static str>>) -> (Vec<Progress<&'static str>>, Poller) {
    let mut poller = Poller::new();
    let mut sent = Vec::new();
    for event in events {
        sent.extend(poller.on_event(event));
    }
    (sent, poller)
}

fn deltas(sent: &[Progress<&'static str>]) -> u64 {
    sent.iter()
        .map(|m| match m {
            Progress::Delta(n) => *n,
            Progress::Error(_) => 0,
        })
        .sum()
}

#[test]
fn new_poller_has_reported_nothing() {
    let poller = Poller::new();
    assert_eq!(poller.last, 0);
    assert!(!poller.done);
}

#[test]
fn tick_reports_growth_only() {
    let mut poller = Poller::new();
    assert_eq!(poller.on_event::<&str>(Event::Tick(Some(100))), vec![Progress::Delta(100)]);
    assert_eq!(poller.on_event::<&str>(Event::Tick(Some(100))), vec![]);
    assert_eq!(poller.on_event::<&str>(Event::Tick(Some(40))), vec![]);
    assert_eq!(poller.on_event::<&str>(Event::Tick(Some(250))), vec![Progress::Delta(150)]);
    assert_eq!(poller.last, 250);
    assert!(!poller.done);
}

#[test]
fn unreadable_destination_counts_as_empty() {
    let mut poller = Poller::new();
    assert_eq!(poller.on_event::<&str>(Event::Tick(None)), vec![]);
    assert_eq!(poller.on_event::<&str>(Event::Tick(Some(7))), vec![Progress::Delta(7)]);
    assert_eq!(poller.on_event::<&str>(Event::Tick(None)), vec![]);
    assert_eq!(poller.last, 7);
}

#[test]
fn successful_copy_sums_to_length_and_ends_with_zero() {
    let (sent, poller) = run(vec![
        Event::Tick(Some(0)),
        Event::Tick(Some(300)),
        Event::Tick(Some(300)),
        Event::Tick(Some(700)),
        Event::Finished(Ok(1000)),
    ]);
    assert_eq!(
        sent,
        vec![
            Progress::Delta(300),
            Progress::Delta(400),
            Progress::Delta(300),
            Progress::Delta(0)
        ]
    );
    assert_eq!(deltas(&sent), 1000);
    assert!(poller.done);
    assert_eq!(poller.last, 1000);
}

#[test]
fn successful_copy_without_ticks() {
    let (sent, _) = run(vec![Event::Finished(Ok(42))]);
    assert_eq!(sent, vec![Progress::Delta(42), Progress::Delta(0)]);
}

#[test]
fn successful_copy_of_empty_file() {
    let (sent, _) = run(vec![Event::Tick(Some(0)), Event::Finished(Ok(0))]);
    assert_eq!(sent, vec![Progress::Delta(0)]);
}

#[test]
fn successful_copy_fully_sampled_sends_no_catch_up() {
    let (sent, _) = run(vec![Event::Tick(Some(10)), Event::Finished(Ok(10))]);
    assert_eq!(sent, vec![Progress::Delta(10), Progress::Delta(0)]);
}

#[test]
fn sample_above_final_length_is_not_taken_back() {
    let (sent, poller) = run(vec![Event::Tick(Some(12)), Event::Finished(Ok(10))]);
    assert_eq!(sent, vec![Progress::Delta(12), Progress::Delta(0)]);
    assert_eq!(poller.last, 12);
}

#[test]
fn failed_copy_ends_with_one_error() {
    let (sent, poller) = run(vec![
        Event::Tick(Some(5)),
        Event::Finished(Err("disk full")),
        Event::Tick(Some(9)),
        Event::Finished(Ok(9)),
    ]);
    assert_eq!(sent, vec![Progress::Delta(5), Progress::Error("disk full")]);
    assert!(poller.done);
}

#[test]
fn closed_channel_stops_the_poller_silently() {
    let (sent, poller) = run(vec![
        Event::Tick(Some(5)),
        Event::Closed,
        Event::Tick(Some(9)),
        Event::Finished(Ok(20)),
    ]);
    assert_eq!(sent, vec![Progress::Delta(5)]);
    assert!(poller.done);
    assert_eq!(poller.last, 5);
}

#[test]
fn nothing_is_sent_after_completion() {
    let (sent, _) = run(vec![
        Event::Finished(Ok(3)),
        Event::Tick(Some(100)),
        Event::Finished(Err("late")),
        Event::Closed,
    ]);
    assert_eq!(sent, vec![Progress::Delta(3), Progress::Delta(0)]);
}

#[test]
fn zero_delta_is_only_the_last_message() {
    let (sent, _) = run(vec![
        Event::Tick(Some(0)),
        Event::Tick(None),
        Event::Tick(Some(1)),
        Event::Tick(Some(1)),
        Event::Tick(Some(u64::MAX)),
        Event::Finished(Ok(u64::MAX)),
    ]);
    assert_eq!(sent.last(), Some(&Progress::Delta(0)));
    for m in &sent[..sent.len() - 1] {
        assert!(matches!(m, Progress::Delta(n) if *n > 0));
    }
    assert_eq!(deltas(&sent), u64::MAX);
}
