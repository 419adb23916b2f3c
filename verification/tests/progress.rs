use replibyte::progress::{Action, Poll, ProgressEvent, ProgressMonitor, ProgressQueue};

fn ev(transferred: u64, total: u64) -> ProgressEvent {
    ProgressEvent { transferred, total }
}

#[test]
fn queue_hands_reports_out_in_order() {
    let mut q = ProgressQueue::new(4);
    assert_eq!(q.try_recv(), None);
    q.send(ev(1, 9));
    q.send(ev(2, 9));
    assert_eq!(q.try_recv(), Some(ev(1, 9)));
    assert_eq!(q.try_recv(), Some(ev(2, 9)));
    assert_eq!(q.try_recv(), None);
}

#[test]
fn full_queue_drops_its_oldest_report() {
    let mut q = ProgressQueue::new(2);
    for i in 1..=5 {
        q.send(ev(i, 5));
    }
    assert_eq!(q.waiting, vec![ev(4, 5), ev(5, 5)]);
    assert_eq!(q.try_recv(), Some(ev(4, 5)));
    assert_eq!(q.try_recv(), Some(ev(5, 5)));
    assert_eq!(q.try_recv(), None);
}

#[test]
fn queue_without_room_takes_nothing_and_never_waits() {
    let mut q = ProgressQueue::new(0);
    q.send(ev(1, 1));
    q.send(ev(2, 2));
    assert_eq!(q.try_recv(), None);
}

#[test]
fn monitor_shows_the_last_report_again_when_nothing_came() {
    let mut m = ProgressMonitor::new();
    assert_eq!(m.observe(None), ev(0, 0));
    assert_eq!(m.observe(Some(ev(10, 100))), ev(10, 100));
    assert_eq!(m.observe(None), ev(10, 100));
    assert_eq!(m.observe(Some(ev(60, 100))), ev(60, 100));
    assert_eq!(m.observe(None), ev(60, 100));
    assert_eq!(m.last, ev(60, 100));
}

#[test]
fn display_ends_on_the_newest_report() {
    let mut q = ProgressQueue::new(3);
    let mut m = ProgressMonitor::new();
    for i in 1..=10 {
        q.send(ev(i, 10));
    }
    let mut shown = m.observe(q.try_recv());
    while !q.waiting.is_empty() {
        shown = m.observe(q.try_recv());
    }
    assert_eq!(shown, ev(10, 10));
    assert_eq!(m.observe(q.try_recv()), ev(10, 10));
}

#[test]
fn closed_queue_hands_out_what_waits_before_it_says_so() {
    let mut q = ProgressQueue::new(4);
    assert_eq!(q.poll(), Poll::Empty);
    q.send(ev(1, 2));
    q.send(ev(2, 2));
    q.close();
    assert!(q.closed);
    assert_eq!(q.poll(), Poll::Report(ev(1, 2)));
    assert_eq!(q.poll(), Poll::Report(ev(2, 2)));
    assert_eq!(q.poll(), Poll::Closed);
    assert_eq!(q.poll(), Poll::Closed);
}

#[test]
fn display_shows_what_comes_stays_when_nothing_comes_and_ends_when_nothing_will() {
    let mut m = ProgressMonitor::new();
    assert_eq!(m.react(Poll::Empty), Action::Keep(ev(0, 0)));
    assert_eq!(m.react(Poll::Report(ev(5, 9))), Action::Show(ev(5, 9)));
    assert_eq!(m.react(Poll::Empty), Action::Keep(ev(5, 9)));
    assert_eq!(m.react(Poll::Report(ev(9, 9))), Action::Show(ev(9, 9)));
    assert_eq!(m.react(Poll::Closed), Action::Finish(ev(9, 9)));
    assert_eq!(m.last, ev(9, 9));
}

#[test]
fn display_of_a_full_queue_ends_on_the_newest_report() {
    let mut q = ProgressQueue::new(2);
    let mut m = ProgressMonitor::new();
    for i in 1..=7 {
        q.send(ev(i, 7));
    }
    q.close();
    let mut shown = Vec::new();
    loop {
        match m.react(q.poll()) {
            Action::Show(event) => shown.push(event),
            Action::Keep(_) => panic!("a closed queue is never just empty"),
            Action::Finish(last) => {
                assert_eq!(last, ev(7, 7));
                break;
            }
        }
    }
    assert_eq!(shown, vec![ev(6, 7), ev(7, 7)]);
}
