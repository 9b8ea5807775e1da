use spooler::Task;
use spooler::TaskSettings;
use spooler::dates::format_rfc3339;
use spooler::queue::BasicQueue;
use spooler::queue::Heap;
use spooler::queue::Queue;
use spooler::sched::App;
use spooler::sched::LineOutcome;
use spooler::text::chars_to_string;

const T0: i64 = 1_000_000_000_000;

fn plain_task(queue: usize, id: &str, eta: Option<i64>) -> Task {
    Task {
        queue,
        id: String::from(id),
        eta,
        task_type: 4,
        payload: None,
        settings: None,
    }
}

fn eta_text(ms: i64) -> String {
    chars_to_string(&format_rfc3339(ms))
}

fn app_with_queues(n: usize) -> App {
    let mut app = App::new();
    for _ in 0..n {
        app.add_new_empty_queue();
    }
    app
}

#[test]
fn immediate_dispatch_within_one_tick() {
    // one queue; a task without an eta is dispatched on the first poll
    // and the queue is empty afterwards
    let mut app = app_with_queues(1);
    assert!(matches!(
        app.accept_line("{\"queue\":0,\"id\":\"a\",\"task_type\":4}"),
        LineOutcome::Accepted
    ));
    let due = app.poll_queues(T0);
    assert_eq!(due.len(), 1);
    assert_eq!(due[0].id, "a");
    assert!(app.poll_queues(T0).is_empty());
}

#[test]
fn future_dispatch_waits_for_the_window() {
    // eta ten seconds out: nothing before the three-second tolerance
    // opens, exactly one dispatch once it does
    let mut app = app_with_queues(1);
    let line = format!(
        "{{\"queue\":0,\"id\":\"b\",\"task_type\":4,\"eta\":\"{}\"}}",
        eta_text(T0 + 10_000)
    );
    assert!(matches!(app.accept_line(line.as_str()), LineOutcome::Accepted));
    assert!(app.poll_queues(T0).is_empty());
    assert!(app.poll_queues(T0 + 6_999).is_empty());
    let due = app.poll_queues(T0 + 7_001);
    assert_eq!(due.len(), 1);
    assert_eq!(due[0].id, "b");
    assert!(app.poll_queues(T0 + 10_000).is_empty());
}

#[test]
fn finite_retry_dispatches_retries_plus_one_times() {
    // repeat_interval 1s, retries 2: exactly three dispatches
    let mut app = app_with_queues(1);
    let line = format!(
        "{{\"queue\":0,\"id\":\"c\",\"task_type\":4,\"eta\":\"{}\",\"settings\":{{\"repeat_interval\":1,\"retries\":2}}}}",
        eta_text(T0)
    );
    assert!(matches!(app.accept_line(line.as_str()), LineOutcome::Accepted));
    let mut dispatched = Vec::new();
    for tick in 0..6 {
        for t in app.poll_queues(T0 + tick * 1_000) {
            dispatched.push(t);
        }
    }
    assert_eq!(dispatched.len(), 3);
    assert_eq!(dispatched[0].eta, Some(T0));
    assert_eq!(dispatched[1].eta, Some(T0 + 1_000));
    assert_eq!(dispatched[2].eta, Some(T0 + 2_000));
    assert_eq!(dispatched[2].settings.as_ref().unwrap().retries, Some(0));
}

#[test]
fn earlier_eta_dispatches_first() {
    // "late" admitted before "early"; the first dispatch is "early"
    let mut app = app_with_queues(1);
    let late = format!(
        "{{\"queue\":0,\"id\":\"late\",\"task_type\":4,\"eta\":\"{}\"}}",
        eta_text(T0 + 5_000)
    );
    let early = format!(
        "{{\"queue\":0,\"id\":\"early\",\"task_type\":4,\"eta\":\"{}\"}}",
        eta_text(T0 + 1_000)
    );
    assert!(matches!(app.accept_line(late.as_str()), LineOutcome::Accepted));
    assert!(matches!(app.accept_line(early.as_str()), LineOutcome::Accepted));
    let due = app.poll_queues(T0 + 1_000);
    assert!(!due.is_empty());
    assert_eq!(due[0].id, "early");
}

#[test]
fn queues_dispatch_independently() {
    // queue 0 blocked behind a far eta; queue 1 dispatches at once
    let mut app = app_with_queues(2);
    let blocked = format!(
        "{{\"queue\":0,\"id\":\"blocked\",\"task_type\":4,\"eta\":\"{}\"}}",
        eta_text(T0 + 100_000)
    );
    assert!(matches!(app.accept_line(blocked.as_str()), LineOutcome::Accepted));
    assert!(matches!(
        app.accept_line("{\"queue\":1,\"id\":\"free\",\"task_type\":4}"),
        LineOutcome::Accepted
    ));
    let due = app.poll_queues(T0);
    assert_eq!(due.len(), 1);
    assert_eq!(due[0].id, "free");
}

#[test]
fn admission_continues_while_dispatch_waits() {
    // while nothing consumes dispatched work, admission keeps
    // accepting lines; once polling resumes, everything drains (the
    // bounded channel itself lives with the runtime around the engine)
    let mut app = app_with_queues(1);
    for i in 0..20 {
        let line = format!("{{\"queue\":0,\"id\":\"t{}\",\"task_type\":4}}", i);
        assert!(matches!(app.accept_line(line.as_str()), LineOutcome::Accepted));
    }
    let mut drained = 0;
    loop {
        let due = app.poll_queues(T0);
        if due.is_empty() {
            break;
        }
        drained += due.len();
    }
    assert_eq!(drained, 20);
}

#[test]
fn bad_lines_are_skipped() {
    let mut app = app_with_queues(1);
    assert!(matches!(app.accept_line("not json at all"), LineOutcome::BadLine));
    assert!(matches!(
        app.accept_line("{\"queue\":7,\"id\":\"x\",\"task_type\":4}"),
        LineOutcome::NoSuchQueue
    ));
    assert!(app.poll_queues(T0).is_empty());
}

#[test]
fn tolerance_window_boundary() {
    let t = plain_task(0, "w", Some(T0 + 3_000));
    assert!(!t.should_run_now(T0));
    let t2 = plain_task(0, "w", Some(T0 + 2_999));
    assert!(t2.should_run_now(T0));
    let past = plain_task(0, "w", Some(T0 - 50_000));
    assert!(past.should_run_now(T0));
    let now_task = plain_task(0, "w", None);
    assert!(now_task.should_run_now(T0));
    assert!(now_task.ranks_no_later(&t));
    assert!(!t.ranks_no_later(&t2));
    assert!(t2.ranks_no_later(&t));
}

#[test]
fn heap_pops_in_ascending_eta_order() {
    let mut heap = Heap::new();
    for (id, eta) in [("d", 4_000), ("a", 1_000), ("c", 3_000), ("b", 2_000), ("e", 5_000)] {
        heap.insert(plain_task(0, id, Some(T0 + eta)));
    }
    heap.insert(plain_task(0, "now", None));
    let mut popped = Vec::new();
    while let Some(t) = heap.pop() {
        popped.push(t.id);
    }
    assert_eq!(popped, vec!["now", "a", "b", "c", "d", "e"]);
}

#[test]
fn heap_peek_matches_pop() {
    let mut heap = Heap::new();
    heap.insert(plain_task(0, "b", Some(T0 + 2_000)));
    heap.insert(plain_task(0, "a", Some(T0 + 1_000)));
    assert_eq!(heap.len(), 2);
    let front = heap.peek().unwrap().id.clone();
    assert_eq!(front, "a");
    assert_eq!(heap.pop().unwrap().id, "a");
    assert_eq!(heap.len(), 1);
}

#[test]
fn heap_bubble_down_keeps_contents() {
    let mut heap = Heap::new();
    heap.insert(plain_task(0, "a", Some(T0 + 1_000)));
    heap.insert(plain_task(0, "b", Some(T0 + 2_000)));
    heap.bubble_down(0);
    heap.bubble_down(5);
    assert_eq!(heap.len(), 2);
    assert_eq!(heap.pop().unwrap().id, "a");
    assert_eq!(heap.pop().unwrap().id, "b");
}

#[test]
fn basic_queue_is_first_in_first_out() {
    let mut q: BasicQueue<u32> = BasicQueue::new();
    assert!(q.peek().is_none());
    q.insert(1);
    q.insert(2);
    q.insert(3);
    q.bubble_down(0);
    assert_eq!(q.len(), 3);
    assert_eq!(q.peek(), Some(&1));
    assert_eq!(q.pop(), Some(1));
    assert_eq!(q.pop(), Some(2));
    assert_eq!(q.pop(), Some(3));
    assert_eq!(q.pop(), None);
}

#[test]
fn reschedule_policy_cases() {
    let mut t = plain_task(0, "r", Some(T0));
    assert!(!t.should_reschedule());
    t.settings = Some(TaskSettings {
        repeat_interval: None,
        retries: None,
        url: None,
        headers: None,
        method: None,
        function_name: None,
    });
    assert!(!t.should_reschedule());
    t.settings.as_mut().unwrap().repeat_interval = Some(0);
    assert!(!t.should_reschedule());
    t.settings.as_mut().unwrap().repeat_interval = Some(5);
    assert!(t.should_reschedule());
    t.settings.as_mut().unwrap().retries = Some(0);
    assert!(!t.should_reschedule());
    t.settings.as_mut().unwrap().retries = Some(-1);
    assert!(t.should_reschedule());
    t.settings.as_mut().unwrap().retries = Some(3);
    assert!(t.should_reschedule());
}

#[test]
fn next_instance_advances_eta_and_counts_down() {
    let mut t = plain_task(0, "n", Some(T0));
    t.payload = Some(String::from("p"));
    t.settings = Some(TaskSettings {
        repeat_interval: Some(7),
        retries: Some(2),
        url: Some(String::from("u")),
        headers: None,
        method: None,
        function_name: None,
    });
    let n1 = t.get_next();
    assert_eq!(n1.eta, Some(T0 + 7_000));
    assert_eq!(n1.queue, t.queue);
    assert_eq!(n1.id, t.id);
    assert_eq!(n1.payload, t.payload);
    assert_eq!(n1.settings.as_ref().unwrap().retries, Some(1));
    assert_eq!(n1.settings.as_ref().unwrap().url.as_deref(), Some("u"));
    let n2 = n1.get_next();
    assert_eq!(n2.eta, Some(T0 + 14_000));
    assert_eq!(n2.settings.as_ref().unwrap().retries, Some(0));
    assert!(!n2.should_reschedule());
}

#[test]
fn sentinel_retries_never_run_out() {
    let mut t = plain_task(0, "s", Some(T0));
    t.settings = Some(TaskSettings {
        repeat_interval: Some(1),
        retries: Some(-1),
        url: None,
        headers: None,
        method: None,
        function_name: None,
    });
    let mut cur = t;
    for step in 1..=50 {
        assert!(cur.should_reschedule());
        cur = cur.get_next();
        assert_eq!(cur.eta, Some(T0 + step * 1_000));
        assert_eq!(cur.settings.as_ref().unwrap().retries, Some(-1));
    }
}

#[test]
fn recurring_chain_keeps_one_instance_pending() {
    // an infinite chain: after every poll the queue holds exactly one
    // (later) instance of the task
    let mut app = app_with_queues(1);
    let line = format!(
        "{{\"queue\":0,\"id\":\"inf\",\"task_type\":4,\"eta\":\"{}\",\"settings\":{{\"repeat_interval\":10,\"retries\":-1}}}}",
        eta_text(T0)
    );
    assert!(matches!(app.accept_line(line.as_str()), LineOutcome::Accepted));
    let mut now = T0;
    for _ in 0..5 {
        let due = app.poll_queues(now);
        assert_eq!(due.len(), 1);
        assert_eq!(due[0].id, "inf");
        now += 10_000;
    }
}

#[test]
fn poll_one_reaches_only_its_queue() {
    let mut app = app_with_queues(2);
    assert!(app.insert_task(plain_task(0, "zero", None)));
    assert!(app.insert_task(plain_task(1, "one", None)));
    let got = app.poll_one(1, T0);
    assert_eq!(got.unwrap().id, "one");
    let got0 = app.poll_one(0, T0);
    assert_eq!(got0.unwrap().id, "zero");
    assert!(app.poll_one(0, T0).is_none());
}

#[test]
fn insert_task_rejects_out_of_range_queue() {
    let mut app = app_with_queues(1);
    assert!(!app.insert_task(plain_task(5, "x", None)));
    assert!(app.poll_queues(T0).is_empty());
}
