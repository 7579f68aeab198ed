use data_structures::dispatcher::{DispatchTarget, Dispatcher};

fn run_round(d: &mut Dispatcher<&'static str>, gone: &[&str]) -> (Vec<&'static str>, DispatchTarget) {
    let mut sent = Vec::new();
    let mut round = d.start_dispatch();
    loop {
        match d.next_target(&round) {
            DispatchTarget::Send(i) => {
                let s = *d.subscriber(i);
                sent.push(s);
                let delivered = !gone.contains(&s);
                d.record_delivery(&mut round, delivered);
            }
            other => return (sent, other),
        }
    }
}

#[test]
fn dispatcher_starts_without_subscribers() {
    let mut d: Dispatcher<&'static str> = Dispatcher::new();
    assert_eq!(d.len(), 0);
    let (sent, end) = run_round(&mut d, &[]);
    assert!(sent.is_empty());
    assert_eq!(end, DispatchTarget::Done);
}

#[test]
fn dispatcher_sends_to_each_in_order() {
    let mut d = Dispatcher::new();
    d.subscribe("a");
    d.subscribe("b");
    d.subscribe("c");
    let (sent, end) = run_round(&mut d, &[]);
    assert_eq!(sent, vec!["a", "b", "c"]);
    assert_eq!(end, DispatchTarget::Done);
    assert_eq!(d.len(), 3);
}

#[test]
fn dispatcher_drops_last_gone_subscriber() {
    let mut d = Dispatcher::new();
    d.subscribe("a");
    d.subscribe("b");
    let (sent, end) = run_round(&mut d, &["b"]);
    assert_eq!(sent, vec!["a", "b"]);
    assert_eq!(end, DispatchTarget::Done);
    assert_eq!(d.len(), 1);
    assert_eq!(*d.subscriber(0), "a");
}

#[test]
fn dispatcher_early_gone_subscriber_runs_past_end() {
    let mut d = Dispatcher::new();
    d.subscribe("a");
    d.subscribe("b");
    d.subscribe("c");
    let (sent, end) = run_round(&mut d, &["a"]);
    // "a" is removed, "b" shifts into its place and is skipped
    assert_eq!(sent, vec!["a", "c"]);
    assert_eq!(end, DispatchTarget::Missing);
    assert_eq!(d.len(), 2);
    assert_eq!(*d.subscriber(0), "b");
    assert_eq!(*d.subscriber(1), "c");
}

#[test]
fn dispatcher_single_gone_subscriber_is_removed() {
    let mut d = Dispatcher::new();
    d.subscribe("a");
    let (sent, end) = run_round(&mut d, &["a"]);
    assert_eq!(sent, vec!["a"]);
    assert_eq!(end, DispatchTarget::Done);
    assert_eq!(d.len(), 0);
}

#[test]
fn dispatcher_subscriber_gets_only_later_rounds() {
    // each subscriber is a queue of received messages, identified by index
    let mut inbox: Vec<Vec<i32>> = vec![Vec::new(), Vec::new()];
    let mut d: Dispatcher<usize> = Dispatcher::new();
    d.subscribe(0);
    for m in [1, 2] {
        let mut round = d.start_dispatch();
        while let DispatchTarget::Send(i) = d.next_target(&round) {
            inbox[*d.subscriber(i)].push(m);
            d.record_delivery(&mut round, true);
        }
    }
    d.subscribe(1);
    for m in [3, 4] {
        let mut round = d.start_dispatch();
        while let DispatchTarget::Send(i) = d.next_target(&round) {
            inbox[*d.subscriber(i)].push(m);
            d.record_delivery(&mut round, true);
        }
    }
    assert_eq!(inbox[0], vec![1, 2, 3, 4]);
    assert_eq!(inbox[1], vec![3, 4]);
}

#[test]
fn dispatcher_live_subscriber_gets_later_rounds_when_last_is_gone() {
    // subscriber 2 is gone from the second round on; it is last in the list,
    // so the rounds still complete and subscriber 1 gets every later message
    let mut inbox: Vec<Vec<i32>> = vec![Vec::new(), Vec::new(), Vec::new()];
    let mut d: Dispatcher<usize> = Dispatcher::new();
    d.subscribe(0);
    let mut round_no = 0;
    let mut run = |d: &mut Dispatcher<usize>, m: i32, inbox: &mut Vec<Vec<i32>>, round_no: i32| {
        let mut round = d.start_dispatch();
        while let DispatchTarget::Send(i) = d.next_target(&round) {
            let who = *d.subscriber(i);
            let delivered = !(who == 2 && round_no >= 2);
            if delivered {
                inbox[who].push(m);
            }
            d.record_delivery(&mut round, delivered);
        }
        assert_eq!(d.next_target(&round), DispatchTarget::Done);
    };
    round_no += 1;
    run(&mut d, 1, &mut inbox, round_no);
    d.subscribe(1);
    d.subscribe(2);
    for m in [2, 3, 4] {
        round_no += 1;
        run(&mut d, m, &mut inbox, round_no);
    }
    assert_eq!(inbox[0], vec![1, 2, 3, 4]);
    assert_eq!(inbox[1], vec![2, 3, 4]);
    assert!(inbox[2].is_empty());
    assert_eq!(d.len(), 2);
}
