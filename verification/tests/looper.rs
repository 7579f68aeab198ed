use data_structures::looper::{looper_step, LooperAction, LooperEvent};

#[test]
fn looper_processes_messages() {
    assert!(matches!(looper_step(LooperEvent::Message(3)), LooperAction::Process(3)));
}

#[test]
fn looper_cleans_up_on_disconnect() {
    assert!(matches!(looper_step(LooperEvent::<i32>::Disconnected), LooperAction::CleanUpAndStop));
}

#[test]
fn looper_processes_in_order_then_cleans_up_once() {
    let events = vec![
        LooperEvent::Message(1),
        LooperEvent::Message(2),
        LooperEvent::Message(3),
        LooperEvent::Disconnected,
    ];
    let mut processed = Vec::new();
    let mut cleanups = 0;
    for e in events {
        match looper_step(e) {
            LooperAction::Process(m) => processed.push(m),
            LooperAction::CleanUpAndStop => {
                cleanups += 1;
                break;
            }
        }
    }
    assert_eq!(processed, vec![1, 2, 3]);
    assert_eq!(cleanups, 1);
}
