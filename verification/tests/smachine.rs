use find_empty_folders::smachine::{Handler, Sm, STATES};

#[test]
fn new_machine_has_two_rows_of_handlers_and_is_idle() {
    let sm = Sm::new();
    let row = [Handler::Idle, Handler::Busy, Handler::Sleep, Handler::Done, Handler::Exit];
    assert_eq!(sm.s_transitions.len(), 2);
    assert_eq!(sm.s_transitions[0], row);
    assert_eq!(sm.s_transitions[1], row);
    assert_eq!(sm.cur_state(), STATES::STATE_IDLE);
    assert_eq!(sm.last_state(), STATES::STATE_IDLE);
}

#[test]
fn handlers_report_their_label_ten_times() {
    let mut sm = Sm::new();
    let mut a = String::from("a");
    let mut b = String::from("b");
    let outs = vec![
        (sm.state_idle(&mut a, &mut b), "Idle"),
        (sm.state_busy(&mut a, &mut b), "Busy"),
        (sm.state_sleep(&mut a, &mut b), "Sleep"),
        (sm.state_done(&mut a, &mut b), "Done"),
        (sm.state_exit(&mut a, &mut b), "Exit"),
    ];
    for (out, label) in outs {
        assert_eq!(out.lines.len(), 10);
        assert!(out.lines.iter().all(|l| l == label));
        assert_eq!(out.result, "");
    }
    assert_eq!(a, "a");
    assert_eq!(b, "b");
    assert_eq!(sm.cur_state(), STATES::STATE_IDLE);
}
