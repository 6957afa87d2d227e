use snap_coin_pay::listener::ListenerStep;

#[test]
fn a_listener_that_is_shut_down_stops_at_once() {
    assert_eq!(ListenerStep::<u8>::next(true, None), ListenerStep::Stop);
    assert_eq!(ListenerStep::next(true, Some(1u8)), ListenerStep::Stop);
}

#[test]
fn a_listener_handles_an_event() {
    assert_eq!(ListenerStep::next(false, Some(1u8)), ListenerStep::Handle(1u8));
}

#[test]
fn a_listener_without_an_event_waits() {
    assert_eq!(ListenerStep::<u8>::next(false, None), ListenerStep::Wait { millis: 100 });
}
