use requiem_nif::connection::{
    drain_step, prefix_copy, send_step, DrainStep, timeout_millis, SendStep, DEFAULT_TIMEOUT_MS, EGRESS_LEN,
};
use requiem_nif::engine::EngineFault;

#[test]
fn no_timer_gives_default_interval() {
    assert_eq!(timeout_millis(None), 60000);
    assert_eq!(DEFAULT_TIMEOUT_MS, 60000);
}

#[test]
fn timer_is_handed_out_in_millis() {
    assert_eq!(timeout_millis(Some(0)), 0);
    assert_eq!(timeout_millis(Some(250)), 250);
    assert_eq!(timeout_millis(Some(60000)), 60000);
    assert_eq!(timeout_millis(Some(u64::MAX as u128)), u64::MAX);
}

#[test]
fn oversized_timer_saturates() {
    assert_eq!(timeout_millis(Some(u64::MAX as u128 + 1)), u64::MAX);
}

#[test]
fn partial_send_continues_from_new_offset() {
    assert_eq!(send_step(0, 3000, Ok(1200)), SendStep::Continue(1200));
    assert_eq!(send_step(1200, 3000, Ok(1200)), SendStep::Continue(2400));
    assert_eq!(send_step(2400, 3000, Ok(600)), SendStep::Finished);
}

#[test]
fn send_of_whole_payload_finishes() {
    assert_eq!(send_step(0, 5, Ok(5)), SendStep::Finished);
    assert_eq!(send_step(0, 0, Ok(0)), SendStep::Finished);
}

#[test]
fn exhausted_capacity_halts_without_error() {
    assert_eq!(send_step(1200, 3000, Err(EngineFault::Done)), SendStep::Halted);
}

#[test]
fn engine_failure_fails_send() {
    assert_eq!(send_step(0, 3000, Err(EngineFault::Failed)), SendStep::Failed);
}

#[test]
fn prefix_copy_takes_first_bytes() {
    let buf = [1u8, 2, 3, 4, 5];
    assert_eq!(prefix_copy(&buf, 3), vec![1u8, 2, 3]);
    assert_eq!(prefix_copy(&buf, 0), Vec::<u8>::new());
    assert_eq!(EGRESS_LEN, 1350);
}

#[test]
fn zero_length_acceptance_halts() {
    assert_eq!(send_step(1200, 3000, Ok(0)), SendStep::Halted);
}

#[test]
fn drain_emits_each_packet() {
    assert_eq!(drain_step(Ok(1200)), DrainStep::Emit(1200));
    assert_eq!(drain_step(Ok(0)), DrainStep::Emit(0));
}

#[test]
fn drain_stops_when_nothing_is_left() {
    assert_eq!(drain_step(Err(EngineFault::Done)), DrainStep::Stop);
}

#[test]
fn drain_fault_closes() {
    assert_eq!(drain_step(Err(EngineFault::Failed)), DrainStep::CloseAndStop);
}
