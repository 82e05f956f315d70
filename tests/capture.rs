use audioboot::capture::{CaptureMachine, CaptureState};
use audioboot::mailbox::MyVolatileCell;

#[test]
fn capture_syncs_then_waits_then_runs() {
    let mut m = CaptureMachine::new();
    assert_eq!(m.on_capture(500), None);
    assert_eq!(m.state, CaptureState::Sync);
    assert_eq!(m.on_capture(1000), None);
    // (920 + 750) / 2
    assert_eq!(m.delay_time, 835);
    for _ in 0..14 {
        assert_eq!(m.on_capture(1000), None);
    }
    assert_eq!(m.state, CaptureState::Wait);
    assert_eq!(m.bit_count, 0);
    let d = m.delay_time;
    assert_eq!(m.on_capture(d + 10), None);
    assert_eq!(m.state, CaptureState::Wait);
    assert_eq!(m.on_capture(d - 10), None);
    assert_eq!(m.cap_count, 1);
    assert_eq!(m.on_capture(d - 10), None);
    assert_eq!(m.state, CaptureState::Run);
    assert_eq!(m.cap_count, 0);
}

#[test]
fn capture_assembles_a_byte() {
    let mut m = CaptureMachine::new();
    m.state = CaptureState::Run;
    m.delay_time = 100;
    m.shift_reg = 0;
    // a short interval with a clear low bit sets it
    assert_eq!(m.on_capture(50), None);
    assert_eq!(m.shift_reg, 1);
    let mut out = None;
    for _ in 0..8 {
        out = m.on_capture(200);
        if out.is_some() {
            break;
        }
    }
    assert_eq!(out, Some(0x80));
    assert_eq!(m.bit_count, 0);
}

#[test]
fn capture_timeout_returns_to_idle() {
    let mut m = CaptureMachine::new();
    m.on_capture(10);
    m.on_capture(10);
    m.on_timeout();
    assert_eq!(m.state, CaptureState::Idle);
    m.on_capture(10);
    assert_eq!(m.state, CaptureState::Sync);
    assert_eq!(m.bit_count, 0);
}

#[test]
fn mailbox_overwrites_and_take_empties() {
    let mut cell: MyVolatileCell<Option<u8>> = MyVolatileCell::new(None);
    assert_eq!(cell.take(), None);
    cell.set(Some(1));
    cell.set(Some(2));
    assert_eq!(cell.get(), Some(2));
    assert_eq!(cell.take(), Some(2));
    assert_eq!(cell.take(), None);
    assert_eq!(cell.replace(Some(7)), None);
    assert_eq!(cell.get(), Some(7));
}
