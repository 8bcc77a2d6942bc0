use skynet::wait::{wait_step, WaitStep};

#[test]
fn a_server_is_tried_fifty_times() {
    let mut attempts = 0;
    let mut paused = 0;
    loop {
        attempts += 1;
        match wait_step(attempts, false) {
            WaitStep::Ready => panic!("ready"),
            WaitStep::Retry { pause_ms } => paused += pause_ms,
            WaitStep::GiveUp { pause_ms } => {
                paused += pause_ms;
                break;
            }
        }
    }
    assert_eq!(attempts, 50);
    assert_eq!(paused, 1000);
}

#[test]
fn a_server_that_answers_is_ready() {
    assert_eq!(wait_step(0, true), WaitStep::Ready);
    assert_eq!(wait_step(60, true), WaitStep::Ready);
    assert_eq!(wait_step(1, false), WaitStep::Retry { pause_ms: 20 });
}
