use bus_exporter::mqtt::{mqtt_step, MqttAction, MqttEvent, MqttPhase, MqttState};
use bus_exporter::poll::{collector_step, PollAction, PollEvent, PollPhase, PollState};

#[test]
fn failed_connects_back_off_doubling_to_a_minute() {
    let mut s = PollState::new();
    assert_eq!(s.phase, PollPhase::Connecting);
    let mut waits = Vec::new();
    let mut connects = 1; // the loop's first action is to connect
    for _ in 0..9 {
        let (n, a) = collector_step(&s, PollEvent::ConnectFailed);
        match a {
            PollAction::Sleep(ms) => waits.push(ms),
            other => panic!("expected a wait, got {other:?}"),
        }
        let (n2, a2) = collector_step(&n, PollEvent::Woke);
        assert_eq!(a2, PollAction::Connect);
        connects += 1;
        s = n2;
    }
    assert_eq!(waits, vec![1000, 2000, 4000, 8000, 16000, 32000, 60000, 60000, 60000]);
    assert_eq!(connects, 10);
    let (s, a) = collector_step(&s, PollEvent::ConnectOk);
    assert_eq!(a, PollAction::Poll);
    assert_eq!(s, PollState { phase: PollPhase::Polling, backoff_ms: 1000 });
}

#[test]
fn read_errors_keep_polling_while_connected() {
    let s = PollState { phase: PollPhase::Polling, backoff_ms: 1000 };
    assert_eq!(collector_step(&s, PollEvent::ReadOk), (s, PollAction::ReadNext));
    assert_eq!(collector_step(&s, PollEvent::ReadFailed { still_connected: true }), (s, PollAction::ReadNext));
    let (done, a) = collector_step(&s, PollEvent::CycleDone);
    assert_eq!(a, PollAction::Publish);
    assert_eq!(done.backoff_ms, 1000);
    assert_eq!(collector_step(&done, PollEvent::Woke).1, PollAction::Poll);
}

#[test]
fn lost_connection_reconnects_with_backoff() {
    let s = PollState { phase: PollPhase::Polling, backoff_ms: 1000 };
    let (s, a) = collector_step(&s, PollEvent::ReadFailed { still_connected: false });
    assert_eq!(a, PollAction::DisconnectAndSleep(1000));
    assert_eq!(s.phase, PollPhase::Reconnecting);
    let (s, a) = collector_step(&s, PollEvent::Woke);
    assert_eq!(a, PollAction::Connect);
    let (s, a) = collector_step(&s, PollEvent::ConnectFailed);
    assert_eq!(a, PollAction::DisconnectAndSleep(2000));
    let (s, _) = collector_step(&s, PollEvent::Woke);
    let (s, a) = collector_step(&s, PollEvent::ConnectOk);
    assert_eq!(a, PollAction::Poll);
    assert_eq!(s, PollState { phase: PollPhase::Polling, backoff_ms: 1000 });
}

#[test]
fn shutdown_stops_from_every_phase() {
    for phase in [PollPhase::Connecting, PollPhase::Polling, PollPhase::Reconnecting, PollPhase::Stopped] {
        let s = PollState { phase, backoff_ms: 4000 };
        let (n, a) = collector_step(&s, PollEvent::Shutdown);
        assert_eq!(a, PollAction::Stop);
        assert_eq!(n.phase, PollPhase::Stopped);
    }
}

#[test]
fn mqtt_goes_online_after_retries_and_offline_on_cancel() {
    let s = MqttState::new();
    let (s, a) = mqtt_step(&s, MqttEvent::OnlineFailed);
    assert_eq!(a, MqttAction::Sleep(1000));
    let (s, a) = mqtt_step(&s, MqttEvent::Woke);
    assert_eq!(a, MqttAction::Connect);
    let (s, a) = mqtt_step(&s, MqttEvent::OnlineFailed);
    assert_eq!(a, MqttAction::Sleep(2000));
    let (s, _) = mqtt_step(&s, MqttEvent::Woke);
    let (s, a) = mqtt_step(&s, MqttEvent::OnlineOk);
    assert_eq!(a, MqttAction::WaitTick);
    assert_eq!(s, MqttState { phase: MqttPhase::Publishing, backoff_ms: 1000 });
    assert_eq!(mqtt_step(&s, MqttEvent::Tick), (s, MqttAction::PublishAll));
    let (s, a) = mqtt_step(&s, MqttEvent::Cancelled);
    assert_eq!(a, MqttAction::GoOffline);
    assert_eq!(mqtt_step(&s, MqttEvent::Tick).1, MqttAction::Stop);
}

#[test]
fn mqtt_cancel_while_connecting_stops_without_going_offline() {
    let s = MqttState::new();
    let (s, a) = mqtt_step(&s, MqttEvent::Cancelled);
    assert_eq!(a, MqttAction::Stop);
    assert_eq!(s.phase, MqttPhase::Stopped);
}
