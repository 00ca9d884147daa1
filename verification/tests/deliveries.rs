use danmaku_replay::delivery::{
    advance, begin, Action, DeliveryState, Outcome, Transition, RECORD_DELAY_SECONDS,
    RETRY_COOLDOWN_SECONDS,
};
use danmaku_replay::pipeline::Pipeline;
use danmaku_replay::record::TimedRecord;
use danmaku_replay::response::HttpApiResp;
use danmaku_replay::submission::Target;
use danmaku_replay::timestamp::Timestamp;

fn answer(code: i64) -> Outcome {
    Outcome::Response(HttpApiResp { code, message: String::new(), ttl: 1 })
}

fn records(count: usize) -> Vec<TimedRecord> {
    (0..count)
        .map(|i| TimedRecord::new(Timestamp { nanos: i as i64 * 1_000_000_000 }, format!("r{}", i)))
        .collect()
}

fn target() -> Target {
    Target { oid: "1".to_string(), bvid: "BV".to_string(), csrf: "c".to_string() }
}

fn progress_field(form: &Option<Vec<danmaku_replay::submission::FormField>>) -> String {
    form.as_ref().unwrap()[4].value.clone()
}

#[test]
fn the_delays_are_ten_and_sixty_seconds() {
    assert_eq!(RECORD_DELAY_SECONDS, 10);
    assert_eq!(RETRY_COOLDOWN_SECONDS, 60);
}

#[test]
fn a_run_starts_with_the_first_record_at_once() {
    assert_eq!(
        begin(3),
        Transition {
            state: DeliveryState::Attempting { index: 0 },
            action: Action::Submit { index: 0, delay_seconds: 0 },
        }
    );
}

#[test]
fn a_run_without_records_is_finished_at_once() {
    assert_eq!(
        begin(0),
        Transition { state: DeliveryState::Finished, action: Action::Finish { delay_seconds: 0 } }
    );
}

#[test]
fn a_rejection_repeats_the_record_after_the_cooldown() {
    let state = DeliveryState::Attempting { index: 1 };
    for code in [1, -1, 36703, i64::MAX, i64::MIN] {
        assert_eq!(
            advance(state, 3, &answer(code)),
            Transition { state, action: Action::Submit { index: 1, delay_seconds: 60 } }
        );
    }
}

#[test]
fn an_acceptance_moves_on_after_the_record_delay() {
    assert_eq!(
        advance(DeliveryState::Attempting { index: 1 }, 3, &answer(0)),
        Transition {
            state: DeliveryState::Attempting { index: 2 },
            action: Action::Submit { index: 2, delay_seconds: 10 },
        }
    );
}

#[test]
fn the_last_acceptance_finishes_the_run() {
    assert_eq!(
        advance(DeliveryState::Attempting { index: 2 }, 3, &answer(0)),
        Transition { state: DeliveryState::Finished, action: Action::Finish { delay_seconds: 10 } }
    );
}

#[test]
fn a_transport_failure_aborts_the_run() {
    assert_eq!(
        advance(DeliveryState::Attempting { index: 0 }, 3, &Outcome::TransportFailure),
        Transition { state: DeliveryState::Aborted, action: Action::Abort }
    );
}

#[test]
fn an_ended_run_stays_ended() {
    for state in [DeliveryState::Finished, DeliveryState::Aborted] {
        for outcome in [answer(0), answer(5), Outcome::TransportFailure] {
            assert_eq!(advance(state, 3, &outcome), Transition { state, action: Action::Idle });
        }
    }
}

#[test]
fn the_largest_index_does_not_overflow() {
    assert_eq!(
        advance(DeliveryState::Attempting { index: usize::MAX }, usize::MAX, &answer(0)),
        Transition { state: DeliveryState::Finished, action: Action::Finish { delay_seconds: 10 } }
    );
}

#[test]
fn a_pipeline_delivers_every_record_in_order() {
    let mut pipeline = Pipeline::new(records(3), Timestamp { nanos: 500_000_000 }, target());
    assert_eq!(pipeline.len(), 3);
    let mut step = pipeline.current_step();
    let mut seen: Vec<(usize, u64, String)> = Vec::new();
    let script = [answer(0), answer(7), answer(7), answer(0), answer(0)];
    let mut reported = 0;
    loop {
        match step.action {
            Action::Submit { index, delay_seconds } => {
                seen.push((index, delay_seconds, progress_field(&step.form)));
                step = pipeline.report(script[reported].clone());
                reported += 1;
            }
            Action::Finish { delay_seconds } => {
                assert_eq!(delay_seconds, 10);
                assert!(step.form.is_none());
                break;
            }
            Action::Abort | Action::Idle => panic!("the run failed"),
        }
    }
    assert_eq!(reported, 5);
    assert_eq!(pipeline.current_state(), DeliveryState::Finished);
    assert_eq!(
        seen,
        vec![
            (0, 0, "500".to_string()),
            (1, 10, "1500".to_string()),
            (1, 60, "1500".to_string()),
            (1, 60, "1500".to_string()),
            (2, 10, "2500".to_string()),
        ]
    );
}

#[test]
fn a_pipeline_repeats_the_same_form_while_rejected() {
    let mut pipeline = Pipeline::new(records(2), Timestamp::zero(), target());
    let first = pipeline.current_step();
    let first_form: Vec<(String, String)> =
        first.form.unwrap().iter().map(|f| (f.name.clone(), f.value.clone())).collect();
    for _ in 0..50 {
        let step = pipeline.report(answer(-400));
        assert_eq!(step.action, Action::Submit { index: 0, delay_seconds: 60 });
        let form: Vec<(String, String)> =
            step.form.unwrap().iter().map(|f| (f.name.clone(), f.value.clone())).collect();
        assert_eq!(form, first_form);
        assert_eq!(pipeline.current_state(), DeliveryState::Attempting { index: 0 });
    }
}

#[test]
fn a_pipeline_aborts_on_a_transport_failure() {
    let mut pipeline = Pipeline::new(records(2), Timestamp::zero(), target());
    let step = pipeline.report(Outcome::TransportFailure);
    assert_eq!(step.action, Action::Abort);
    assert!(step.form.is_none());
    assert_eq!(pipeline.current_state(), DeliveryState::Aborted);
    let after = pipeline.report(answer(0));
    assert_eq!(after.action, Action::Idle);
    assert_eq!(pipeline.current_state(), DeliveryState::Aborted);
}

#[test]
fn a_pipeline_without_records_finishes_at_once() {
    let pipeline = Pipeline::new(Vec::new(), Timestamp::zero(), target());
    let step = pipeline.current_step();
    assert_eq!(step.action, Action::Finish { delay_seconds: 0 });
    assert!(step.form.is_none());
    assert_eq!(pipeline.current_state(), DeliveryState::Finished);
    assert_eq!(pipeline.len(), 0);
}

#[test]
fn a_pipeline_keeps_its_records() {
    let mut pipeline = Pipeline::new(records(2), Timestamp::zero(), target());
    pipeline.report(answer(0));
    pipeline.report(answer(3));
    assert_eq!(pipeline.record(0).unwrap().text, "r0");
    assert_eq!(pipeline.record(1).unwrap().text, "r1");
    assert_eq!(pipeline.record(1).unwrap().offset, Timestamp { nanos: 1_000_000_000 });
    assert!(pipeline.record(2).is_none());
}

#[test]
fn the_current_step_is_the_one_last_given() {
    let mut pipeline = Pipeline::new(records(2), Timestamp::zero(), target());
    assert_eq!(pipeline.current_step().action, Action::Submit { index: 0, delay_seconds: 0 });
    let given = pipeline.report(answer(0));
    assert_eq!(given.action, Action::Submit { index: 1, delay_seconds: 10 });
    assert_eq!(pipeline.current_step().action, given.action);
    assert_eq!(progress_field(&pipeline.current_step().form), "1000");
}
