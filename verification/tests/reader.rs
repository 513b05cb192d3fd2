use heartbeat_rs::reader::{
    drain, DrainRequest, ReadOutcome, Reader, ReaderEvent, ReaderRequest,
};

fn step(reader: &mut Reader, event: ReaderEvent) -> ReaderRequest {
    reader.step(event);
    reader.request
}

#[test]
fn data_goes_to_standard_output_and_then_to_the_log() {
    let mut r = Reader::new(true);
    assert_eq!(r.request, ReaderRequest::CheckStop);
    assert_eq!(step(&mut r, ReaderEvent::Stop(false)), ReaderRequest::Read);
    assert_eq!(step(&mut r, ReaderEvent::Read(ReadOutcome::Data)), ReaderRequest::Forward);
    assert_eq!(step(&mut r, ReaderEvent::Written(true)), ReaderRequest::Tee);
    assert_eq!(step(&mut r, ReaderEvent::Written(true)), ReaderRequest::CheckStop);
    assert!(r.logging);
}

#[test]
fn a_failed_log_is_dropped_and_the_reader_goes_on() {
    let mut r = Reader::new(true);
    step(&mut r, ReaderEvent::Stop(false));
    step(&mut r, ReaderEvent::Read(ReadOutcome::Data));
    step(&mut r, ReaderEvent::Written(true));
    assert_eq!(step(&mut r, ReaderEvent::Written(false)), ReaderRequest::CheckStop);
    assert!(!r.logging);
    step(&mut r, ReaderEvent::Stop(false));
    step(&mut r, ReaderEvent::Read(ReadOutcome::Data));
    assert_eq!(step(&mut r, ReaderEvent::Written(true)), ReaderRequest::CheckStop);
}

#[test]
fn the_reader_ends_on_stop_eof_and_errors() {
    let mut stopped = Reader::new(false);
    assert_eq!(step(&mut stopped, ReaderEvent::Stop(true)), ReaderRequest::Finish);
    for outcome in [ReadOutcome::Eof, ReadOutcome::Failed] {
        let mut r = Reader::new(false);
        step(&mut r, ReaderEvent::Stop(false));
        assert_eq!(step(&mut r, ReaderEvent::Read(outcome)), ReaderRequest::Finish);
    }
    let mut broken = Reader::new(true);
    step(&mut broken, ReaderEvent::Stop(false));
    step(&mut broken, ReaderEvent::Read(ReadOutcome::Data));
    assert_eq!(step(&mut broken, ReaderEvent::Written(false)), ReaderRequest::Finish);
}

#[test]
fn an_interrupted_read_is_tried_again() {
    let mut r = Reader::new(false);
    step(&mut r, ReaderEvent::Stop(false));
    assert_eq!(
        step(&mut r, ReaderEvent::Read(ReadOutcome::Interrupted)),
        ReaderRequest::CheckStop
    );
}

#[test]
fn a_reader_is_waited_for_two_seconds() {
    let two = 2_000_000_000;
    assert_eq!(drain(true, 5, 5), DrainRequest::Join);
    assert_eq!(drain(true, 5, u64::MAX), DrainRequest::Join);
    assert_eq!(drain(false, 5, 5), DrainRequest::Pause(50));
    assert_eq!(drain(false, 5, 5 + two), DrainRequest::Pause(50));
    assert_eq!(drain(false, 5, 6 + two), DrainRequest::Abandon);
    assert_eq!(drain(false, u64::MAX, u64::MAX), DrainRequest::Pause(50));
}
