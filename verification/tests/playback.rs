use fox_reader::audio::{processor_names, AudioBackend};
use fox_reader::playback::{
    announce, first_block, go_to_page, navigate_page, on_reading_event, step_after_block, step_after_repeat, ReadStep, ReaderAction, TTSEvent,
};

#[test]
fn steps_between_blocks() {
    assert!(matches!(step_after_block(2, 5, None), ReadStep::Continue(3)));
    assert!(matches!(step_after_block(4, 5, None), ReadStep::Continue(5)));
    assert!(matches!(step_after_block(2, 5, Some(TTSEvent::Next)), ReadStep::Continue(3)));
    assert!(matches!(step_after_block(4, 5, Some(TTSEvent::Next)), ReadStep::Continue(4)));
    assert!(matches!(step_after_block(0, 5, Some(TTSEvent::Prev)), ReadStep::Continue(0)));
    assert!(matches!(step_after_block(3, 5, Some(TTSEvent::Prev)), ReadStep::Continue(2)));
    assert!(matches!(step_after_block(3, 5, Some(TTSEvent::Stop)), ReadStep::Finish));
    assert!(matches!(step_after_block(3, 5, Some(TTSEvent::Progress { block_id: 1 })), ReadStep::Continue(4)));
    match step_after_block(1, 5, Some(TTSEvent::Error("boom".to_string()))) {
        ReadStep::Fail(m) => assert_eq!(m, "boom"),
        _ => panic!("expected failure"),
    }
    assert_eq!(first_block(2, 5), Some(2));
    assert_eq!(first_block(5, 5), None);
    assert_eq!(first_block(0, 0), None);
}

#[test]
fn audio_backends() {
    let b = AudioBackend::create_backend("ffplay");
    assert_eq!(b.get_command(), "ffplay -nodisp -autoexit -volume $${VOLUME} -");
    let b = AudioBackend::from_available(&vec![false, false, true, true, false]).unwrap();
    assert_eq!(b.get_command(), "aplay -q -t raw -c 1 -r $${SAMPLE_RATE} -f S16_LE -");
    assert!(AudioBackend::from_available(&vec![false; 5]).is_none());
    let b = AudioBackend::create_backend("mpv");
    assert!(b.get_command().starts_with("mpv --speed=${RATE}"));
}

#[test]
fn page_navigation_stays_in_document() {
    assert_eq!(navigate_page(0, -1, 10), Some(0));
    assert_eq!(navigate_page(3, 1, 10), Some(4));
    assert_eq!(navigate_page(9, 1, 10), None);
    assert_eq!(navigate_page(0, 1, 0), None);
    assert_eq!(go_to_page(5, 10), Some(5));
    assert_eq!(go_to_page(10, 10), None);
    assert_eq!(go_to_page(-1, 10), None);
}

#[test]
fn each_block_is_announced_before_it_plays() {
    assert!(matches!(announce(0), TTSEvent::Progress { block_id: 0 }));
    assert!(matches!(announce(7), TTSEvent::Progress { block_id: 7 }));
    let mut sent: Vec<u32> = Vec::new();
    let mut current = first_block(1, 4).unwrap();
    while current < 4 {
        if let TTSEvent::Progress { block_id } = announce(current) {
            sent.push(block_id);
        }
        match step_after_block(current, 4, None) {
            ReadStep::Continue(next) => current = next,
            _ => break,
        }
    }
    assert_eq!(sent, vec![1, 2, 3]);
}

#[test]
fn reading_events_drive_the_reader() {
    assert!(matches!(on_reading_event(TTSEvent::Progress { block_id: 4 }), (ReaderAction::Highlight(4), true)));
    assert!(matches!(on_reading_event(TTSEvent::Next), (ReaderAction::ClearHighlight, true)));
    assert!(matches!(on_reading_event(TTSEvent::Prev), (ReaderAction::ClearHighlight, true)));
    match on_reading_event(TTSEvent::Error("no audio".to_string())) {
        (ReaderAction::ReportError(e), false) => assert_eq!(e, "no audio"),
        other => panic!("unexpected {:?}", other),
    }
    assert!(matches!(on_reading_event(TTSEvent::Stop), (ReaderAction::Finish, false)));
}

#[test]
fn repeating_a_block_reads_it_again() {
    assert!(matches!(step_after_repeat(0, 3), ReadStep::Continue(0)));
    assert!(matches!(step_after_repeat(2, 3), ReadStep::Continue(2)));
}

#[test]
fn players_are_tried_in_order_of_preference() {
    assert_eq!(processor_names(), vec!["ffplay", "sox", "aplay", "paplay", "mpv"]);
}
