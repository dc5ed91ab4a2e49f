use nd_renderer::recording::{capture_file_name, recording_step, RecordingStep};

fn name(frame: i32) -> String {
    String::from_utf8(capture_file_name(frame)).unwrap()
}

#[test]
fn idle_stays_idle() {
    assert_eq!(
        recording_step(-2, 10, false, false),
        RecordingStep {
            captured_frame: None,
            finished: false,
            rewind_steps: None,
            started: false,
            next_index: -2
        }
    );
}

#[test]
fn enter_starts_a_recording() {
    let step = recording_step(-2, 10, false, true);
    assert!(step.started);
    assert_eq!(step.next_index, -1);
    assert_eq!(step.captured_frame, None);
}

#[test]
fn first_frame_after_start_captures_nothing() {
    let step = recording_step(-1, 10, false, false);
    assert_eq!(step.captured_frame, None);
    assert_eq!(step.next_index, 0);
    assert!(!step.finished);
}

#[test]
fn recording_frames_are_captured() {
    let step = recording_step(3, 10, false, false);
    assert_eq!(step.captured_frame, Some(3));
    assert_eq!(step.next_index, 4);
}

#[test]
fn last_frame_finishes() {
    let step = recording_step(9, 10, false, false);
    assert_eq!(step.captured_frame, Some(9));
    assert!(step.finished);
    assert_eq!(step.next_index, -2);
}

#[test]
fn whole_recording_exports_every_frame_once() {
    let frame_count = 5;
    let mut index = recording_step(-2, frame_count, false, true).next_index;
    let mut captured = vec![];
    let mut finished_at = None;
    for frame in 0..(frame_count + 1) {
        let step = recording_step(index, frame_count, false, false);
        if let Some(f) = step.captured_frame {
            captured.push(f);
        }
        if step.finished {
            finished_at = Some(frame);
        }
        index = step.next_index;
    }
    assert_eq!(captured, vec![0, 1, 2, 3, 4]);
    assert_eq!(finished_at, Some(frame_count));
    assert_eq!(index, -2);
}

#[test]
fn escape_rewinds_what_was_recorded() {
    let frame_count = 10;
    let mut index = -1;
    let mut steps = 0;
    for _ in 0..4 {
        let step = recording_step(index, frame_count, false, false);
        if step.captured_frame.is_some() {
            steps += 1;
        }
        index = step.next_index;
    }
    let step = recording_step(index, frame_count, true, false);
    assert_eq!(step.captured_frame, Some(3));
    steps += 1;
    assert_eq!(step.rewind_steps, Some(-4));
    assert_eq!(steps + step.rewind_steps.unwrap(), 0);
    assert_eq!(step.next_index, -2);
}

#[test]
fn escape_when_idle_turns_two_steps() {
    let step = recording_step(-2, 10, true, false);
    assert_eq!(step.rewind_steps, Some(2));
    assert_eq!(step.next_index, -2);
}

#[test]
fn enter_wins_over_escape() {
    let step = recording_step(4, 10, true, true);
    assert_eq!(step.rewind_steps, Some(-5));
    assert_eq!(step.next_index, -1);
}

#[test]
fn zero_frames_finish_at_once() {
    let step = recording_step(-1, 0, false, false);
    assert!(step.finished);
    assert_eq!(step.next_index, -2);
}

#[test]
fn frame_names_have_three_digits() {
    assert_eq!(name(0), "./images/000.png");
    assert_eq!(name(7), "./images/007.png");
    assert_eq!(name(42), "./images/042.png");
    assert_eq!(name(999), "./images/999.png");
}

#[test]
fn long_frame_numbers_are_not_cut() {
    assert_eq!(name(1234), "./images/1234.png");
    assert_eq!(name(i32::MAX), format!("./images/{}.png", i32::MAX));
}

#[test]
fn frame_names_match_std_formatting() {
    for frame in [0, 1, 9, 10, 99, 100, 101, 1000, 65536] {
        assert_eq!(name(frame), format!("./images/{:03}.png", frame));
    }
}
