use pctl::process::{launch, Actions, Cancellation, Capture, Redactor, Stop, Supervision, CAPTURE_LIMIT};

#[test]
fn redacts_every_chunk_boundary_including_multiline_and_overlaps() {
    let secrets: Vec<String> = vec!["abc\ndef".into(), "defXYZ".into(), "".into(), "秘密".into()];
    let input = "before abc\ndefXYZ 秘密 after".as_bytes();
    for split in 0..=input.len() {
        let mut redactor = Redactor::new(&secrets);
        let mut output = Vec::new();
        redactor.push(&input[..split], &mut output);
        redactor.push(&input[split..], &mut output);
        redactor.finish(&mut output);
        assert_eq!(output, b"before [REDACTED] [REDACTED] after");
    }
}

#[test]
fn bounded_lookahead_preserves_partial_matches_at_eof() {
    let mut redactor = Redactor::new(&["secret".into()]);
    let mut output = Vec::new();
    for byte in b"secret!secre" {
        redactor.push(&[*byte], &mut output);
        assert!(redactor.pending.len() < 6);
    }
    redactor.finish(&mut output);
    assert_eq!(output, b"[REDACTED]!secre");
}

#[test]
fn redactor_without_secrets_passes_bytes_through() {
    let mut redactor = Redactor::new(&[]);
    let mut output = Vec::new();
    redactor.push(b"plain text", &mut output);
    assert_eq!(output, b"plain text");
    redactor.finish(&mut output);
    assert_eq!(output, b"plain text");
}

#[test]
fn adjacent_secrets_become_one_mark_and_separate_ones_two() {
    let secrets: Vec<String> = vec!["ab".into(), "cd".into()];
    let mut redactor = Redactor::new(&secrets);
    let mut output = Vec::new();
    redactor.push(b"xabcdy ab", &mut output);
    redactor.finish(&mut output);
    assert_eq!(output, b"x[REDACTED]y [REDACTED]");
}

#[test]
fn redactor_restarts_after_finish() {
    let mut redactor = Redactor::new(&["key".into()]);
    let mut output = Vec::new();
    redactor.push(b"a key", &mut output);
    redactor.finish(&mut output);
    redactor.push(b" b key", &mut output);
    redactor.finish(&mut output);
    assert_eq!(output, b"a [REDACTED] b [REDACTED]");
}

#[test]
fn capture_refuses_output_beyond_one_mebibyte() {
    let mut capture = Capture::new();
    let chunk = vec![b'x'; 1000];
    let mut total = 0;
    while total + chunk.len() <= CAPTURE_LIMIT {
        assert_eq!(capture.write(&chunk), Ok(1000));
        total += chunk.len();
    }
    let error = capture.write(&chunk).unwrap_err();
    assert_eq!(error, "Process capture exceeds 1 MiB output limit");
    assert_eq!(capture.into_bytes().len(), total);
}

#[test]
fn cancellation_is_shared_sticky_and_ignores_non_positive_signals() {
    let cancellation = Cancellation::default();
    let shared = cancellation.clone();
    assert_eq!(cancellation.signal(), 0);
    shared.cancel(0);
    shared.cancel(-3);
    assert_eq!(cancellation.signal(), 0);
    shared.cancel(15);
    cancellation.cancel(2);
    assert_eq!(cancellation.signal(), 15);
    assert_eq!(shared.signal(), 15);
}

#[test]
fn empty_command_is_an_error_and_pending_cancellation_gives_its_code() {
    assert_eq!(launch(&[], 0).unwrap_err(), "Cannot run an empty command");
    assert_eq!(launch(&[], 2).unwrap_err(), "Cannot run an empty command");
    let command = vec!["/does/not/exist".to_string()];
    assert_eq!(launch(&command, 0), Ok(None));
    assert_eq!(launch(&command, 2), Ok(Some(130)));
}

#[test]
fn timeout_terminates_then_kills_after_grace() {
    let mut supervision = Supervision::new();
    assert_eq!(supervision.poll(0, 50, Some(100)), Actions { stop: None, kill: false });
    assert_eq!(supervision.poll(0, 100, Some(100)), Actions { stop: Some(Stop::Terminate), kill: false });
    assert_eq!(supervision.poll(0, 900, Some(100)), Actions { stop: None, kill: false });
    assert_eq!(supervision.poll(0, 1100, Some(100)), Actions { stop: None, kill: true });
    assert_eq!(supervision.exit_code(Some(0), None), 124);
}

#[test]
fn cancellation_is_forwarded_and_reported_as_128_plus_signal() {
    let mut supervision = Supervision::new();
    assert_eq!(supervision.poll(15, 10, None), Actions { stop: Some(Stop::Forward(15)), kill: false });
    assert_eq!(supervision.poll(2, 20, None), Actions { stop: None, kill: false });
    assert_eq!(supervision.exit_code(None, Some(9)), 143);
}

#[test]
fn exit_codes_come_from_the_child_when_not_stopped() {
    let supervision = Supervision::new();
    assert_eq!(supervision.exit_code(Some(7), None), 7);
    assert_eq!(supervision.exit_code(None, Some(9)), 137);
    assert_eq!(supervision.exit_code(None, None), 129);
}

#[test]
fn output_without_secret_occurrences_is_unchanged() {
    let secrets: Vec<String> = vec!["hunter2".into()];
    let mut redactor = Redactor::new(&secrets);
    let mut output = Vec::new();
    redactor.push(b"hunter hunter3 h2", &mut output);
    redactor.finish(&mut output);
    assert_eq!(output, b"hunter hunter3 h2");
}

#[test]
fn pre_cancelled_command_is_not_spawned() {
    let cancel = Cancellation::default();
    cancel.cancel(15);
    assert_eq!(launch(&["/does/not/exist".to_string()], cancel.signal()), Ok(Some(128 + 15)));
}
