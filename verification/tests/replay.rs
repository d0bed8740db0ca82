use reticle_app::replay::{
    hash_check_of, render_cell_of, transcript_lines, HashCheck, LoadError, Playback,
};

fn cells(v: &[(&str, usize)]) -> Vec<(String, usize)> {
    v.iter().map(|(n, c)| (n.to_string(), *c)).collect()
}

#[test]
fn hash_mismatch_is_reported() {
    let recorded: u64 = 0x1234_5678_9abc_def0;
    let tampered = recorded ^ 0xBAD;
    // Seeked to the end of a 7-record transcript whose replay hashes to the
    // recorded value, checked against a tampered trailer.
    assert_eq!(hash_check_of(7, 7, Some(tampered), recorded), HashCheck::Mismatch);
    assert_eq!(hash_check_of(7, 7, Some(recorded), recorded), HashCheck::Match);
}

#[test]
fn missing_trailer_is_unverifiable() {
    assert_eq!(hash_check_of(7, 7, None, 42), HashCheck::Unverifiable);
}

#[test]
fn hash_check_is_pending_before_the_end_or_without_records() {
    assert_eq!(hash_check_of(6, 7, Some(42), 42), HashCheck::Pending);
    assert_eq!(hash_check_of(0, 0, Some(42), 42), HashCheck::Pending);
    assert_eq!(hash_check_of(0, 0, None, 42), HashCheck::Pending);
}

#[test]
fn render_cell_prefers_top_then_largest() {
    // An empty document draws nothing.
    assert_eq!(render_cell_of(&[], &[]), None);
    // No declared top cell: the largest cell wins.
    let doc = cells(&[("SMALL", 1), ("AGENT", 5), ("MID", 3)]);
    assert_eq!(render_cell_of(&[], &doc).as_deref(), Some("AGENT"));
    // A declared top cell the document has wins over size.
    assert_eq!(render_cell_of(&["MID".to_owned()], &doc).as_deref(), Some("MID"));
    // A declared top cell the document lacks falls back to the largest.
    assert_eq!(render_cell_of(&["GONE".to_owned()], &doc).as_deref(), Some("AGENT"));
}

#[test]
fn render_cell_ties_go_to_the_earliest_name() {
    let doc = cells(&[("b", 4), ("c", 4), ("a", 4), ("z", 1)]);
    assert_eq!(render_cell_of(&[], &doc).as_deref(), Some("a"));
}

#[test]
fn transport_steps_seeks_and_pauses_at_the_end() {
    let mut p = Playback::load(3);
    assert_eq!(p.progress(), (0, 3));
    assert_eq!(p.current_index(), None);
    p.play();
    assert!(p.is_playing());
    assert!(p.step_forward());
    assert_eq!(p.current_index(), Some(0));
    assert_eq!(p.step_back(), 0);
    assert_eq!(p.seek(usize::MAX), 3);
    assert!(p.at_end());
    // Stepping at the end applies nothing and stops playback.
    assert!(!p.step_forward());
    assert!(!p.is_playing());
    // Play at the end stays paused rather than spinning.
    p.play();
    assert!(!p.is_playing());
    assert_eq!(p.step_back(), 2);
    assert_eq!(p.progress(), (2, 3));
    p.play();
    assert!(p.step_forward());
    assert!(!p.is_playing(), "reaching the end pauses");
    p.pause();
    assert_eq!(p.progress(), (3, 3));
}

#[test]
fn empty_transcript_never_plays() {
    let mut p = Playback::load(0);
    assert!(p.at_end());
    p.play();
    assert!(!p.is_playing());
    assert_eq!(p.step_back(), 0);
}

#[test]
fn transcript_lines_skip_blanks_and_number_from_one() {
    let text = "{\"a\":1}\n\n   \n  {\"b\":2}  \r\n{\"final_hash\": 7}\n";
    let lines = transcript_lines(text);
    assert_eq!(
        lines,
        vec![
            (1, "{\"a\":1}".to_owned()),
            (4, "{\"b\":2}".to_owned()),
            (5, "{\"final_hash\": 7}".to_owned()),
        ]
    );
    assert!(transcript_lines("").is_empty());
    assert!(transcript_lines("\n \n\t\n").is_empty());
}

#[test]
fn load_error_names_the_line() {
    let e = LoadError { line: 3, detail: "expected value".to_owned() };
    assert_eq!(e.message(), "line 3: expected value");
}
