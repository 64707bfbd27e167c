use aibuddy::clock::LocalTime;
use aibuddy::diarization::SpeakerSegment;
use aibuddy::transcription::{
    apply_diarization, auth_status_name, dedup_echo, check_can_start, choose_subject, classify_speech,
    fallback_dir, fallback_subject, fold_turns, include_time_setting, live_stem, render_markdown,
    render_notes, sanitize_subject, SaveAction, SavePlan, SaveStage, start_result, summary_or_empty, summary_prompt, title_prompt,
    transcript_stem, unique_md_path, SpeechEvent, StoredSegment, TranscriptStore,
    TranscriptionActive,
};

fn seg(source: &str, text: &str, ts_ms: u64) -> StoredSegment {
    StoredSegment { source: source.into(), text: text.into(), ts_ms, start_ms: None, end_ms: None }
}

fn timed(source: &str, text: &str, start_ms: u64, end_ms: u64) -> StoredSegment {
    StoredSegment {
        source: source.into(),
        text: text.into(),
        ts_ms: 0,
        start_ms: Some(start_ms),
        end_ms: Some(end_ms),
    }
}

fn time(year: i32, month: u32, day: u32, hour: u32, minute: u32) -> LocalTime {
    LocalTime { year, month, day, hour, minute }
}

#[test]
fn auth_status_names() {
    assert_eq!(auth_status_name(3), "authorized");
    assert_eq!(auth_status_name(1), "denied");
    assert_eq!(auth_status_name(2), "restricted");
    assert_eq!(auth_status_name(0), "notDetermined");
    assert_eq!(auth_status_name(-7), "notDetermined");
}

#[test]
fn speech_event_codes() {
    assert!(matches!(classify_speech(-2), SpeechEvent::Warning));
    assert!(matches!(classify_speech(-1), SpeechEvent::Fatal));
    assert!(matches!(classify_speech(-9), SpeechEvent::Fatal));
    assert!(matches!(classify_speech(0), SpeechEvent::Speech { ref source } if source == "me"));
    assert!(matches!(classify_speech(1), SpeechEvent::Speech { ref source } if source == "them"));
}

#[test]
fn start_codes_and_messages() {
    assert_eq!(start_result(0), Ok(()));
    assert_eq!(start_result(-1), Err("Transcription requires macOS 13.0 or later".to_string()));
    assert!(start_result(-2).unwrap_err().starts_with("Speech Recognition permission not granted"));
    assert!(start_result(-3).unwrap_err().starts_with("On-device speech recognition is unavailable"));
    assert_eq!(start_result(-42), Err("Failed to start transcription (code -42)".to_string()));
    assert_eq!(start_result(7), Err("Failed to start transcription (code 7)".to_string()));
}

#[test]
fn cannot_start_twice() {
    assert!(check_can_start(&TranscriptionActive(false)).is_ok());
    assert_eq!(
        check_can_start(&TranscriptionActive(true)),
        Err("Transcription is already running — stop it first".to_string())
    );
}

#[test]
fn store_session_lifecycle() {
    let mut store = TranscriptStore::new();
    store.record_saved("/t/old.md".into());
    store.push_final(seg("me", "stale", 1));
    store.begin_session(1000, Some("/t/live.md".into()));
    assert!(store.segments.is_empty());
    assert_eq!(store.session_start_ms, Some(1000));
    store.push_final(seg("me", "hello", 1001));
    store.push_final(seg("them", "hi", 1002));
    let t = store.transcript();
    assert_eq!(t.len(), 2);
    assert_eq!(t[1].text, "hi");
    let files = store.files();
    assert_eq!(files.live.as_deref(), Some("/t/live.md"));
    assert_eq!(files.saved.as_deref(), Some("/t/old.md"));
    assert_eq!(store.take_live_path().as_deref(), Some("/t/live.md"));
    assert_eq!(store.take_live_path(), None);
    store.record_saved("/t/new.md".into());
    assert_eq!(store.files().saved.as_deref(), Some("/t/new.md"));
    // A save never clears the transcript.
    assert_eq!(store.segments.len(), 2);
}

#[test]
fn fold_turns_merges_consecutive_sources() {
    let segs = vec![seg("me", "a", 1), seg("me", "b", 2), seg("them", "c", 3), seg("me", "d", 4)];
    let turns = fold_turns(&segs);
    let v: Vec<(String, u64, String)> =
        turns.into_iter().map(|t| (t.source, t.ts_ms, t.text)).collect();
    assert_eq!(
        v,
        vec![
            ("me".to_string(), 1, "a b".to_string()),
            ("them".to_string(), 3, "c".to_string()),
            ("me".to_string(), 4, "d".to_string())
        ]
    );
    assert!(fold_turns(&Vec::new()).is_empty());
}

#[test]
fn sanitize_removes_forbidden_characters() {
    assert_eq!(sanitize_subject("  \"Q3: Budget/Plan?\"  "), "Q3 BudgetPlan");
    assert_eq!(sanitize_subject("a<b>c|d*e%f\\g"), "abcdefg");
}

#[test]
fn sanitize_empty_becomes_transcript() {
    assert_eq!(sanitize_subject(""), "Transcript");
    assert_eq!(sanitize_subject("  ::// "), "Transcript");
}

#[test]
fn sanitize_caps_at_forty_bytes_on_char_boundary() {
    let long = "Quarterly planning review for the platform team offsite";
    let s = sanitize_subject(long);
    assert_eq!(s, "Quarterly planning review for the platfo");
    assert_eq!(s.len(), 40);
    let words = "The quick brown fox jumps over the lazy dogs";
    assert_eq!(sanitize_subject(words), "The quick brown fox jumps over the lazy");
    // 39 ASCII bytes then a 2-byte character crossing byte 40.
    let multi = format!("{}é tail", "a".repeat(39));
    assert_eq!(sanitize_subject(&multi), "a".repeat(39));
}

#[test]
fn fallback_subject_uses_first_five_words() {
    let segs = vec![seg("me", "  so let's talk: about the roadmap today please", 1), seg("them", "ok", 2)];
    assert_eq!(fallback_subject(&segs), "so let's talk about the");
    assert_eq!(fallback_subject(&Vec::new()), "Transcript");
}

#[test]
fn choose_subject_prefers_model_reply() {
    let segs = vec![seg("me", "kickoff for launch", 1)];
    assert_eq!(choose_subject(&Ok("Launch Kickoff".into()), &segs), "Launch Kickoff");
    assert_eq!(choose_subject(&Ok("   ".into()), &segs), "kickoff for launch");
    assert_eq!(choose_subject(&Err("Model not loaded".into()), &segs), "kickoff for launch");
}

#[test]
fn title_prompt_quotes_transcript() {
    let segs = vec![seg("me", "hello", 1), seg("them", "there", 2)];
    assert_eq!(
        title_prompt(&segs),
        "Give a 3-5 word title for this meeting transcript. Reply with ONLY the title — no punctuation, no quotes.\n\nTranscript:\nhello there "
    );
}

#[test]
fn title_prompt_stops_after_two_thousand_bytes() {
    let big = "x".repeat(1500);
    let segs = vec![seg("me", &big, 1), seg("me", &big, 2), seg("me", "never", 3)];
    let p = title_prompt(&segs);
    assert!(p.ends_with(&format!("{big} {big} ")));
    assert!(!p.contains("never"));
}

#[test]
fn summary_prompt_labels_speakers() {
    let segs = vec![seg("me", "We ship Friday.", 1), seg("them", "Agreed.", 2), seg("Speaker 2", "I'll test.", 3)];
    let p = summary_prompt(&segs).unwrap();
    assert!(p.starts_with("You are summarizing a meeting transcript into concise minutes."));
    assert!(p.ends_with("Transcript:\nMe: We ship Friday.\nThem: Agreed.\nSpeaker 2: I'll test."));
    assert!(p.contains("\n**Key Points**\n**Decisions**\n**Action Items**\n\nBe specific"));
}

#[test]
fn summary_prompt_none_for_blank_transcript() {
    assert_eq!(summary_prompt(&Vec::new()), None);
}

#[test]
fn summary_or_empty_drops_errors() {
    assert_eq!(summary_or_empty(Ok("- a".into())), "- a");
    assert_eq!(summary_or_empty(Err("busy".into())), "");
}

#[test]
fn render_notes_exact_layout() {
    let segs = vec![seg("me", "Hello", 1), seg("them", "Hi", 2)];
    let turns = fold_turns(&segs);
    let clocks = vec![time(2026, 6, 11, 0, 5), time(2026, 6, 11, 13, 7)];
    let md = render_notes("Standup", Some("  - shipped  \n"), &time(2026, 6, 11, 9, 30), &turns, &clocks);
    assert_eq!(
        md,
        "# Standup\n\n_Transcribed by AI Buddy on 2026-06-11 9:30 AM_\n\n## AI-Generated Summary\n\n- shipped\n\n## Transcript\n\n**Me** (12:05 AM): Hello\n\n**Them** (1:07 PM): Hi\n\n"
    );
}

#[test]
fn render_notes_placeholder_summary() {
    let md = render_notes("Meeting in progress", None, &time(2026, 1, 2, 12, 0), &Vec::new(), &Vec::new());
    assert_eq!(
        md,
        "# Meeting in progress\n\n_Transcribed by AI Buddy on 2026-01-02 12:00 PM_\n\n## AI-Generated Summary\n\n_Generated when the session ends._\n\n## Transcript\n\n"
    );
    let blank = render_notes("S", Some("   "), &time(2026, 1, 2, 12, 0), &Vec::new(), &Vec::new());
    assert!(blank.contains("_Generated when the session ends._"));
}

#[test]
fn render_markdown_in_local_time() {
    let segs = vec![seg("me", "Hello", 1_750_000_000_000), seg("me", "again", 1_750_000_060_000)];
    let md = render_markdown("Sync", None, 1_750_000_000_000, &segs);
    assert!(md.starts_with("# Sync\n\n_Transcribed by AI Buddy on 2025-06-"));
    assert!(md.contains("## Transcript\n\n**Me** ("));
    assert!(md.ends_with("): Hello again\n\n"));
}

#[test]
fn diarization_relabels_by_overlap_in_order_of_appearance() {
    let mut segs = vec![
        timed("them", "first", 0, 1000),
        timed("me", "mine", 0, 1000),
        timed("them", "second", 2000, 3000),
        timed("them", "third", 900, 1900),
        seg("them", "no range", 5),
    ];
    let speakers = vec![
        SpeakerSegment { start_ms: 0, end_ms: 1200, speaker: 7 },
        SpeakerSegment { start_ms: 1200, end_ms: 4000, speaker: 3 },
    ];
    apply_diarization(&mut segs, &speakers);
    let labels: Vec<&str> = segs.iter().map(|s| s.source.as_str()).collect();
    assert_eq!(labels, vec!["Speaker 1", "me", "Speaker 2", "Speaker 2", "them"]);
    assert_eq!(segs[2].text, "second");
}

#[test]
fn diarization_without_overlap_keeps_them() {
    let mut segs = vec![timed("them", "x", 0, 100)];
    apply_diarization(&mut segs, &vec![SpeakerSegment { start_ms: 100, end_ms: 200, speaker: 0 }]);
    assert_eq!(segs[0].source, "them");
    apply_diarization(&mut segs, &Vec::new());
    assert_eq!(segs[0].source, "them");
}

#[test]
fn diarization_with_too_many_speakers_is_ignored() {
    let mut segs = vec![timed("them", "x", 0, 100)];
    let speakers: Vec<SpeakerSegment> =
        (0..11).map(|i| SpeakerSegment { start_ms: 0, end_ms: 100, speaker: i }).collect();
    apply_diarization(&mut segs, &speakers);
    assert_eq!(segs[0].source, "them");
    let ten: Vec<SpeakerSegment> =
        (0..10).map(|i| SpeakerSegment { start_ms: 0, end_ms: 100, speaker: i }).collect();
    apply_diarization(&mut segs, &ten);
    assert_eq!(segs[0].source, "Speaker 1");
}

#[test]
fn unique_paths_count_up() {
    let taken = ["/d/2026 - Sync.md", "/d/2026 - Sync (2).md"];
    let p = unique_md_path("/d", "2026 - Sync", |p: String| taken.contains(&p.as_str()));
    assert_eq!(p.as_deref(), Some("/d/2026 - Sync (3).md"));
    let q = unique_md_path("/d/", "x", |_p: String| false);
    assert_eq!(q.as_deref(), Some("/d/x.md"));
}

#[test]
fn stems_and_settings() {
    let t = time(2026, 6, 11, 14, 30);
    assert_eq!(live_stem(&t), "2026-06-11 1430 - Meeting in progress");
    assert_eq!(transcript_stem(&t, "Budget", true), "2026-06-11 1430 - Budget");
    assert_eq!(transcript_stem(&t, "Budget", false), "2026-06-11 - Budget");
    assert!(include_time_setting(None));
    assert!(include_time_setting(Some("true")));
    assert!(include_time_setting(Some("False")));
    assert!(!include_time_setting(Some("false")));
}

#[test]
fn fallback_dir_only_when_different() {
    assert_eq!(fallback_dir("/a", "/b").as_deref(), Some("/b"));
    assert_eq!(fallback_dir("/b", "/b"), None);
}

#[test]
fn fallback_dir_compares_paths_not_text() {
    let d = "/Users/me/Documents/AI Buddy Transcripts";
    assert_eq!(fallback_dir("/Users/me/Documents/AI Buddy Transcripts/", d), None);
    assert_eq!(fallback_dir("/Users/me//Documents/./AI Buddy Transcripts", d), None);
    assert_eq!(fallback_dir("/Users/me/Documents/../Documents/AI Buddy Transcripts", d).as_deref(), Some(d));
    assert_eq!(fallback_dir("Users/me/Documents/AI Buddy Transcripts", d).as_deref(), Some(d));
    assert_eq!(fallback_dir("./notes", "notes").as_deref(), Some("notes"));
    assert_eq!(fallback_dir("./notes/.", "./notes"), None);
}

#[test]
fn save_plan_treats_trailing_slash_as_same_folder() {
    let mut plan = SavePlan::new("/d/", "/d");
    plan.begin(1);
    plan.rendered(false);
    assert!(matches!(plan.on_result(Err("no access".into())), SaveAction::Failed(ref m) if m == "no access"));
}

fn texts(v: &[StoredSegment]) -> Vec<(String, String)> {
    v.iter().map(|s| (s.source.clone(), s.text.clone())).collect()
}

#[test]
fn echo_of_nearby_them_is_dropped() {
    let segs = vec![
        seg("them", "We should ship the release on Friday", 10_000),
        seg("me", "we should ship the release on friday", 10_400),
        seg("me", "Sounds good to me", 12_000),
    ];
    let out = dedup_echo(&segs);
    assert_eq!(
        texts(&out),
        vec![
            ("them".to_string(), "We should ship the release on Friday".to_string()),
            ("me".to_string(), "Sounds good to me".to_string()),
        ]
    );
}

#[test]
fn echo_by_containment() {
    // Every word of the `me` line occurs in the `them` line.
    let segs = vec![
        seg("me", "ship the release Friday", 5_000),
        seg("them", "we should ship the release on Friday afternoon", 4_000),
    ];
    let out = dedup_echo(&segs);
    assert_eq!(out.len(), 1);
    assert_eq!(out[0].source, "them");
}

#[test]
fn short_utterances_are_kept() {
    let segs = vec![seg("them", "yes okay", 1_000), seg("me", "yes okay", 1_100)];
    assert_eq!(dedup_echo(&segs).len(), 2);
}

#[test]
fn distant_repeats_are_kept() {
    let segs = vec![
        seg("them", "let us review the budget numbers", 0),
        seg("me", "let us review the budget numbers", 6_001),
    ];
    assert_eq!(dedup_echo(&segs).len(), 2);
    let close = vec![
        seg("them", "let us review the budget numbers", 0),
        seg("me", "let us review the budget numbers", 6_000),
    ];
    assert_eq!(dedup_echo(&close).len(), 1);
}

#[test]
fn audio_start_times_decide_nearness() {
    let mut them = timed("them", "the quarterly plan looks solid", 30_000, 32_000);
    them.ts_ms = 0;
    let mut me = timed("me", "the quarterly plan looks solid", 32_500, 34_000);
    me.ts_ms = 60_000;
    let out = dedup_echo(&vec![them, me]);
    assert_eq!(out.len(), 1);
    assert_eq!(out[0].source, "them");
}

#[test]
fn dissimilar_speech_is_kept() {
    let segs = vec![
        seg("them", "alpha beta zeta eta", 1_000),
        seg("me", "alpha beta gamma delta", 1_000),
    ];
    assert_eq!(dedup_echo(&segs).len(), 2);
}

#[test]
fn without_them_nothing_is_dropped() {
    let segs = vec![
        seg("me", "one two three four", 1),
        seg("me", "one two three four", 2),
        seg("Speaker 1", "one two three four", 3),
    ];
    let out = dedup_echo(&segs);
    assert_eq!(texts(&out), texts(&segs));
}

#[test]
fn them_is_never_dropped() {
    let segs = vec![
        seg("me", "we will meet again tomorrow", 1_000),
        seg("them", "we will meet again tomorrow", 1_200),
        seg("them", "we will meet again tomorrow", 1_300),
    ];
    let out = dedup_echo(&segs);
    assert_eq!(out.len(), 2);
    assert!(out.iter().all(|s| s.source == "them"));
}

#[test]
fn repeated_words_count_as_tokens() {
    // Three tokens, one distinct word: long enough to be an echo.
    let segs = vec![seg("them", "a a a", 2_000), seg("me", "a a a", 2_000)];
    let out = dedup_echo(&segs);
    assert_eq!(out.len(), 1);
    assert_eq!(out[0].source, "them");
    // Two tokens stay, even when repeated.
    let short = vec![seg("them", "a a", 2_000), seg("me", "a a", 2_000)];
    assert_eq!(dedup_echo(&short).len(), 2);
}

#[test]
fn save_discards_an_empty_session() {
    let mut plan = SavePlan::new("/c", "/d");
    assert!(matches!(plan.begin(0), SaveAction::Discard));
    assert!(matches!(plan.stage, SaveStage::Finished));
}

#[test]
fn save_tries_live_then_configured_then_default() {
    let mut plan = SavePlan::new("/c", "/d");
    assert!(matches!(plan.begin(3), SaveAction::Render));
    assert!(matches!(plan.rendered(true), SaveAction::FinalizeLive));
    assert!(matches!(plan.on_result(Err("rename failed".into())), SaveAction::WriteIn(ref d) if d == "/c"));
    assert!(matches!(plan.on_result(Err("no access".into())), SaveAction::WriteIn(ref d) if d == "/d"));
    match plan.on_result(Err("disk full".into())) {
        SaveAction::Failed(m) => assert_eq!(m, "no access; fallback also failed: disk full"),
        _ => panic!("expected a failure"),
    }
}

#[test]
fn save_without_live_file_writes_fresh() {
    let mut plan = SavePlan::new("/d", "/d");
    plan.begin(1);
    assert!(matches!(plan.rendered(false), SaveAction::WriteIn(ref d) if d == "/d"));
    // The configured folder is the default one: no second try.
    assert!(matches!(plan.on_result(Err("no access".into())), SaveAction::Failed(ref m) if m == "no access"));
    let mut ok = SavePlan::new("/c", "/d");
    ok.begin(1);
    ok.rendered(false);
    assert!(matches!(ok.on_result(Ok("/c/x.md".into())), SaveAction::Saved(ref p) if p == "/c/x.md"));
}
