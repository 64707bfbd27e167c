use aibuddy::accessibility::{
    capture_report, paste_target, CapturePhase, ClipboardProbe, PrevApp, ProbeStep, SelectionCapture,
};
use aibuddy::clock::{clock_chars, date_clock_chars, date_hm_chars, local_time_at, year_chars, LocalTime};
use aibuddy::diarization::{diarization_models_status, emb_path, model_dir, models_installed, seg_path};
use aibuddy::download::{model_file_path, model_path};
use aibuddy::files::{context_text, file_note};
use aibuddy::paths::{expand_home, extension, file_name, join_path, same_path, transcript_save_dir};
use aibuddy::speech_assets::{install_error, install_result, speech_assets_status};
use aibuddy::text::{decimal_exec, first_words_joined, signed_decimal_exec, to_chars, trim_chars, zero_pad_exec};
use aibuddy::{PendingCapture, PendingText};

fn s(v: Vec<char>) -> String {
    v.into_iter().collect()
}

#[test]
fn trim_matches_std() {
    for x in ["  a b \n", "\u{3000}x\u{a0}", "", "   ", "y"] {
        assert_eq!(s(trim_chars(&to_chars(x))), x.trim());
    }
}

#[test]
fn words_joined_matches_split_whitespace() {
    let x = "  one\ttwo  three\nfour five six ";
    let expect: Vec<&str> = x.split_whitespace().take(5).collect();
    assert_eq!(s(first_words_joined(&to_chars(x), 5)), expect.join(" "));
    assert_eq!(s(first_words_joined(&to_chars("a b"), 5)), "a b");
}

#[test]
fn decimal_rendering() {
    assert_eq!(s(decimal_exec(0)), "0");
    assert_eq!(s(decimal_exec(1234567890)), "1234567890");
    assert_eq!(s(zero_pad_exec(7, 2)), "07");
    assert_eq!(s(zero_pad_exec(123, 2)), "123");
    assert_eq!(s(signed_decimal_exec(-305)), "-305");
    assert_eq!(s(signed_decimal_exec(i64::MIN)), i64::MIN.to_string());
}

#[test]
fn clock_layouts() {
    let t = LocalTime { year: 2026, month: 3, day: 4, hour: 0, minute: 9 };
    assert_eq!(s(date_hm_chars(&t)), "2026-03-04 0009");
    assert_eq!(s(clock_chars(&t)), "12:09 AM");
    let pm = LocalTime { year: 2026, month: 12, day: 31, hour: 23, minute: 59 };
    assert_eq!(s(date_clock_chars(&pm)), "2026-12-31 11:59 PM");
    assert_eq!(s(year_chars(12345)), "+12345");
    assert_eq!(s(year_chars(-1)), "-0001");
    assert_eq!(s(year_chars(33)), "0033");
}

#[test]
fn local_time_of_epoch_is_around_new_year_1970() {
    let t = local_time_at(0);
    assert!((t.year == 1970 && t.month == 1 && t.day == 1) || (t.year == 1969 && t.month == 12 && t.day == 31));
    let later = local_time_at(86_400_000 * 400);
    assert_eq!(later.year, 1971);
}

#[test]
fn joins_like_pathbuf() {
    assert_eq!(join_path("/home/u", "x"), "/home/u/x");
    assert_eq!(join_path("/home/u/", "x"), "/home/u/x");
    assert_eq!(join_path("/home/u", "/abs"), "/abs");
    assert_eq!(join_path("", "rel"), "rel");
    assert_eq!(join_path("a", ""), "a/");
}

#[test]
fn home_expansion() {
    assert_eq!(expand_home("~/Notes", Some("/Users/me")), "/Users/me/Notes");
    assert_eq!(expand_home("~/Notes", None), "~/Notes");
    assert_eq!(expand_home("/tmp/x", Some("/Users/me")), "/tmp/x");
    assert_eq!(expand_home("~user/x", Some("/Users/me")), "~user/x");
}

#[test]
fn save_dir_defaults_when_setting_deleted() {
    assert_eq!(transcript_save_dir(None, Some("/Users/me")), "/Users/me/Documents/AI Buddy Transcripts");
    assert_eq!(transcript_save_dir(Some("~/Desktop"), Some("/Users/me")), "/Users/me/Desktop");
    assert_eq!(transcript_save_dir(Some("/srv/notes"), None), "/srv/notes");
}

#[test]
fn file_names_and_extensions() {
    assert_eq!(file_name("/a/b/report.TXT").as_deref(), Some("report.TXT"));
    assert_eq!(file_name("/a/b/").as_deref(), Some("b"));
    assert_eq!(file_name("a/."), Some("a".to_string()));
    assert_eq!(file_name("/a/.."), None);
    assert_eq!(file_name("/"), None);
    let ext = |n: &str| extension(&to_chars(n)).map(s);
    assert_eq!(ext("photo.JPG").as_deref(), Some("JPG"));
    assert_eq!(ext(".bashrc"), None);
    assert_eq!(ext("archive.tar.gz").as_deref(), Some("gz"));
    assert_eq!(ext("noext"), None);
    assert_eq!(ext("trailing.").as_deref(), Some(""));
}

#[test]
fn file_notes_for_images_and_pdfs() {
    assert_eq!(
        file_note("/Users/me/Pictures/Cat.PNG").as_deref(),
        Some("[Image file 'Cat.PNG' — image content cannot be read as text]")
    );
    assert_eq!(
        file_note("/x/paper.pdf").as_deref(),
        Some("[PDF file 'paper.pdf' — PDF text extraction is not supported]")
    );
    assert_eq!(file_note("/x/notes.md"), None);
    assert_eq!(file_note("/x/.png"), None);
    assert_eq!(file_note("/x/y.heic").as_deref(), Some("[Image file 'y.heic' — image content cannot be read as text]"));
}

#[test]
fn context_text_truncates_at_2500_bytes() {
    let short = "hello";
    assert_eq!(context_text(short), "hello");
    let long = "a".repeat(3000);
    let out = context_text(&long);
    assert_eq!(out, format!("{}\n… (truncated — file too large for context window)", "a".repeat(2500)));
    let exact = "b".repeat(2500);
    assert_eq!(context_text(&exact), exact);
}

#[test]
fn speech_asset_codes() {
    assert_eq!(speech_assets_status(1), "installed");
    assert_eq!(speech_assets_status(2), "download-required");
    assert_eq!(speech_assets_status(-1), "legacy");
    assert_eq!(speech_assets_status(0), "unsupported");
    assert_eq!(install_error(0), None);
    assert_eq!(install_error(-1).as_deref(), Some("Requires macOS 26 or later"));
    assert_eq!(install_error(-2).as_deref(), Some("No supported speech locale"));
    assert_eq!(install_error(5).as_deref(), Some("Speech model download failed"));
    assert_eq!(install_result(0), Ok(()));
    assert_eq!(install_result(-3), Err("Speech model install failed (code -3)".to_string()));
}

#[test]
fn diarization_model_locations() {
    assert_eq!(model_dir("/data"), "/data/models/diarization");
    assert_eq!(seg_path("/data"), "/data/models/diarization/segmentation.onnx");
    assert_eq!(emb_path("/data/"), "/data/models/diarization/embedding.onnx");
    assert!(models_installed(true, true));
    assert!(!models_installed(true, false));
    assert_eq!(diarization_models_status(true), "installed");
    assert_eq!(diarization_models_status(false), "missing");
}

#[test]
fn model_path_prefers_bundled_copy() {
    assert_eq!(model_file_path("/data"), "/data/models/gemma-4-E4B-it-Q4_K_M.gguf");
    let bundled = model_path(Some("/res"), Ok("/data"), |p: String| p.starts_with("/res/"));
    assert_eq!(bundled.as_deref(), Ok("/res/models/gemma-4-E4B-it-Q4_K_M.gguf"));
    let downloaded = model_path(Some("/res"), Ok("/data"), |_p: String| false);
    assert_eq!(downloaded.as_deref(), Ok("/data/models/gemma-4-E4B-it-Q4_K_M.gguf"));
    let unknown = model_path(None, Err("no app data dir"), |_p: String| false);
    assert_eq!(unknown, Err("no app data dir".to_string()));
}

#[test]
fn prev_app_ignores_own_pid() {
    let mut prev = PrevApp(None);
    prev.remember(Some(42), 42);
    assert_eq!(prev.0, None);
    prev.remember(Some(7), 42);
    assert_eq!(prev.0, Some(7));
    prev.remember(None, 42);
    assert_eq!(prev.0, Some(7));
    assert_eq!(paste_target(Some(7)), Ok(7));
    assert_eq!(paste_target(None), Err("No target app to paste into".to_string()));
}

#[test]
fn pending_text_is_taken_once() {
    let mut pending = PendingText(PendingCapture { text: "selected".into(), debug: "log".into() });
    let first = pending.take();
    assert_eq!(first.text, "selected");
    assert_eq!(first.debug, "log");
    let second = pending.take();
    assert_eq!(second.text, "");
    assert_eq!(second.debug, "");
}

#[test]
fn selection_read_through_accessibility() {
    let mut cap = SelectionCapture::start(Some(42));
    assert!(matches!(cap.phase, CapturePhase::Focus));
    cap.on_focused(0, false);
    assert!(matches!(cap.phase, CapturePhase::Selection));
    cap.on_selected(0, false, "hello \"world\"");
    assert!(matches!(cap.phase, CapturePhase::Done));
    assert_eq!(cap.text.as_deref(), Some("hello \"world\""));
    assert_eq!(
        cap.log,
        "AXUIElementCreateApplication(pid=42)\nAXFocusedUIElement → err=0 OK\nAXSelectedText → err=0 OK → \"hello \\\"world\\\"\"\n"
    );
    let (text, log) = capture_report(true, Some(42), 100, cap);
    assert_eq!(text, "hello \"world\"");
    assert!(log.starts_with("AX trusted: true\nSaved PID: Some(42)  own PID: 100\nAXUIElementCreateApplication(pid=42)\n"));
}

#[test]
fn selection_falls_back_when_no_focused_element() {
    let mut cap = SelectionCapture::start(None);
    cap.on_focused(-25204, true);
    assert!(matches!(cap.phase, CapturePhase::Clipboard));
    assert_eq!(cap.log, "AXUIElementCreateSystemWide()\nAXFocusedUIElement → err=-25204 FAILED (null=true)\n");
    cap.on_clipboard(Some("copied".to_string()), "[clipboard fallback]\n");
    assert!(matches!(cap.phase, CapturePhase::Done));
    let (text, log) = capture_report(false, None, 9, cap);
    assert_eq!(text, "copied");
    assert_eq!(
        log,
        "AX trusted: false\nSaved PID: None  own PID: 9\nAXUIElementCreateSystemWide()\nAXFocusedUIElement → err=-25204 FAILED (null=true)\n[clipboard fallback]\n"
    );
}

#[test]
fn empty_or_failed_selection_goes_to_clipboard() {
    let mut cap = SelectionCapture::start(Some(5));
    cap.on_focused(0, false);
    cap.on_selected(0, false, "");
    assert!(matches!(cap.phase, CapturePhase::Clipboard));
    assert!(cap.text.is_none());
    assert!(cap.log.ends_with("AXSelectedText → err=0 OK → \"\"\nAXSelectedText was empty, trying clipboard\n"));

    let mut cap = SelectionCapture::start(Some(5));
    cap.on_focused(0, false);
    cap.on_selected(-25212, true, "");
    assert!(matches!(cap.phase, CapturePhase::Clipboard));
    assert!(cap.log.ends_with("AXSelectedText → err=-25212 FAILED (null=true) → trying clipboard\n"));
    cap.on_clipboard(None, "");
    let (text, _) = capture_report(true, Some(5), 1, cap);
    assert_eq!(text, "");
}

#[test]
fn clipboard_probe_reads_after_change() {
    let mut probe = ClipboardProbe::start(7);
    assert!(matches!(probe.polled(7), ProbeStep::Wait));
    assert!(matches!(probe.polled(7), ProbeStep::Wait));
    assert!(matches!(probe.polled(8), ProbeStep::Read));
    probe.on_read(Some("line one\nline two".to_string()));
    let (sel, log) = probe.finish(true);
    assert_eq!(sel.as_deref(), Some("line one\nline two"));
    assert_eq!(
        log,
        "[clipboard fallback]\nclipboard saved (changeCount=7)\nposted ⌘C\nclipboard changed (attempt 3) → \"line one\\nline two\"\nclipboard restored\n"
    );
}

#[test]
fn clipboard_probe_gives_up_after_ten_polls() {
    let mut probe = ClipboardProbe::start(-1);
    for _ in 0..9 {
        assert!(matches!(probe.polled(-1), ProbeStep::Wait));
    }
    assert!(matches!(probe.polled(-1), ProbeStep::GiveUp));
    let (sel, log) = probe.finish(false);
    assert!(sel.is_none());
    assert_eq!(
        log,
        "[clipboard fallback]\nclipboard saved (changeCount=-1)\nposted ⌘C\nclipboard did not change within 500 ms\nclipboard was empty before, leaving as-is\n"
    );
}

#[test]
fn clipboard_probe_change_without_text() {
    let mut probe = ClipboardProbe::start(3);
    assert!(matches!(probe.polled(4), ProbeStep::Read));
    probe.on_read(None);
    let (sel, log) = probe.finish(true);
    assert!(sel.is_none());
    assert!(log.ends_with(
        "clipboard changed (attempt 1) → \"(empty)\"\nclipboard did not change within 500 ms\nclipboard restored\n"
    ));
}

#[test]
fn same_path_matches_std_components() {
    let cases = [
        ("/a/b", "/a/b/"),
        ("/a//b", "/a/b"),
        ("/a/./b", "/a/b"),
        ("a/b", "/a/b"),
        ("./a", "a"),
        ("./a", "././a"),
        ("/a/../b", "/b"),
        ("", "."),
        ("/", "//"),
        ("/.", "/"),
        ("a/.", "a"),
        (".//a", "./a"),
    ];
    for (x, y) in cases {
        assert_eq!(
            same_path(x, y),
            std::path::Path::new(x) == std::path::Path::new(y),
            "{x:?} vs {y:?}"
        );
    }
}
