use aibuddy::llm::{
    check_response_fits, check_short_fits, clean_short_text, fit_prompt_tokens, format_prompt,
    response_budget,
    short_text_prompt, short_text_should_stop, ChatMessage, StopScanner,
};

fn msg(role: &str, content: &str) -> ChatMessage {
    ChatMessage { role: role.to_string(), content: content.to_string() }
}

#[test]
fn format_prompt_with_system_and_turns() {
    let p = format_prompt("Be brief.", &[msg("user", "Hi"), msg("assistant", "Hello!"), msg("user", "Sum 2+2")]);
    assert_eq!(
        p,
        "<start_of_turn>system\nBe brief.<end_of_turn>\n<start_of_turn>user\nHi<end_of_turn>\n<start_of_turn>model\nHello!<end_of_turn>\n<start_of_turn>user\nSum 2+2<end_of_turn>\n<start_of_turn>model\n"
    );
}

#[test]
fn format_prompt_without_system() {
    let p = format_prompt("", &[msg("user", "x")]);
    assert_eq!(p, "<start_of_turn>user\nx<end_of_turn>\n<start_of_turn>model\n");
}

#[test]
fn format_prompt_empty_conversation_opens_model_turn() {
    assert_eq!(format_prompt("", &[]), "<start_of_turn>model\n");
}

#[test]
fn format_prompt_unknown_roles_become_model() {
    let p = format_prompt("", &[msg("system", "a"), msg("User", "b")]);
    assert_eq!(
        p,
        "<start_of_turn>model\na<end_of_turn>\n<start_of_turn>model\nb<end_of_turn>\n<start_of_turn>model\n"
    );
}

#[test]
fn short_prompt_is_single_user_turn() {
    assert_eq!(short_text_prompt("Title?"), "<start_of_turn>user\nTitle?<end_of_turn>\n<start_of_turn>model\n");
}

fn run(pieces: &[&str]) -> (Vec<String>, bool, Option<String>) {
    let mut s = StopScanner::new();
    let mut out = Vec::new();
    let mut stopped = false;
    for p in pieces {
        let step = s.push(p);
        if let Some(t) = step.emit {
            out.push(t);
        }
        if step.stop {
            stopped = true;
            break;
        }
    }
    let fin = s.finish();
    (out, stopped, fin)
}

#[test]
fn scanner_holds_back_short_text_until_finish() {
    let (out, stopped, fin) = run(&["Hello", " world"]);
    assert!(out.is_empty());
    assert!(!stopped);
    assert_eq!(fin.as_deref(), Some("Hello world"));
}

#[test]
fn scanner_emits_all_but_last_fifteen_bytes() {
    let (out, stopped, fin) = run(&["abcdefghijklmnopqrstuvwxyz"]);
    assert_eq!(out, vec!["abcdefghijk".to_string()]);
    assert!(!stopped);
    assert_eq!(fin.as_deref(), Some("lmnopqrstuvwxyz"));
}

#[test]
fn scanner_stops_at_end_of_turn_split_across_pieces() {
    let (out, stopped, fin) = run(&["The answer is 4.", "<end_", "of_turn>", "more"]);
    assert!(stopped);
    // The text before the marker is shown exactly once.
    assert_eq!(out.concat(), "The answer is 4.");
    assert_eq!(fin, None);
}

#[test]
fn scanner_stop_marker_at_start_emits_nothing() {
    let (out, stopped, fin) = run(&["<start_of_turn>user"]);
    assert!(out.is_empty());
    assert!(stopped);
    assert_eq!(fin, None);
}

#[test]
fn scanner_keeps_whole_characters() {
    // 20 bytes: "ééééé" (10 bytes) + "abcdefghij"
    let (out, _, fin) = run(&["ééééé", "abcdefghij"]);
    let streamed = out.concat();
    assert_eq!(streamed, "éé");
    assert_eq!(fin.as_deref(), Some("éééabcdefghij"));
}

#[test]
fn scanner_no_stop_streams_everything() {
    let text = ["Once upon a time ", "there was a droid ", "who helped people."];
    let (out, stopped, fin) = run(&text);
    assert!(!stopped);
    let mut all = out.concat();
    all.push_str(&fin.unwrap_or_default());
    assert_eq!(all, text.concat());
}

#[test]
fn short_text_stop_conditions() {
    assert!(!short_text_should_stop("Weekly sync"));
    assert!(short_text_should_stop("Weekly sync\n"));
    assert!(short_text_should_stop("Weekly<end_of_turn>"));
    assert!(short_text_should_stop("a<start_of_turn>"));
}

#[test]
fn clean_short_text_cuts_and_trims() {
    assert_eq!(clean_short_text("  Budget Review Meeting <end_of_turn>junk"), "Budget Review Meeting");
    assert_eq!(clean_short_text("Plan\r\nmore"), "Plan");
    assert_eq!(clean_short_text("x<start_of_turn>model"), "x");
    assert_eq!(clean_short_text(""), "");
    assert_eq!(clean_short_text("\nsecond"), "");
}

#[test]
fn response_budget_defaults_to_512() {
    assert_eq!(response_budget(None), 512);
    assert_eq!(response_budget(Some(64)), 64);
}

#[test]
fn response_fit_boundary() {
    assert!(check_response_fits(3584, 512).is_ok());
    assert_eq!(
        check_response_fits(3585, 512),
        Err("Input is too long (3585 tokens). Shorten the file or message so the total fits in the 4096-token context window.".to_string())
    );
    assert!(check_response_fits(usize::MAX, 1).is_err());
}

#[test]
fn short_fit_boundary() {
    assert!(check_short_fits(2032, 16).is_ok());
    assert_eq!(check_short_fits(2033, 16), Err("Prompt too long for subject generation".to_string()));
}

#[test]
fn long_input_is_cut_keeping_the_closing_markers() {
    let tokens: Vec<i32> = (0..5000).collect();
    let fitted = fit_prompt_tokens(&tokens, 5, 400);
    assert_eq!(fitted.len(), 4096 - 400);
    assert_eq!(&fitted[..3691], &tokens[..3691]);
    assert_eq!(&fitted[3691..], &[4995, 4996, 4997, 4998, 4999]);
}

#[test]
fn input_that_fits_is_kept_whole() {
    let tokens: Vec<i32> = (0..3696).collect();
    assert_eq!(fit_prompt_tokens(&tokens, 5, 400), tokens);
    let one_more: Vec<i32> = (0..3697).collect();
    let fitted = fit_prompt_tokens(&one_more, 5, 400);
    assert_eq!(fitted.len(), 3696);
    assert_eq!(fitted[3690], 3690);
    assert_eq!(fitted[3691], 3692);
}
