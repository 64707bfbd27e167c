//! Transcript sessions: the stored segments, speaker turns, subjects and
//! summaries, the meeting-notes markdown, speaker attribution from
//! diarization, and file naming.
use vstd::prelude::*;
use crate::clock::{
    clock_chars, clock_text, date_clock_chars, date_clock_text, date_hm_chars, date_hm_text,
    date_chars, date_text, local_time_at, local_time_of, LocalTime, MAX_LOCAL_MS,
};
use crate::paths::{join_chars, path_components, path_join, same_path};
use crate::diarization::SpeakerSegment;
use crate::text::{
    byte_len, decimal, decimal_exec, extend_chars, first_words_joined, fit_prefix,
    fit_prefix_exec, from_chars, is_white, join, lemma_byte_len_bounds, lemma_byte_len_concat,
    lemma_fit_prefix, lemma_rskip_white, lemma_skip_white, push_chars, push_str, rskip_white,
    signed_decimal, signed_decimal_exec, skip_white, slice_chars, take_at_most, to_chars, trim,
    trim_chars, trim_end, trim_end_chars, utf8_width, char_width, words,
};

verus! {

// ── Segments and the session store ──────────────────────────────────────────

/// A finalized piece of speech. `source` is `me`, `them`, or a speaker label
/// after diarization; `start_ms`/`end_ms` are audio-relative milliseconds
/// (absent when the engine gives no time range).
pub struct StoredSegment {
    pub source: String,
    pub text: String,
    pub ts_ms: u64,
    pub start_ms: Option<u64>,
    pub end_ms: Option<u64>,
}

/// A live or final result as shown in the transcript panel.
pub struct TranscriptionSegment {
    pub source: String,
    pub text: String,
    pub is_final: bool,
}

/// The current live meeting-notes file and the last saved transcript.
pub struct TranscriptFiles {
    pub live: Option<String>,
    pub saved: Option<String>,
}

/// Whether a transcription session is running.
pub struct TranscriptionActive(pub bool);

/// The source of truth for the current or last transcript; cleared when a
/// new session starts.
pub struct TranscriptStore {
    pub segments: Vec<StoredSegment>,
    pub session_start_ms: Option<u64>,
    pub live_path: Option<String>,
    pub last_saved: Option<String>,
}

/// The view of a segment: source, text, timestamp, time range.
pub open spec fn seg_view(s: StoredSegment) -> (Seq<char>, Seq<char>, u64, Option<u64>, Option<u64>) {
    (s.source@, s.text@, s.ts_ms, s.start_ms, s.end_ms)
}

pub open spec fn segs_view(v: Seq<StoredSegment>) -> Seq<(Seq<char>, Seq<char>, u64, Option<u64>, Option<u64>)> {
    v.map_values(|s: StoredSegment| seg_view(s))
}

pub open spec fn opt_str_view(o: Option<String>) -> Option<Seq<char>> {
    match o {
        Some(s) => Some(s@),
        None => None,
    }
}

fn copy_opt_string(o: &Option<String>) -> (r: Option<String>)
    ensures
        opt_str_view(r) == opt_str_view(*o),
{
    match o {
        Some(s) => Some(s.clone()),
        None => None,
    }
}

pub fn copy_segment(s: &StoredSegment) -> (r: StoredSegment)
    ensures
        seg_view(r) == seg_view(*s),
{
    StoredSegment {
        source: s.source.clone(),
        text: s.text.clone(),
        ts_ms: s.ts_ms,
        start_ms: s.start_ms,
        end_ms: s.end_ms,
    }
}

pub fn copy_segments(v: &Vec<StoredSegment>) -> (r: Vec<StoredSegment>)
    ensures
        segs_view(r@) == segs_view(v@),
{
    let mut r: Vec<StoredSegment> = Vec::new();
    let mut i: usize = 0;
    while i < v.len()
        invariant
            i <= v.len(),
            r@.len() == i,
            forall|k: int| 0 <= k < i ==> seg_view(#[trigger] r@[k]) == seg_view(v@[k]),
        decreases v.len() - i,
    {
        r.push(copy_segment(&v[i]));
        i += 1;
    }
    assert(segs_view(r@) =~= segs_view(v@));
    r
}

impl TranscriptStore {
    pub fn new() -> (s: Self)
        ensures
            s.segments@.len() == 0,
            s.session_start_ms is None,
            s.live_path is None,
            s.last_saved is None,
    {
        TranscriptStore {
            segments: Vec::new(),
            session_start_ms: None,
            live_path: None,
            last_saved: None,
        }
    }

    /// A session started at `now_ms`: earlier segments are dropped and the
    /// new live notes file (if one could be created) is remembered.
    pub fn begin_session(&mut self, now_ms: u64, live: Option<String>)
        ensures
            final(self).segments@.len() == 0,
            final(self).session_start_ms == Some(now_ms),
            opt_str_view(final(self).live_path) == opt_str_view(live),
            opt_str_view(final(self).last_saved) == opt_str_view(old(self).last_saved),
    {
        self.segments.clear();
        self.session_start_ms = Some(now_ms);
        self.live_path = live;
    }

    /// Record a finalized segment.
    pub fn push_final(&mut self, seg: StoredSegment)
        ensures
            segs_view(final(self).segments@) == segs_view(old(self).segments@).push(seg_view(seg)),
            final(self).session_start_ms == old(self).session_start_ms,
            opt_str_view(final(self).live_path) == opt_str_view(old(self).live_path),
            opt_str_view(final(self).last_saved) == opt_str_view(old(self).last_saved),
    {
        let ghost before = self.segments@;
        self.segments.push(seg);
        assert(segs_view(self.segments@) =~= segs_view(before).push(seg_view(seg)));
    }

    /// The stored segments (`get_transcript`).
    pub fn transcript(&self) -> (r: Vec<StoredSegment>)
        ensures
            segs_view(r@) == segs_view(self.segments@),
    {
        copy_segments(&self.segments)
    }

    /// Hand over the live notes path for finalizing; none is left behind.
    pub fn take_live_path(&mut self) -> (r: Option<String>)
        ensures
            opt_str_view(r) == opt_str_view(old(self).live_path),
            final(self).live_path is None,
            segs_view(final(self).segments@) == segs_view(old(self).segments@),
            final(self).session_start_ms == old(self).session_start_ms,
            opt_str_view(final(self).last_saved) == opt_str_view(old(self).last_saved),
    {
        let r = self.live_path.take();
        r
    }

    /// Remember a successfully saved transcript file.
    pub fn record_saved(&mut self, path: String)
        ensures
            opt_str_view(final(self).last_saved) == Some(path@),
            segs_view(final(self).segments@) == segs_view(old(self).segments@),
            final(self).session_start_ms == old(self).session_start_ms,
            opt_str_view(final(self).live_path) == opt_str_view(old(self).live_path),
    {
        self.last_saved = Some(path);
    }

    /// The live notes file and the last saved transcript (`get_transcript_files`).
    pub fn files(&self) -> (f: TranscriptFiles)
        ensures
            opt_str_view(f.live) == opt_str_view(self.live_path),
            opt_str_view(f.saved) == opt_str_view(self.last_saved),
    {
        TranscriptFiles {
            live: copy_opt_string(&self.live_path),
            saved: copy_opt_string(&self.last_saved),
        }
    }
}

/// Starting is refused while a session runs.
pub fn check_can_start(active: &TranscriptionActive) -> (r: Result<(), String>)
    ensures
        r is Ok <==> !active.0,
        r matches Err(e) ==> e@ == "Transcription is already running — stop it first"@,
{
    if active.0 {
        Err("Transcription is already running — stop it first".to_owned())
    } else {
        Ok(())
    }
}

// ── Speech engine callbacks and codes ────────────────────────────────────────

/// Name of a speech-recognition authorization status code.
pub open spec fn auth_status_spec(status: i32) -> Seq<char> {
    if status == 3 {
        "authorized"@
    } else if status == 1 {
        "denied"@
    } else if status == 2 {
        "restricted"@
    } else {
        "notDetermined"@
    }
}

pub fn auth_status_name(status: i32) -> (name: &'static str)
    ensures
        name@ == auth_status_spec(status),
{
    match status {
        3 => "authorized",
        1 => "denied",
        2 => "restricted",
        _ => "notDetermined",
    }
}

/// What a speech-engine callback carries, by its source code.
pub enum SpeechEvent {
    /// A lane is cooling down after repeated errors; the session goes on.
    Warning,
    /// The session ended abnormally.
    Fatal,
    /// Recognized text from the microphone (`me`) or the system audio (`them`).
    Speech { source: String },
}

pub fn classify_speech(code: i32) -> (e: SpeechEvent)
    ensures
        code == -2 ==> e is Warning,
        code < 0 && code != -2 ==> e is Fatal,
        code == 0 ==> (e matches SpeechEvent::Speech { source } && source@ == "me"@),
        code > 0 ==> (e matches SpeechEvent::Speech { source } && source@ == "them"@),
{
    if code == -2 {
        SpeechEvent::Warning
    } else if code < 0 {
        SpeechEvent::Fatal
    } else if code == 0 {
        SpeechEvent::Speech { source: "me".to_owned() }
    } else {
        SpeechEvent::Speech { source: "them".to_owned() }
    }
}

/// The outcome of asking the engine to start, by its return code.
pub fn start_result(rc: i32) -> (r: Result<(), String>)
    ensures
        r is Ok <==> rc == 0,
        rc == -1 ==> r->Err_0@ == "Transcription requires macOS 13.0 or later"@,
        rc == -2 ==> r->Err_0@
            == "Speech Recognition permission not granted — enable it in System Settings → Privacy & Security → Speech Recognition"@,
        rc == -3 ==> r->Err_0@
            == "On-device speech recognition is unavailable for your language — enable Dictation in System Settings → Keyboard"@,
        rc != 0 && rc != -1 && rc != -2 && rc != -3 ==> r->Err_0@ == "Failed to start transcription (code "@
            + signed_decimal(rc as int) + ")"@,
{
    if rc == 0 {
        Ok(())
    } else if rc == -1 {
        Err("Transcription requires macOS 13.0 or later".to_owned())
    } else if rc == -2 {
        Err(
            "Speech Recognition permission not granted — enable it in System Settings → Privacy & Security → Speech Recognition".to_owned(),
        )
    } else if rc == -3 {
        Err(
            "On-device speech recognition is unavailable for your language — enable Dictation in System Settings → Keyboard".to_owned(),
        )
    } else {
        let mut m = "Failed to start transcription (code ".to_owned();
        push_chars(&mut m, &signed_decimal_exec(rc as i64));
        push_str(&mut m, ")");
        Err(m)
    }
}

// ── Speaker turns ───────────────────────────────────────────────────────────

/// Consecutive segments from one source, merged.
pub struct Turn {
    pub source: String,
    pub ts_ms: u64,
    pub text: String,
}

pub open spec fn turn_view(t: Turn) -> (Seq<char>, u64, Seq<char>) {
    (t.source@, t.ts_ms, t.text@)
}

pub open spec fn turns_view(v: Seq<Turn>) -> Seq<(Seq<char>, u64, Seq<char>)> {
    v.map_values(|t: Turn| turn_view(t))
}

/// Fold consecutive same-source segments into speaker turns: a turn keeps
/// the timestamp of its first segment, and its texts are joined by spaces.
pub open spec fn fold_spec(segs: Seq<StoredSegment>) -> Seq<(Seq<char>, u64, Seq<char>)>
    decreases segs.len(),
{
    if segs.len() == 0 {
        seq![]
    } else {
        let prev = fold_spec(segs.drop_last());
        let s = segs.last();
        if prev.len() > 0 && prev.last().0 == s.source@ {
            prev.update(
                prev.len() - 1,
                (prev.last().0, prev.last().1, prev.last().2 + seq![' '] + s.text@),
            )
        } else {
            prev.push((s.source@, s.ts_ms, s.text@))
        }
    }
}

pub fn fold_turns(segments: &Vec<StoredSegment>) -> (turns: Vec<Turn>)
    ensures
        turns_view(turns@) == fold_spec(segments@),
{
    let mut turns: Vec<Turn> = Vec::new();
    let mut i: usize = 0;
    while i < segments.len()
        invariant
            i <= segments.len(),
            turns@.len() == fold_spec(segments@.take(i as int)).len(),
            forall|k: int|
                0 <= k < turns@.len() ==> turn_view(#[trigger] turns@[k]) == fold_spec(
                    segments@.take(i as int),
                )[k],
        decreases segments.len() - i,
    {
        let seg = &segments[i];
        let ghost prev = fold_spec(segments@.take(i as int));
        assert(segments@.take(i + 1).drop_last() =~= segments@.take(i as int));
        assert(segments@.take(i + 1).last() == segments@[i as int]);
        let n = turns.len();
        if n > 0 && turns[n - 1].source == seg.source {
            assert(prev.last().0 == seg.source@);
            let mut last = turns.pop().unwrap();
            crate::text::push_char(&mut last.text, ' ');
            push_str(&mut last.text, seg.text.as_str());
            turns.push(last);
            assert(turn_view(turns@[n - 1]) == fold_spec(segments@.take(i + 1))[n - 1]);
        } else {
            assert(n > 0 ==> prev.last().0 != seg.source@);
            turns.push(Turn { source: seg.source.clone(), ts_ms: seg.ts_ms, text: seg.text.clone() });
        }
        i += 1;
    }
    assert(segments@.take(segments.len() as int) =~= segments@);
    assert(turns_view(turns@) =~= fold_spec(segments@));
    turns
}

/// Neighbouring turns always come from different sources.
pub proof fn lemma_turns_alternate(segs: Seq<StoredSegment>)
    ensures
        forall|k: int|
            0 <= k < fold_spec(segs).len() - 1 ==> #[trigger] fold_spec(segs)[k].0 != fold_spec(
                segs,
            )[k + 1].0,
        fold_spec(segs).len() <= segs.len(),
        segs.len() > 0 ==> fold_spec(segs).len() > 0,
    decreases segs.len(),
{
    if segs.len() > 0 {
        lemma_turns_alternate(segs.drop_last());
    }
}

/// How a source is shown: `me` → `Me`, `them` → `Them`, speaker labels as is.
pub open spec fn source_label(source: Seq<char>) -> Seq<char> {
    if source == "me"@ {
        "Me"@
    } else if source == "them"@ {
        "Them"@
    } else {
        source
    }
}

pub fn source_label_exec(source: &String) -> (r: String)
    ensures
        r@ == source_label(source@),
{
    if crate::text::str_eq(source.as_str(), "me") {
        "Me".to_owned()
    } else if crate::text::str_eq(source.as_str(), "them") {
        "Them".to_owned()
    } else {
        source.clone()
    }
}

// ── Subjects ────────────────────────────────────────────────────────────────

/// Characters that cannot stand in a file name on the platforms we write to.
pub open spec fn forbidden(c: char) -> bool {
    c == '/' || c == ':' || c == '\\' || c == '?' || c == '%' || c == '*' || c == '|' || c == '"'
        || c == '<' || c == '>' || c == '\n' || c == '\r'
}

pub open spec fn strip_forbidden(s: Seq<char>) -> Seq<char>
    decreases s.len(),
{
    if s.len() == 0 {
        seq![]
    } else if forbidden(s.last()) {
        strip_forbidden(s.drop_last())
    } else {
        strip_forbidden(s.drop_last()).push(s.last())
    }
}

/// Longest subject, in bytes.
pub const MAX_SUBJECT_BYTES: usize = 40;

pub open spec fn transcript_word() -> Seq<char> {
    "Transcript"@
}

/// The subject as it may appear in a file name: trimmed, without forbidden
/// characters, cut at a character boundary to at most 40 bytes, and
/// `Transcript` when nothing is left.
pub open spec fn sanitize_spec(raw: Seq<char>) -> Seq<char> {
    let cleaned = trim(strip_forbidden(trim(raw)));
    let capped = if byte_len(cleaned) > 40 {
        trim_end(cleaned.take(fit_prefix(cleaned, 40) as int))
    } else {
        cleaned
    };
    if capped.len() == 0 {
        transcript_word()
    } else {
        capped
    }
}

proof fn lemma_strip_forbidden(s: Seq<char>)
    ensures
        forall|k: int| 0 <= k < strip_forbidden(s).len() ==> !forbidden(#[trigger] strip_forbidden(s)[k]),
    decreases s.len(),
{
    if s.len() > 0 {
        lemma_strip_forbidden(s.drop_last());
        let prev = strip_forbidden(s.drop_last());
        if !forbidden(s.last()) {
            assert forall|k: int| 0 <= k < strip_forbidden(s).len() implies !forbidden(
                #[trigger] strip_forbidden(s)[k],
            ) by {
                if k < prev.len() {
                    assert(strip_forbidden(s)[k] == prev[k]);
                }
            }
        }
    }
}

fn strip_forbidden_exec(s: &Vec<char>) -> (r: Vec<char>)
    ensures
        r@ == strip_forbidden(s@),
{
    let mut r: Vec<char> = Vec::new();
    let mut i: usize = 0;
    while i < s.len()
        invariant
            i <= s.len(),
            r@ == strip_forbidden(s@.take(i as int)),
        decreases s.len() - i,
    {
        let c = s[i];
        assert(s@.take(i + 1).drop_last() =~= s@.take(i as int));
        if !(c == '/' || c == ':' || c == '\\' || c == '?' || c == '%' || c == '*' || c == '|' || c
            == '"' || c == '<' || c == '>' || c == '\n' || c == '\r') {
            r.push(c);
        }
        i += 1;
    }
    assert(s@.take(s.len() as int) =~= s@);
    r
}

proof fn lemma_trim_bounds(s: Seq<char>)
    ensures
        trim(s).len() <= s.len(),
        forall|k: int| 0 <= k < trim(s).len() ==> exists|m: int| 0 <= m < s.len() && #[trigger] trim(s)[k] == s[m],
        trim_end(s).len() <= s.len(),
        forall|k: int| 0 <= k < trim_end(s).len() ==> #[trigger] trim_end(s)[k] == s[k],
        trim_end(s).len() > 0 ==> !is_white(trim_end(s).last()),
        trim(s).len() > 0 ==> !is_white(trim(s)[0]) && !is_white(trim(s).last()),
{
    lemma_skip_white(s, 0);
    let a = skip_white(s, 0);
    let t = s.skip(a);
    lemma_rskip_white(t, t.len() as int);
    lemma_rskip_white(s, s.len() as int);
    assert forall|k: int| 0 <= k < trim(s).len() implies exists|m: int| 0 <= m < s.len() && #[trigger] trim(s)[k] == s[m] by {
        assert(trim(s)[k] == s[a + k]);
    }
}

proof fn lemma_transcript_word()
    ensures
        transcript_word().len() == 10,
        byte_len(transcript_word()) == 10,
        forall|k: int| 0 <= k < transcript_word().len() ==> !forbidden(#[trigger] transcript_word()[k]),
{
    reveal_strlit("Transcript");
    reveal_with_fuel(byte_len, 11);
}

/// Trimmed, stripped of forbidden characters, trimmed again.
fn cleaned_subject(raw: &str) -> (c: Vec<char>)
    ensures
        c@ == trim(strip_forbidden(trim(raw@))),
        forall|k: int| 0 <= k < c@.len() ==> !forbidden(#[trigger] c@[k]),
{
    let v = to_chars(raw);
    let t = trim_chars(&v);
    let f = strip_forbidden_exec(&t);
    let cleaned = trim_chars(&f);
    proof {
        lemma_strip_forbidden(t@);
        lemma_trim_bounds(f@);
        assert forall|k: int| 0 <= k < cleaned@.len() implies !forbidden(#[trigger] cleaned@[k]) by {
            let m = choose|m: int| 0 <= m < f@.len() && cleaned@[k] == f@[m];
        }
    }
    cleaned
}

/// Cut to at most 40 bytes at a character boundary, then trim the end.
fn cap_subject(cleaned: &Vec<char>) -> (r: Vec<char>)
    requires
        forall|k: int| 0 <= k < cleaned@.len() ==> !forbidden(#[trigger] cleaned@[k]),
    ensures
        r@ == (if byte_len(cleaned@) > 40 {
            trim_end(cleaned@.take(fit_prefix(cleaned@, 40) as int))
        } else {
            cleaned@
        }),
        byte_len(r@) <= 40,
        forall|k: int| 0 <= k < r@.len() ==> !forbidden(#[trigger] r@[k]),
{
    proof {
        lemma_byte_len_bounds(cleaned@);
    }
    let over = if cleaned.len() > 40 {
        true
    } else {
        crate::text::byte_len_exec(cleaned) > 40
    };
    if over {
        let cut = fit_prefix_exec(cleaned, 40);
        proof {
            lemma_fit_prefix(cleaned@, 40);
        }
        let pre = slice_chars(cleaned, 0, cut);
        assert(pre@ =~= cleaned@.take(cut as int));
        let c = trim_end_chars(&pre);
        proof {
            lemma_trim_bounds(pre@);
            assert(pre@.take(c@.len() as int) =~= c@);
            assert(pre@ =~= c@ + pre@.skip(c@.len() as int));
            lemma_byte_len_concat(c@, pre@.skip(c@.len() as int));
            assert forall|k: int| 0 <= k < c@.len() implies !forbidden(#[trigger] c@[k]) by {
                assert(c@[k] == cleaned@[k]);
            }
        }
        assert(byte_len(pre@) <= 40);
        c
    } else {
        let r = slice_chars(cleaned, 0, cleaned.len());
        assert(r@ =~= cleaned@);
        r
    }
}

/// Make a raw model reply (or first words) usable as a subject.
pub fn sanitize_subject(raw: &str) -> (r: String)
    ensures
        r@ == sanitize_spec(raw@),
        r@.len() > 0,
        byte_len(r@) <= MAX_SUBJECT_BYTES,
        forall|k: int| 0 <= k < r@.len() ==> !forbidden(#[trigger] r@[k]),
{
    let cleaned = cleaned_subject(raw);
    let capped = cap_subject(&cleaned);
    if capped.len() == 0 {
        proof {
            lemma_transcript_word();
        }
        "Transcript".to_owned()
    } else {
        from_chars(&capped)
    }
}

/// The subject when the model gives none: the first five words of the
/// first segment.
pub open spec fn fallback_spec(segs: Seq<StoredSegment>) -> Seq<char> {
    let first = if segs.len() > 0 {
        segs[0].text@
    } else {
        seq![]
    };
    sanitize_spec(join(take_at_most(words(first), 5), seq![' ']))
}

pub fn fallback_subject(segments: &Vec<StoredSegment>) -> (r: String)
    ensures
        r@ == fallback_spec(segments@),
{
    let first = if segments.len() > 0 {
        to_chars(segments[0].text.as_str())
    } else {
        Vec::new()
    };
    assert(first@ =~= (if segments@.len() > 0 {
        segments@[0].text@
    } else {
        seq![]
    }));
    let w = first_words_joined(&first, 5);
    let s = from_chars(&w);
    sanitize_subject(s.as_str())
}

/// The subject of a saved transcript: the model's reply, sanitized, or the
/// first words of the transcript when the model gave nothing usable.
pub open spec fn subject_spec(reply: Result<Seq<char>, Seq<char>>, segs: Seq<StoredSegment>) -> Seq<char> {
    match reply {
        Ok(s) => if trim(s).len() > 0 {
            sanitize_spec(s)
        } else {
            fallback_spec(segs)
        },
        Err(_) => fallback_spec(segs),
    }
}

pub open spec fn result_view(r: Result<String, String>) -> Result<Seq<char>, Seq<char>> {
    match r {
        Ok(s) => Ok(s@),
        Err(e) => Err(e@),
    }
}

pub fn choose_subject(reply: &Result<String, String>, segments: &Vec<StoredSegment>) -> (r: String)
    ensures
        r@ == subject_spec(result_view(*reply), segments@),
{
    match reply {
        Ok(s) => {
            let t = trim_chars(&to_chars(s.as_str()));
            if t.len() > 0 {
                sanitize_subject(s.as_str())
            } else {
                fallback_subject(segments)
            }
        },
        Err(_) => fallback_subject(segments),
    }
}

/// The transcript text the title prompt quotes: segment texts, each followed
/// by a space, until more than 2000 bytes have been gathered.
pub open spec fn title_source_from(segs: Seq<StoredSegment>, i: int, acc: Seq<char>) -> Seq<char>
    decreases segs.len() - i,
{
    if i < 0 || i >= segs.len() {
        acc
    } else {
        let next = acc + segs[i].text@ + seq![' '];
        if byte_len(next) > 2000 {
            next
        } else {
            title_source_from(segs, i + 1, next)
        }
    }
}

pub open spec fn title_prompt_head() -> Seq<char> {
    "Give a 3-5 word title for this meeting transcript. Reply with ONLY the title — no punctuation, no quotes.\n\nTranscript:\n"@
}

pub open spec fn title_prompt_spec(segs: Seq<StoredSegment>) -> Seq<char> {
    title_prompt_head() + title_source_from(segs, 0, seq![])
}

/// Whether `s` holds more than `limit` bytes, without overflowing.
fn bytes_exceed(s: &Vec<char>, limit: usize) -> (r: bool)
    ensures
        r == (byte_len(s@) > limit),
{
    let k = fit_prefix_exec(s, limit);
    proof {
        lemma_fit_prefix(s@, limit as int);
        if k == s.len() {
            assert(s@.take(k as int) =~= s@);
        } else {
            assert(s@ =~= s@.take(k + 1) + s@.skip(k + 1));
            lemma_byte_len_concat(s@.take(k + 1), s@.skip(k + 1));
        }
    }
    k < s.len()
}

/// The prompt asking the model for a 3-5 word meeting title.
pub fn title_prompt(segments: &Vec<StoredSegment>) -> (p: String)
    ensures
        p@ == title_prompt_spec(segments@),
{
    let mut t: Vec<char> = Vec::new();
    let mut i: usize = 0;
    let mut done = false;
    assert(t@ =~= Seq::<char>::empty());
    while i < segments.len() && !done
        invariant
            i <= segments.len(),
            !done ==> title_source_from(segments@, i as int, t@) == title_source_from(
                segments@,
                0,
                seq![],
            ),
            done ==> t@ == title_source_from(segments@, 0, seq![]),
        decreases segments.len() - i,
    {
        let ghost t0 = t@;
        extend_chars(&mut t, &to_chars(segments[i].text.as_str()));
        t.push(' ');
        assert(t@ =~= t0 + segments@[i as int].text@ + seq![' ']);
        let over = bytes_exceed(&t, 2000);
        i += 1;
        if over {
            done = true;
        }
    }
    let mut p = "Give a 3-5 word title for this meeting transcript. Reply with ONLY the title — no punctuation, no quotes.\n\nTranscript:\n".to_owned();
    push_chars(&mut p, &t);
    p
}


// ── Meeting summary ─────────────────────────────────────────────────────────

/// `Label: text` for one speaker turn.
pub open spec fn labeled_line(t: (Seq<char>, u64, Seq<char>)) -> Seq<char> {
    source_label(t.0) + seq![':', ' '] + t.2
}

pub open spec fn labeled_lines(turns: Seq<(Seq<char>, u64, Seq<char>)>) -> Seq<Seq<char>> {
    turns.map_values(|t: (Seq<char>, u64, Seq<char>)| labeled_line(t))
}

/// The speaker-labelled transcript the summary prompt quotes.
pub open spec fn summary_transcript(segs: Seq<StoredSegment>) -> Seq<char> {
    join(labeled_lines(fold_spec(segs)), seq!['\n'])
}

pub open spec fn summary_prompt_head() -> Seq<char> {
    "You are summarizing a meeting transcript into concise minutes. Write short markdown bullet points under exactly these three headings (omit a heading only if it has nothing):\n**Key Points**\n**Decisions**\n**Action Items**\n\nBe specific and factual. Do not invent content.\n\nTranscript:\n"@
}

/// The prompt for the bulleted meeting summary; none when the transcript is
/// blank (no summary is asked for then).
pub open spec fn summary_prompt_spec(segs: Seq<StoredSegment>) -> Option<Seq<char>> {
    if trim(summary_transcript(segs)).len() == 0 {
        None
    } else {
        Some(summary_prompt_head() + summary_transcript(segs))
    }
}

pub fn summary_prompt(segments: &Vec<StoredSegment>) -> (p: Option<String>)
    ensures
        opt_str_view(p) == summary_prompt_spec(segments@),
{
    let turns = fold_turns(segments);
    let ghost lines = labeled_lines(fold_spec(segments@));
    let mut t: Vec<char> = Vec::new();
    let mut i: usize = 0;
    while i < turns.len()
        invariant
            i <= turns.len(),
            turns_view(turns@) == fold_spec(segments@),
            lines == labeled_lines(fold_spec(segments@)),
            t@ == join(lines.take(i as int), seq!['\n']),
        decreases turns.len() - i,
    {
        let ghost t0 = t@;
        if i > 0 {
            t.push('\n');
        }
        let label = source_label_exec(&turns[i].source);
        extend_chars(&mut t, &to_chars(label.as_str()));
        t.push(':');
        t.push(' ');
        extend_chars(&mut t, &to_chars(turns[i].text.as_str()));
        proof {
            assert(turns_view(turns@)[i as int] == turn_view(turns@[i as int]));
            assert(lines.take(i + 1).drop_last() =~= lines.take(i as int));
            assert(lines[i as int] == labeled_line(fold_spec(segments@)[i as int]));
            if i == 0 {
                assert(t@ =~= lines[0]);
            } else {
                assert(t@ =~= t0 + seq!['\n'] + lines[i as int]);
            }
        }
        i += 1;
    }
    assert(lines.take(turns.len() as int) =~= lines);
    let trimmed = trim_chars(&t);
    if trimmed.len() == 0 {
        None
    } else {
        let mut p = "You are summarizing a meeting transcript into concise minutes. Write short markdown bullet points under exactly these three headings (omit a heading only if it has nothing):\n**Key Points**\n**Decisions**\n**Action Items**\n\nBe specific and factual. Do not invent content.\n\nTranscript:\n".to_owned();
        push_chars(&mut p, &t);
        Some(p)
    }
}

/// The summary body written to the file: the model's reply, or nothing when
/// generation failed.
pub fn summary_or_empty(reply: Result<String, String>) -> (s: String)
    ensures
        s@ == match reply {
            Ok(r) => r@,
            Err(_) => Seq::<char>::empty(),
        },
{
    match reply {
        Ok(r) => r,
        Err(_) => String::new(),
    }
}

// ── Meeting-notes markdown ──────────────────────────────────────────────────

pub open spec fn summary_section(summary: Option<Seq<char>>) -> Seq<char> {
    match summary {
        Some(s) => if trim(s).len() > 0 {
            trim(s) + "\n\n"@
        } else {
            "_Generated when the session ends._\n\n"@
        },
        None => "_Generated when the session ends._\n\n"@,
    }
}

/// `**Label** (h:mm AM): text` lines, one per turn, each followed by a blank
/// line.
pub open spec fn turn_lines(turns: Seq<(Seq<char>, u64, Seq<char>)>, clocks: Seq<LocalTime>) -> Seq<char>
    decreases turns.len(),
{
    if turns.len() == 0 {
        seq![]
    } else {
        turn_lines(turns.drop_last(), clocks) + "**"@ + source_label(turns.last().0) + "** ("@
            + clock_text(clocks[turns.len() - 1]) + "): "@ + turns.last().2 + "\n\n"@
    }
}

/// The meeting-notes file: title, time stamp, summary section, transcript.
pub open spec fn notes_spec(
    subject: Seq<char>,
    summary: Option<Seq<char>>,
    started: LocalTime,
    turns: Seq<(Seq<char>, u64, Seq<char>)>,
    clocks: Seq<LocalTime>,
) -> Seq<char> {
    "# "@ + subject + "\n\n_Transcribed by AI Buddy on "@ + date_clock_text(started) + "_\n\n"@
        + "## AI-Generated Summary\n\n"@ + summary_section(summary) + "## Transcript\n\n"@
        + turn_lines(turns, clocks)
}

/// Render the notes from turns whose local times are already known
/// (`clocks[k]` is the time of `turns[k]`).
pub fn render_notes(
    subject: &str,
    summary: Option<&str>,
    started: &LocalTime,
    turns: &Vec<Turn>,
    clocks: &Vec<LocalTime>,
) -> (md: String)
    requires
        clocks@.len() == turns@.len(),
    ensures
        md@ == notes_spec(subject@, crate::paths::opt_view(summary), *started, turns_view(turns@), clocks@),
{
    let mut md = "# ".to_owned();
    push_str(&mut md, subject);
    push_str(&mut md, "\n\n_Transcribed by AI Buddy on ");
    push_chars(&mut md, &date_clock_chars(started));
    push_str(&mut md, "_\n\n");
    push_str(&mut md, "## AI-Generated Summary\n\n");
    let ghost head = md@;
    match summary {
        Some(s) => {
            let t = trim_chars(&to_chars(s));
            if t.len() > 0 {
                push_chars(&mut md, &t);
                push_str(&mut md, "\n\n");
            } else {
                push_str(&mut md, "_Generated when the session ends._\n\n");
            }
        },
        None => {
            push_str(&mut md, "_Generated when the session ends._\n\n");
        },
    }
    assert(md@ =~= head + summary_section(crate::paths::opt_view(summary)));
    push_str(&mut md, "## Transcript\n\n");
    let ghost before = md@;
    let ghost tv = turns_view(turns@);
    let mut i: usize = 0;
    while i < turns.len()
        invariant
            i <= turns.len(),
            clocks@.len() == turns@.len(),
            tv == turns_view(turns@),
            md@ == before + turn_lines(tv.take(i as int), clocks@),
        decreases turns.len() - i,
    {
        let ghost m0 = md@;
        push_str(&mut md, "**");
        let label = source_label_exec(&turns[i].source);
        push_str(&mut md, label.as_str());
        push_str(&mut md, "** (");
        push_chars(&mut md, &clock_chars(&clocks[i]));
        push_str(&mut md, "): ");
        push_str(&mut md, turns[i].text.as_str());
        push_str(&mut md, "\n\n");
        proof {
            assert(tv.take(i + 1).drop_last() =~= tv.take(i as int));
            assert(tv.take(i + 1).last() == tv[i as int]);
            assert(tv[i as int] == turn_view(turns@[i as int]));
            assert(md@ =~= before + turn_lines(tv.take(i + 1), clocks@));
        }
        i += 1;
    }
    assert(tv.take(turns.len() as int) =~= tv);
    md
}

/// Every turn carries the timestamp of one of the segments.
pub proof fn lemma_fold_ts(segs: Seq<StoredSegment>, bound: u64)
    requires
        forall|m: int| 0 <= m < segs.len() ==> #[trigger] segs[m].ts_ms < bound,
    ensures
        forall|k: int| 0 <= k < fold_spec(segs).len() ==> #[trigger] fold_spec(segs)[k].1 < bound,
    decreases segs.len(),
{
    if segs.len() > 0 {
        lemma_fold_ts(segs.drop_last(), bound);
        let prev = fold_spec(segs.drop_last());
        assert forall|k: int| 0 <= k < fold_spec(segs).len() implies #[trigger] fold_spec(segs)[k].1
            < bound by {
            if k < prev.len() {
                assert(fold_spec(segs)[k].1 == prev[k].1);
            } else {
                assert(segs[segs.len() - 1].ts_ms < bound);
            }
        }
    }
}

/// Render the meeting notes for a session that started at `started_ms`,
/// reading each time in the machine's time zone.
pub fn render_markdown(
    subject: &str,
    summary: Option<&str>,
    started_ms: u64,
    segments: &Vec<StoredSegment>,
) -> (md: String)
    requires
        started_ms < MAX_LOCAL_MS,
        forall|m: int| 0 <= m < segments@.len() ==> #[trigger] segments@[m].ts_ms < MAX_LOCAL_MS,
    ensures
        exists|started: LocalTime, clocks: Seq<LocalTime>|
            {
                &&& local_time_of(started, started_ms as int)
                &&& clocks.len() == fold_spec(segments@).len()
                &&& forall|k: int|
                    0 <= k < clocks.len() ==> local_time_of(
                        #[trigger] clocks[k],
                        fold_spec(segments@)[k].1 as int,
                    )
                &&& md@ == notes_spec(
                    subject@,
                    crate::paths::opt_view(summary),
                    started,
                    fold_spec(segments@),
                    clocks,
                )
            },
{
    let turns = fold_turns(segments);
    proof {
        lemma_fold_ts(segments@, MAX_LOCAL_MS);
    }
    let started = local_time_at(started_ms);
    let mut clocks: Vec<LocalTime> = Vec::new();
    let mut i: usize = 0;
    while i < turns.len()
        invariant
            i <= turns.len(),
            clocks@.len() == i,
            turns_view(turns@) == fold_spec(segments@),
            forall|k: int| 0 <= k < fold_spec(segments@).len() ==> #[trigger] fold_spec(segments@)[k].1 < MAX_LOCAL_MS,
            forall|k: int|
                0 <= k < i ==> local_time_of(#[trigger] clocks@[k], fold_spec(segments@)[k].1 as int),
        decreases turns.len() - i,
    {
        assert(turns_view(turns@)[i as int] == turn_view(turns@[i as int]));
        assert(fold_spec(segments@)[i as int].1 < MAX_LOCAL_MS);
        let t = local_time_at(turns[i].ts_ms);
        clocks.push(t);
        i += 1;
    }
    let md = render_notes(subject, summary, &started, &turns, &clocks);
    assert(clocks@.len() == fold_spec(segments@).len());
    md
}

// ── Speaker attribution ─────────────────────────────────────────────────────

/// Beyond this many distinct speakers the clustering is not trusted and the
/// "Them" labels stay.
pub const MAX_TRUSTED_SPEAKERS: usize = 10;

/// Length of the intersection of `[start, end]` with a speaker segment.
pub open spec fn overlap(start: int, end: int, sp: SpeakerSegment) -> int {
    let lo = if start >= sp.start_ms { start } else { sp.start_ms as int };
    let hi = if end <= sp.end_ms { end } else { sp.end_ms as int };
    if hi > lo { hi - lo } else { 0 }
}

/// The speaker overlapping `[start, end]` the most (the first of equals);
/// none when nothing overlaps.
pub open spec fn best_from(
    start: int,
    end: int,
    sps: Seq<SpeakerSegment>,
    i: int,
    best_ov: int,
    best: Option<i32>,
) -> Option<i32>
    decreases sps.len() - i,
{
    if i < 0 || i >= sps.len() {
        best
    } else if overlap(start, end, sps[i]) > best_ov {
        best_from(start, end, sps, i + 1, overlap(start, end, sps[i]), Some(sps[i].speaker))
    } else {
        best_from(start, end, sps, i + 1, best_ov, best)
    }
}

pub open spec fn best_speaker(start: int, end: int, sps: Seq<SpeakerSegment>) -> Option<i32> {
    best_from(start, end, sps, 0, 0, None)
}

/// Position of `raw` in `order`, or -1.
pub open spec fn index_of(order: Seq<i32>, raw: i32) -> int
    decreases order.len(),
{
    if order.len() == 0 {
        -1
    } else if index_of(order.drop_last(), raw) >= 0 {
        index_of(order.drop_last(), raw)
    } else if order.last() == raw {
        order.len() - 1
    } else {
        -1
    }
}

/// The distinct raw speaker indices of `sps[..n]`, in order of appearance.
pub open spec fn distinct_speakers(sps: Seq<SpeakerSegment>, n: int) -> Seq<i32>
    decreases n,
{
    if n <= 0 || n > sps.len() {
        seq![]
    } else {
        let prev = distinct_speakers(sps, n - 1);
        if index_of(prev, sps[n - 1].speaker) >= 0 {
            prev
        } else {
            prev.push(sps[n - 1].speaker)
        }
    }
}

pub open spec fn speaker_label(n: nat) -> Seq<char> {
    "Speaker "@ + decimal(n)
}

pub open spec fn seg_with_source(v: (Seq<char>, Seq<char>, u64, Option<u64>, Option<u64>), src: Seq<char>) -> (Seq<char>, Seq<char>, u64, Option<u64>, Option<u64>) {
    (src, v.1, v.2, v.3, v.4)
}

/// Relabel one segment given the display order so far; returns the new
/// segment view and the new order.
pub open spec fn relabel_one(
    v: (Seq<char>, Seq<char>, u64, Option<u64>, Option<u64>),
    sps: Seq<SpeakerSegment>,
    order: Seq<i32>,
) -> ((Seq<char>, Seq<char>, u64, Option<u64>, Option<u64>), Seq<i32>) {
    if v.0 != "them"@ || v.3 is None || v.4 is None {
        (v, order)
    } else {
        match best_speaker(v.3->0 as int, v.4->0 as int, sps) {
            None => (v, order),
            Some(raw) => if index_of(order, raw) >= 0 {
                (seg_with_source(v, speaker_label((index_of(order, raw) + 1) as nat)), order)
            } else {
                (seg_with_source(v, speaker_label((order.len() + 1) as nat)), order.push(raw))
            },
        }
    }
}

/// Relabel `segs[..n]`, numbering speakers 1, 2, ... by first appearance.
pub open spec fn relabel_prefix(
    segs: Seq<(Seq<char>, Seq<char>, u64, Option<u64>, Option<u64>)>,
    sps: Seq<SpeakerSegment>,
    n: int,
) -> (Seq<(Seq<char>, Seq<char>, u64, Option<u64>, Option<u64>)>, Seq<i32>)
    decreases n,
{
    if n <= 0 || n > segs.len() {
        (seq![], seq![])
    } else {
        let prev = relabel_prefix(segs, sps, n - 1);
        let step = relabel_one(segs[n - 1], sps, prev.1);
        (prev.0.push(step.0), step.1)
    }
}

/// The segments after speaker attribution.
pub open spec fn diarized_spec(
    segs: Seq<(Seq<char>, Seq<char>, u64, Option<u64>, Option<u64>)>,
    sps: Seq<SpeakerSegment>,
) -> Seq<(Seq<char>, Seq<char>, u64, Option<u64>, Option<u64>)> {
    if sps.len() == 0 || distinct_speakers(sps, sps.len() as int).len() > MAX_TRUSTED_SPEAKERS {
        segs
    } else {
        relabel_prefix(segs, sps, segs.len() as int).0
    }
}

fn index_of_exec(order: &Vec<i32>, raw: i32) -> (k: i64)
    requires
        order@.len() < i64::MAX,
    ensures
        k == index_of(order@, raw),
{
    let mut i: usize = 0;
    let mut found: i64 = -1;
    while i < order.len()
        invariant
            i <= order.len(),
            order@.len() < i64::MAX,
            found == index_of(order@.take(i as int), raw),
        decreases order.len() - i,
    {
        assert(order@.take(i + 1).drop_last() =~= order@.take(i as int));
        if found < 0 && order[i] == raw {
            found = i as i64;
        }
        i += 1;
    }
    assert(order@.take(order.len() as int) =~= order@);
    found
}

proof fn lemma_index_of(order: Seq<i32>, raw: i32)
    ensures
        -1 <= index_of(order, raw) < order.len(),
    decreases order.len(),
{
    if order.len() > 0 {
        lemma_index_of(order.drop_last(), raw);
    }
}

proof fn lemma_distinct_len(sps: Seq<SpeakerSegment>, n: int)
    requires
        0 <= n <= sps.len(),
    ensures
        distinct_speakers(sps, n).len() <= n,
    decreases n,
{
    if n > 0 {
        lemma_distinct_len(sps, n - 1);
    }
}

proof fn lemma_order_len(
    segs: Seq<(Seq<char>, Seq<char>, u64, Option<u64>, Option<u64>)>,
    sps: Seq<SpeakerSegment>,
    n: int,
)
    requires
        0 <= n <= segs.len(),
    ensures
        relabel_prefix(segs, sps, n).1.len() <= n,
        relabel_prefix(segs, sps, n).0.len() == n,
    decreases n,
{
    if n > 0 {
        lemma_order_len(segs, sps, n - 1);
    }
}

fn best_speaker_exec(start: u64, end: u64, sps: &Vec<SpeakerSegment>) -> (b: Option<i32>)
    ensures
        b == best_speaker(start as int, end as int, sps@),
{
    let mut best: Option<i32> = None;
    let mut best_ov: u64 = 0;
    let mut i: usize = 0;
    while i < sps.len()
        invariant
            i <= sps.len(),
            best_from(start as int, end as int, sps@, i as int, best_ov as int, best) == best_speaker(
                start as int,
                end as int,
                sps@,
            ),
        decreases sps.len() - i,
    {
        let sp = &sps[i];
        let lo = if start >= sp.start_ms { start } else { sp.start_ms };
        let hi = if end <= sp.end_ms { end } else { sp.end_ms };
        let ov = if hi > lo { hi - lo } else { 0 };
        assert(ov as int == overlap(start as int, end as int, sps@[i as int]));
        if ov > best_ov {
            best_ov = ov;
            best = Some(sp.speaker);
        }
        i += 1;
    }
    best
}

fn speaker_label_exec(n: u64) -> (s: String)
    ensures
        s@ == speaker_label(n as nat),
{
    let mut s = "Speaker ".to_owned();
    push_chars(&mut s, &decimal_exec(n));
    s
}

/// Replace the `them` source of each segment with `Speaker N` from the
/// diarization segment that overlaps its time range the most. Speakers are
/// numbered by first appearance. Segments without a time range or without
/// overlap keep `them`; `me` is never touched; with more than ten distinct
/// diarized speakers nothing is relabelled.
pub fn apply_diarization(segments: &mut Vec<StoredSegment>, speakers: &Vec<SpeakerSegment>)
    requires
        old(segments)@.len() < i64::MAX,
    ensures
        segs_view(final(segments)@) == diarized_spec(segs_view(old(segments)@), speakers@),
{
    if speakers.len() == 0 {
        return;
    }
    let mut distinct: Vec<i32> = Vec::new();
    let mut j: usize = 0;
    while j < speakers.len()
        invariant
            j <= speakers.len(),
            distinct@ == distinct_speakers(speakers@, j as int),
            distinct@.len() <= MAX_TRUSTED_SPEAKERS,
        decreases speakers.len() - j,
    {
        proof {
            lemma_index_of(distinct@, speakers@[j as int].speaker);
        }
        let k = index_of_exec(&distinct, speakers[j].speaker);
        if k < 0 {
            distinct.push(speakers[j].speaker);
        }
        j += 1;
        if distinct.len() > MAX_TRUSTED_SPEAKERS {
            proof {
                lemma_distinct_len(speakers@, j as int);
                lemma_distinct_grows(speakers@, j as int, speakers@.len() as int);
            }
            return;
        }
    }
    let ghost sv = segs_view(segments@);
    let mut out: Vec<StoredSegment> = Vec::new();
    let mut order: Vec<i32> = Vec::new();
    let mut i: usize = 0;
    while i < segments.len()
        invariant
            i <= segments.len(),
            sv == segs_view(segments@),
            segments@.len() < i64::MAX,
            segs_view(out@) == relabel_prefix(sv, speakers@, i as int).0,
            order@ == relabel_prefix(sv, speakers@, i as int).1,
            order@.len() <= i,
        decreases segments.len() - i,
    {
        let seg = &segments[i];
        let ghost v = sv[i as int];
        let ghost order0 = order@;
        assert(v == seg_view(segments@[i as int]));
        let mut new_seg = copy_segment(seg);
        let is_them = crate::text::str_eq(seg.source.as_str(), "them");
        if is_them {
            match (seg.start_ms, seg.end_ms) {
                (Some(start), Some(end)) => {
                    match best_speaker_exec(start, end, speakers) {
                        Some(raw) => {
                            proof {
                                lemma_index_of(order@, raw);
                            }
                            let k = index_of_exec(&order, raw);
                            if k >= 0 {
                                new_seg.source = speaker_label_exec((k + 1) as u64);
                            } else {
                                order.push(raw);
                                new_seg.source = speaker_label_exec(order.len() as u64);
                            }
                        },
                        None => {},
                    }
                },
                _ => {},
            }
        }
        assert(seg_view(new_seg) == relabel_one(v, speakers@, order0).0);
        assert(order@ == relabel_one(v, speakers@, order0).1);
        let ghost o0 = out@;
        out.push(new_seg);
        proof {
            lemma_order_len(sv, speakers@, i as int);
            assert(segs_view(out@) =~= segs_view(o0).push(seg_view(new_seg)));
            assert(relabel_prefix(sv, speakers@, i + 1).0 == relabel_prefix(sv, speakers@, i as int).0.push(
                relabel_one(v, speakers@, order0).0,
            ));
        }
        i += 1;
    }
    proof {
        lemma_order_len(sv, speakers@, segments@.len() as int);
        assert(diarized_spec(sv, speakers@) == relabel_prefix(sv, speakers@, sv.len() as int).0);
    }
    *segments = out;
}

/// The distinct-speaker list only grows with more segments.
proof fn lemma_distinct_grows(sps: Seq<SpeakerSegment>, a: int, b: int)
    requires
        0 <= a <= b <= sps.len(),
    ensures
        distinct_speakers(sps, a).len() <= distinct_speakers(sps, b).len(),
    decreases b - a,
{
    if a < b {
        lemma_distinct_grows(sps, a, b - 1);
    }
}

// ── File names ──────────────────────────────────────────────────────────────

/// `<stem>.md` for the first candidate, `<stem> (n).md` after that.
pub open spec fn md_name(stem: Seq<char>, n: int) -> Seq<char> {
    if n <= 1 {
        stem + ".md"@
    } else {
        stem + " ("@ + decimal(n as nat) + ").md"@
    }
}

pub open spec fn md_candidate(dir: Seq<char>, stem: Seq<char>, n: int) -> Seq<char> {
    path_join(dir, md_name(stem, n))
}

fn md_candidate_exec(dir: &str, stem: &str, n: u64) -> (p: String)
    ensures
        p@ == md_candidate(dir@, stem@, n as int),
{
    let mut name = stem.to_owned();
    if n <= 1 {
        push_str(&mut name, ".md");
    } else {
        push_str(&mut name, " (");
        push_chars(&mut name, &decimal_exec(n));
        push_str(&mut name, ").md");
    }
    crate::paths::join_path(dir, name.as_str())
}

/// `f` was called on a string holding `path` and gave `answer`.
pub open spec fn answered<F: Fn(String) -> bool>(f: F, path: Seq<char>, answer: bool) -> bool {
    exists|q: String| q@ == path && #[trigger] f.ensures((q,), answer)
}

/// Pick a non-colliding `<stem>.md` path in `dir`: the first candidate for
/// which `path_exists` answers false. `None` only when every candidate up to
/// `<stem> (2147483647).md` exists.
pub fn unique_md_path<F: Fn(String) -> bool>(dir: &str, stem: &str, path_exists: F) -> (r: Option<String>)
    requires
        forall|p: String| path_exists.requires((p,)),
    ensures
        r matches Some(p) ==> exists|n: int|
            1 <= n <= i32::MAX && p@ == md_candidate(dir@, stem@, n) && answered(path_exists, p@, false)
                && (forall|m: int|
                1 <= m < n ==> #[trigger] answered(path_exists, md_candidate(dir@, stem@, m), true)),
        r is None ==> forall|m: int|
            1 <= m <= i32::MAX ==> #[trigger] answered(path_exists, md_candidate(dir@, stem@, m), true),
{
    let mut n: u64 = 1;
    while n <= 2147483647
        invariant
            1 <= n <= 2147483648,
            forall|p: String| path_exists.requires((p,)),
            forall|m: int|
                1 <= m < n ==> #[trigger] answered(path_exists, md_candidate(dir@, stem@, m), true),
        decreases 2147483648 - n,
    {
        let path = md_candidate_exec(dir, stem, n);
        let probe = path.clone();
        let taken = path_exists(probe);
        if !taken {
            assert(answered(path_exists, path@, false));
            return Some(path);
        }
        assert(answered(path_exists, md_candidate(dir@, stem@, n as int), true));
        n = n + 1;
    }
    None
}

/// The live notes stem: `YYYY-MM-DD HHMM - Meeting in progress`.
pub open spec fn live_stem_spec(t: LocalTime) -> Seq<char> {
    date_hm_text(t) + " - Meeting in progress"@
}

pub fn live_stem(started: &LocalTime) -> (s: String)
    ensures
        s@ == live_stem_spec(*started),
{
    let mut s = from_chars(&date_hm_chars(started));
    push_str(&mut s, " - Meeting in progress");
    s
}

/// The saved transcript's stem: date (and time, when the setting says so),
/// then the subject.
pub open spec fn transcript_stem_spec(t: LocalTime, subject: Seq<char>, include_time: bool) -> Seq<char> {
    (if include_time {
        date_hm_text(t)
    } else {
        date_text(t)
    }) + " - "@ + subject
}

pub fn transcript_stem(started: &LocalTime, subject: &str, include_time: bool) -> (s: String)
    ensures
        s@ == transcript_stem_spec(*started, subject@, include_time),
{
    let d = if include_time {
        date_hm_chars(started)
    } else {
        date_chars(started)
    };
    let mut s = from_chars(&d);
    push_str(&mut s, " - ");
    push_str(&mut s, subject);
    s
}

/// The `transcript_include_time` setting: on unless it is exactly `false`.
pub fn include_time_setting(value: Option<&str>) -> (b: bool)
    ensures
        b == match value {
            Some(v) => v@ != "false"@,
            None => true,
        },
{
    match value {
        Some(v) => !crate::text::str_eq(v, "false"),
        None => true,
    }
}

/// After a failed write to `dir`, the folder to try next: the default one,
/// unless that is where the write already failed (the same path, component
/// by component).
pub fn fallback_dir(dir: &str, default_dir: &str) -> (r: Option<String>)
    ensures
        r matches Some(d) ==> d@ == default_dir@,
        r is Some <==> path_components(dir@) != path_components(default_dir@),
{
    if same_path(dir, default_dir) {
        None
    } else {
        Some(default_dir.to_owned())
    }
}

// ── The order of save attempts ──────────────────────────────────────────────

/// Where a save stands.
pub enum SaveStage {
    /// Nothing decided yet.
    Start,
    /// The transcript is being attributed, titled and rendered.
    Render,
    /// Finalizing the live notes file in place.
    Live,
    /// Writing a fresh file in the configured folder.
    Configured,
    /// Writing a fresh file in the default folder.
    Fallback,
    /// Saved, failed or discarded.
    Finished,
}

/// What a save does next.
pub enum SaveAction {
    /// The session holds nothing: delete the live file, keep nothing.
    Discard,
    /// Attribute speakers, title, summarize and render the notes.
    Render,
    /// Write the notes into the live file and rename it.
    FinalizeLive,
    /// Write a fresh file in this folder.
    WriteIn(String),
    /// The notes are at this path.
    Saved(String),
    /// Nothing could be written, for this reason.
    Failed(String),
}

/// The attempts of one save: the live file first, then the configured
/// folder, then the default folder.
pub struct SavePlan {
    pub configured: String,
    pub default_dir: String,
    pub stage: SaveStage,
    pub first_err: Option<String>,
}

impl SavePlan {
    pub fn new(configured: &str, default_dir: &str) -> (p: Self)
        ensures
            p.configured@ == configured@,
            p.default_dir@ == default_dir@,
            p.stage == SaveStage::Start,
            p.first_err is None,
    {
        SavePlan {
            configured: configured.to_owned(),
            default_dir: default_dir.to_owned(),
            stage: SaveStage::Start,
            first_err: None,
        }
    }

    /// The session left `n_segments` segments: none means discard.
    pub fn begin(&mut self, n_segments: usize) -> (a: SaveAction)
        requires
            old(self).stage == SaveStage::Start,
        ensures
            n_segments == 0 ==> a is Discard && final(self).stage == SaveStage::Finished,
            n_segments > 0 ==> a is Render && final(self).stage == SaveStage::Render,
            final(self).configured@ == old(self).configured@,
            final(self).default_dir@ == old(self).default_dir@,
            final(self).first_err is None,
    {
        self.first_err = None;
        if n_segments == 0 {
            self.stage = SaveStage::Finished;
            SaveAction::Discard
        } else {
            self.stage = SaveStage::Render;
            SaveAction::Render
        }
    }

    /// The notes are rendered; `live_exists` when the live file is there.
    pub fn rendered(&mut self, live_exists: bool) -> (a: SaveAction)
        requires
            old(self).stage == SaveStage::Render,
        ensures
            live_exists ==> a is FinalizeLive && final(self).stage == SaveStage::Live,
            !live_exists ==> (a matches SaveAction::WriteIn(d) && d@ == old(self).configured@)
                && final(self).stage == SaveStage::Configured,
            final(self).configured@ == old(self).configured@,
            final(self).default_dir@ == old(self).default_dir@,
            final(self).first_err is None,
    {
        self.first_err = None;
        if live_exists {
            self.stage = SaveStage::Live;
            SaveAction::FinalizeLive
        } else {
            self.stage = SaveStage::Configured;
            SaveAction::WriteIn(self.configured.clone())
        }
    }

    /// The last attempt gave `outcome`: the saved path, or why it failed.
    /// A failed live file leads to the configured folder, a failed
    /// configured folder to the default one (unless they are the same path).
    pub fn on_result(&mut self, outcome: Result<String, String>) -> (a: SaveAction)
        requires
            old(self).stage == SaveStage::Live || old(self).stage == SaveStage::Configured
                || old(self).stage == SaveStage::Fallback,
            old(self).stage == SaveStage::Fallback ==> old(self).first_err is Some,
        ensures
            final(self).configured@ == old(self).configured@,
            final(self).default_dir@ == old(self).default_dir@,
            outcome matches Ok(p) ==> (a matches SaveAction::Saved(q) && q@ == p@)
                && final(self).stage == SaveStage::Finished,
            outcome is Err && old(self).stage == SaveStage::Live ==> (a matches SaveAction::WriteIn(d)
                && d@ == old(self).configured@) && final(self).stage == SaveStage::Configured,
            outcome is Err && old(self).stage == SaveStage::Configured && path_components(
                old(self).configured@,
            ) != path_components(old(self).default_dir@) ==> (a matches SaveAction::WriteIn(d) && d@
                == old(self).default_dir@) && final(self).stage == SaveStage::Fallback
                && (final(self).first_err matches Some(f) && f@ == outcome->Err_0@),
            outcome is Err && old(self).stage == SaveStage::Configured && path_components(
                old(self).configured@,
            ) == path_components(old(self).default_dir@) ==> (a matches SaveAction::Failed(m) && m@ == outcome->Err_0@)
                && final(self).stage == SaveStage::Finished,
            outcome is Err && old(self).stage == SaveStage::Fallback ==> (a matches SaveAction::Failed(m)
                && m@ == old(self).first_err->0@ + "; fallback also failed: "@ + outcome->Err_0@)
                && final(self).stage == SaveStage::Finished,
    {
        match outcome {
            Ok(p) => {
                self.stage = SaveStage::Finished;
                SaveAction::Saved(p)
            },
            Err(e) => match self.stage {
                SaveStage::Live => {
                    self.stage = SaveStage::Configured;
                    SaveAction::WriteIn(self.configured.clone())
                },
                SaveStage::Configured => {
                    if same_path(self.configured.as_str(), self.default_dir.as_str()) {
                        self.stage = SaveStage::Finished;
                        SaveAction::Failed(e)
                    } else {
                        self.stage = SaveStage::Fallback;
                        self.first_err = Some(e);
                        SaveAction::WriteIn(self.default_dir.clone())
                    }
                },
                _ => {
                    let mut m = match &self.first_err {
                        Some(f) => f.clone(),
                        None => String::new(),
                    };
                    push_str(&mut m, "; fallback also failed: ");
                    push_str(&mut m, e.as_str());
                    self.stage = SaveStage::Finished;
                    SaveAction::Failed(m)
                },
            },
        }
    }
}

// ── Echo removal ────────────────────────────────────────────────────────────

/// Characters that make up tokens: ASCII letters and digits, and every
/// non-ASCII character; everything else separates tokens.
pub open spec fn is_token_char(c: char) -> bool {
    let u = c as u32;
    (0x30 <= u <= 0x39) || (0x41 <= u <= 0x5A) || (0x61 <= u <= 0x7A) || u >= 0x80
}

/// Code of `c` with ASCII upper case folded to lower case.
pub open spec fn fold_code(c: char) -> u32 {
    let u = c as u32;
    if 0x41 <= u <= 0x5A {
        (u + 32) as u32
    } else {
        u
    }
}

/// Two tokens are the same word, ignoring ASCII case.
pub open spec fn same_token(a: Seq<char>, b: Seq<char>) -> bool {
    &&& a.len() == b.len()
    &&& forall|k: int| 0 <= k < a.len() ==> fold_code(#[trigger] a[k]) == fold_code(b[k])
}

/// First index at or after `i` holding a token character, or the length.
pub open spec fn skip_sep(s: Seq<char>, i: int) -> int
    decreases s.len() - i,
{
    if i < 0 || i >= s.len() || is_token_char(s[i]) {
        i
    } else {
        skip_sep(s, i + 1)
    }
}

/// First index at or after `i` holding a separator, or the length.
pub open spec fn token_end(s: Seq<char>, i: int) -> int
    decreases s.len() - i,
{
    if i < 0 || i >= s.len() || !is_token_char(s[i]) {
        i
    } else {
        token_end(s, i + 1)
    }
}

/// The tokens of `s[i..]`: maximal runs of token characters.
pub open spec fn tokens_from(s: Seq<char>, i: int) -> Seq<Seq<char>>
    decreases s.len() - i,
{
    let a = skip_sep(s, i);
    if i < 0 || a >= s.len() || a < i {
        seq![]
    } else {
        let b = token_end(s, a);
        if b <= a || b > s.len() {
            seq![]
        } else {
            seq![s.subrange(a, b)] + tokens_from(s, b)
        }
    }
}

/// Some token of `list` is the same word as `t`.
pub open spec fn has_token(list: Seq<Seq<char>>, t: Seq<char>) -> bool {
    exists|k: int| 0 <= k < list.len() && same_token(#[trigger] list[k], t)
}

/// The distinct words of `toks[..n]`, first occurrences kept.
pub open spec fn distinct_tokens(toks: Seq<Seq<char>>, n: int) -> Seq<Seq<char>>
    decreases n,
{
    if n <= 0 || n > toks.len() {
        seq![]
    } else {
        let prev = distinct_tokens(toks, n - 1);
        if has_token(prev, toks[n - 1]) {
            prev
        } else {
            prev.push(toks[n - 1])
        }
    }
}

/// The set of words of a text, as a list without repeats.
pub open spec fn word_set(s: Seq<char>) -> Seq<Seq<char>> {
    distinct_tokens(tokens_from(s, 0), tokens_from(s, 0).len() as int)
}

/// How many words of `a[..n]` also occur in `b`.
pub open spec fn common_count(a: Seq<Seq<char>>, b: Seq<Seq<char>>, n: int) -> int
    decreases n,
{
    if n <= 0 || n > a.len() {
        0
    } else {
        common_count(a, b, n - 1) + if has_token(b, a[n - 1]) {
            1int
        } else {
            0int
        }
    }
}

/// Fewest tokens an utterance needs before it can count as an echo.
pub const MIN_ECHO_TOKENS: usize = 3;

/// `me` repeats `them`: `me` has at least three tokens, and the word sets
/// overlap with Jaccard index at least 0.7, or at least 85% of the distinct
/// words of `me` occur in `them`.
pub open spec fn similar_spec(me: Seq<char>, them: Seq<char>) -> bool {
    let a = word_set(me);
    let b = word_set(them);
    let c = common_count(a, b, a.len() as int);
    &&& tokens_from(me, 0).len() >= MIN_ECHO_TOKENS
    &&& (10 * c >= 7 * (a.len() + b.len() - c) || 100 * c >= 85 * a.len())
}

pub open spec fn abs_diff(x: int, y: int) -> int {
    if x >= y {
        x - y
    } else {
        y - x
    }
}

/// Two segments are close in time: audio start times at most 2.5 s apart,
/// or arrival times at most 6 s apart.
pub open spec fn near_spec(
    me: (Seq<char>, Seq<char>, u64, Option<u64>, Option<u64>),
    them: (Seq<char>, Seq<char>, u64, Option<u64>, Option<u64>),
) -> bool {
    ||| (me.3 is Some && them.3 is Some && abs_diff(me.3->0 as int, them.3->0 as int) <= 2500)
    ||| abs_diff(me.2 as int, them.2 as int) <= 6000
}

/// A `me` segment is an echo when some nearby `them` segment says nearly the
/// same thing (the microphone picked up the speakers).
pub open spec fn is_echo(segs: Seq<(Seq<char>, Seq<char>, u64, Option<u64>, Option<u64>)>, k: int) -> bool {
    &&& segs[k].0 == "me"@
    &&& exists|j: int|
        0 <= j < segs.len() && (#[trigger] segs[j]).0 == "them"@ && near_spec(segs[k], segs[j])
            && similar_spec(segs[k].1, segs[j].1)
}

/// The segments of `segs[..n]` that are not echoes, in order.
pub open spec fn dedup_prefix(segs: Seq<(Seq<char>, Seq<char>, u64, Option<u64>, Option<u64>)>, n: int) -> Seq<(Seq<char>, Seq<char>, u64, Option<u64>, Option<u64>)>
    decreases n,
{
    if n <= 0 || n > segs.len() {
        seq![]
    } else if is_echo(segs, n - 1) {
        dedup_prefix(segs, n - 1)
    } else {
        dedup_prefix(segs, n - 1).push(segs[n - 1])
    }
}

fn is_token_char_exec(c: char) -> (b: bool)
    ensures
        b == is_token_char(c),
{
    let u = c as u32;
    (0x30 <= u && u <= 0x39) || (0x41 <= u && u <= 0x5A) || (0x61 <= u && u <= 0x7A) || u >= 0x80
}

fn fold_code_exec(c: char) -> (u: u32)
    ensures
        u == fold_code(c),
{
    let u = c as u32;
    if 0x41 <= u && u <= 0x5A {
        u + 32
    } else {
        u
    }
}

fn same_token_exec(a: &Vec<char>, b: &Vec<char>) -> (r: bool)
    ensures
        r == same_token(a@, b@),
{
    if a.len() != b.len() {
        return false;
    }
    let mut k: usize = 0;
    while k < a.len()
        invariant
            a.len() == b.len(),
            k <= a.len(),
            forall|m: int| 0 <= m < k ==> fold_code(#[trigger] a@[m]) == fold_code(b@[m]),
        decreases a.len() - k,
    {
        if fold_code_exec(a[k]) != fold_code_exec(b[k]) {
            return false;
        }
        k += 1;
    }
    true
}

pub open spec fn vvc_view(v: Seq<Vec<char>>) -> Seq<Seq<char>> {
    v.map_values(|x: Vec<char>| x@)
}

fn has_token_exec(list: &Vec<Vec<char>>, t: &Vec<char>) -> (r: bool)
    ensures
        r == has_token(vvc_view(list@), t@),
{
    let ghost lv = vvc_view(list@);
    let mut k: usize = 0;
    while k < list.len()
        invariant
            k <= list.len(),
            lv == vvc_view(list@),
            forall|m: int| 0 <= m < k ==> !same_token(#[trigger] lv[m], t@),
        decreases list.len() - k,
    {
        assert(lv[k as int] == list@[k as int]@);
        if same_token_exec(&list[k], t) {
            assert(same_token(lv[k as int], t@));
            return true;
        }
        k += 1;
    }
    false
}

/// The distinct words of `s`, and how many tokens it has.
fn word_set_exec(s: &Vec<char>) -> (r: (Vec<Vec<char>>, usize))
    ensures
        vvc_view(r.0@) == word_set(s@),
        r.1 == tokens_from(s@, 0).len(),
{
    let ghost toks = tokens_from(s@, 0);
    let mut r: Vec<Vec<char>> = Vec::new();
    let mut i: usize = 0;
    let mut n: usize = 0;
    let mut done = false;
    let ghost mut seen: Seq<Seq<char>> = seq![];
    while !done
        invariant
            i <= s.len(),
            n == seen.len(),
            n <= i,
            toks == tokens_from(s@, 0),
            toks == seen + tokens_from(s@, i as int),
            vvc_view(r@) == distinct_tokens(seen, seen.len() as int),
            done ==> tokens_from(s@, i as int).len() == 0,
        decreases s.len() - i + (if done { 0int } else { 1int }),
    {
        let a = skip_sep_exec(s, i);
        if a >= s.len() {
            done = true;
        } else {
            let b = token_end_exec(s, a);
            proof {
                lemma_skip_sep(s@, i as int);
                lemma_token_end(s@, a as int);
            }
            let t = slice_chars(s, a, b);
            let ghost old_seen = seen;
            proof {
                seen = seen.push(t@);
                assert(tokens_from(s@, i as int) == seq![t@] + tokens_from(s@, b as int));
                assert(toks =~= seen + tokens_from(s@, b as int));
                assert(seen.take(old_seen.len() as int) =~= old_seen);
                lemma_distinct_tokens_prefix(seen, old_seen.len() as int);
            }
            let present = has_token_exec(&r, &t);
            if !present {
                let ghost before = r@;
                r.push(t);
                assert(vvc_view(r@) =~= vvc_view(before).push(seen[seen.len() - 1]));
            }
            n = n + 1;
            i = b;
        }
    }
    proof {
        assert(toks =~= seen);
    }
    (r, n)
}

/// `distinct_tokens` only looks at the first `n` tokens.
proof fn lemma_distinct_tokens_prefix(toks: Seq<Seq<char>>, n: int)
    requires
        0 <= n <= toks.len(),
    ensures
        distinct_tokens(toks, n) == distinct_tokens(toks.take(n), n),
    decreases n,
{
    if n > 0 {
        lemma_distinct_tokens_prefix(toks, n - 1);
        lemma_distinct_tokens_prefix(toks.take(n), n - 1);
        assert(toks.take(n).take(n - 1) =~= toks.take(n - 1));
    }
}

fn skip_sep_exec(s: &Vec<char>, start: usize) -> (k: usize)
    requires
        start <= s.len(),
    ensures
        k == skip_sep(s@, start as int),
        start <= k <= s.len(),
{
    let mut i = start;
    while i < s.len() && !is_token_char_exec(s[i])
        invariant
            start <= i <= s.len(),
            skip_sep(s@, i as int) == skip_sep(s@, start as int),
        decreases s.len() - i,
    {
        i = i + 1;
    }
    i
}

fn token_end_exec(s: &Vec<char>, start: usize) -> (k: usize)
    requires
        start <= s.len(),
    ensures
        k == token_end(s@, start as int),
        start <= k <= s.len(),
{
    let mut i = start;
    while i < s.len() && is_token_char_exec(s[i])
        invariant
            start <= i <= s.len(),
            token_end(s@, i as int) == token_end(s@, start as int),
        decreases s.len() - i,
    {
        i = i + 1;
    }
    i
}

proof fn lemma_skip_sep(s: Seq<char>, i: int)
    requires
        0 <= i <= s.len(),
    ensures
        i <= skip_sep(s, i) <= s.len(),
        skip_sep(s, i) < s.len() ==> is_token_char(s[skip_sep(s, i)]),
    decreases s.len() - i,
{
    if i < s.len() && !is_token_char(s[i]) {
        lemma_skip_sep(s, i + 1);
    }
}

proof fn lemma_token_end(s: Seq<char>, i: int)
    requires
        0 <= i <= s.len(),
    ensures
        i <= token_end(s, i) <= s.len(),
        i < s.len() && is_token_char(s[i]) ==> i < token_end(s, i),
    decreases s.len() - i,
{
    if i < s.len() && is_token_char(s[i]) {
        lemma_token_end(s, i + 1);
    }
}

proof fn lemma_common_count_bounds(a: Seq<Seq<char>>, b: Seq<Seq<char>>, n: int)
    requires
        0 <= n <= a.len(),
    ensures
        0 <= common_count(a, b, n) <= n,
    decreases n,
{
    if n > 0 {
        lemma_common_count_bounds(a, b, n - 1);
    }
}

/// Whether the word sets `a` (of `me`, which has `n_tokens` tokens) and `b`
/// (of `them`) make `me` an echo.
fn similar_exec(a: &Vec<Vec<char>>, n_tokens: usize, b: &Vec<Vec<char>>) -> (r: bool)
    ensures
        r == ({
            let c = common_count(vvc_view(a@), vvc_view(b@), a@.len() as int);
            &&& n_tokens >= MIN_ECHO_TOKENS
            &&& (10 * c >= 7 * (a@.len() + b@.len() - c) || 100 * c >= 85 * a@.len())
        }),
{
    let ghost av = vvc_view(a@);
    let ghost bv = vvc_view(b@);
    let mut c: usize = 0;
    let mut k: usize = 0;
    while k < a.len()
        invariant
            k <= a.len(),
            av == vvc_view(a@),
            bv == vvc_view(b@),
            c == common_count(av, bv, k as int),
            c <= k,
        decreases a.len() - k,
    {
        assert(av[k as int] == a@[k as int]@);
        if has_token_exec(b, &a[k]) {
            c = c + 1;
        }
        k += 1;
    }
    if n_tokens < MIN_ECHO_TOKENS {
        return false;
    }
    let al = a.len() as u128;
    let bl = b.len() as u128;
    let cc = c as u128;
    10 * cc >= 7 * (al + bl - cc) || 100 * cc >= 85 * al
}

fn near_exec(me: &StoredSegment, them: &StoredSegment) -> (r: bool)
    ensures
        r == near_spec(seg_view(*me), seg_view(*them)),
{
    let by_audio = match (me.start_ms, them.start_ms) {
        (Some(x), Some(y)) => (if x >= y {
            x - y
        } else {
            y - x
        }) <= 2500,
        _ => false,
    };
    let dt = if me.ts_ms >= them.ts_ms {
        me.ts_ms - them.ts_ms
    } else {
        them.ts_ms - me.ts_ms
    };
    by_audio || dt <= 6000
}

/// Drop "me" segments that echo a nearby "them" segment: on speakers the
/// microphone re-hears the other participants. Only "me" segments are ever
/// removed; everything else keeps its order.
pub fn dedup_echo(segments: &Vec<StoredSegment>) -> (r: Vec<StoredSegment>)
    ensures
        segs_view(r@) == dedup_prefix(segs_view(segments@), segments@.len() as int),
{
    let ghost sv = segs_view(segments@);
    let mut sets: Vec<Vec<Vec<char>>> = Vec::new();
    let mut counts: Vec<usize> = Vec::new();
    let mut i: usize = 0;
    while i < segments.len()
        invariant
            i <= segments.len(),
            sv == segs_view(segments@),
            sets@.len() == i,
            counts@.len() == i,
            forall|k: int| 0 <= k < i ==> vvc_view((#[trigger] sets@[k])@) == word_set(sv[k].1),
            forall|k: int| 0 <= k < i ==> #[trigger] counts@[k] == tokens_from(sv[k].1, 0).len(),
        decreases segments.len() - i,
    {
        let chars = to_chars(segments[i].text.as_str());
        let (ws, n) = word_set_exec(&chars);
        assert(sv[i as int].1 == segments@[i as int].text@);
        sets.push(ws);
        counts.push(n);
        i += 1;
    }
    let mut out: Vec<StoredSegment> = Vec::new();
    let mut k: usize = 0;
    while k < segments.len()
        invariant
            k <= segments.len(),
            sv == segs_view(segments@),
            sets@.len() == segments@.len(),
            counts@.len() == segments@.len(),
            forall|m: int| 0 <= m < sets@.len() ==> vvc_view((#[trigger] sets@[m])@) == word_set(sv[m].1),
            forall|m: int| 0 <= m < counts@.len() ==> #[trigger] counts@[m] == tokens_from(sv[m].1, 0).len(),
            segs_view(out@) == dedup_prefix(sv, k as int),
        decreases segments.len() - k,
    {
        let me = &segments[k];
        assert(sv[k as int] == seg_view(segments@[k as int]));
        let mut echo = false;
        if crate::text::str_eq(me.source.as_str(), "me") {
            let mut j: usize = 0;
            while j < segments.len() && !echo
                invariant
                    j <= segments.len(),
                    k < segments.len(),
                    sv == segs_view(segments@),
                    sets@.len() == segments@.len(),
                    counts@.len() == segments@.len(),
                    forall|m: int| 0 <= m < sets@.len() ==> vvc_view((#[trigger] sets@[m])@) == word_set(sv[m].1),
                    forall|m: int| 0 <= m < counts@.len() ==> #[trigger] counts@[m] == tokens_from(sv[m].1, 0).len(),
                    sv[k as int].0 == "me"@,
                    seg_view(*me) == sv[k as int],
                    echo ==> is_echo(sv, k as int),
                    !echo ==> forall|m: int| 0 <= m < j ==> !((#[trigger] sv[m]).0 == "them"@ && near_spec(sv[k as int], sv[m])
                        && similar_spec(sv[k as int].1, sv[m].1)),
                decreases segments.len() - j, (if echo { 0int } else { 1int }),
            {
                let them = &segments[j];
                assert(sv[j as int] == seg_view(segments@[j as int]));
                assert(sv[k as int] == seg_view(segments@[k as int]));
                assert(vvc_view(sets@[k as int]@) == word_set(sv[k as int].1));
                assert(vvc_view(sets@[j as int]@) == word_set(sv[j as int].1));
                let is_them = crate::text::str_eq(them.source.as_str(), "them");
                let near = near_exec(me, them);
                if is_them && near {
                    let sim = similar_exec(&sets[k], counts[k], &sets[j]);
                    assert(sim == similar_spec(sv[k as int].1, sv[j as int].1));
                    if sim {
                        echo = true;
                        assert(sv[j as int].0 == "them"@);
                        assert(near_spec(sv[k as int], sv[j as int]));
                        assert(similar_spec(sv[k as int].1, sv[j as int].1));
                        assert(is_echo(sv, k as int));
                    }
                }
                j += 1;
            }
            proof {
                if !echo {
                    assert(!is_echo(sv, k as int));
                }
            }
        }
        if !echo {
            let ghost before = out@;
            out.push(copy_segment(me));
            assert(segs_view(out@) =~= segs_view(before).push(sv[k as int]));
        }
        k += 1;
    }
    out
}

// ── Laws ────────────────────────────────────────────────────────────────────

proof fn lemma_relabel_keeps(
    segs: Seq<(Seq<char>, Seq<char>, u64, Option<u64>, Option<u64>)>,
    sps: Seq<SpeakerSegment>,
    n: int,
)
    requires
        0 <= n <= segs.len(),
    ensures
        relabel_prefix(segs, sps, n).0.len() == n,
        forall|k: int|
            0 <= k < n ==> {
                let out = #[trigger] relabel_prefix(segs, sps, n).0[k];
                &&& out.1 == segs[k].1
                &&& out.2 == segs[k].2
                &&& out.3 == segs[k].3
                &&& out.4 == segs[k].4
                &&& (out.0 != segs[k].0 ==> segs[k].0 == "them"@)
            },
    decreases n,
{
    if n > 0 {
        lemma_relabel_keeps(segs, sps, n - 1);
        let prev = relabel_prefix(segs, sps, n - 1);
        assert forall|k: int| 0 <= k < n implies {
            let out = #[trigger] relabel_prefix(segs, sps, n).0[k];
            &&& out.1 == segs[k].1
            &&& out.2 == segs[k].2
            &&& out.3 == segs[k].3
            &&& out.4 == segs[k].4
            &&& (out.0 != segs[k].0 ==> segs[k].0 == "them"@)
        } by {
            if k < n - 1 {
                assert(relabel_prefix(segs, sps, n).0[k] == prev.0[k]);
            }
        }
    }
}

/// Speaker attribution only renames sources, and only `them` ones: every
/// segment keeps its text, timestamp and time range, and `me` stays `me`.
pub proof fn lemma_diarization_only_relabels_them(
    segs: Seq<(Seq<char>, Seq<char>, u64, Option<u64>, Option<u64>)>,
    sps: Seq<SpeakerSegment>,
)
    ensures
        diarized_spec(segs, sps).len() == segs.len(),
        forall|k: int|
            0 <= k < segs.len() ==> {
                let out = #[trigger] diarized_spec(segs, sps)[k];
                &&& out.1 == segs[k].1
                &&& out.2 == segs[k].2
                &&& out.3 == segs[k].3
                &&& out.4 == segs[k].4
                &&& (out.0 != segs[k].0 ==> segs[k].0 == "them"@)
            },
{
    lemma_relabel_keeps(segs, sps, segs.len() as int);
}

pub open spec fn file_safe(s: Seq<char>) -> bool {
    forall|k: int| 0 <= k < s.len() ==> !forbidden(#[trigger] s[k])
}

proof fn lemma_file_safe_concat(a: Seq<char>, b: Seq<char>)
    requires
        file_safe(a),
        file_safe(b),
    ensures
        file_safe(a + b),
{
    assert forall|k: int| 0 <= k < (a + b).len() implies !forbidden(#[trigger] (a + b)[k]) by {
        if k < a.len() {
            assert((a + b)[k] == a[k]);
        } else {
            assert((a + b)[k] == b[k - a.len()]);
        }
    }
}

proof fn lemma_decimal_safe(n: nat)
    ensures
        file_safe(decimal(n)),
    decreases n,
{
    if n >= 10 {
        lemma_decimal_safe(n / 10);
        lemma_file_safe_concat(decimal(n / 10), seq![crate::text::digit_char((n % 10) as int)]);
        assert(decimal(n) =~= decimal(n / 10) + seq![crate::text::digit_char((n % 10) as int)]);
    }
}

proof fn lemma_zero_pad_safe(n: nat, w: nat)
    ensures
        file_safe(crate::text::zero_pad(n, w)),
{
    lemma_decimal_safe(n);
    let d = decimal(n);
    if d.len() < w {
        let z = Seq::new((w - d.len()) as nat, |i: int| '0');
        lemma_file_safe_concat(z, d);
    }
}

proof fn lemma_date_safe(t: LocalTime)
    ensures
        file_safe(date_text(t)),
        file_safe(date_hm_text(t)),
{
    let y = t.year as int;
    lemma_zero_pad_safe((if y < 0 { -y } else { y }) as nat, 4);
    assert(file_safe(crate::clock::year_text(y))) by {
        if 0 <= y <= 9999 {
        } else if y < 0 {
            lemma_file_safe_concat(seq!['-'], crate::text::zero_pad((-y) as nat, 4));
        } else {
            lemma_file_safe_concat(seq!['+'], crate::text::zero_pad(y as nat, 4));
        }
    }
    lemma_zero_pad_safe(t.month as nat, 2);
    lemma_zero_pad_safe(t.day as nat, 2);
    lemma_zero_pad_safe(t.hour as nat, 2);
    lemma_zero_pad_safe(t.minute as nat, 2);
    let a = crate::clock::year_text(y) + seq!['-'];
    lemma_file_safe_concat(crate::clock::year_text(y), seq!['-']);
    let b = a + crate::text::zero_pad(t.month as nat, 2);
    lemma_file_safe_concat(a, crate::text::zero_pad(t.month as nat, 2));
    lemma_file_safe_concat(b, seq!['-']);
    lemma_file_safe_concat(b + seq!['-'], crate::text::zero_pad(t.day as nat, 2));
    let dt = date_text(t);
    lemma_file_safe_concat(dt, seq![' ']);
    lemma_file_safe_concat(dt + seq![' '], crate::text::zero_pad(t.hour as nat, 2));
    lemma_file_safe_concat(
        dt + seq![' '] + crate::text::zero_pad(t.hour as nat, 2),
        crate::text::zero_pad(t.minute as nat, 2),
    );
}

/// Transcript file names never contain characters macOS or the shell treat
/// specially (`:`, `/`, ...), given a sanitized subject.
pub proof fn lemma_stems_file_safe(t: LocalTime, subject: Seq<char>, include_time: bool)
    requires
        file_safe(subject),
    ensures
        file_safe(transcript_stem_spec(t, subject, include_time)),
        file_safe(live_stem_spec(t)),
{
    lemma_date_safe(t);
    reveal_strlit(" - ");
    reveal_strlit(" - Meeting in progress");
    let d = if include_time {
        date_hm_text(t)
    } else {
        date_text(t)
    };
    lemma_file_safe_concat(d, " - "@);
    lemma_file_safe_concat(d + " - "@, subject);
    lemma_file_safe_concat(date_hm_text(t), " - Meeting in progress"@);
}

/// The segments of `segs[..n]` whose source is not `me`.
pub open spec fn others_prefix(segs: Seq<(Seq<char>, Seq<char>, u64, Option<u64>, Option<u64>)>, n: int) -> Seq<(Seq<char>, Seq<char>, u64, Option<u64>, Option<u64>)>
    decreases n,
{
    if n <= 0 || n > segs.len() {
        seq![]
    } else if segs[n - 1].0 == "me"@ {
        others_prefix(segs, n - 1)
    } else {
        others_prefix(segs, n - 1).push(segs[n - 1])
    }
}

/// Echo removal only ever drops `me` segments: the segments from every
/// other source come through all of them, in order.
pub proof fn lemma_dedup_keeps_others(
    segs: Seq<(Seq<char>, Seq<char>, u64, Option<u64>, Option<u64>)>,
    n: int,
)
    requires
        0 <= n <= segs.len(),
    ensures
        others_prefix(dedup_prefix(segs, n), dedup_prefix(segs, n).len() as int) == others_prefix(segs, n),
    decreases n,
{
    if n > 0 {
        lemma_dedup_keeps_others(segs, n - 1);
        let d = dedup_prefix(segs, n - 1);
        if !is_echo(segs, n - 1) {
            let d2 = d.push(segs[n - 1]);
            lemma_others_prefix_push(d, segs[n - 1]);
            assert(dedup_prefix(segs, n) == d2);
        }
    }
}

proof fn lemma_others_prefix_push(
    d: Seq<(Seq<char>, Seq<char>, u64, Option<u64>, Option<u64>)>,
    x: (Seq<char>, Seq<char>, u64, Option<u64>, Option<u64>),
)
    ensures
        others_prefix(d.push(x), (d.len() + 1) as int) == if x.0 == "me"@ {
            others_prefix(d, d.len() as int)
        } else {
            others_prefix(d, d.len() as int).push(x)
        },
{
    lemma_others_prefix_same(d.push(x), d, d.len() as int);
}

proof fn lemma_others_prefix_same(
    a: Seq<(Seq<char>, Seq<char>, u64, Option<u64>, Option<u64>)>,
    b: Seq<(Seq<char>, Seq<char>, u64, Option<u64>, Option<u64>)>,
    n: int,
)
    requires
        0 <= n <= a.len(),
        n <= b.len(),
        forall|k: int| 0 <= k < n ==> a[k] == b[k],
    ensures
        others_prefix(a, n) == others_prefix(b, n),
    decreases n,
{
    if n > 0 {
        lemma_others_prefix_same(a, b, n - 1);
    }
}

/// With no `them` segment nothing can be an echo, so nothing is dropped
/// (headphones: the microphone hears only the user).
pub proof fn lemma_dedup_without_them(segs: Seq<(Seq<char>, Seq<char>, u64, Option<u64>, Option<u64>)>, n: int)
    requires
        0 <= n <= segs.len(),
        forall|j: int| 0 <= j < segs.len() ==> (#[trigger] segs[j]).0 != "them"@,
    ensures
        dedup_prefix(segs, n) == segs.take(n),
    decreases n,
{
    if n > 0 {
        lemma_dedup_without_them(segs, n - 1);
        assert(!is_echo(segs, n - 1));
        assert(segs.take(n) =~= segs.take(n - 1).push(segs[n - 1]));
    }
}
/// A segment that is not an echo survives echo removal.
proof fn lemma_dedup_keeps_non_echo(
    segs: Seq<(Seq<char>, Seq<char>, u64, Option<u64>, Option<u64>)>,
    n: int,
    k: int,
)
    requires
        0 <= k < n <= segs.len(),
        !is_echo(segs, k),
    ensures
        dedup_prefix(segs, n).contains(segs[k]),
    decreases n,
{
    if k == n - 1 {
        assert(dedup_prefix(segs, n).last() == segs[k]);
    } else {
        lemma_dedup_keeps_non_echo(segs, n - 1, k);
        let d = dedup_prefix(segs, n - 1);
        let j = choose|j: int| 0 <= j < d.len() && d[j] == segs[k];
        if !is_echo(segs, n - 1) {
            assert(dedup_prefix(segs, n)[j] == segs[k]);
        }
    }
}

/// Short utterances are never taken for echoes: a segment with fewer than
/// three tokens is kept, whatever its source.
pub proof fn lemma_dedup_keeps_short(segs: Seq<(Seq<char>, Seq<char>, u64, Option<u64>, Option<u64>)>, k: int)
    requires
        0 <= k < segs.len(),
        tokens_from(segs[k].1, 0).len() < MIN_ECHO_TOKENS,
    ensures
        dedup_prefix(segs, segs.len() as int).contains(segs[k]),
{
    lemma_dedup_keeps_non_echo(segs, segs.len() as int, k);
}
/// A blank summary renders like no summary, and a summary renders like its
/// trimmed form.
pub proof fn lemma_summary_normalized(
    subject: Seq<char>,
    summary: Seq<char>,
    started: LocalTime,
    turns: Seq<(Seq<char>, u64, Seq<char>)>,
    clocks: Seq<LocalTime>,
)
    ensures
        trim(summary).len() == 0 ==> notes_spec(subject, Some(summary), started, turns, clocks)
            == notes_spec(subject, None, started, turns, clocks),
        notes_spec(subject, Some(summary), started, turns, clocks) == notes_spec(
            subject,
            Some(trim(summary)),
            started,
            turns,
            clocks,
        ),
{
    crate::text::lemma_trim_idempotent(summary);
}
proof fn lemma_strip_forbidden_none(s: Seq<char>)
    requires
        forall|k: int| 0 <= k < s.len() ==> !forbidden(#[trigger] s[k]),
    ensures
        strip_forbidden(s) == s,
    decreases s.len(),
{
    if s.len() > 0 {
        lemma_strip_forbidden_none(s.drop_last());
        assert(s.drop_last().push(s.last()) =~= s);
    }
}

proof fn lemma_trim_word(w: Seq<char>)
    requires
        forall|k: int| 0 <= k < w.len() ==> !is_white(#[trigger] w[k]),
    ensures
        trim(w) == w,
{
    lemma_skip_white(w, 0);
    if w.len() > 0 {
        assert(skip_white(w, 0) == 0);
    }
    assert(crate::text::trim_start(w) =~= w);
    lemma_rskip_white(w, w.len() as int);
    if w.len() > 0 {
        assert(rskip_white(w, w.len() as int) == w.len());
    }
    assert(trim_end(w) =~= w);
}

/// The subject used without a model reply is taken from the first segment's
/// text alone: which speaker said it, when, and every later segment play no
/// part. When that text is a single word that is fit for a file name, the
/// subject is that word.
pub proof fn lemma_fallback_from_first_text(segs: Seq<StoredSegment>, other: Seq<StoredSegment>, w: Seq<char>)
    requires
        segs.len() > 0,
    ensures
        other.len() > 0 && other[0].text@ == segs[0].text@ ==> fallback_spec(other) == fallback_spec(segs),
        segs[0].text@ == w && w.len() > 0 && byte_len(w) <= MAX_SUBJECT_BYTES
            && (forall|k: int| 0 <= k < w.len() ==> !is_white(#[trigger] w[k]) && !forbidden(w[k]))
            ==> fallback_spec(segs) == w,
{
    if segs[0].text@ == w && w.len() > 0 && byte_len(w) <= MAX_SUBJECT_BYTES && (forall|k: int|
        0 <= k < w.len() ==> !is_white(#[trigger] w[k]) && !forbidden(w[k])) {
        lemma_skip_white(w, 0);
        assert(skip_white(w, 0) == 0);
        crate::text::lemma_word_end(w, 0);
        assert(crate::text::word_end(w, 0) == w.len());
        lemma_skip_white(w, w.len() as int);
        assert(crate::text::words_from(w, w.len() as int) =~= Seq::<Seq<char>>::empty());
        assert(w.subrange(0, w.len() as int) =~= w);
        assert(words(w) =~= seq![w]);
        assert(take_at_most(words(w), 5) =~= seq![w]);
        assert(join(seq![w], seq![' ']) == w);
        lemma_trim_word(w);
        lemma_strip_forbidden_none(w);
    }
}

/// Whatever echo removal keeps of `segs[..n]` is one of those segments
/// that is not an echo.
proof fn lemma_dedup_kept(
    segs: Seq<(Seq<char>, Seq<char>, u64, Option<u64>, Option<u64>)>,
    n: int,
    x: (Seq<char>, Seq<char>, u64, Option<u64>, Option<u64>),
)
    requires
        0 <= n <= segs.len(),
        dedup_prefix(segs, n).contains(x),
    ensures
        exists|m: int| 0 <= m < n && segs[m] == x && !is_echo(segs, m),
    decreases n,
{
    if n > 0 {
        let d = dedup_prefix(segs, n - 1);
        if d.contains(x) {
            lemma_dedup_kept(segs, n - 1, x);
            let m = choose|m: int| 0 <= m < n - 1 && segs[m] == x && !is_echo(segs, m);
            assert(0 <= m < n && segs[m] == x && !is_echo(segs, m));
        } else {
            let i = choose|i: int| 0 <= i < dedup_prefix(segs, n).len() && dedup_prefix(segs, n)[i] == x;
            if is_echo(segs, n - 1) {
                assert(dedup_prefix(segs, n) == d);
                assert(d[i] == x);
            } else {
                if i < d.len() {
                    assert(d[i] == x);
                }
                assert(segs[n - 1] == x);
            }
        }
    }
}

/// A `me` segment that repeats a `them` segment standing anywhere in the
/// transcript (audio starts at most 2.5 s apart, or arrivals at most 6 s
/// apart, and similar words) is gone after echo removal: neither it nor an
/// identical copy is kept, wherever the two stand in the list.
pub proof fn lemma_echo_dropped_wherever(
    segs: Seq<(Seq<char>, Seq<char>, u64, Option<u64>, Option<u64>)>,
    k: int,
    j: int,
)
    requires
        0 <= k < segs.len(),
        0 <= j < segs.len(),
        segs[k].0 == "me"@,
        segs[j].0 == "them"@,
        (segs[k].3 is Some && segs[j].3 is Some && abs_diff(segs[k].3->0 as int, segs[j].3->0 as int)
            <= 2500) || abs_diff(segs[k].2 as int, segs[j].2 as int) <= 6000,
        similar_spec(segs[k].1, segs[j].1),
    ensures
        !dedup_prefix(segs, segs.len() as int).contains(segs[k]),
{
    if dedup_prefix(segs, segs.len() as int).contains(segs[k]) {
        lemma_dedup_kept(segs, segs.len() as int, segs[k]);
        let m = choose|m: int| 0 <= m < segs.len() && segs[m] == segs[k] && !is_echo(segs, m);
        assert(segs[j].0 == "them"@ && near_spec(segs[m], segs[j]) && similar_spec(segs[m].1, segs[j].1));
        assert(is_echo(segs, m));
    }
}

/// `sps[b]` (or none, for `b == -1`) overlaps `[start, end]` the most among
/// `sps[..i]`, and is the first of equals.
pub open spec fn leads_overlap(start: int, end: int, sps: Seq<SpeakerSegment>, i: int, b: int) -> bool {
    &&& -1 <= b < i
    &&& b == -1 ==> forall|j: int| 0 <= j < i ==> overlap(start, end, #[trigger] sps[j]) <= 0
    &&& b >= 0 ==> {
        &&& overlap(start, end, sps[b]) > 0
        &&& forall|j: int| 0 <= j < i ==> overlap(start, end, #[trigger] sps[j]) <= overlap(start, end, sps[b])
        &&& forall|j: int| 0 <= j < b ==> overlap(start, end, #[trigger] sps[j]) < overlap(start, end, sps[b])
    }
}

proof fn lemma_best_from(start: int, end: int, sps: Seq<SpeakerSegment>, i: int, b: int)
    requires
        0 <= i <= sps.len(),
        leads_overlap(start, end, sps, i, b),
    ensures
        exists|c: int|
            #[trigger] leads_overlap(start, end, sps, sps.len() as int, c) && best_from(
                start,
                end,
                sps,
                i,
                if b >= 0 {
                    overlap(start, end, sps[b])
                } else {
                    0
                },
                if b >= 0 {
                    Some(sps[b].speaker)
                } else {
                    None
                },
            ) == (if c >= 0 {
                Some(sps[c].speaker)
            } else {
                None::<i32>
            }),
    decreases sps.len() - i,
{
    let ov = if b >= 0 {
        overlap(start, end, sps[b])
    } else {
        0
    };
    if i == sps.len() {
        assert(leads_overlap(start, end, sps, sps.len() as int, b));
    } else if overlap(start, end, sps[i]) > ov {
        assert(leads_overlap(start, end, sps, i + 1, i));
        lemma_best_from(start, end, sps, i + 1, i);
    } else {
        assert(leads_overlap(start, end, sps, i + 1, b));
        lemma_best_from(start, end, sps, i + 1, b);
    }
}

/// The speaker a segment is attributed to is the one whose diarized stretch
/// overlaps the segment's time range the most, the earliest such stretch on
/// ties; none only when no stretch overlaps the range at all.
pub proof fn lemma_best_speaker_overlaps_most(start: int, end: int, sps: Seq<SpeakerSegment>)
    ensures
        best_speaker(start, end, sps) is None <==> forall|j: int|
            0 <= j < sps.len() ==> overlap(start, end, #[trigger] sps[j]) == 0,
        best_speaker(start, end, sps) is Some ==> exists|i: int|
            0 <= i < sps.len() && best_speaker(start, end, sps) == Some(sps[i].speaker)
                && overlap(start, end, sps[i]) > 0
                && (forall|j: int| 0 <= j < sps.len() ==> overlap(start, end, #[trigger] sps[j]) <= overlap(start, end, sps[i]))
                && (forall|j: int| 0 <= j < i ==> overlap(start, end, #[trigger] sps[j]) < overlap(start, end, sps[i])),
{
    assert(leads_overlap(start, end, sps, 0, -1));
    lemma_best_from(start, end, sps, 0, -1);
    let c = choose|c: int|
        #[trigger] leads_overlap(start, end, sps, sps.len() as int, c) && best_from(start, end, sps, 0, 0, None)
            == (if c >= 0 {
            Some(sps[c].speaker)
        } else {
            None::<i32>
        });
    assert forall|j: int| 0 <= j < sps.len() implies overlap(start, end, #[trigger] sps[j]) >= 0 by {}
    if c >= 0 {
        assert(best_speaker(start, end, sps) == Some(sps[c].speaker));
        assert(overlap(start, end, sps[c]) != 0);
    }
}

proof fn lemma_index_of_spec(order: Seq<i32>, x: i32)
    ensures
        -1 <= index_of(order, x) < order.len(),
        index_of(order, x) >= 0 ==> order[index_of(order, x)] == x,
        forall|i: int| 0 <= i < order.len() && (i < index_of(order, x) || index_of(order, x) == -1)
            ==> #[trigger] order[i] != x,
    decreases order.len(),
{
    if order.len() > 0 {
        lemma_index_of_spec(order.drop_last(), x);
        assert forall|i: int| 0 <= i < order.len() && (i < index_of(order, x) || index_of(order, x) == -1)
            implies #[trigger] order[i] != x by {
            if i < order.len() - 1 {
                assert(order[i] == order.drop_last()[i]);
            }
        }
    }
}

proof fn lemma_index_of_push(order: Seq<i32>, y: i32, x: i32)
    ensures
        index_of(order.push(y), x) == if index_of(order, x) >= 0 {
            index_of(order, x)
        } else if y == x {
            order.len() as int
        } else {
            -1
        },
{
    assert(order.push(y).drop_last() =~= order);
}

proof fn lemma_decimal_len(n: nat)
    ensures
        decimal(n).len() >= 1,
        n < 10 <==> decimal(n).len() == 1,
    decreases n,
{
    if n >= 10 {
        lemma_decimal_len(n / 10);
    }
}

proof fn lemma_digit_char_injective(a: int, b: int)
    requires
        0 <= a < 10,
        0 <= b < 10,
        crate::text::digit_char(a) == crate::text::digit_char(b),
    ensures
        a == b,
{
}

/// Different numbers have different decimal renderings.
proof fn lemma_decimal_injective(a: nat, b: nat)
    requires
        decimal(a) == decimal(b),
    ensures
        a == b,
    decreases a,
{
    lemma_decimal_len(a);
    lemma_decimal_len(b);
    if a < 10 {
        assert(b < 10);
        assert(decimal(a)[0] == crate::text::digit_char(a as int));
        assert(decimal(b)[0] == crate::text::digit_char(b as int));
        lemma_digit_char_injective(a as int, b as int);
    } else {
        assert(b >= 10);
        let da = decimal(a);
        assert(da.last() == crate::text::digit_char((a % 10) as int));
        assert(decimal(b).last() == crate::text::digit_char((b % 10) as int));
        lemma_digit_char_injective((a % 10) as int, (b % 10) as int);
        assert(decimal(a / 10) =~= da.drop_last());
        assert(decimal(b / 10) =~= decimal(b).drop_last());
        lemma_decimal_injective(a / 10, b / 10);
    }
}

proof fn lemma_speaker_label_injective(a: nat, b: nat)
    ensures
        speaker_label(a) == speaker_label(b) <==> a == b,
{
    reveal_strlit("Speaker ");
    if speaker_label(a) == speaker_label(b) {
        assert(speaker_label(a).skip(8) =~= decimal(a));
        assert(speaker_label(b).skip(8) =~= decimal(b));
        lemma_decimal_injective(a, b);
    }
}

/// A timed `them` segment that some diarized stretch overlaps: it gets a
/// speaker.
pub open spec fn relabelled(v: (Seq<char>, Seq<char>, u64, Option<u64>, Option<u64>), sps: Seq<SpeakerSegment>) -> bool {
    &&& v.0 == "them"@
    &&& v.3 is Some
    &&& v.4 is Some
    &&& best_speaker(v.3->0 as int, v.4->0 as int, sps) is Some
}

/// The raw speaker of a relabelled segment.
pub open spec fn raw_of(v: (Seq<char>, Seq<char>, u64, Option<u64>, Option<u64>), sps: Seq<SpeakerSegment>) -> i32 {
    best_speaker(v.3->0 as int, v.4->0 as int, sps)->0
}

/// What attribution made of segment `v`: itself when it gets no speaker,
/// else `v` under the label of its raw speaker's place in `ord`.
pub open spec fn labelled_as(
    v: (Seq<char>, Seq<char>, u64, Option<u64>, Option<u64>),
    sps: Seq<SpeakerSegment>,
    out: (Seq<char>, Seq<char>, u64, Option<u64>, Option<u64>),
    ord: Seq<i32>,
) -> bool {
    if relabelled(v, sps) {
        index_of(ord, raw_of(v, sps)) >= 0 && out == seg_with_source(
            v,
            speaker_label((index_of(ord, raw_of(v, sps)) + 1) as nat),
        )
    } else {
        out == v
    }
}

/// `ord[i]` first gets a speaker at a segment before which only the
/// speakers `ord[..i]` occurred.
pub open spec fn first_seen_in_order(
    segs: Seq<(Seq<char>, Seq<char>, u64, Option<u64>, Option<u64>)>,
    sps: Seq<SpeakerSegment>,
    n: int,
    ord: Seq<i32>,
    i: int,
) -> bool {
    exists|k: int|
        0 <= k < n && relabelled(segs[k], sps) && raw_of(segs[k], sps) == ord[i] && forall|m: int|
            0 <= m < k && relabelled(#[trigger] segs[m], sps) ==> index_of(ord, raw_of(segs[m], sps)) < i
}

#[verifier::spinoff_prover]
proof fn lemma_relabel_inv(
    segs: Seq<(Seq<char>, Seq<char>, u64, Option<u64>, Option<u64>)>,
    sps: Seq<SpeakerSegment>,
    n: int,
)
    requires
        0 <= n <= segs.len(),
    ensures
        relabel_prefix(segs, sps, n).0.len() == n,
        forall|i: int, j: int|
            0 <= i < j < relabel_prefix(segs, sps, n).1.len() ==> #[trigger] relabel_prefix(segs, sps, n).1[i]
                != #[trigger] relabel_prefix(segs, sps, n).1[j],
        forall|k: int|
            0 <= k < n ==> labelled_as(segs[k], sps, #[trigger] relabel_prefix(segs, sps, n).0[k], relabel_prefix(segs, sps, n).1),
        forall|i: int|
            0 <= i < relabel_prefix(segs, sps, n).1.len() ==> #[trigger] first_seen_in_order(
                segs,
                sps,
                n,
                relabel_prefix(segs, sps, n).1,
                i,
            ),
    decreases n,
{
    if n > 0 {
        lemma_relabel_inv(segs, sps, n - 1);
        let prev = relabel_prefix(segs, sps, n - 1);
        let ord = prev.1;
        let v = segs[n - 1];
        let cur = relabel_prefix(segs, sps, n);
        assert(cur.0 == prev.0.push(relabel_one(v, sps, ord).0));
        assert(cur.1 == relabel_one(v, sps, ord).1);
        if !relabelled(v, sps) || index_of(ord, raw_of(v, sps)) >= 0 {
            assert(cur.1 == ord);
            assert forall|k: int| 0 <= k < n implies labelled_as(segs[k], sps, #[trigger] cur.0[k], cur.1) by {
                if k < n - 1 {
                    assert(cur.0[k] == prev.0[k]);
                }
            }
            assert forall|i: int| 0 <= i < cur.1.len() implies #[trigger] first_seen_in_order(segs, sps, n, cur.1, i) by {
                assert(first_seen_in_order(segs, sps, n - 1, ord, i));
                let k = choose|k: int|
                    0 <= k < n - 1 && relabelled(segs[k], sps) && raw_of(segs[k], sps) == ord[i] && forall|m: int|
                        0 <= m < k && relabelled(#[trigger] segs[m], sps) ==> index_of(ord, raw_of(segs[m], sps)) < i;
                assert(0 <= k < n);
            }
        } else {
            let raw = raw_of(v, sps);
            lemma_index_of_spec(ord, raw);
            let ord2 = ord.push(raw);
            assert(cur.1 == ord2);
            assert forall|x: i32| #[trigger] index_of(ord2, x) == (if index_of(ord, x) >= 0 {
                index_of(ord, x)
            } else if raw == x {
                ord.len() as int
            } else {
                -1
            }) by {
                lemma_index_of_push(ord, raw, x);
            }
            assert forall|i: int, j: int| 0 <= i < j < ord2.len() implies #[trigger] ord2[i] != #[trigger] ord2[j] by {
                if j == ord.len() {
                    assert(ord[i] != raw);
                } else {
                    assert(ord2[i] == ord[i] && ord2[j] == ord[j]);
                }
            }
            assert forall|k: int| 0 <= k < n implies labelled_as(segs[k], sps, #[trigger] cur.0[k], cur.1) by {
                if k < n - 1 {
                    assert(cur.0[k] == prev.0[k]);
                    assert(labelled_as(segs[k], sps, prev.0[k], ord));
                    if relabelled(segs[k], sps) {
                        assert(index_of(ord2, raw_of(segs[k], sps)) == index_of(ord, raw_of(segs[k], sps)));
                    }
                } else {
                    assert(index_of(ord2, raw) == ord.len());
                }
            }
            assert forall|i: int| 0 <= i < cur.1.len() implies #[trigger] first_seen_in_order(segs, sps, n, cur.1, i) by {
                if i < ord.len() {
                    assert(first_seen_in_order(segs, sps, n - 1, ord, i));
                    let k = choose|k: int|
                        0 <= k < n - 1 && relabelled(segs[k], sps) && raw_of(segs[k], sps) == ord[i] && forall|m: int|
                            0 <= m < k && relabelled(#[trigger] segs[m], sps) ==> index_of(ord, raw_of(segs[m], sps)) < i;
                    assert(cur.1[i] == ord[i]);
                    assert forall|m: int| 0 <= m < k && relabelled(#[trigger] segs[m], sps) implies index_of(
                        cur.1,
                        raw_of(segs[m], sps),
                    ) < i by {
                        assert(labelled_as(segs[m], sps, prev.0[m], ord));
                        assert(index_of(ord2, raw_of(segs[m], sps)) == index_of(ord, raw_of(segs[m], sps)));
                    }
                } else {
                    assert(cur.1[i] == raw);
                    assert forall|m: int| 0 <= m < n - 1 && relabelled(#[trigger] segs[m], sps) implies index_of(
                        cur.1,
                        raw_of(segs[m], sps),
                    ) < i by {
                        assert(labelled_as(segs[m], sps, prev.0[m], ord));
                        lemma_index_of_spec(ord, raw_of(segs[m], sps));
                        assert(index_of(ord2, raw_of(segs[m], sps)) == index_of(ord, raw_of(segs[m], sps)));
                    }
                }
            }
        }
    }
}

/// `out` labels the speakers of `segs` by `ord`, a list of raw speakers
/// without repeats: the `i`-th is `Speaker i+1`, and it first gets a segment
/// only after every speaker before it in the list has.
pub open spec fn numbered_in_order(
    segs: Seq<(Seq<char>, Seq<char>, u64, Option<u64>, Option<u64>)>,
    sps: Seq<SpeakerSegment>,
    out: Seq<(Seq<char>, Seq<char>, u64, Option<u64>, Option<u64>)>,
    ord: Seq<i32>,
) -> bool {
    &&& forall|i: int, j: int| 0 <= i < j < ord.len() ==> #[trigger] ord[i] != #[trigger] ord[j]
    &&& forall|k: int|
        0 <= k < segs.len() && #[trigger] relabelled(segs[k], sps) ==> exists|i: int|
            0 <= i < ord.len() && #[trigger] ord[i] == raw_of(segs[k], sps) && out[k] == seg_with_source(
                segs[k],
                speaker_label((i + 1) as nat),
            )
    &&& forall|i: int|
        0 <= i < ord.len() ==> exists|k: int|
            0 <= k < segs.len() && #[trigger] relabelled(segs[k], sps) && raw_of(segs[k], sps) == #[trigger] ord[i]
                && forall|m: int|
                0 <= m < k && relabelled(#[trigger] segs[m], sps) ==> exists|i2: int|
                    0 <= i2 < i && #[trigger] ord[i2] == raw_of(segs[m], sps)
}

/// Speaker attribution numbers people in order of first appearance, one
/// number per person: segments that get no speaker stay as they are; two
/// relabelled segments share a label exactly when the same raw speaker
/// overlaps them most; and there is a list of the raw speakers, without
/// repeats, such that the `i`-th of them is labelled `Speaker i+1` and
/// first gets a segment only after every speaker before it in the list has.
#[verifier::spinoff_prover]
pub proof fn lemma_speakers_numbered_by_first_appearance(
    segs: Seq<(Seq<char>, Seq<char>, u64, Option<u64>, Option<u64>)>,
    sps: Seq<SpeakerSegment>,
)
    requires
        sps.len() > 0,
        distinct_speakers(sps, sps.len() as int).len() <= MAX_TRUSTED_SPEAKERS,
    ensures
        diarized_spec(segs, sps).len() == segs.len(),
        forall|k: int|
            0 <= k < segs.len() && !relabelled(segs[k], sps) ==> #[trigger] diarized_spec(segs, sps)[k] == segs[k],
        forall|k1: int, k2: int|
            0 <= k1 < segs.len() && 0 <= k2 < segs.len() && relabelled(segs[k1], sps) && relabelled(segs[k2], sps)
                ==> ((#[trigger] diarized_spec(segs, sps)[k1]).0 == (#[trigger] diarized_spec(segs, sps)[k2]).0
                <==> raw_of(segs[k1], sps) == raw_of(segs[k2], sps)),
        exists|ord: Seq<i32>| #[trigger] numbered_in_order(segs, sps, diarized_spec(segs, sps), ord),
{
    let n = segs.len() as int;
    lemma_relabel_inv(segs, sps, n);
    let out = relabel_prefix(segs, sps, n).0;
    let ord = relabel_prefix(segs, sps, n).1;
    assert(diarized_spec(segs, sps) == out);
    assert forall|k: int| 0 <= k < n && !relabelled(segs[k], sps) implies #[trigger] out[k] == segs[k] by {
        assert(labelled_as(segs[k], sps, out[k], ord));
    }
    assert forall|k1: int, k2: int|
        0 <= k1 < n && 0 <= k2 < n && relabelled(segs[k1], sps) && relabelled(segs[k2], sps) implies ((
        #[trigger] out[k1]).0 == (#[trigger] out[k2]).0 <==> raw_of(segs[k1], sps) == raw_of(segs[k2], sps)) by {
        assert(labelled_as(segs[k1], sps, out[k1], ord));
        assert(labelled_as(segs[k2], sps, out[k2], ord));
        let r1 = raw_of(segs[k1], sps);
        let r2 = raw_of(segs[k2], sps);
        lemma_index_of_spec(ord, r1);
        lemma_index_of_spec(ord, r2);
        let i1 = index_of(ord, r1);
        let i2 = index_of(ord, r2);
        lemma_speaker_label_injective((i1 + 1) as nat, (i2 + 1) as nat);
        if out[k1].0 == out[k2].0 {
            assert(speaker_label((i1 + 1) as nat) == speaker_label((i2 + 1) as nat));
            assert(i1 == i2);
        }
    }
    assert forall|k: int|
        0 <= k < segs.len() && #[trigger] relabelled(segs[k], sps) implies exists|i: int|
            0 <= i < ord.len() && #[trigger] ord[i] == raw_of(segs[k], sps) && out[k] == seg_with_source(
                segs[k],
                speaker_label((i + 1) as nat),
            ) by {
        assert(labelled_as(segs[k], sps, out[k], ord));
        lemma_index_of_spec(ord, raw_of(segs[k], sps));
        let i = index_of(ord, raw_of(segs[k], sps));
        assert(ord[i] == raw_of(segs[k], sps));
    }
    assert forall|i: int|
        0 <= i < ord.len() implies exists|k: int|
            0 <= k < segs.len() && #[trigger] relabelled(segs[k], sps) && raw_of(segs[k], sps) == #[trigger] ord[i]
                && forall|m: int|
                0 <= m < k && relabelled(#[trigger] segs[m], sps) ==> exists|i2: int|
                    0 <= i2 < i && #[trigger] ord[i2] == raw_of(segs[m], sps) by {
        assert(first_seen_in_order(segs, sps, n, ord, i));
        let k = choose|k: int|
            0 <= k < n && relabelled(segs[k], sps) && raw_of(segs[k], sps) == ord[i] && forall|m: int|
                0 <= m < k && relabelled(#[trigger] segs[m], sps) ==> index_of(ord, raw_of(segs[m], sps)) < i;
        assert forall|m: int| 0 <= m < k && relabelled(#[trigger] segs[m], sps) implies exists|i2: int|
            0 <= i2 < i && #[trigger] ord[i2] == raw_of(segs[m], sps) by {
            assert(labelled_as(segs[m], sps, out[m], ord));
            lemma_index_of_spec(ord, raw_of(segs[m], sps));
            let i2 = index_of(ord, raw_of(segs[m], sps));
            assert(ord[i2] == raw_of(segs[m], sps));
        }
        assert(relabelled(segs[k], sps));
    }
    assert(numbered_in_order(segs, sps, out, ord));
}

} // verus!
