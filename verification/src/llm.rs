//! Gemma chat-template prompts and the text-side decisions of token
//! generation: which parts of the sampled text reach the chat window, when
//! generation stops at a turn marker, and how a short completion is cleaned.
//! Sampling and decoding themselves belong to the inference engine.
use vstd::prelude::*;
use crate::text::{
    before_first, before_first_exec, byte_len, byte_len_exec, char_width, chars_eq, contains_exec,
    contains_seq, extend_chars, fit_prefix, fit_prefix_exec, from_chars, lemma_byte_len_ascii,
    lemma_byte_len_bounds, lemma_byte_len_concat, lemma_fit_prefix, occurs_at, occurs_at_exec,
    decimal, decimal_exec,
    push_char, push_chars, push_str, slice_chars, to_chars, trim, trim_chars,
};

verus! {

/// One chat turn as the frontend sends it.
pub struct ChatMessage {
    pub role: String,
    pub content: String,
}

/// One streamed piece of the model's reply (`done` marks the end).
pub struct LlmToken {
    pub text: String,
    pub done: bool,
}

// ── Template markers ────────────────────────────────────────────────────────

pub open spec fn start_turn() -> Seq<char> {
    seq!['<', 's', 't', 'a', 'r', 't', '_', 'o', 'f', '_', 't', 'u', 'r', 'n', '>']
}

pub open spec fn end_turn() -> Seq<char> {
    seq!['<', 'e', 'n', 'd', '_', 'o', 'f', '_', 't', 'u', 'r', 'n', '>']
}

pub open spec fn user_word() -> Seq<char> {
    seq!['u', 's', 'e', 'r']
}

pub open spec fn model_word() -> Seq<char> {
    seq!['m', 'o', 'd', 'e', 'l']
}

pub open spec fn system_word() -> Seq<char> {
    seq!['s', 'y', 's', 't', 'e', 'm']
}

fn start_turn_chars() -> (v: Vec<char>)
    ensures
        v@ == start_turn(),
{
    let v = vec!['<', 's', 't', 'a', 'r', 't', '_', 'o', 'f', '_', 't', 'u', 'r', 'n', '>'];
    assert(v@ =~= start_turn());
    v
}

fn end_turn_chars() -> (v: Vec<char>)
    ensures
        v@ == end_turn(),
{
    let v = vec!['<', 'e', 'n', 'd', '_', 'o', 'f', '_', 't', 'u', 'r', 'n', '>'];
    assert(v@ =~= end_turn());
    v
}

fn user_chars() -> (v: Vec<char>)
    ensures
        v@ == user_word(),
{
    let v = vec!['u', 's', 'e', 'r'];
    assert(v@ =~= user_word());
    v
}

fn model_chars() -> (v: Vec<char>)
    ensures
        v@ == model_word(),
{
    let v = vec!['m', 'o', 'd', 'e', 'l'];
    assert(v@ =~= model_word());
    v
}

fn system_chars() -> (v: Vec<char>)
    ensures
        v@ == system_word(),
{
    let v = vec!['s', 'y', 's', 't', 'e', 'm'];
    assert(v@ =~= system_word());
    v
}

// ── Prompt template ─────────────────────────────────────────────────────────

/// The template role of a message: `user` stays `user`, every other role is
/// rendered as the model's turn.
pub open spec fn role_label(role: Seq<char>) -> Seq<char> {
    if role == user_word() {
        user_word()
    } else {
        model_word()
    }
}

/// `<start_of_turn>{role}\n{content}<end_of_turn>\n`
pub open spec fn turn_block(role: Seq<char>, content: Seq<char>) -> Seq<char> {
    start_turn() + role + seq!['\n'] + content + end_turn() + seq!['\n']
}

pub open spec fn message_block(m: ChatMessage) -> Seq<char> {
    turn_block(role_label(m.role@), m.content@)
}

pub open spec fn messages_block(msgs: Seq<ChatMessage>) -> Seq<char>
    decreases msgs.len(),
{
    if msgs.len() == 0 {
        seq![]
    } else {
        messages_block(msgs.drop_last()) + message_block(msgs.last())
    }
}

pub open spec fn system_block(system: Seq<char>) -> Seq<char> {
    if system.len() == 0 {
        seq![]
    } else {
        turn_block(system_word(), system)
    }
}

/// The whole Gemma prompt: optional system turn, one turn per message, then
/// an open model turn for the completion.
pub open spec fn prompt_spec(system: Seq<char>, msgs: Seq<ChatMessage>) -> Seq<char> {
    system_block(system) + messages_block(msgs) + start_turn() + model_word() + seq!['\n']
}

/// The open model turn that ends every prompt.
pub open spec fn open_model_turn() -> Seq<char> {
    start_turn() + model_word() + seq!['\n']
}

proof fn lemma_messages_block_concat(a: Seq<ChatMessage>, b: Seq<ChatMessage>)
    ensures
        messages_block(a + b) == messages_block(a) + messages_block(b),
    decreases b.len(),
{
    if b.len() == 0 {
        assert(a + b =~= a);
        assert(messages_block(b) =~= Seq::<char>::empty());
        assert(messages_block(a) + messages_block(b) =~= messages_block(a));
    } else {
        lemma_messages_block_concat(a, b.drop_last());
        assert((a + b).drop_last() =~= a + b.drop_last());
        assert((a + b).last() == b.last());
        assert(messages_block(a + b) =~= messages_block(a) + messages_block(b));
    }
}

/// Every message of a conversation becomes its own turn, whatever the
/// conversation's length: a prompt for `a` then `b` is the prompt for `a`
/// without its open model turn, followed by the prompt for `b` alone. A
/// single message is one turn, as `user` when its role is `user` and as
/// `model` otherwise, then the open model turn; an empty conversation is the
/// system turn (when there is a system prompt) and the open model turn.
pub proof fn lemma_prompt_turns(system: Seq<char>, a: Seq<ChatMessage>, b: Seq<ChatMessage>, m: ChatMessage)
    ensures
        prompt_spec(system, a).len() >= open_model_turn().len(),
        prompt_spec(system, a).skip(prompt_spec(system, a).len() - open_model_turn().len())
            == open_model_turn(),
        prompt_spec(system, a + b) == prompt_spec(system, a).take(
            prompt_spec(system, a).len() - open_model_turn().len(),
        ) + prompt_spec(Seq::<char>::empty(), b),
        prompt_spec(Seq::<char>::empty(), seq![m]) == start_turn() + (if m.role@ == user_word() {
            user_word()
        } else {
            model_word()
        }) + seq!['\n'] + m.content@ + end_turn() + seq!['\n'] + open_model_turn(),
        prompt_spec(system, Seq::<ChatMessage>::empty()) == (if system.len() == 0 {
            Seq::<char>::empty()
        } else {
            start_turn() + system_word() + seq!['\n'] + system + end_turn() + seq!['\n']
        }) + open_model_turn(),
{
    lemma_messages_block_concat(a, b);
    let pa = prompt_spec(system, a);
    let head = system_block(system) + messages_block(a);
    assert(pa =~= head + open_model_turn());
    assert(pa.take(pa.len() - open_model_turn().len()) =~= head);
    assert(pa.skip(pa.len() - open_model_turn().len()) =~= open_model_turn());
    assert(system_block(Seq::<char>::empty()) =~= Seq::<char>::empty());
    assert(prompt_spec(system, a + b) =~= head + prompt_spec(Seq::<char>::empty(), b));
    let one = seq![m];
    assert(one.drop_last() =~= Seq::<ChatMessage>::empty());
    assert(one.last() == m);
    assert(messages_block(Seq::<ChatMessage>::empty()) =~= Seq::<char>::empty());
    assert(prompt_spec(Seq::<char>::empty(), one) =~= start_turn() + (if m.role@ == user_word() {
        user_word()
    } else {
        model_word()
    }) + seq!['\n'] + m.content@ + end_turn() + seq!['\n'] + open_model_turn());
    assert(prompt_spec(system, Seq::<ChatMessage>::empty()) =~= (if system.len() == 0 {
        Seq::<char>::empty()
    } else {
        start_turn() + system_word() + seq!['\n'] + system + end_turn() + seq!['\n']
    }) + open_model_turn());
}

fn push_turn(out: &mut String, role: &Vec<char>, content: &str)
    ensures
        final(out)@ == old(out)@ + turn_block(role@, content@),
{
    push_chars(out, &start_turn_chars());
    push_chars(out, role);
    push_char(out, '\n');
    push_str(out, content);
    push_chars(out, &end_turn_chars());
    push_char(out, '\n');
    assert(final(out)@ =~= old(out)@ + turn_block(role@, content@));
}

/// Format messages using Gemma's chat template.
pub fn format_prompt(system: &str, messages: &[ChatMessage]) -> (prompt: String)
    ensures
        prompt@ == prompt_spec(system@, messages@),
{
    let mut prompt = String::new();
    if !system.is_empty() {
        let sys = system_chars();
        push_turn(&mut prompt, &sys, system);
    }
    assert(prompt@ =~= system_block(system@));
    let user = user_chars();
    let model = model_chars();
    let mut i: usize = 0;
    while i < messages.len()
        invariant
            i <= messages@.len(),
            user@ == user_word(),
            model@ == model_word(),
            prompt@ == system_block(system@) + messages_block(messages@.take(i as int)),
        decreases messages.len() - i,
    {
        let msg = &messages[i];
        let role_chars = to_chars(msg.role.as_str());
        let is_user = chars_eq(&role_chars, &user);
        if is_user {
            push_turn(&mut prompt, &user, msg.content.as_str());
        } else {
            push_turn(&mut prompt, &model, msg.content.as_str());
        }
        assert(messages@.take(i + 1).drop_last() =~= messages@.take(i as int));
        i += 1;
    }
    assert(messages@.take(messages@.len() as int) =~= messages@);
    push_chars(&mut prompt, &start_turn_chars());
    push_chars(&mut prompt, &model);
    push_char(&mut prompt, '\n');
    assert(prompt@ =~= prompt_spec(system@, messages@));
    prompt
}

// ── Stop markers in generated text ──────────────────────────────────────────

/// Length in bytes of the longest stop marker (`<start_of_turn>`).
pub const MAX_STOP_LEN: usize = 15;

/// A turn marker (`<end_of_turn>` or `<start_of_turn>`) starts at index `i`.
pub open spec fn is_stop_at(s: Seq<char>, i: int) -> bool {
    occurs_at(s, end_turn(), i) || occurs_at(s, start_turn(), i)
}

/// First index at or after `i` where a turn marker starts, or the length.
pub open spec fn first_stop_from(s: Seq<char>, i: int) -> int
    decreases s.len() - i,
{
    if i < 0 || i >= s.len() {
        s.len() as int
    } else if is_stop_at(s, i) {
        i
    } else {
        first_stop_from(s, i + 1)
    }
}

/// The text a reader should see: everything before the first turn marker.
pub open spec fn visible(s: Seq<char>) -> Seq<char> {
    s.take(first_stop_from(s, 0))
}

pub open spec fn stop_free(s: Seq<char>) -> bool {
    forall|i: int| !is_stop_at(s, i)
}

pub proof fn lemma_first_stop(s: Seq<char>, i: int)
    requires
        0 <= i <= s.len(),
    ensures
        i <= first_stop_from(s, i) <= s.len(),
        forall|k: int| i <= k < first_stop_from(s, i) ==> !is_stop_at(s, k),
        first_stop_from(s, i) < s.len() ==> is_stop_at(s, first_stop_from(s, i)),
    decreases s.len() - i,
{
    if i < s.len() && !is_stop_at(s, i) {
        lemma_first_stop(s, i + 1);
    }
}

/// If no marker starts before `q` and one starts at `q`, the first marker is
/// at `q`; if none starts anywhere, the whole text is visible.
pub proof fn lemma_first_stop_is(s: Seq<char>, i: int, q: int)
    requires
        0 <= i <= q <= s.len(),
        forall|k: int| 0 <= k < q ==> !is_stop_at(s, k),
        q < s.len() ==> is_stop_at(s, q),
    ensures
        first_stop_from(s, i) == q,
    decreases q - i,
{
    if i < q {
        lemma_first_stop_is(s, i + 1, q);
    }
}

proof fn lemma_stop_shift(a: Seq<char>, b: Seq<char>, j: int)
    requires
        0 <= j,
    ensures
        is_stop_at(a + b, a.len() + j) == is_stop_at(b, j),
{
    let s = a + b;
    let i = a.len() + j;
    if occurs_at(b, end_turn(), j) {
        assert forall|k: int| 0 <= k < end_turn().len() implies #[trigger] s[i + k]
            == end_turn()[k] by {
            assert(b[j + k] == end_turn()[k]);
        }
    }
    if occurs_at(b, start_turn(), j) {
        assert forall|k: int| 0 <= k < start_turn().len() implies #[trigger] s[i + k]
            == start_turn()[k] by {
            assert(b[j + k] == start_turn()[k]);
        }
    }
    if occurs_at(s, end_turn(), i) {
        assert forall|k: int| 0 <= k < end_turn().len() implies #[trigger] b[j + k]
            == end_turn()[k] by {
            assert(s[i + k] == end_turn()[k]);
        }
    }
    if occurs_at(s, start_turn(), i) {
        assert forall|k: int| 0 <= k < start_turn().len() implies #[trigger] b[j + k]
            == start_turn()[k] by {
            assert(s[i + k] == start_turn()[k]);
        }
    }
}

/// A marker occurrence in `text + piece` that starts inside the already
/// streamed part would have to cover the whole retained tail; the tail holds
/// at least `MAX_STOP_LEN` bytes while the markers are shorter ASCII strings,
/// so no such occurrence exists.
proof fn lemma_no_stop_in_streamed(streamed: Seq<char>, tail: Seq<char>, piece: Seq<char>, i: int)
    requires
        stop_free(streamed + tail),
        streamed.len() > 0 ==> byte_len(tail) >= MAX_STOP_LEN,
        0 <= i < streamed.len(),
    ensures
        !is_stop_at(streamed + tail + piece, i),
{
    let text = streamed + tail;
    let s = text + piece;
    if is_stop_at(s, i) {
        let pat = if occurs_at(s, end_turn(), i) {
            end_turn()
        } else {
            start_turn()
        };
        assert(occurs_at(s, pat, i));
        if i + pat.len() <= text.len() {
            assert forall|k: int| 0 <= k < pat.len() implies #[trigger] text[i + k] == pat[k] by {
                assert(s[i + k] == pat[k]);
            }
            assert(occurs_at(text, pat, i));
            assert(is_stop_at(text, i));
        } else {
            assert forall|m: int| 0 <= m < tail.len() implies (#[trigger] tail[m] as u32)
                < 0x80 by {
                let k = streamed.len() + m - i;
                assert(s[i + k] == pat[k]);
                assert(s[streamed.len() + m] == tail[m]);
            }
            lemma_byte_len_ascii(tail);
        }
    }
}

/// Decides, piece by piece, which generated text reaches the reader while
/// the model streams: text is held back until it can no longer be the start
/// of a turn marker, and generation stops at the first marker.
pub struct StopScanner {
    tail: Vec<char>,
    stopped: bool,
    text: Ghost<Seq<char>>,
    streamed: Ghost<Seq<char>>,
}

/// What to do after one generated piece: text to show (if any), and whether
/// generation must stop.
pub struct StreamStep {
    pub emit: Option<String>,
    pub stop: bool,
}

pub open spec fn emitted(o: Option<String>) -> Seq<char> {
    match o {
        Some(s) => s@,
        None => seq![],
    }
}

/// The text shown after appending a piece, given the held-back text `t`
/// (previous tail plus the piece).
pub open spec fn step_emit(t: Seq<char>) -> Seq<char> {
    if first_stop_from(t, 0) < t.len() {
        t.take(first_stop_from(t, 0))
    } else if byte_len(t) > MAX_STOP_LEN {
        t.take(fit_prefix(t, byte_len(t) - MAX_STOP_LEN) as int)
    } else {
        seq![]
    }
}

/// The text held back after appending a piece.
pub open spec fn step_tail(t: Seq<char>) -> Seq<char> {
    if first_stop_from(t, 0) < t.len() {
        t
    } else if byte_len(t) > MAX_STOP_LEN {
        t.skip(fit_prefix(t, byte_len(t) - MAX_STOP_LEN) as int)
    } else {
        t
    }
}

impl StopScanner {
    /// All text generated so far.
    pub closed spec fn text(&self) -> Seq<char> {
        self.text@
    }

    /// Concatenation of every piece of text shown so far.
    pub closed spec fn streamed(&self) -> Seq<char> {
        self.streamed@
    }

    /// Text generated but not yet shown.
    pub closed spec fn held(&self) -> Seq<char> {
        self.tail@
    }

    pub closed spec fn is_stopped(&self) -> bool {
        self.stopped
    }

    pub closed spec fn wf(&self) -> bool {
        if self.stopped {
            &&& first_stop_from(self.tail@, 0) < self.tail@.len()
            &&& self.tail@.len() <= self.text@.len()
            &&& self.text@ == self.text@.take(self.text@.len() - self.tail@.len()) + self.tail@
            &&& self.streamed@ == self.text@.take(self.text@.len() - self.tail@.len())
                + visible(self.tail@)
            &&& self.streamed@ == visible(self.text@)
        } else {
            &&& self.text@ == self.streamed@ + self.tail@
            &&& stop_free(self.text@)
            &&& self.streamed@.len() > 0 ==> byte_len(self.tail@) >= MAX_STOP_LEN
        }
    }

    pub fn new() -> (s: Self)
        ensures
            s.wf(),
            !s.is_stopped(),
            s.text() == Seq::<char>::empty(),
            s.streamed() == Seq::<char>::empty(),
            s.held() == Seq::<char>::empty(),
    {
        let ghost empty: Seq<char> = Seq::empty();
        let s = StopScanner {
            tail: Vec::new(),
            stopped: false,
            text: Ghost(empty),
            streamed: Ghost(empty),
        };
        assert(s.text@ =~= s.streamed@ + s.tail@);
        s
    }

    pub fn is_stopped_exec(&self) -> (b: bool)
        ensures
            b == self.is_stopped(),
    {
        self.stopped
    }

    fn first_stop_exec(t: &Vec<char>) -> (k: usize)
        ensures
            k == first_stop_from(t@, 0),
    {
        let end = end_turn_chars();
        let start = start_turn_chars();
        let mut i: usize = 0;
        while i < t.len()
            invariant
                i <= t.len(),
                end@ == end_turn(),
                start@ == start_turn(),
                first_stop_from(t@, i as int) == first_stop_from(t@, 0),
            decreases t.len() - i,
        {
            if occurs_at_exec(t, &end, i) || occurs_at_exec(t, &start, i) {
                return i;
            }
            i += 1;
        }
        i
    }

    /// Feed one generated piece. Shows text that can no longer be part of a
    /// turn marker, keeping the last `MAX_STOP_LEN` bytes back; on the first
    /// marker, shows the text before it and asks to stop.
    pub fn push(&mut self, piece: &str) -> (step: StreamStep)
        requires
            old(self).wf(),
            !old(self).is_stopped(),
        ensures
            final(self).wf(),
            final(self).text() == old(self).text() + piece@,
            emitted(step.emit) == step_emit(old(self).held() + piece@),
            step.emit is Some ==> emitted(step.emit).len() > 0,
            final(self).held() == step_tail(old(self).held() + piece@),
            final(self).streamed() == old(self).streamed() + emitted(step.emit),
            final(self).is_stopped() == step.stop,
            step.stop ==> final(self).streamed() == visible(final(self).text()),
            !step.stop ==> stop_free(final(self).text()),
    {
        let ghost s0 = self.streamed@;
        let ghost tail0 = self.tail@;
        let ghost text1 = self.text@ + piece@;
        let pv = to_chars(piece);
        let mut t: Vec<char> = Vec::new();
        std::mem::swap(&mut t, &mut self.tail);
        extend_chars(&mut t, &pv);
        assert(t@ == tail0 + piece@);
        assert(text1 =~= s0 + t@);
        proof {
            assert forall|i: int| 0 <= i < s0.len() implies !is_stop_at(text1, i) by {
                lemma_no_stop_in_streamed(s0, tail0, piece@, i);
                assert(s0 + tail0 + piece@ =~= text1);
            }
            assert forall|j: int| 0 <= j implies is_stop_at(text1, s0.len() + j) == is_stop_at(
                t@,
                j,
            ) by {
                lemma_stop_shift(s0, t@, j);
            }
            lemma_first_stop(t@, 0);
        }
        let p = Self::first_stop_exec(&t);
        self.text = Ghost(text1);
        if p < t.len() {
            let before = slice_chars(&t, 0, p);
            proof {
                assert forall|k: int| 0 <= k < s0.len() + p implies !is_stop_at(text1, k) by {
                    if k >= s0.len() {
                        lemma_stop_shift(s0, t@, k - s0.len());
                    } else {
                        lemma_no_stop_in_streamed(s0, tail0, piece@, k);
                        assert(s0 + tail0 + piece@ =~= text1);
                    }
                }
                lemma_stop_shift(s0, t@, p as int);
                lemma_first_stop_is(text1, 0, s0.len() + p);
                assert(visible(text1) =~= s0 + before@);
                assert(text1.take(text1.len() - t@.len()) =~= s0);
            }
            self.streamed = Ghost(s0 + before@);
            self.tail = t;
            self.stopped = true;
            let emit = if p > 0 {
                Some(from_chars(&before))
            } else {
                assert(before@ =~= Seq::<char>::empty());
                None
            };
            return StreamStep { emit, stop: true };
        }
        proof {
            assert forall|i: int| !is_stop_at(text1, i) by {
                if 0 <= i && i < s0.len() {
                    lemma_no_stop_in_streamed(s0, tail0, piece@, i);
                    assert(s0 + tail0 + piece@ =~= text1);
                } else if i >= s0.len() {
                    let j = i - s0.len();
                    lemma_stop_shift(s0, t@, j);
                    if j < t@.len() {
                    } else {
                        assert(!is_stop_at(t@, j));
                    }
                }
            }
        }
        proof {
            lemma_byte_len_bounds(t@);
        }
        if t.len() <= usize::MAX / 4 {
            let total = byte_len_exec(&t);
            if total > MAX_STOP_LEN {
                let k = fit_prefix_exec(&t, total - MAX_STOP_LEN);
                proof {
                    lemma_fit_prefix(t@, total - MAX_STOP_LEN);
                    assert(t@ =~= t@.take(k as int) + t@.skip(k as int));
                    lemma_byte_len_concat(t@.take(k as int), t@.skip(k as int));
                }
                let head = slice_chars(&t, 0, k);
                let rest = slice_chars(&t, k, t.len());
                assert(rest@ =~= t@.skip(k as int));
                self.streamed = Ghost(s0 + head@);
                self.tail = rest;
                assert(self.text@ =~= self.streamed@ + self.tail@);
                if k > 0 {
                    return StreamStep { emit: Some(from_chars(&head)), stop: false };
                } else {
                    assert(head@ =~= Seq::<char>::empty());
                    assert(self.streamed@ =~= s0);
                    return StreamStep { emit: None, stop: false };
                }
            }
            proof {
                lemma_byte_len_concat(tail0, piece@);
            }
            self.tail = t;
            assert(self.streamed@ =~= s0 + seq![]);
            StreamStep { emit: None, stop: false }
        } else {
            // Over a quarter of the address space: the byte count exceeds the limit.
            proof {
                assert(byte_len(t@) > MAX_STOP_LEN);
            }
            let k = Self::fit_long(&t);
            proof {
                lemma_fit_prefix(t@, byte_len(t@) - MAX_STOP_LEN);
                assert(t@ =~= t@.take(k as int) + t@.skip(k as int));
                lemma_byte_len_concat(t@.take(k as int), t@.skip(k as int));
            }
            let head = slice_chars(&t, 0, k);
            let rest = slice_chars(&t, k, t.len());
            assert(rest@ =~= t@.skip(k as int));
            self.streamed = Ghost(s0 + head@);
            self.tail = rest;
            assert(self.text@ =~= self.streamed@ + self.tail@);
            if k > 0 {
                StreamStep { emit: Some(from_chars(&head)), stop: false }
            } else {
                assert(head@ =~= Seq::<char>::empty());
                assert(self.streamed@ =~= s0);
                StreamStep { emit: None, stop: false }
            }
        }
    }

    /// Prefix fit for a held-back text too long for its byte count to be
    /// computed in a machine word: walk from the end instead.
    fn fit_long(t: &Vec<char>) -> (k: usize)
        requires
            byte_len(t@) > MAX_STOP_LEN,
        ensures
            k == fit_prefix(t@, byte_len(t@) - MAX_STOP_LEN),
    {
        // Keep characters from the end until at least MAX_STOP_LEN bytes are kept.
        let mut j: usize = t.len();
        let mut kept: usize = 0;
        proof {
            lemma_byte_len_bounds(t@);
        }
        while kept < MAX_STOP_LEN && j > 0
            invariant
                j <= t.len(),
                kept == byte_len(t@.skip(j as int)),
                kept < MAX_STOP_LEN + 4,
                j < t.len() ==> byte_len(t@.skip(j + 1)) < MAX_STOP_LEN,
            decreases j,
        {
            let w = char_width(t[j - 1]);
            assert(t@.skip(j - 1).drop_first() =~= t@.skip(j as int));
            kept = kept + w;
            j = j - 1;
        }
        proof {
            assert(t@ =~= t@.take(j as int) + t@.skip(j as int));
            lemma_byte_len_concat(t@.take(j as int), t@.skip(j as int));
            if kept < MAX_STOP_LEN {
                assert(t@.skip(0) =~= t@);
            }
            lemma_fit_exact(t@, j as int, byte_len(t@) - MAX_STOP_LEN);
        }
        j
    }

    /// What finishing the generation shows: after a stop, nothing (the text
    /// before the marker was shown when the marker was found); otherwise the
    /// held-back text, when non-empty.
    pub fn finish(&self) -> (out: Option<String>)
        requires
            self.wf(),
        ensures
            self.is_stopped() ==> out is None,
            !self.is_stopped() ==> emitted(out) == self.held(),
            out is Some ==> emitted(out).len() > 0,
            !self.is_stopped() ==> self.streamed() + emitted(out) == self.text(),
            !self.is_stopped() ==> visible(self.text()) == self.text(),
            self.is_stopped() ==> self.streamed() == visible(self.text()),
    {
        if self.stopped {
            return None;
        }
        proof {
            lemma_first_stop_is(self.text@, 0, self.text@.len() as int);
            assert(visible(self.text@) =~= self.text@);
        }
        if self.tail.len() == 0 {
            assert(self.tail@ =~= Seq::<char>::empty());
            return None;
        }
        Some(from_chars(&self.tail))
    }
}

/// With `t[j..]` the shortest suffix holding at least `MAX_STOP_LEN` bytes (or
/// all of `t`), `j` is the end of the longest prefix within `limit` bytes.
proof fn lemma_fit_exact(t: Seq<char>, j: int, limit: int)
    requires
        0 <= j <= t.len(),
        limit == byte_len(t) - MAX_STOP_LEN,
        limit > 0,
        byte_len(t.take(j)) + byte_len(t.skip(j)) == byte_len(t),
        byte_len(t.skip(j)) >= MAX_STOP_LEN || j == 0,
        j < t.len() ==> byte_len(t.skip(j + 1)) < MAX_STOP_LEN,
    ensures
        j == fit_prefix(t, limit),
{
    lemma_fit_prefix(t, limit);
    let k = fit_prefix(t, limit) as int;
    if j > 0 {
        // t[..j] fits in limit bytes.
        assert(byte_len(t.take(j)) <= limit);
    }
    assert(t.take(k) + t.skip(k) =~= t);
    lemma_byte_len_concat(t.take(k), t.skip(k));
    if k < j {
        // The prefix of length k+1 also fits: it is inside t[..j].
        assert(t.take(j) =~= t.take(k + 1) + t.take(j).skip(k + 1));
        lemma_byte_len_concat(t.take(k + 1), t.take(j).skip(k + 1));
    } else if k > j {
        // t[..k] would leave fewer than MAX_STOP_LEN bytes.
        assert(t.skip(j + 1) =~= t.skip(j + 1).take(k - j - 1) + t.skip(k));
        lemma_byte_len_concat(t.skip(j + 1).take(k - j - 1), t.skip(k));
        assert(t.take(k) =~= t.take(j + 1) + t.take(k).skip(j + 1));
        assert(t.take(j + 1) + t.skip(j + 1) =~= t);
        lemma_byte_len_concat(t.take(j + 1), t.skip(j + 1));
    }
}

// ── Short completions ───────────────────────────────────────────────────────

/// The first line of `s` (`s.lines().next().unwrap_or("")`).
pub open spec fn first_line(s: Seq<char>) -> Seq<char> {
    let l = before_first(s, seq!['\n']);
    if l.len() > 0 && l.last() == '\r' {
        l.drop_last()
    } else {
        l
    }
}

/// A short completion is over once it holds a turn marker or a newline.
pub open spec fn short_text_done(out: Seq<char>) -> bool {
    contains_seq(out, end_turn()) || contains_seq(out, start_turn()) || contains_seq(
        out,
        seq!['\n'],
    )
}

/// The cleaned short completion: cut at the first `<end_of_turn>`, then at the
/// first `<start_of_turn>`, keep the first line, trim.
pub open spec fn clean_short_spec(out: Seq<char>) -> Seq<char> {
    trim(first_line(before_first(before_first(out, end_turn()), start_turn())))
}

pub fn short_text_should_stop(out: &str) -> (b: bool)
    ensures
        b == short_text_done(out@),
{
    let v = to_chars(out);
    let nl = vec!['\n'];
    assert(nl@ =~= seq!['\n']);
    contains_exec(&v, &end_turn_chars()) || contains_exec(&v, &start_turn_chars())
        || contains_exec(&v, &nl)
}

pub fn clean_short_text(out: &str) -> (r: String)
    ensures
        r@ == clean_short_spec(out@),
{
    let v = to_chars(out);
    let a = before_first_exec(&v, &end_turn_chars());
    let b = before_first_exec(&a, &start_turn_chars());
    let nl = vec!['\n'];
    assert(nl@ =~= seq!['\n']);
    let mut l = before_first_exec(&b, &nl);
    if l.len() > 0 && l[l.len() - 1] == '\r' {
        l.pop();
    }
    let t = trim_chars(&l);
    from_chars(&t)
}


// ── Context-window checks ───────────────────────────────────────────────────

/// Context window of a chat reply, in tokens.
pub const N_CTX: usize = 4096;

/// Context window of a short completion, in tokens.
pub const SHORT_N_CTX: usize = 2048;

/// New tokens a reply may have when the frontend names no limit.
pub fn response_budget(max_tokens: Option<u32>) -> (n: u32)
    ensures
        n == match max_tokens {
            Some(m) => m,
            None => 512u32,
        },
{
    match max_tokens {
        Some(m) => m,
        None => 512,
    }
}

/// A reply fits when the prompt and the new tokens fit the context window.
pub fn check_response_fits(n_input: usize, max_new: u32) -> (r: Result<(), String>)
    ensures
        r is Ok <==> n_input + max_new <= N_CTX,
        r matches Err(e) ==> e@ == "Input is too long ("@ + decimal(n_input as nat)
            + " tokens). Shorten the file or message so the total fits in the 4096-token context window."@,
{
    if n_input > N_CTX || (max_new as usize) > N_CTX - n_input {
        let mut e = "Input is too long (".to_owned();
        push_chars(&mut e, &decimal_exec(n_input as u64));
        push_str(&mut e, " tokens). Shorten the file or message so the total fits in the 4096-token context window.");
        Err(e)
    } else {
        Ok(())
    }
}

/// A short completion fits when the prompt and its new tokens fit 2048 tokens.
pub fn check_short_fits(n_input: usize, max_new: u32) -> (r: Result<(), String>)
    ensures
        r is Ok <==> n_input + max_new <= SHORT_N_CTX,
        r matches Err(e) ==> e@ == "Prompt too long for subject generation"@,
{
    if n_input > SHORT_N_CTX || (max_new as usize) > SHORT_N_CTX - n_input {
        Err("Prompt too long for subject generation".to_owned())
    } else {
        Ok(())
    }
}

/// The prompt tokens a multi-line completion runs on: all of them when they
/// leave room for `max_new` new tokens in the context window; otherwise the
/// input is cut to the first tokens that do, followed by the last `n_tail`
/// tokens, which close the user's turn and open the model's.
pub fn fit_prompt_tokens(tokens: &Vec<i32>, n_tail: usize, max_new: u32) -> (r: Vec<i32>)
    requires
        n_tail <= tokens.len(),
        n_tail + max_new <= N_CTX,
    ensures
        tokens.len() + max_new <= N_CTX ==> r@ == tokens@,
        tokens.len() + max_new > N_CTX ==> r@ == tokens@.take(N_CTX - max_new - n_tail) + tokens@.skip(
            tokens.len() - n_tail,
        ),
        r.len() + max_new <= N_CTX,
{
    if tokens.len() <= N_CTX - (max_new as usize) {
        let mut r: Vec<i32> = Vec::new();
        let mut i: usize = 0;
        while i < tokens.len()
            invariant
                i <= tokens.len(),
                r@ == tokens@.take(i as int),
            decreases tokens.len() - i,
        {
            r.push(tokens[i]);
            assert(tokens@.take(i as int).push(tokens@[i as int]) =~= tokens@.take(i + 1));
            i += 1;
        }
        assert(tokens@.take(tokens.len() as int) =~= tokens@);
        return r;
    }
    let head = N_CTX - (max_new as usize) - n_tail;
    let from = tokens.len() - n_tail;
    let mut r: Vec<i32> = Vec::new();
    let mut i: usize = 0;
    while i < head
        invariant
            i <= head,
            head < tokens.len(),
            r@ == tokens@.take(i as int),
        decreases head - i,
    {
        r.push(tokens[i]);
        assert(tokens@.take(i as int).push(tokens@[i as int]) =~= tokens@.take(i + 1));
        i += 1;
    }
    let mut j: usize = from;
    while j < tokens.len()
        invariant
            from <= j <= tokens.len(),
            from == tokens.len() - n_tail,
            head < tokens.len(),
            r@ == tokens@.take(head as int) + tokens@.subrange(from as int, j as int),
        decreases tokens.len() - j,
    {
        r.push(tokens[j]);
        assert(tokens@.subrange(from as int, j as int).push(tokens@[j as int]) =~= tokens@.subrange(
            from as int,
            j + 1,
        ));
        j += 1;
    }
    assert(tokens@.subrange(from as int, tokens.len() as int) =~= tokens@.skip(from as int));
    r
}

/// The prompt of a short completion: the text as a single user turn, with no
/// system turn.
pub fn short_text_prompt(prompt_text: &str) -> (p: String)
    ensures
        p@ == turn_block(user_word(), prompt_text@) + start_turn() + model_word() + seq!['\n'],
{
    let msg = ChatMessage { role: from_chars(&user_chars()), content: prompt_text.to_owned() };
    let msgs = vec![msg];
    proof {
        reveal_strlit("");
        assert(msgs@.drop_last().len() == 0);
        assert(messages_block(msgs@.drop_last()) =~= Seq::<char>::empty());
        assert(msgs@.last() == msgs@[0]);
        assert(messages_block(msgs@) =~= message_block(msgs@[0]));
    }
    let p = format_prompt("", msgs.as_slice());
    assert(p@ =~= turn_block(user_word(), prompt_text@) + start_turn() + model_word() + seq!['\n']);
    p
}

/// A cleaned short completion is a single line.
pub proof fn lemma_clean_short_single_line(out: Seq<char>)
    ensures
        forall|k: int| 0 <= k < clean_short_spec(out).len() ==> #[trigger] clean_short_spec(out)[k] != '\n',
{
    let b = before_first(before_first(out, end_turn()), start_turn());
    let nl = seq!['\n'];
    crate::text::lemma_first_occurrence(b, nl, 0);
    let l = before_first(b, nl);
    assert forall|k: int| 0 <= k < l.len() implies #[trigger] l[k] != '\n' by {
        assert(!occurs_at(b, nl, k));
        assert(l[k] == b[k]);
        if b[k] == '\n' {
            assert(b[k + 0] == nl[0]);
            assert(occurs_at(b, nl, k));
        }
    }
    let f = first_line(b);
    assert forall|k: int| 0 <= k < f.len() implies #[trigger] f[k] != '\n' by {
        assert(f[k] == l[k]);
    }
    let a = crate::text::skip_white(f, 0);
    crate::text::lemma_skip_white(f, 0);
    let t = f.skip(a);
    crate::text::lemma_rskip_white(t, t.len() as int);
    assert forall|k: int| 0 <= k < clean_short_spec(out).len() implies #[trigger] clean_short_spec(out)[k] != '\n' by {
        assert(clean_short_spec(out)[k] == f[a + k]);
    }
}
} // verus!
