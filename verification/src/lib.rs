use vstd::prelude::*;

pub mod text;
pub mod llm;
pub mod clock;
pub mod paths;
pub mod transcription;
pub mod diarization;
pub mod speech_assets;
pub mod memory;
pub mod accessibility;
pub mod download;
pub mod files;

verus! {

/// Text captured at the last hotkey press, with a diagnostic log.
pub struct PendingCapture {
    pub text: String,
    pub debug: String,
}

/// The capture waiting for the chat window to pick it up.
pub struct PendingText(pub PendingCapture);

impl PendingText {
    /// Hand over the capture and clear it (`get_pending_text`).
    pub fn take(&mut self) -> (c: PendingCapture)
        ensures
            c.text@ == old(self).0.text@,
            c.debug@ == old(self).0.debug@,
            final(self).0.text@ == Seq::<char>::empty(),
            final(self).0.debug@ == Seq::<char>::empty(),
    {
        let c = PendingCapture { text: self.0.text.clone(), debug: self.0.debug.clone() };
        self.0 = PendingCapture { text: String::new(), debug: String::new() };
        c
    }
}

} // verus!
