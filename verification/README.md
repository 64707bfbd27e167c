# AI Buddy core

The logic of AI Buddy, a local desktop assistant (an on-device chat model,
meeting transcription with speaker labels, inline edits of selected text),
written as a Verus library whose functions carry `requires`/`ensures`
contracts proved by Verus.

## Layout

- `src/` – the verified library.
  - `llm` – the chat prompt template, the stop-marker scanner that decides
    what part of a generated stream is shown, and the limits on prompt size.
  - `transcription` – the transcript store, speaker turns, echo removal,
    speaker attribution from diarization, subjects and summaries, the
    meeting-notes markdown and file naming.
  - `accessibility` – which app an edit goes back to, and the steps (with
    their diagnostic log) of reading the selection there.
  - `clock`, `paths`, `text` – calendar-time layouts, path joining and
    `~` expansion, and the string helpers the rest is built from.
  - `files`, `download`, `diarization`, `speech_assets`, `memory` – what a
    dropped file contributes to the chat, where model files live, status
    codes of the speech engine, and the records of the memory store.
- `tests/` – tests of the library on concrete values.
- `app/` – the desktop shell around the library: windows, commands, the
  SQLite store, downloads, the inference engine and the macOS system calls.
  It makes the I/O and hands plain values to the library.
