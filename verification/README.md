# Amanuense

Voice dictation for Wayland. What is said is transcribed by Whisper while it is
spoken, typed where the cursor is through a virtual keyboard, and offered as the
primary selection. Nothing is written to disk.

The library under `src/` holds the decisions of the daemon. It is written in
Verus: every function states what it does, and the proof that it does is checked
with it. These are believed without proof:

- six functions that call another crate: `home_dir`, `config_dir` and
  `runtime_dir` in `config` (dirs), `sample_ring`, `push_slice` and `try_pop` in
  `daemon::audio::stream` (ringbuf), with the two structs that hold the ends of a
  ring;
- the contracts of three functions of the standard library, in `text`:
  `char::is_alphanumeric`, `str::to_lowercase` and `String::push`.

| Module | What it decides |
| --- | --- |
| `config` | where the configuration lies, how paths are resolved, what is valid |
| `daemon::ipc` | the protocol between the daemon and its clients |
| `daemon::state_machine` | what commands and events do in each state |
| `daemon::notifications` | what the user is notified of |
| `daemon::audio` | which device to use, and how captured audio is cut into chunks |
| `daemon::transcriber` | what of successive hypotheses is typed, and when |
| `output::injector` | which keys there are, and which are struck for a text |
| `output::clipboard` | the owner of the primary selection |
| `text` | characters, words, numerals and UTF-8 positions |

Samples are of a type that the caller chooses. What computes on them, and the
model itself, are handed in as functions.

The program under `app/` connects the library to the microphone, the model, the
socket and the compositor.

    amanuense daemon          starts the daemon
    amanuense toggle          starts or ends a recording
    amanuense stop            ends a recording, or drops a transcription
    amanuense status          prints idle, recording or processing
    amanuense list-devices    prints the input devices
