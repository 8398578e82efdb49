# scribe_engine

The on-device transcription and notes core of a meeting scribe, verified with
Verus. It records conversation audio, transcribes it, and turns the transcript
into structured notes. Everything runs locally; no audio, transcript, or notes
ever leave the machine, and nothing here performs network I/O.

## Layout

`src/` is the verified library. It performs no I/O at all: it decides, and the
host carries out.

| Module | What it holds |
|---|---|
| `capture` | which sources a recording session opens and shuts down, mixing to mono, spilling to scratch files, the stereo layout |
| `audio` | channels, sample formats, resampling to 16 kHz |
| `transcribe` | from what was heard on two channels to one attributed timeline |
| `notes`, `wire` | what crosses between the engine and the notes sidecar |
| `job` | one sidecar job: single pass or chunks, retries, combining |
| `chunk`, `prompt` | cutting a long transcript up, and what the model is asked |
| `generation` | feeding a prompt in batches and bounding the reply |
| `response`, `scan`, `json` | reading what the model replied, defensively |
| `model`, `duration`, `error`, `text` | shared types and text primitives |

Public proof functions named `law_...` state what holds across functions: that
spilling loses no sample, that chunks cover a transcript, that every job ends,
that a timeline keeps every segment, that no note cites a moment after the
recording.

`app/` holds two targets around the library. `main.rs` is the notes sidecar and
uses llama.cpp; `lib.rs` is the engine with its audio, whisper.cpp and sidecar
backends. They stay apart because whisper.cpp and llama.cpp each bundle their
own `ggml`, and the two collide in one binary.

`tests/` runs the library on concrete values.

## Samples

The library places and groups samples but does no floating-point arithmetic. A
caller hands in how several samples are averaged and how one is quantized;
contracts speak of those functions. Where samples become bytes, a sample is the
bit pattern of a 32-bit float.
