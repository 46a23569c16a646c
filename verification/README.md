# gemini-assistant

Hotkey-driven spoken conversation with the Gemini Live API, with its logic
verified in Verus.

- `src/` is the library. It decides: what a command does, who owns the pidfile,
  what a session does about an event, how samples are converted, mixed, trimmed
  and queued, which settings hold, what is recorded. Every function has a
  contract that Verus proves, but for `now_secs`: of what the clock reads there
  is nothing to say. Properties that span several functions are public proof
  functions whose names start with `law_`.
- `app/` is the program around it: arguments, files, signals, sound devices and
  the connection. It performs what the library decides and hands back what
  happened.
- `tests/` runs the library on concrete values, and compares its arithmetic with
  that of the hardware.

Floating point never enters the library. Samples and thresholds cross the border
as bit patterns, and the arithmetic on them is done on integers, rounding by
rounding as IEEE 754 prescribes (`rounding`, `single`).

Calls into other crates (`image`, `hound`, `gemini-genai-rs`) stand in `src/`
behind small functions marked `external_body`, whose doc comments say what is
believed of the outside function.
