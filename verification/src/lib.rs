//! The logic of `gemini-assistant`: spoken conversation with the Gemini Live API
//! from a hotkey.
//!
//! There is no daemon.  A session is a process, and a pidfile names it, so that
//! a second press of the hotkey finds it.  The library decides; the program
//! around it talks to the microphone, the speaker, the network and the file
//! system, and hands back what happened.
//!
//! * [`rounding`] and [`single`]: floating-point arithmetic on integers.
//! * [`audio`], [`linearity`], [`doubling`], [`loudness`], [`mixing`], [`player`], [`chime`], [`wav`]: samples in and out.
//! * [`text`], [`config`], [`transcript`]: settings, the API key, the record.
//! * [`pidfile`], [`commands`]: who is the session, and what a command does.
//! * [`session`], [`ask`]: what a session or a question does about an event.
//! * [`screenshot`]: showing the screen.

pub mod ask;
pub mod audio;
pub mod chime;
pub mod commands;
pub mod config;
pub mod doubling;
pub mod linearity;
pub mod loudness;
pub mod mixing;
pub mod pidfile;
pub mod player;
pub mod rounding;
pub mod screenshot;
pub mod session;
pub mod single;
pub mod text;
pub mod transcript;
pub mod wav;
