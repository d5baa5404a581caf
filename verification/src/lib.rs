//! Verified core logic of Harmonicon's jam, lesson and score views: the
//! meter map that tells which bar and beat a tick falls in, the call-phrase
//! generator of the call-and-response jam, the listening band's decisions,
//! and the small rules the lesson and options pages run on.
use vstd::prelude::*;

pub mod band;
pub mod call_response;
pub mod drawer;
pub mod groove;
pub mod harmony;
pub mod hole_map;
pub mod lesson_reader;
pub mod lesson_widgets;
pub mod locale;
pub mod localization;
pub mod meter;
pub mod meter_map;
pub mod microphone;
pub mod phrase;
pub mod session;
pub mod stems;
pub mod text;
