//! Configuration for a player that drives the parsed tracks against a
//! synthesizer.  The player itself spawns threads and owns the audio
//! stream, so it lives with the caller; the decisions it plays by are
//! the verified playback plans of `Parser::play`.

use vstd::prelude::*;

verus! {

/// Options a player is created with.  The soundfont path is carried
/// as plain text; opening the file is the caller's business.
#[derive(Clone, Debug)]
pub struct MmlPlayerOptions {
    pub soundfont_path: String,
}

} // verus!
