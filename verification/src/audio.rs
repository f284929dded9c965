//! Kenney SFX + music loops, as cues.
//!
//! Each entry point names the sound it wants; the player (web `<audio>`
//! after the first user gesture, silent on native) performs the cue.

use vstd::prelude::*;

verus! {

/// A sound request.
#[derive(Clone, Copy, Debug, PartialEq, Eq)]
pub enum AudioCue {
    /// One-shot SFX; names map to `assets/kenney/audio/{name}.ogg`.
    Sfx(&'static str),
    /// Looping bed track; names map to `assets/kenney/music/{name}.ogg`.
    Music(&'static str),
    /// Stop the bed track.
    MusicStop,
}

pub fn click() -> (c: AudioCue)
    ensures
        c == AudioCue::Sfx("ui-click"),
{
    AudioCue::Sfx("ui-click")
}

pub fn confirm() -> (c: AudioCue)
    ensures
        c == AudioCue::Sfx("confirm"),
{
    AudioCue::Sfx("confirm")
}

pub fn error() -> (c: AudioCue)
    ensures
        c == AudioCue::Sfx("error"),
{
    AudioCue::Sfx("error")
}

pub fn music_stop() -> (c: AudioCue)
    ensures
        c == AudioCue::MusicStop,
{
    AudioCue::MusicStop
}

/// Island / world-map bed.
pub fn music_island() -> (c: AudioCue)
    ensures
        c == AudioCue::Music("sad-descent"),
{
    AudioCue::Music("sad-descent")
}

/// Hunt / combat bed (darker).
pub fn music_hunt() -> (c: AudioCue)
    ensures
        c == AudioCue::Music("infinite-descent"),
{
    AudioCue::Music("infinite-descent")
}

/// Town bed.
pub fn music_town() -> (c: AudioCue)
    ensures
        c == AudioCue::Music("sad-town"),
{
    AudioCue::Music("sad-town")
}

/// Defeat / late-beacon sting (loops until stopped).
pub fn music_defeat() -> (c: AudioCue)
    ensures
        c == AudioCue::Music("game-over"),
{
    AudioCue::Music("game-over")
}

} // verus!
