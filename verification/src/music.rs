//! The live-audio decisions: whether to render the synth at startup and from where, and, frame
//! by frame, when the rendered track becomes a playable source, when the show may start, when
//! the player restarts and when it spawns.
use vstd::prelude::*;

verus! {

/// Where the live audio comes from at startup.
#[derive(Clone, Copy, PartialEq, Eq, Structural, Debug)]
pub enum SynthPlan {
    /// recording, screenshotting or muted: no live audio (and no gate)
    Silent,
    /// a pre-rendered WAV named by the environment
    Prerendered,
    /// render the synth in the background
    Render,
}

/// Live audio is wanted unless recording, screenshotting or muted; a pre-rendered track, when
/// one is named, is played instead of rendering.
pub fn synth_plan(recording: bool, screenshot: bool, muted: bool, prerendered: bool) -> (r: SynthPlan)
    ensures
        (recording || screenshot || muted) ==> r == SynthPlan::Silent,
        !(recording || screenshot || muted) && prerendered ==> r == SynthPlan::Prerendered,
        !(recording || screenshot || muted) && !prerendered ==> r == SynthPlan::Render,
{
    if recording || screenshot || muted {
        SynthPlan::Silent
    } else if prerendered {
        SynthPlan::Prerendered
    } else {
        SynthPlan::Render
    }
}

/// Once the named pre-rendered track has been read, or failed to read: play it when it was read,
/// else fall back to rendering the synth.
pub fn after_prerendered_read(read_ok: bool) -> (r: SynthPlan)
    ensures
        read_ok ==> r == SynthPlan::Prerendered,
        !read_ok ==> r == SynthPlan::Render,
{
    if read_ok {
        SynthPlan::Prerendered
    } else {
        SynthPlan::Render
    }
}

/// The player's state between frames.
#[derive(Clone, Copy, PartialEq, Eq, Structural, Debug)]
pub struct MusicState {
    /// the rendered track has become a playable source
    pub has_source: bool,
    /// a player is playing it
    pub playing: bool,
}

/// What a frame observed.
#[derive(Clone, Copy, PartialEq, Eq, Structural, Debug)]
pub struct MusicEvent {
    /// the background render delivered its bytes (looked for only while there is no source)
    pub bytes_arrived: bool,
    /// the show clock jumped backwards (a restart)
    pub clock_rewound: bool,
    /// the show is built
    pub built: bool,
}

/// What the frame must do, in this order.
#[derive(Clone, Copy, PartialEq, Eq, Structural, Debug)]
pub struct MusicActions {
    /// turn the delivered bytes into a playable source
    pub make_source: bool,
    /// release the show clock so that it starts running
    pub open_gate: bool,
    /// despawn the current player
    pub despawn: bool,
    /// spawn a player for the source
    pub spawn: bool,
}

/// One frame of the live-audio director: the delivered track becomes a source (and the show may
/// start); a rewound clock despawns the player so it restarts from the top; once the show is
/// built and a source exists, a player is spawned if none is playing.
pub fn music_step(st: MusicState, ev: MusicEvent) -> (r: (MusicState, MusicActions))
    ensures
        r.1.make_source == (!st.has_source && ev.bytes_arrived),
        r.1.open_gate == r.1.make_source,
        r.0.has_source == (st.has_source || ev.bytes_arrived),
        r.1.despawn == (ev.clock_rewound && st.playing),
        r.1.spawn == (ev.built && !(st.playing && !ev.clock_rewound) && r.0.has_source),
        r.0.playing == ((st.playing && !ev.clock_rewound) || r.1.spawn),
{
    let make_source = !st.has_source && ev.bytes_arrived;
    let has_source = st.has_source || make_source;
    let despawn = ev.clock_rewound && st.playing;
    let still_playing = st.playing && !despawn;
    let spawn = ev.built && !still_playing && has_source;
    (
        MusicState { has_source, playing: still_playing || spawn },
        MusicActions { make_source, open_gate: make_source, despawn, spawn },
    )
}

} // verus!
