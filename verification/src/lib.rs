//! The sound and game logic of a small MSX racing game: a PSG (AY-3-8910)
//! register model with a PLAY (MML) sequencer, a SCREEN 1 text screen, and the
//! game's rules as a state machine.

pub mod pitch;
pub mod mml;
pub mod psg;
pub mod screen;
pub mod game;
pub mod program;
pub mod font;
