//! The game as its users drive it: run it, load a level, destroy it.
use vstd::prelude::*;

verus! {

/// A game error, described in words.
#[derive(Clone, Eq, PartialEq, Debug)]
pub struct ErrorKind(pub String);

pub type Result<T> = core::result::Result<T, ErrorKind>;

/// A running game.
pub trait Game {
    /// Runs until a quit is requested, then shuts down.
    fn run(&mut self) -> Result<()>;

    /// Shuts the game down.
    fn destroy(&mut self) -> Result<()>;

    /// How many levels the WAD archive has.
    fn num_levels(&self) -> usize;

    /// Switches to level `level_index`.
    fn load_level(&mut self, level_index: usize) -> Result<()>;
}

} // verus!
