//! The names of the game that is played with the meshes: the kinds of body,
//! the stages of a frame and the parts that the program is assembled from.
//! They carry no data. The program around the library binds each to its
//! engine's components, schedules and plugins.

use vstd::prelude::*;

verus! {

/// The part that spawns and splits asteroids.
#[derive(Clone, Copy, Debug, PartialEq, Eq, Hash, Default)]
pub struct AsteroidPlugin;

/// The stage of a frame in which asteroids are split.
#[derive(Clone, Copy, Debug, PartialEq, Eq, Hash, Default)]
pub struct AsteroidSet;

/// Marks a body as an asteroid.
#[derive(Clone, Copy, Debug, PartialEq, Eq, Hash, Default)]
pub struct Asteroid;

/// The part that wraps bodies round the edges of the playing field.
#[derive(Clone, Copy, Debug, PartialEq, Eq, Hash, Default)]
pub struct EdgeWrapPlugin;

/// The stage of a frame in which bodies are wrapped round the edges.
#[derive(Clone, Copy, Debug, PartialEq, Eq, Hash, Default)]
pub struct EdgeWrapSet;

/// Present while the bounds of the playing field are drawn.
#[derive(Clone, Copy, Debug, PartialEq, Eq, Hash, Default)]
pub struct BoundsDebug;

/// Marks a body that is shown a second time when it crosses an edge.
#[derive(Clone, Copy, Debug, PartialEq, Eq, Hash, Default)]
pub struct Duplicable;

/// The part that reads the player's input.
#[derive(Clone, Copy, Debug, PartialEq, Eq, Hash, Default)]
pub struct PlayerInputPlugin;

/// The stage of a frame in which input is read.
#[derive(Clone, Copy, Debug, PartialEq, Eq, Hash, Default)]
pub struct PlayerInputSet;

/// How the player steers.
#[derive(Clone, Copy, Debug, PartialEq, Eq, Hash)]
pub enum InputMode {
    Mouse,
    Touch,
}

/// Marks the player's ship.
#[derive(Clone, Copy, Debug, PartialEq, Eq, Hash, Default)]
pub struct Player;

/// The part that shatters meshes into debris.
#[derive(Clone, Copy, Debug, PartialEq, Eq, Hash, Default)]
pub struct ShatterPlugin;

/// The stage of a frame in which debris ages.
#[derive(Clone, Copy, Debug, PartialEq, Eq, Hash, Default)]
pub struct ShatterSet;

/// The part that moves ships and lets them collide.
#[derive(Clone, Copy, Debug, PartialEq, Eq, Hash, Default)]
pub struct ShipPlugin;

/// The stage of a frame in which ships move.
#[derive(Clone, Copy, Debug, PartialEq, Eq, Hash, Default)]
pub struct ShipSet;

/// Marks a body as a ship.
#[derive(Clone, Copy, Debug, PartialEq, Eq, Hash, Default)]
pub struct Ship;

/// Marks the flame behind a ship.
#[derive(Clone, Copy, Debug, PartialEq, Eq, Hash, Default)]
pub struct Thruster;

/// Marks a ship whose engine is running.
#[derive(Clone, Copy, Debug, PartialEq, Eq, Hash, Default)]
pub struct Throttling;

/// The part that reloads and fires turrets.
#[derive(Clone, Copy, Debug, PartialEq, Eq, Hash, Default)]
pub struct TurretPlugin;

/// The stage of a frame in which turrets fire.
#[derive(Clone, Copy, Debug, PartialEq, Eq, Hash, Default)]
pub struct TurretSet;

/// The part that flies the saucers.
#[derive(Clone, Copy, Debug, PartialEq, Eq, Hash, Default)]
pub struct UfoPlugin;

/// The stage of a frame in which saucers move.
#[derive(Clone, Copy, Debug, PartialEq, Eq, Hash, Default)]
pub struct UfoSet;

/// Marks a body as a saucer.
#[derive(Clone, Copy, Debug, PartialEq, Eq, Hash, Default)]
pub struct Ufo;

/// The part that shows the start screen.
#[derive(Clone, Copy, Debug, PartialEq, Eq, Hash, Default)]
pub struct StartScreenPlugin;

/// Marks what belongs to the start screen.
#[derive(Clone, Copy, Debug, PartialEq, Eq, Hash, Default)]
pub struct StartScreen;

/// The part that shows the result of a game.
#[derive(Clone, Copy, Debug, PartialEq, Eq, Hash, Default)]
pub struct FinishedScreenPlugin;

} // verus!
