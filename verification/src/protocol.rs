use vstd::prelude::*;

verus! {

/// A wall tile of the arena.
#[derive(Clone, Copy, Debug, PartialEq, Eq)]
pub struct Wall {
    pub x: i32,
    pub y: i32,
}

/// A hero on the board; `owner_id` is the player that controls it.
#[derive(Clone, Copy, Debug, PartialEq, Eq)]
pub struct Hero {
    pub id: i32,
    pub owner_id: i32,
    pub x: i32,
    pub y: i32,
    pub hp: i32,
    pub cooldown: i32,
}

/// A projectile in flight, fired by `owner_id`.
#[derive(Clone, Copy, Debug, PartialEq, Eq)]
pub struct Projectile {
    pub x: i32,
    pub y: i32,
    pub owner_id: i32,
}

/// Everything the server reveals at the start of a turn.
pub struct GameState {
    pub heroes: Vec<Hero>,
    pub projectiles: Vec<Projectile>,
    pub walls: Vec<Wall>,
}

/// The contents of a `GameState`.
pub struct StateView {
    pub heroes: Seq<Hero>,
    pub projectiles: Seq<Projectile>,
    pub walls: Seq<Wall>,
}

impl View for GameState {
    type V = StateView;

    open spec fn view(&self) -> StateView {
        StateView { heroes: self.heroes@, projectiles: self.projectiles@, walls: self.walls@ }
    }
}

/// Arena dimensions.
#[derive(Clone, Copy, Debug, PartialEq, Eq)]
pub struct GameConfig {
    pub width: i32,
    pub height: i32,
}

pub struct HelloArgs {
    pub version: String,
}

pub struct ReadyArgs {}

pub struct StartMatchArgs {
    pub your_player_id: i32,
    pub config: GameConfig,
}

pub struct StartTurnArgs {
    pub turn: i32,
    pub state: GameState,
}

pub struct EndMatchArgs {}

pub struct ErrorArgs {
    pub code: String,
    pub message: String,
    pub fatal: bool,
}

pub struct LoginArgs {
    pub name: String,
    pub version: String,
}

pub struct PracticeArgs {
    pub seed: Option<u32>,
    pub my_id: i32,
}

pub struct ChallengeArgs {
    pub name: Option<String>,
    pub seed: Option<u32>,
    pub ranked: Option<bool>,
}

pub struct MoveArgs {
    pub hero_id: i32,
    pub x: i32,
    pub y: i32,
    pub comment: String,
}

pub struct ShootArgs {
    pub hero_id: i32,
    pub x: i32,
    pub y: i32,
}

/// A message received from the game server.
pub enum ServerMessage {
    Hello(HelloArgs),
    Ready(ReadyArgs),
    StartMatch(StartMatchArgs),
    StartTurn(StartTurnArgs),
    EndMatch(EndMatchArgs),
    Error(ErrorArgs),
}

} // verus!
