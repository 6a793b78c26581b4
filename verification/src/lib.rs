//! A verified core for a two-player Go server: board primitives, the
//! rules engine (group discovery, liberty counting, capture detection,
//! suicide and ko checks), the atomic move transaction, and the colour
//! registry of the session layer.

pub mod board;
pub mod game;
pub mod rules;
pub mod session;
pub mod types;

pub use game::Game;
pub use game::PlaceError;
pub use types::Color;
pub use types::Position;
