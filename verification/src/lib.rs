//! A single-process, event-driven game server core: a hexagonal board with
//! axial-coordinate validation, a typed command model with a text wire
//! schema, a token registry for live connections, a per-connection session
//! state machine (handshake upgrade and message framing), and the reactor
//! decision logic that ties them together. Socket I/O lives outside this
//! library; every function here is verified.

pub mod board;
pub mod command;
pub mod registry;
pub mod server;
pub mod session;

pub use board::AxialPoint;
pub use board::CellState;
pub use board::GameState;
