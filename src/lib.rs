//! A message-oriented, prioritised transport core: frames, fragmentation,
//! reassembly, priority lanes and the connection state machine that drives
//! them, all free of I/O so that every decision can be verified.

pub mod frame;
pub mod stream;
pub mod outgoing;
pub mod incoming;
pub mod reassembly;
pub mod lanes;
pub mod connection;
pub mod laws;
pub mod shader;
pub mod error;
pub mod session_event;

pub use connection::{
    Connection, ConnectionError, Event, IoFailure, LinkState, Path, RecvAction, SendAction, SendError,
    TransportFault,
};
pub use error::Error;
pub use frame::{Frame, FrameDecodeError, MAX_CHUNK};
pub use incoming::{IncomingPacket, ProtocolError};
pub use lanes::{Lanes, DEFAULT_LANE, LANE_COUNT};
pub use outgoing::{OutgoingPacket, SendDone};
pub use reassembly::{Reassembly, MAX_IN_FLIGHT};
pub use stream::StreamReader;
pub use session_event::{KickSession, PacketReceived};
pub use shader::Shader;
