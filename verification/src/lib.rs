//! Core of a simulated drone network: the wire fragment codec, the routed
//! packet model, the roster of nodes with its topology validator, and the
//! closed command and event vocabulary that the controller and the nodes
//! exchange.

pub mod packet;
pub mod hosts;
pub mod network;
pub mod validation;
pub mod fragmenter;
pub mod assembler;
pub mod session;
pub mod logging;

pub use assembler::{assembler, ReassemblyBuffer};
pub use fragmenter::fragment_message;
pub use network::{Event, SimulationControllerNode, SimulationControllerNodeType};
pub use session::generate_unique_id;
pub use validation::{validate_network, ValidationError};
