//! The shared library of a robot's middleware.
//!
//! Its core is a broker for topic-based publish/subscribe with federation
//! between brokers: the wire format ([`flags`]), the registry of local
//! subscribers ([`registry`]), the peers and their links ([`federation`]),
//! the connections ([`connection`]) and the rules by which a frame that
//! arrives changes all of these and makes frames go out ([`router`]).
//! Nothing here reads or writes a socket: the router says what to send, and
//! the program that owns the sockets sends it.
//!
//! Beside the broker stand the occupancy grid of the path planning service
//! ([`grid`]) with its shortest-path search ([`astar`]), the grouping of the
//! points of a cloud into clusters ([`clusters`]) and what the range
//! sensor's driver reports ([`lidar`]).

pub mod astar;
pub mod buffer;
pub mod clusters;
pub mod config;
pub mod connection;
pub mod federation;
pub mod flags;
pub mod grid;
pub mod lidar;
pub mod registry;
pub mod router;
pub mod topics;
