//! The protocol layer of a small multiplayer game, verified.
//!
//! On the server's side: the HTTP upgrade handshake ([`http`],
//! [`handshake`]), the WebSocket frame codec ([`frame`]), the application
//! packets ([`packet`]), the connections with their session state machine
//! ([`connections`]), and the decisions of the network loop ([`network`])
//! and of the simulation loop ([`simulation`]).  On the client's side: its
//! part of the session ([`context`]), the state of its input devices
//! ([`input`]) and the wall grid of a level ([`level`], [`math`]).
//!
//! Sockets, threads, clocks and drawing live outside this crate: everything
//! here works on plain values, and whoever owns the sockets calls in once
//! per tick.

pub mod connections;
pub mod context;
pub mod frame;
pub mod handshake;
pub mod http;
pub mod input;
pub mod level;
pub mod math;
pub mod network;
pub mod packet;
pub mod simulation;
