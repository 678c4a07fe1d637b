//! Browser terminal logic: the WebSocket codec and handshake, and what the
//! client's messages ask of the terminal session.
pub mod ws;
pub mod websocket;
