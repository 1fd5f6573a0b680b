//! A Luby-Transform fountain code: an encoder that turns a message into an
//! unbounded stream of droplets, and a peeling decoder that rebuilds the
//! message from any sufficiently large subset of them, whatever their order.
pub mod decoder;
pub mod droplet;
pub mod encoder;
pub mod ldpc;
pub mod sampling;
pub mod soliton;
pub mod xor;
