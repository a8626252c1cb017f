//! A floor central limit order book: orders rest on two price-sorted sides of
//! fixed-capacity slot arrays, incoming orders match against the opposite side
//! at the resting price, and the payments owed to makers queue up in a ring of
//! cranks until they are paid out.
pub mod account_states;
mod clock;
pub mod enums;
pub mod errors;
pub mod instructions;
pub mod key;
