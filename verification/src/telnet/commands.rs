//! The telnet command and option codes that the codec speaks
//! (RFC 854, RFC 856, RFC 857, RFC 858).
use vstd::prelude::*;

verus! {

/// "Interpret as command": starts every command; doubled, it stands for
/// one data byte of this value.
pub const IAC: u8 = 255;

/// Sender wants to enable an option on its side.
pub const WILL: u8 = 251;

/// Sender refuses to enable (or disables) an option on its side.
pub const WONT: u8 = 252;

/// Sender asks the receiver to enable an option.
pub const DO: u8 = 253;

/// Sender asks the receiver to disable an option.
pub const DONT: u8 = 254;

/// The "break" signal.
pub const BREAK: u8 = 243;

/// Option: binary transmission.
pub const OPTION_BINARY: u8 = 0;

/// Option: echo.
pub const OPTION_ECHO: u8 = 1;

/// Option: suppress go-ahead.
pub const OPTION_SGA: u8 = 3;

} // verus!
