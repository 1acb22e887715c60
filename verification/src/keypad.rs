//! Input events handed to the machine by its driver.
//!
//! The machine only ever reads the 16-key bitmask; translating host
//! keyboard events into a `KeyStroke` is the driver's job.
use vstd::prelude::*;

verus! {

/// One input event from the host: a request to quit, a fresh snapshot of the
/// 16-key pressed/released bitmask (one cell per hexadecimal key, `1` held,
/// `0` released), or a request to advance without changing the keys.
#[derive(Debug, PartialEq)]
pub enum KeyStroke {
    Quit,
    Key([u8; 16]),
    Next,
}

} // verus!
