//! Driver for the Sudokoo SK700V cooler panel (USB 381c:0003).
//!
//! The device is write-only in practice: it never acknowledges a frame, never sends
//! anything unsolicited, and returns zeros to every feature request. A rejected frame is
//! indistinguishable from silence, so what is sent has to be right before it is sent.

pub mod console;
pub mod cpustat;
pub mod device;
pub mod floats;
pub mod frame;
pub mod hwmon;
pub mod numbers;
pub mod options;
pub mod order;
pub mod paths;
pub mod powercap;
pub mod sensors;
pub mod session;
pub mod text;

pub use numbers::trailing_number;
