//! Reading and writing the binary VDF format in which Steam records
//! non-Steam shortcuts, and harvesting shortcut records from raw bytes.

pub mod bvdf;
pub mod faults;
pub mod keycase;
pub mod keyset;
pub mod rich;
pub mod roundtrip;
pub mod shortcut;
pub mod value;
pub mod wire;
