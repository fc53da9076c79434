//! Statistical analysis of raw firmware images: endianness, loading address
//! and the location of an automotive UDS request table.
//!
//! The entry point is [`Firmware`], which ties the detectors and finders
//! together: [`EndiannessDetector`], [`BaseAddressFinder`] and [`UdsFinder`].

pub mod addrtree;
pub mod arch;
pub mod base_address;
pub mod cli;
pub mod endian_detect;
pub mod endianness;
pub mod error;
pub mod firmware;
pub mod log;
pub mod memregion;
pub mod numbers;
pub mod poi;
pub mod pointer;
pub mod symbols;
pub mod text;
pub mod uds;

pub use arch::Arch;
pub use base_address::{BaseAddressFinder, BaseAddressResult, FoundReason, ScoredCandidate};
pub use endian_detect::EndiannessDetector;
pub use endianness::Endianness;
pub use error::{BinbloomError, Result};
pub use firmware::{BaseAddressAnalysis, Firmware};
pub use log::{LogLevel, Logger};
pub use memregion::{MemRegion, MemoryMap, RegionType};
pub use poi::{Poi, PoiList, PoiType};
pub use pointer::PointerReader;
pub use uds::{UdsFinder, UdsResult};
