//! An IP-range geolocation store.
//!
//! The crate maps an IP address (v4 or v6) to the geolocation record of the
//! stored address range that contains it.  Its parts:
//!
//! - [`addr`]: addresses and the fixed-width big-endian `AddressKey`
//!   encoding, whose byte order agrees with numeric order;
//! - [`text`]: the textual grammars of IP literals and decimal numerals,
//!   with parsers proved against them;
//! - [`location`]: the attribute set carried by one address range;
//! - [`store`]: the range store [`DBIP`] and the point-in-range lookup;
//! - [`convert`]: the bulk-ingestion pipeline that turns delimited rows into
//!   committed range records.

pub mod addr;
pub mod text;
pub mod convert;
pub mod location;
pub mod store;

pub use addr::Family;
pub use addr::IpAddress;
pub use convert::Converter;
pub use convert::ConverterError;
pub use convert::ProgressLog;
pub use convert::ProgressSink;
pub use location::Location;
pub use store::DBIP;
pub use store::Error;
pub use store::RangeRecord;
pub use text::parse_ip;
