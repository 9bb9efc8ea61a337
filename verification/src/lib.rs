//! SD/MMC protocol building blocks with machine-checked contracts.

pub mod adma;
pub mod bits;
pub mod call_laws;
pub mod calls;
pub mod clock;
pub mod cmd;
pub mod common;
pub mod controller_laws;
pub mod crc;
pub mod dwmmc;
pub mod error;
pub mod laws;
pub mod program;
pub mod register_laws;
pub mod registers;
pub mod replay;
pub mod response;
pub mod response_laws;
pub mod sdhci;
pub mod sdio;
pub mod sink;
pub mod spi;
pub mod spi_laws;
pub mod traffic;

pub use cmd::Command;
pub use error::Error;
pub use response::Response;
