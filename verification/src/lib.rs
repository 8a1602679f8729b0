//! Extraction of hardware register descriptions from two loosely structured
//! documentation sources -- C header files with commented register tables and
//! reStructuredText register-description tables -- into one canonical model
//! of peripherals, registers and bit fields.

pub mod model;
pub mod text;
pub mod assembler;
pub mod c_header;
pub mod doc_rst;
