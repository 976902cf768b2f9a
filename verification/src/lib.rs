//! Colour analysis for palette extraction: exact colour arithmetic, histograms,
//! palette reduction and colour relations, with machine-checked contracts.

pub mod color;
pub mod color_detail;
pub mod color_names;
pub mod color_relation;
pub mod histogram;
pub mod hsv;
pub mod pallette;
pub mod random;
pub mod rank;
pub mod similar;
