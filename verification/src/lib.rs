//! A catalogue of device-driver packages, built from their description
//! files, and the matching of that catalogue against devices that lack a
//! working driver.
//!
//! The library works on values: the bytes of a description file, the texts of
//! paths, the list of devices. It opens no file and asks no device; whoever
//! uses it reads and writes.
//!
//! - [`decode`] turns the bytes of a description file into text.
//! - [`ids`], [`fields`] and [`location`] read the parts of a record from the
//!   text and the path; [`inf`] puts the record together.
//! - [`index`] builds the catalogue from the files of a driver tree.
//! - [`matching`] finds the records that serve a device; [`match_laws`] says
//!   what holds of every match.
//! - [`text`] holds the operations on character sequences; [`pattern`] and
//!   [`casing`] hold what is taken from the `regex` crate and from the
//!   standard library without proof.
#![allow(non_snake_case)]
#![allow(non_camel_case_types)]

pub mod casing;
pub mod console;
pub mod decode;
pub mod fields;
pub mod ids;
pub mod index;
pub mod inf;
pub mod location;
pub mod match_laws;
pub mod matching;
pub mod pattern;
pub mod text;

pub use console::ConsoleType;
pub use index::{createIndex, IndexReport, Outcome};
pub use inf::{InfInfo, ParseError, SourceFile};
pub use matching::{getMatchInfo, HwID};
