//! Renames a folder of screenshots to a configured list of names.
//!
//! The library holds the decisions of the tool: the configuration of target
//! names and how it is edited, the parsing of the command line values, the
//! ordering of the input files, how the inputs are matched to the names and
//! what each rename and compression step is. The program around it performs
//! the file system work.
pub mod mods;
