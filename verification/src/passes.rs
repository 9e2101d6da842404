//! The passes: the features for importing and sorting under their earlier names, with
//! failures that are described by a message.
pub mod importer;
pub mod sorter;
