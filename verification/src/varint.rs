//! Lengths of varying size, as the two kinds of bundles write them.
pub mod data_bundle;
pub mod multi_packet;
