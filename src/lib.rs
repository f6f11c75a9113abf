//! A registry of collapsible regions ("creases") anchored in a buffer, with
//! snapshots that stay fixed while the registry changes.
pub mod anchor;
pub mod crease;
pub mod crease_map;
