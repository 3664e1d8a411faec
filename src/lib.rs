//! Layered, live-reloading configuration.
//!
//! Values live in sources: packaged defaults, platform defaults and a file
//! that can be written and that is watched for outside edits. An overlay
//! stacks two sources, so that reads fall through to the lower one while
//! writes go to the upper one. Observers watch single keys and are told when
//! a value they watch may have changed.
//!
//! - `value`: the configuration value and its model.
//! - `flat`: flat maps from dotted keys to leaves, and the codec between
//!   documents and flat maps; `roundtrip` proves that the codec gives a
//!   document back.
//! - `id`: time-ordered identifiers for watches.
//! - `registry`: the watches of one source.
//! - `source`: the capability of every layer, and the two fixed layers.
//! - `file`: the writable layer backed by a file.
//! - `overlay`: two layers stacked into one.
//! - `gui`: state behind the application's QML objects.

pub mod error;
pub mod file;
pub mod flat;
pub mod gui;
pub mod id;
pub mod overlay;
pub mod registry;
pub mod roundtrip;
pub mod source;
pub mod value;
