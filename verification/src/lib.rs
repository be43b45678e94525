//! Composes the download section of a project page from a release's installers.
//!
//! [`artifacts`] holds the entry points: [`page`], [`scripts`], [`header`] and
//! [`header_for_release`]. [`selection`] decides which installers are shown as
//! runnable scripts and in what order, [`label_order`] defines that order,
//! [`markup`] builds the elements, and [`model`] holds the release data.

pub mod artifacts;
pub mod label_order;
pub mod markup;
pub mod model;
pub mod selection;

pub use artifacts::{header, header_for_release, page, scripts};
pub use markup::{Fragment, ScriptWidget};
pub use model::{Context, DisplayPreference, InstallMethod, Installer, Release, RenderError};
