//! Dependency resolution for Debian-style package catalogs.
//!
//! A catalog records which packages are installed, which versions are on
//! offer, and what each package depends on.  The library answers whether a
//! dependency is met and plans what to install, in order, when it is not.

pub mod constraints;
pub mod debversion;
pub mod packages;
pub mod text;

pub use packages::Packages;
