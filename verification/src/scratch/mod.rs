//! Material for tests built on the rig: shells built by hand where none
//! need run.

pub mod accounts;
