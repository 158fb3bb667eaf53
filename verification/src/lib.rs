//! offkilter: the verified core of a browser-based parametric CAD system —
//! raster images and their PNG form, the document server's accounts,
//! sharing rules and teams, view and sheet names, jigsaw counting, the
//! combinatorics of finding sketch regions, and the STEP text layer.

pub mod access;
pub mod auth;
pub mod cli;
pub mod faces;
pub mod jigsaw;
pub mod limiter;
pub mod live;
pub mod loops;
pub mod pdf;
pub mod png;
pub mod raster;
pub mod sessions;
pub mod sheet;
pub mod sketch;
pub mod step;
pub mod step_read;
pub mod store;
pub mod teams;
pub mod text;
pub mod view;
