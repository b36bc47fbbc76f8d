//! Retention sweeps for chat platforms: the policy that says how long the
//! messages of each channel are kept, and the sweep that walks every guild,
//! channel and page of messages and deletes what is over age.
//!
//! The library makes no remote call. A sweep says which call it waits on and
//! takes the answer, so that what is asked, in which order, and what becomes
//! of each answer is decided, and proved, here.

pub mod config;
pub mod duration;
pub mod errors;
pub mod policy;
pub mod run;
pub mod text;
