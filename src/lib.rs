//! Event-triggered hook dispatch: each lifecycle event is mapped to the
//! external commands configured for its kind, and every launch is planned
//! with a working directory, an environment and a unique sequence number.
//! A second, independent part selects and previews entries of a prompt
//! history log.

pub mod decimal;
pub mod hooks;
pub mod history;
