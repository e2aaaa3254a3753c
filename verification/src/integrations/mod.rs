//! Framework integrations whose logic does not depend on a host platform.
pub mod split_text;
