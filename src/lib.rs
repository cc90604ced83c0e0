//! Path-prefix routing for a small HTTP edge server: a mapping from URL
//! prefix to "serve this directory" or "forward to this origin" is checked,
//! sorted longest prefix first, and consulted on every request to decide
//! whether to serve files or where to forward.
pub mod item;
pub mod laws;
pub mod outcome;
pub mod rules;
pub mod source;
pub mod text;

pub use item::{ConfigItem, DescriptorError, FieldValue, RawDescriptor};
pub use outcome::{file_serve_for, forward_target, DispatchOutcome};
pub use rules::{Config, ConfigFile};
pub use source::{default_config_name, locate_config, ConfigError, ConfigLocation, ConfigSource, RawDocument};
