//! Verified core of a caching front end for 1Password secret references:
//! `.env` parsing, environment merging, `op://` reference collection and
//! batch resolution through one `op inject` call.

pub mod cli;
pub mod env_file;
pub mod error;
pub mod inject;
pub mod resolve;
pub mod run;
pub mod secret_map;
pub mod text;

pub use cli::{status_line, stop_error_means_stopped, Cli, Command};
pub use env_file::{parse_env_contents, EnvFileError};
pub use error::Error;
pub use inject::{build_inject_template, delimiter_from_bytes, parse_inject_output, InjectError};
pub use resolve::RefResolution;
pub use run::{build_env, collect_op_refs, merge_env};
pub use secret_map::SecretMap;
