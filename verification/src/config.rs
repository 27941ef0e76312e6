use vstd::prelude::*;

use crate::text::{cat, string_of};

verus! {

/// Where the vault lies.
#[derive(Clone, Debug)]
pub struct Config {
    pub vault_path: String,
}

/// Why the configured vault cannot be used.
#[derive(Debug)]
pub enum ConfigError {
    /// `OBSIDIAN_VAULT` is not set.
    NotSet,
    /// Nothing exists at the configured path.
    NotFound { path: String },
    /// The configured path is no directory.
    NotADirectory { path: String },
}

/// The message of an error.
pub open spec fn config_error_message(e: ConfigError) -> Seq<char> {
    match e {
        ConfigError::NotSet => "OBSIDIAN_VAULT environment variable not set. Set it to your Obsidian vault path in MCP config."@,
        ConfigError::NotFound { path } => "Vault not found at "@ + path@ + ". Check OBSIDIAN_VAULT path."@,
        ConfigError::NotADirectory { path } => "OBSIDIAN_VAULT ("@ + path@ + ") is not a directory."@,
    }
}

impl ConfigError {
    /// The message to show for this error.
    pub fn message(&self) -> (r: String)
        ensures
            r@ == config_error_message(*self),
    {
        match self {
            ConfigError::NotSet => string_of(
                "OBSIDIAN_VAULT environment variable not set. Set it to your Obsidian vault path in MCP config.",
            ),
            ConfigError::NotFound { path } => {
                let a = cat("Vault not found at ", path.as_str());
                cat(a.as_str(), ". Check OBSIDIAN_VAULT path.")
            },
            ConfigError::NotADirectory { path } => {
                let a = cat("OBSIDIAN_VAULT (", path.as_str());
                cat(a.as_str(), ") is not a directory.")
            },
        }
    }
}

impl Config {
    /// The configuration for the value of `OBSIDIAN_VAULT` (None when it is not set), given
    /// whether something exists at that path and whether it is a directory: refused when the
    /// variable is not set, when nothing is there, or when it is no directory, in that order.
    pub fn from_values(vault_path: Option<String>, exists: bool, is_dir: bool) -> (r: Result<Config, ConfigError>)
        ensures
            match vault_path {
                None => r matches Err(ConfigError::NotSet),
                Some(p) => if !exists {
                    r matches Err(ConfigError::NotFound { path }) && path@ == p@
                } else if !is_dir {
                    r matches Err(ConfigError::NotADirectory { path }) && path@ == p@
                } else {
                    r matches Ok(c) && c.vault_path@ == p@
                },
            },
    {
        match vault_path {
            None => Err(ConfigError::NotSet),
            Some(p) => if !exists {
                Err(ConfigError::NotFound { path: p })
            } else if !is_dir {
                Err(ConfigError::NotADirectory { path: p })
            } else {
                Ok(Config { vault_path: p })
            },
        }
    }
}

} // verus!
