//! Verified core of an EditorConfig resolver.
//!
//! The crate determines the effective set of formatting rules that apply to a
//! target path: it enumerates candidate configuration files from the target's
//! directory up toward the filesystem root, parses each file's INI-like text
//! into sections, matches section glob patterns against the target path, and
//! merges matching properties so that the file closest to the target wins.
//! All paths and file texts are handled as byte sequences with `/`-separated
//! segments.

pub mod bytes;
pub mod errors;
pub mod glob;
pub mod ini;
pub mod resolver;
pub mod rules;
pub mod version;
pub mod walker;

pub use errors::ParseError;
pub use errors::ResolutionError;
pub use errors::get_error_message;
pub use errors::parse_error_of;
pub use glob::glob_match;
pub use ini::RawSection;
pub use ini::parse_ini;
pub use resolver::resolve_with_contents;
pub use rules::ResolvedRuleSet;
pub use version::Version;
pub use version::get_version;
pub use walker::CandidateFile;
pub use walker::candidate_files;
pub use walker::default_config_filename;
