//! A channel from a remote ssh session back to the machine it was opened from.

pub mod binary64;
pub mod clipboard;
pub mod copy;
pub mod daemon;
pub mod install;
pub mod launch;
pub mod logging;
pub mod messages;
pub mod open;
pub mod path;
pub mod paths;
pub mod peer;
pub mod progress;
pub mod proto;
pub mod proxy;
pub mod pull;
pub mod say;
pub mod ssh_argv;
pub mod status;
pub mod text;
pub mod transfer;
pub mod tunnel;
pub mod uri;
pub mod url;
