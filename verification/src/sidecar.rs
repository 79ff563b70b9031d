//! The Python sidecar's runtime configuration, which the sidecar prints as
//! JSON so that it can be edited after the build.
use vstd::prelude::*;

verus! {

/// Runtime knobs held by the sidecar: the upstream project URL, the default
/// model, the Ollama host and the whitelisted commands.
pub struct SidecarConfig {
    pub github_repo_url: String,
    pub default_model: String,
    pub ollama_host: String,
    pub command_whitelist: Vec<String>,
}

} // verus!
