use vstd::prelude::*;

verus! {

/// Settings for the link-liveness validator: how many workers may run at once,
/// how large each worker's stack is (in KiB), and how often a probe is retried.
pub struct LinkvalConfig {
    pub retry_count: u8,
    pub stack_size: usize,
    pub thread_count: usize,
}

/// Settings for the upstream-version checker, mirroring `LinkvalConfig`.
pub struct UpstreamConfig {
    pub retry_count: u8,
    pub stack_size: usize,
    pub thread_count: usize,
}

/// ANSI colour fragments used when rendering output.
pub struct ColorsConfig {
    pub danger: String,
    pub default: String,
    pub message: String,
    pub prompt: String,
    pub verbose: String,
}

/// Miscellaneous behaviour toggles.
pub struct BehaviorConfig {
    pub remove_tarballs: bool,
    pub search_threshold: u8,
}

/// The full configuration, loaded by the caller and passed in by value so that
/// no global mutable state is needed.
pub struct Config {
    pub behavior: BehaviorConfig,
    pub colors: ColorsConfig,
    pub linkval: LinkvalConfig,
    pub upstream: UpstreamConfig,
}

} // verus!
