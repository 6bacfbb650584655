//! Run configuration: the input path, the concurrency bound, and the
//! rate-limit delay. Argument parsing itself happens outside the crate;
//! this type holds the already-parsed plain values.

use vstd::prelude::*;

verus! {

/// Configuration of one run.
pub struct Args {
    /// Input file path.
    pub input: String,
    /// Number of parallel requests; at least 1 in a well-formed configuration.
    pub parallel_requests: usize,
    /// Rate limit delay in seconds.
    pub delay: u64,
}

impl Args {
    /// The configuration is well-formed when the concurrency bound is positive.
    pub open spec fn wf(&self) -> bool {
        self.parallel_requests >= 1
    }

    /// Builds a configuration from plain values.
    pub fn new(input: String, parallel_requests: usize, delay: u64) -> (args: Args)
        requires
            parallel_requests >= 1,
        ensures
            args.wf(),
            args.input == input,
            args.parallel_requests == parallel_requests,
            args.delay == delay,
    {
        Args { input, parallel_requests, delay }
    }

    /// The configured concurrency bound.
    pub fn get_parallel_requests(&self) -> (n: usize)
        ensures
            n == self.parallel_requests,
    {
        self.parallel_requests
    }
}

} // verus!
