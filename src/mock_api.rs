use vstd::prelude::*;
use vstd::string::StringExecFns;
use std::time::Duration;

verus! {

/// The answer of the simulated data source for `key`: `data_` followed by the key.
pub open spec fn response_for(key: Seq<char>) -> Seq<char> {
    seq!['d', 'a', 't', 'a', '_'] + key
}

/// A simulated remote data source, with the delay that each request takes.
pub struct MockApi {
    delay: Duration,
}

impl MockApi {
    /// The delay of each request.
    pub closed spec fn spec_delay(&self) -> Duration {
        self.delay
    }

    /// A data source whose requests take `delay`.
    pub fn new(delay: Duration) -> (r: Self)
        ensures
            r.spec_delay() == delay,
    {
        MockApi { delay }
    }

    /// The delay of each request.
    pub fn delay(&self) -> (r: Duration)
        ensures
            r == self.spec_delay(),
    {
        self.delay
    }

    /// What a request for `key` returns once its delay has passed.
    pub fn response(&self, key: &str) -> (r: String)
        ensures
            r@ == response_for(key@),
    {
        let mut out = String::from_str("data_");
        proof {
            reveal_strlit("data_");
        }
        out.append(key);
        out
    }
}

} // verus!
