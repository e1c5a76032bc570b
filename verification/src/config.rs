//! Startup configuration: the two parameters the pipeline cannot run without.

use vstd::prelude::*;

verus! {

/// The transport endpoint and the pool contract address (hex). Both are
/// required; loading them from the environment is the caller's concern.
pub struct Config {
    pub eth_node_url: String,
    pub pool_contract_address: String,
}

impl Config {
    pub fn new(eth_node_url: String, pool_contract_address: String) -> (r: Config)
        ensures
            r.eth_node_url@ == eth_node_url@,
            r.pool_contract_address@ == pool_contract_address@,
    {
        Config { eth_node_url, pool_contract_address }
    }
}

} // verus!
