//! Settings of one node: who it is, which pool it serves, where its store is.

use vstd::prelude::*;
use vstd::string::*;

verus! {

/// Settings of one node.
pub struct Config {
    pub identity: IdentityConfig,
    pub pool: PoolConfig,
    pub ipfs: IpfsConfig,
}

pub struct IdentityConfig {
    pub ens: String,
    pub key_path: String,
}

pub struct PoolConfig {
    pub name: String,
    pub gateway: String,
}

pub struct IpfsConfig {
    pub api: String,
    pub gateway: String,
}

/// Text of the settings directory below the home directory `home`.
pub open spec fn config_dir_text(home: Seq<char>) -> Seq<char> {
    home + "/.swarmhive"@
}

/// The settings directory below the home directory `home`.
pub fn config_dir(home: &str) -> (dir: String)
    ensures
        dir@ == config_dir_text(home@),
{
    String::from_str(home).concat("/.swarmhive")
}

/// The settings file below the home directory `home`.
pub fn config_path(home: &str) -> (path: String)
    ensures
        path@ == config_dir_text(home@) + "/config.toml"@,
{
    config_dir(home).concat("/config.toml")
}

impl Config {
    /// The settings of a node that has not been initialised yet: no identity,
    /// the public pool and gateways, the key file below the settings directory.
    pub fn default_in(home: &str) -> (config: Config)
        ensures
            config.identity.ens@ == Seq::<char>::empty(),
            config.identity.key_path@ == config_dir_text(home@) + "/keys/node.json"@,
            config.pool.name@ == "swarmpool.eth"@,
            config.pool.gateway@ == "https://w3s.link/ipfs"@,
            config.ipfs.api@ == "/ip4/127.0.0.1/tcp/5001"@,
            config.ipfs.gateway@ == "https://ipfs.io/ipfs"@,
    {
        Config {
            identity: IdentityConfig {
                ens: String::new(),
                key_path: config_dir(home).concat("/keys/node.json"),
            },
            pool: PoolConfig {
                name: String::from_str("swarmpool.eth"),
                gateway: String::from_str("https://w3s.link/ipfs"),
            },
            ipfs: IpfsConfig {
                api: String::from_str("/ip4/127.0.0.1/tcp/5001"),
                gateway: String::from_str("https://ipfs.io/ipfs"),
            },
        }
    }
}

} // verus!
