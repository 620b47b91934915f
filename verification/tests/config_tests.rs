use swarmhive::cli::{ClaimCmd, WatchCmd, DEFAULT_LEASE_SECONDS, DEFAULT_WATCH_INTERVAL};
use swarmhive::config::{config_dir, config_path, Config};

#[test]
fn config_file_is_below_the_home_directory() {
    assert_eq!(config_dir("/home/alice"), "/home/alice/.swarmhive");
    assert_eq!(config_path("/home/alice"), "/home/alice/.swarmhive/config.toml");
    assert_eq!(config_path(""), "/.swarmhive/config.toml");
}

#[test]
fn default_config() {
    let config = Config::default_in("/home/alice");
    assert_eq!(config.identity.ens, "");
    assert_eq!(config.identity.key_path, "/home/alice/.swarmhive/keys/node.json");
    assert_eq!(config.pool.name, "swarmpool.eth");
    assert_eq!(config.pool.gateway, "https://w3s.link/ipfs");
    assert_eq!(config.ipfs.api, "/ip4/127.0.0.1/tcp/5001");
    assert_eq!(config.ipfs.gateway, "https://ipfs.io/ipfs");
}

#[test]
fn command_defaults() {
    assert_eq!(DEFAULT_LEASE_SECONDS, 900);
    assert_eq!(DEFAULT_WATCH_INTERVAL, 10);
    let claim = ClaimCmd::with_default_lease("job-42".to_string());
    assert_eq!((claim.job_id.as_str(), claim.lease), ("job-42", 900));
    let watch = WatchCmd::with_default_interval("swarmpool.eth".to_string());
    assert_eq!((watch.pool.as_str(), watch.interval), ("swarmpool.eth", 10));
}

#[test]
fn listing_gives_the_addresses_of_its_entries() {
    let listing = b"Qm111 12 a.json\nQm222 7 b.json\r\n\nshort line\n  Qm333\t9   c.json extra\nQm444 1 last";
    let addresses = swarmhive::store::entry_addresses(listing);
    let expected: Vec<Vec<u8>> = vec![
        b"ipfs://Qm111".to_vec(),
        b"ipfs://Qm222".to_vec(),
        b"ipfs://Qm333".to_vec(),
        b"ipfs://Qm444".to_vec(),
    ];
    assert_eq!(addresses, expected);
    assert_eq!(swarmhive::store::entry_addresses(b"A 1 b"), vec![b"ipfs://A".to_vec()]);
    let other_blanks = swarmhive::store::entry_addresses(b"a\x0bb\x0cname\x0bmore\n");
    assert_eq!(other_blanks, vec![b"ipfs://a".to_vec()]);
    assert!(swarmhive::store::entry_addresses(b"").is_empty());
    assert!(swarmhive::store::entry_addresses(b"one two\n").is_empty());
}

#[test]
fn store_output_is_trimmed() {
    assert_eq!(swarmhive::store::trimmed_output(b"  bafy123 \r\n"), b"bafy123".to_vec());
    assert_eq!(swarmhive::store::trimmed_output(b"a b\n"), b"a b".to_vec());
    assert_eq!(swarmhive::store::trimmed_output(b" \n\t"), Vec::<u8>::new());
    assert_eq!(swarmhive::store::trimmed_output(b""), Vec::<u8>::new());
    assert_eq!(swarmhive::store::published_address(b"bafy123\n"), b"ipfs://bafy123".to_vec());
    assert_eq!(swarmhive::store::with_scheme(&b"x".to_vec()), b"ipfs://x".to_vec());
    assert_eq!(swarmhive::store::bare_identifier("ipfs://bafy"), "bafy");
    assert_eq!(swarmhive::store::bare_identifier("bafy"), "bafy");
}

#[test]
fn store_address_has_the_scheme() {
    assert_eq!(swarmhive::store::store_address("bafy123"), "ipfs://bafy123");
}
