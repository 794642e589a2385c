//! Profiles: reading, the laws between their numbers, the request they make.

use candid::Principal;
use crown_indexer::config::{
    chain_config, check, outcall_worst_case, Incoherent, Profile, EXECUTION_RESERVE,
};
use crown_indexer::parse::Encoding;
use crown_indexer::profile::{bake, derive_chain_id, read_number, read_value, ConfigError, Key};
use crown_indexer::reduce::ChainId;
use crown_indexer::rpc::{
    cluster, request, CommitmentLevel, ConsensusStrategy, RpcSources, SolanaCluster, SOL_RPC,
};
use sha2::{Digest, Sha256};

const DEVNET_USDC: &str = "4zMMC9srt5Ri5X14GAgXhaHii3GnPAEERYPJgZJDncDU";

fn address(b: u8) -> String {
    bs58::encode([b; 32]).into_string()
}

/// The lines of a devnet profile, with some of them replaced.
fn text_with(changes: &[(&str, &str)]) -> String {
    let mut lines: Vec<(&str, String)> = vec![
        ("ingest_price", "13_700_000_000  # cycles".to_string()),
        ("min_gross", "200_000".to_string()),
        ("cycle_floor", "1_000_000_000_000".to_string()),
        ("attach_cycles", "12_000_000_000".to_string()),
        ("response_max_bytes", "32_768".to_string()),
        ("consensus", "3".to_string()),
        ("rpc_nodes", "34".to_string()),
        ("rpc_request_bytes", "1_000".to_string()),
        ("rpc_providers", "5".to_string()),
        ("cutover_slot", "0".to_string()),
        ("id", "\"devnet\"".to_string()),
        ("splitter", format!("\"{}\"", address(7))),
        ("usdc", format!("\"{DEVNET_USDC}\" # native")),
        (
            "factories",
            format!("[\"{}\", \"{}\"]", address(8), address(9)),
        ),
    ];
    for (key, value) in changes {
        for line in lines.iter_mut() {
            if line.0 == *key {
                line.1 = value.to_string();
            }
        }
    }
    let mut text = String::from("# a profile\n\n[chain]\r\n");
    for (key, value) in lines {
        if value != "-" {
            text.push_str(&format!("  {key} = {value}\r\n"));
        }
    }
    text
}

fn testnet() -> Profile {
    bake("testnet", &text_with(&[])).expect("a coherent profile")
}

/// `ChainId = sha256("crown-chain:v1:" ‖ "devnet")`.
fn devnet_chain_id() -> [u8; 32] {
    let mut h = Sha256::new();
    h.update(b"crown-chain:v1:");
    h.update(b"devnet");
    h.finalize().into()
}

#[test]
fn testnet_cost_gate_constants_are_baked() {
    let p = testnet();
    assert_eq!(p.name, "testnet");
    assert_eq!(p.ingest_price, 13_700_000_000);
    assert_eq!(p.min_gross, 200_000);
    assert_eq!(chain_config(&p).min_gross, 200_000); // floor wired into recognition
    assert_eq!(p.cycle_floor, 1_000_000_000_000);
    assert_eq!(p.consensus, 3);
    assert_eq!(p.rpc_providers, 5); // asked for as `total`, not just priced
    assert_eq!(p.attach_cycles, 12_000_000_000);
    assert_eq!(p.response_max_bytes, 32_768);
    // A single generation: the boundary is off.
    assert_eq!(p.cutover_slot, None);
}

#[test]
fn the_cutover_profile_arms_the_boundary_and_changes_nothing_else() {
    let p = bake("cutover", &text_with(&[("cutover_slot", "1_000")])).expect("coherent");
    assert_eq!(p.name, "cutover");
    assert_eq!(p.cutover_slot, Some(1000));
    assert_eq!(p.ingest_price, 13_700_000_000);
    assert_eq!(p.min_gross, 200_000);
    assert_eq!(p.attach_cycles, 12_000_000_000);
    assert_eq!(p.chain_id, devnet_chain_id());
}

#[test]
fn the_outcall_cost_model_is_the_documented_formula() {
    // 34-node subnet, 5 providers, 1 KiB request, 32 KiB response cap.
    assert_eq!(outcall_worst_case(34, 1_000, 32_768, 5), Some(5_381_248_000));
}

#[test]
fn chain_id_is_the_documented_derivation() {
    // ChainId = sha256("crown-chain:v1:" ‖ id), id = "devnet".
    let expected = devnet_chain_id();
    let p = testnet();
    assert_eq!(p.chain_id, expected);
    assert_eq!(chain_config(&p).chain, ChainId(expected));
}

#[test]
fn recognition_roots_are_pinned_to_real_addresses() {
    let p = testnet();
    assert_ne!(p.splitter, [0u8; 32]);
    assert_ne!(p.usdc, [0u8; 32]);
    assert_ne!(p.splitter, p.usdc);
    // Both factories are pinned; a placeholder would be dropped.
    let c = chain_config(&p);
    assert_eq!(c.splitter, p.splitter);
    assert_eq!(c.usdc, p.usdc);
    assert_eq!(c.factories.len(), 2);
    assert!(c.factories.iter().all(|f| *f != [0u8; 32]));
    assert_ne!(c.factories[0], c.factories[1]);
}

#[test]
fn the_request_encodes_to_what_the_sol_rpc_canister_expects() {
    let p = testnet();
    let r = request("5j7s…", &p);

    // Devnet on this profile, and `Default` — no URLs ever leave this canister.
    assert!(matches!(
        r.sources,
        RpcSources::Default(SolanaCluster::Devnet)
    ));
    // The cap the ingest is priced on.
    assert_eq!(r.config.response_size_estimate, Some(p.response_max_bytes));
    // And the consensus strategy.
    assert!(matches!(
        r.config.response_consensus,
        Some(ConsensusStrategy::Threshold {
            total: Some(5),
            min: 3
        })
    ));
    assert_eq!(r.params.signature, "5j7s…");
    assert!(matches!(
        r.params.commitment,
        Some(CommitmentLevel::Finalized)
    )); // always
    assert_eq!(r.params.max_supported_transaction_version, Some(0)); // v0 + ALTs
    assert!(matches!(r.params.encoding, Some(Encoding::Base58)));
}

#[test]
fn the_pinned_principal_is_the_nns_sol_rpc_canister() {
    assert_eq!(
        Principal::from_slice(&SOL_RPC).to_text(),
        "tghme-zyaaa-aaaar-qarca-cai"
    );
}

#[test]
fn every_cluster_code_has_its_cluster() {
    assert!(matches!(cluster(0), SolanaCluster::Mainnet));
    assert!(matches!(cluster(1), SolanaCluster::Devnet));
    assert!(matches!(cluster(2), SolanaCluster::Testnet));
    assert!(matches!(cluster(3), SolanaCluster::Devnet));
}

#[test]
fn every_cluster_has_its_own_identity() {
    let ids: Vec<[u8; 32]> = (0..3).map(derive_chain_id).collect();
    assert_eq!(ids[1], devnet_chain_id());
    assert_ne!(ids[0], ids[1]);
    assert_ne!(ids[1], ids[2]);
    for (id, code) in [("mainnet", 0u8), ("devnet", 1), ("testnet", 2)] {
        let p = bake("any", &text_with(&[("id", id)])).expect("coherent");
        assert_eq!(p.cluster, code);
        assert_eq!(p.chain_id, ids[usize::from(code)]);
    }
}

#[test]
fn a_cost_that_does_not_fit_is_told() {
    assert_eq!(outcall_worst_case(u128::MAX, 0, 0, 1), None);
    assert_eq!(outcall_worst_case(1, u128::MAX, 0, 1), None);
    assert_eq!(outcall_worst_case(u128::MAX, u128::MAX, 0, 0), Some(0));
    assert_eq!(outcall_worst_case(0, u128::MAX, 0, 9), Some(0));
    assert_eq!(outcall_worst_case(1, 0, 0, 1), Some(3_060_000));
    assert_eq!(outcall_worst_case(1, 2, 3, 4), Some((3_060_000 + 800 + 2_400) * 4));
}

#[test]
fn every_law_between_the_numbers_has_its_fault() {
    let fault = |change: &dyn Fn(&mut Profile)| {
        let mut p = testnet();
        change(&mut p);
        check(&p)
    };
    assert_eq!(fault(&|_| {}), Ok(()));
    assert_eq!(
        fault(&|p| p.attach_cycles = 5_381_247_999),
        Err(Incoherent::UnderAttached)
    );
    assert_eq!(
        fault(&|p| p.rpc_nodes = u128::MAX),
        Err(Incoherent::UnderAttached)
    );
    // The boundary of the price is exact.
    assert_eq!(
        fault(&|p| p.ingest_price = p.attach_cycles + EXECUTION_RESERVE),
        Ok(())
    );
    assert_eq!(
        fault(&|p| p.ingest_price = p.attach_cycles + EXECUTION_RESERVE - 1),
        Err(Incoherent::Unprofitable)
    );
    assert_eq!(
        fault(&|p| p.ingest_price = 1),
        Err(Incoherent::Unprofitable)
    );
    assert_eq!(
        fault(&|p| p.attach_cycles = 2 * 5_381_248_000),
        Ok(())
    );
    assert_eq!(
        fault(&|p| p.attach_cycles = 2 * 5_381_248_000 - 1),
        Err(Incoherent::ThinMargin)
    );
    assert_eq!(
        fault(&|p| p.consensus = 6),
        Err(Incoherent::UnreachableConsensus)
    );
    assert_eq!(fault(&|p| p.consensus = 5), Err(Incoherent::Unanimity));
    assert_eq!(fault(&|p| p.consensus = 2), Err(Incoherent::ThinConsensus));
    assert_eq!(fault(&|p| p.min_gross = 0), Err(Incoherent::NoDustFloor));
    assert_eq!(fault(&|p| p.cycle_floor = 0), Err(Incoherent::NoCycleFloor));
}

#[test]
fn a_coherent_profile_never_loses_on_an_ingest() {
    let p = testnet();
    assert_eq!(check(&p), Ok(()));
    let worst = outcall_worst_case(
        p.rpc_nodes,
        p.rpc_request_bytes,
        p.response_max_bytes,
        p.rpc_providers,
    )
    .unwrap();
    assert!(worst + EXECUTION_RESERVE <= p.ingest_price);
    assert!(2 * worst <= p.attach_cycles);
}

fn refused(name: &str, changes: &[(&str, &str)]) -> ConfigError {
    match bake(name, &text_with(changes)) {
        Ok(p) => panic!("baked {p:?}"),
        Err(e) => e,
    }
}

#[test]
fn a_missing_key_is_named() {
    for (name, key) in [
        ("ingest_price", Key::IngestPrice),
        ("min_gross", Key::MinGross),
        ("cycle_floor", Key::CycleFloor),
        ("attach_cycles", Key::AttachCycles),
        ("response_max_bytes", Key::ResponseMaxBytes),
        ("consensus", Key::Consensus),
        ("rpc_nodes", Key::RpcNodes),
        ("rpc_request_bytes", Key::RpcRequestBytes),
        ("rpc_providers", Key::RpcProviders),
        ("cutover_slot", Key::CutoverSlot),
        ("id", Key::Id),
        ("splitter", Key::Splitter),
        ("usdc", Key::Usdc),
        ("factories", Key::Factories),
    ] {
        assert_eq!(refused("any", &[(name, "-")]), ConfigError::Missing(key));
    }
}

#[test]
fn a_value_that_is_no_number_is_named() {
    assert_eq!(
        refused("any", &[("min_gross", "many")]),
        ConfigError::NotANumber(Key::MinGross)
    );
    assert_eq!(
        refused("any", &[("consensus", "")]),
        ConfigError::NotANumber(Key::Consensus)
    );
}

#[test]
fn an_unknown_cluster_is_refused() {
    assert_eq!(
        refused("any", &[("id", "localnet")]),
        ConfigError::UnknownCluster
    );
}

#[test]
fn an_incoherent_text_is_refused() {
    assert_eq!(
        refused("any", &[("consensus", "5")]),
        ConfigError::Incoherent(Incoherent::Unanimity)
    );
}

#[test]
fn a_placeholder_is_unset_but_an_error_on_the_frozen_profile() {
    let list = format!("[\"<tbd>\", \"{}\", ]", address(8));
    let changes = [("splitter", "<tbd>"), ("factories", list.as_str())];
    let p = bake("testnet", &text_with(&changes)).expect("placeholders are unset");
    assert_eq!(p.splitter, [0u8; 32]);
    assert_eq!(p.factories, vec![[8u8; 32]]);

    assert_eq!(
        refused("mainnet", &[("splitter", "<tbd>")]),
        ConfigError::BadAddress(Key::Splitter)
    );
    assert_eq!(
        refused("mainnet", &[("usdc", "abc")]),
        ConfigError::BadAddress(Key::Usdc)
    );
    assert_eq!(
        refused("mainnet", &[("factories", &list)]),
        ConfigError::BadAddress(Key::Factories)
    );
}

#[test]
fn the_frozen_profile_pins_distinct_roots() {
    assert!(bake("mainnet", &text_with(&[])).is_ok());
    assert_eq!(
        refused("mainnet", &[("factories", "[]")]),
        ConfigError::NoFactories
    );
    assert_eq!(
        refused("mainnet", &[("factories", "none")]),
        ConfigError::NoFactories
    );
    let seven = format!("\"{}\"", address(7));
    assert_eq!(
        refused("mainnet", &[("usdc", &seven)]),
        ConfigError::CollidingRoots
    );
    let twice = format!("[{seven}, {seven}]").replace(&address(7), &address(8));
    assert_eq!(
        refused("mainnet", &[("factories", &twice)]),
        ConfigError::CollidingRoots
    );
    let splitter = format!("[\"{}\", {seven}]", address(8));
    assert_eq!(
        refused("mainnet", &[("factories", &splitter)]),
        ConfigError::CollidingRoots
    );
    // Any other profile may.
    assert!(bake("testnet", &text_with(&[("factories", &twice)])).is_ok());
}

#[test]
fn numbers_tolerate_separators_and_nothing_else() {
    assert_eq!(read_number("1_000"), Some(1_000));
    assert_eq!(read_number("_1__0_"), Some(10));
    assert_eq!(read_number("+7"), Some(7));
    assert_eq!(read_number("0007"), Some(7));
    assert_eq!(
        read_number("340_282_366_920_938_463_463_374_607_431_768_211_455"),
        Some(u128::MAX)
    );
    assert_eq!(
        read_number("340_282_366_920_938_463_463_374_607_431_768_211_456"),
        None
    );
    for bad in ["", "_", "+", "-1", "1.0", "0x10", "1 0", "++1", "٣"] {
        assert_eq!(read_number(bad), None, "{bad}");
    }
}

#[test]
fn values_are_trimmed_of_space_quotes_and_comments() {
    let text = "idx = 1\nid=\u{3000}\" a b \"\u{a0} # c # d\r\nid = later\n  name\t= \"\"\"x\"\n";
    assert_eq!(read_value(text, "id"), Some(" a b "));
    assert_eq!(read_value(text, "idx"), Some("1"));
    assert_eq!(read_value(text, "name"), Some("x"));
    assert_eq!(read_value(text, "nam"), None);
    assert_eq!(read_value("", "id"), None);
    assert_eq!(read_value("id = #", "id"), Some(""));
}

#[test]
fn a_number_too_wide_for_its_field_keeps_its_low_bits() {
    let p = bake(
        "any",
        &text_with(&[
            ("consensus", "259"),
            ("response_max_bytes", "18_446_744_073_709_584_384"),
        ]),
    )
    .expect("coherent");
    assert_eq!(p.consensus, 3);
    assert_eq!(p.response_max_bytes, 32_768);
}
