//! The single paid outcall: `getTransaction` on the SOL RPC canister, finalized
//! only, under provider consensus, with a capped response.

use crate::config::{Profile, ProfileSpec};
use crate::parse::Encoding;
use vstd::prelude::*;

verus! {

/// The SOL RPC canister principal (`tghme-zyaaa-aaaar-qarca-cai`), as raw bytes.
pub const SOL_RPC: [u8; 10] = [0, 0, 0, 0, 2, 48, 4, 68, 1, 1];

#[derive(Clone, Copy, Debug)]
pub enum SolanaCluster {
    Mainnet,
    Devnet,
    Testnet,
}

/// Providers are configured on the SOL RPC canister, not passed as URLs from here.
#[derive(Clone, Copy, Debug)]
pub enum RpcSources {
    Default(SolanaCluster),
}

#[derive(Clone, Copy, Debug)]
pub enum ConsensusStrategy {
    Equality,
    Threshold { total: Option<u8>, min: u8 },
}

#[derive(Clone, Copy, Debug)]
pub struct RpcConfig {
    pub response_size_estimate: Option<u64>,
    pub response_consensus: Option<ConsensusStrategy>,
}

#[derive(Clone, Copy, Debug)]
pub enum CommitmentLevel {
    Processed,
    Confirmed,
    Finalized,
}

#[derive(Clone, Debug)]
pub struct GetTransactionParams {
    pub signature: String,
    pub commitment: Option<CommitmentLevel>,
    pub max_supported_transaction_version: Option<u8>,
    pub encoding: Option<Encoding>,
}

/// The arguments of one `getTransaction`.
#[derive(Clone, Debug)]
pub struct Request {
    pub sources: RpcSources,
    pub config: RpcConfig,
    pub params: GetTransactionParams,
}

/// The cluster of a profile.
pub open spec fn cluster_of(code: u8) -> SolanaCluster {
    if code == 0 {
        SolanaCluster::Mainnet
    } else if code == 2 {
        SolanaCluster::Testnet
    } else {
        SolanaCluster::Devnet
    }
}

/// The cluster to query: 0 = mainnet, 2 = testnet, anything else devnet.
pub fn cluster(code: u8) -> (r: SolanaCluster)
    ensures
        r == cluster_of(code),
{
    match code {
        0 => SolanaCluster::Mainnet,
        2 => SolanaCluster::Testnet,
        _ => SolanaCluster::Devnet,
    }
}

/// Whether a request asks for `signature` as a profile pins it: the default
/// providers of its cluster, the response capped, `consensus` of exactly
/// `rpc_providers` agreeing, finalized, v0 accepted, base58.
pub open spec fn is_request(r: Request, signature: Seq<char>, p: ProfileSpec) -> bool {
    &&& r.sources == RpcSources::Default(cluster_of(p.cluster))
    &&& r.config == (RpcConfig {
        response_size_estimate: Some(p.response_max_bytes),
        response_consensus: Some(
            ConsensusStrategy::Threshold { total: Some(p.rpc_providers as u8), min: p.consensus },
        ),
    })
    &&& r.params.signature@ == signature
    &&& r.params.commitment == Some(CommitmentLevel::Finalized)
    &&& r.params.max_supported_transaction_version == Some(0u8)
    &&& r.params.encoding == Some(Encoding::Base58)
}

/// The arguments of the one outcall for a signature.
pub fn request(signature: &str, p: &Profile) -> (r: Request)
    requires
        p.rpc_providers <= 255,
    ensures
        is_request(r, signature@, p@),
{
    Request {
        sources: RpcSources::Default(cluster(p.cluster)),
        config: RpcConfig {
            // Cap the response so a bloated tx can never cost more than its ingest.
            response_size_estimate: Some(p.response_max_bytes),
            response_consensus: Some(
                // `total` is stated rather than left to the callee's default, under
                // which the threshold could be unanimity.
                ConsensusStrategy::Threshold {
                    total: Some(p.rpc_providers as u8),
                    min: p.consensus,
                },
            ),
        },
        params: GetTransactionParams {
            signature: signature.to_owned(),
            commitment: Some(CommitmentLevel::Finalized),  // finality: always
            max_supported_transaction_version: Some(0),  // accept v0 + loaded addresses
            encoding: Some(Encoding::Base58),
        },
    }
}

} // verus!
