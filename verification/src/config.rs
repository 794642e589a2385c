//! The configuration of one deployment: recognition roots, the frozen cost
//! constants, and the laws between them that a deployment must keep.

use crate::bytes::Address;
use crate::recognize::{addresses, ChainConfig, ChainConfigSpec};
use crate::reduce::ChainId;
use vstd::prelude::*;

verus! {

/// Cycles held back from the ingest price for the index's own execution of one
/// ingest. Reserved so that even if the callee accepted every attached cycle
/// instead of refunding the unused part, one ingest still could not cost more than
/// it charged.
pub const EXECUTION_RESERVE: u128 = 1_000_000_000;

/// One profile: everything that a deployment pins.
#[derive(Clone, Debug)]
pub struct Profile {
    /// The name of the profile; `mainnet` is the frozen one.
    pub name: String,
    /// What one ingest is charged.
    pub ingest_price: u128,
    /// A settlement below this `gross` is not reputation.
    pub min_gross: u128,
    /// The canister balance that no ingest may dip below.
    pub cycle_floor: u128,
    /// Cycles attached to the `getTransaction` outcall.
    pub attach_cycles: u128,
    /// The cap on the outcall's response.
    pub response_max_bytes: u64,
    /// How many providers must agree.
    pub consensus: u8,
    /// Cluster: 0 = mainnet, 1 = devnet, 2 = testnet.
    pub cluster: u8,
    /// The cluster's identity in a book key.
    pub chain_id: [u8; 32],
    /// The pinned splitter, or zero.
    pub splitter: Address,
    /// The pinned USDC mint, or zero.
    pub usdc: Address,
    /// The pinned factories.
    pub factories: Vec<Address>,
    /// Nodes of the subnet that makes the outcall.
    pub rpc_nodes: u128,
    /// The size of a request.
    pub rpc_request_bytes: u128,
    /// How many providers are queried.
    pub rpc_providers: u128,
    /// The first slot of the next generation, if there is a boundary.
    pub cutover_slot: Option<u64>,
}

/// What a profile says.
#[verifier::ext_equal]
pub struct ProfileSpec {
    pub name: Seq<char>,
    pub ingest_price: u128,
    pub min_gross: u128,
    pub cycle_floor: u128,
    pub attach_cycles: u128,
    pub response_max_bytes: u64,
    pub consensus: u8,
    pub cluster: u8,
    pub chain_id: Seq<u8>,
    pub splitter: Seq<u8>,
    pub usdc: Seq<u8>,
    pub factories: Seq<Seq<u8>>,
    pub rpc_nodes: u128,
    pub rpc_request_bytes: u128,
    pub rpc_providers: u128,
    pub cutover_slot: Option<u64>,
}

impl View for Profile {
    type V = ProfileSpec;

    open spec fn view(&self) -> ProfileSpec {
        ProfileSpec {
            name: self.name@,
            ingest_price: self.ingest_price,
            min_gross: self.min_gross,
            cycle_floor: self.cycle_floor,
            attach_cycles: self.attach_cycles,
            response_max_bytes: self.response_max_bytes,
            consensus: self.consensus,
            cluster: self.cluster,
            chain_id: self.chain_id@,
            splitter: self.splitter@,
            usdc: self.usdc@,
            factories: addresses(self.factories@),
            rpc_nodes: self.rpc_nodes,
            rpc_request_bytes: self.rpc_request_bytes,
            rpc_providers: self.rpc_providers,
            cutover_slot: self.cutover_slot,
        }
    }
}

/// Modelled worst-case cycle cost of one `getTransaction`, from the price formula
/// of an HTTPS outcall applied per queried provider:
///
/// ```text
/// per_provider = (3_000_000 + 60_000·n)·n        // base
///              + 400·n·request_bytes             // request
///              + 800·n·max_response_bytes        // response (charged on the cap)
/// total        = per_provider · providers
/// ```
pub open spec fn outcall_cost(
    nodes: int,
    request_bytes: int,
    max_response_bytes: int,
    providers: int,
) -> int {
    ((3_000_000 + 60_000 * nodes) * nodes + 400 * nodes * request_bytes + 800 * nodes
        * max_response_bytes) * providers
}

impl ProfileSpec {
    /// The modelled worst-case cost of one outcall under this profile.
    pub open spec fn worst_case(self) -> int {
        outcall_cost(
            self.rpc_nodes as int,
            self.rpc_request_bytes as int,
            self.response_max_bytes as int,
            self.rpc_providers as int,
        )
    }
}

/// What is wrong with a profile.
#[derive(Clone, Copy, Debug, PartialEq, Eq, Structural)]
pub enum Incoherent {
    /// Under-attaching burns the ingest price on a call that never lands.
    UnderAttached,
    /// One outcall plus this canister's own execution would cost more than the
    /// ingest that paid for them.
    Unprofitable,
    /// The attached cycles are not twice the modelled worst case.
    ThinMargin,
    /// The consensus threshold is out of reach of the providers queried, or their
    /// number does not fit one byte.
    UnreachableConsensus,
    /// Querying exactly as many providers as must agree is unanimity: one flaky
    /// provider would fail every read.
    Unanimity,
    /// Fewer than three providers must agree.
    ThinConsensus,
    /// A floor of zero admits dust as reputation.
    NoDustFloor,
    /// A floor of zero lets the index spend its reserve.
    NoCycleFloor,
}

/// The first law between the numbers of a profile that does not hold.
pub open spec fn first_fault(p: ProfileSpec) -> Option<Incoherent> {
    if p.attach_cycles < p.worst_case() {
        Some(Incoherent::UnderAttached)
    } else if p.attach_cycles + EXECUTION_RESERVE > p.ingest_price {
        Some(Incoherent::Unprofitable)
    } else if p.worst_case() * 2 > p.attach_cycles {
        Some(Incoherent::ThinMargin)
    } else if p.consensus > p.rpc_providers || p.rpc_providers > 255 {
        Some(Incoherent::UnreachableConsensus)
    } else if p.consensus == p.rpc_providers {
        Some(Incoherent::Unanimity)
    } else if p.consensus < 3 {
        Some(Incoherent::ThinConsensus)
    } else if p.min_gross == 0 {
        Some(Incoherent::NoDustFloor)
    } else if p.cycle_floor == 0 {
        Some(Incoherent::NoCycleFloor)
    } else {
        None
    }
}

/// `a · b + c`, or `None` if it does not fit.
fn checked_mul_add(a: u128, b: u128, c: u128) -> (r: Option<u128>)
    ensures
        (match r {
            Some(v) => v == a * b + c,
            None => a * b + c > u128::MAX,
        }),
{
    match a.checked_mul(b) {
        Some(ab) => ab.checked_add(c),
        None => None,
    }
}

/// The modelled worst-case cost of one outcall, or `None` if it does not fit.
pub fn outcall_worst_case(
    nodes: u128,
    request_bytes: u128,
    max_response_bytes: u64,
    providers: u128,
) -> (r: Option<u128>)
    ensures
        (match r {
            Some(v) => v == outcall_cost(
                nodes as int,
                request_bytes as int,
                max_response_bytes as int,
                providers as int,
            ),
            None => outcall_cost(
                nodes as int,
                request_bytes as int,
                max_response_bytes as int,
                providers as int,
            ) > u128::MAX,
        }),
{
    let ghost n = nodes as int;
    let ghost q = request_bytes as int;
    let ghost b = max_response_bytes as int;
    let ghost per = (3_000_000 + 60_000 * n) * n + 400 * n * q + 800 * n * b;
    assert(per * 0 == 0);
    if providers == 0 {
        return Some(0);
    }
    // per provider = n · (3_000_000 + 60_000·n + 400·q + 800·b)
    let ghost unit = 3_000_000 + 60_000 * n + 400 * q + 800 * b;
    assert(per == n * unit) by (nonlinear_arith)
        requires
            per == (3_000_000 + 60_000 * n) * n + 400 * n * q + 800 * n * b,
            unit == 3_000_000 + 60_000 * n + 400 * q + 800 * b,
    ;
    assert(n * unit * providers >= n * unit) by (nonlinear_arith)
        requires
            n >= 0,
            unit >= 0,
            providers >= 1,
    ;
    assert(n >= 1 ==> n * unit >= unit) by (nonlinear_arith)
        requires
            unit >= 0,
    ;
    assert(n == 0 ==> per * providers == 0) by (nonlinear_arith)
        requires
            per == n * unit,
    ;
    if nodes == 0 {
        return Some(0);
    }
    let fixed: u128 = 3_000_000 + 800 * (max_response_bytes as u128);
    let with_request = match checked_mul_add(400, request_bytes, fixed) {
        Some(v) => v,
        None => {
            return None;
        },
    };
    let per_node = match checked_mul_add(60_000, nodes, with_request) {
        Some(v) => v,
        None => {
            return None;
        },
    };
    let per_provider = match nodes.checked_mul(per_node) {
        Some(v) => v,
        None => {
            return None;
        },
    };
    per_provider.checked_mul(providers)
}

/// Hold a profile to the laws between its numbers: an ingest may never cost the
/// index more than it charged, must attach enough for the call to land at all, and
/// asks for an agreement that providers can reach.
pub fn check(p: &Profile) -> (r: Result<(), Incoherent>)
    ensures
        (match r {
            Ok(_) => first_fault(p@) is None,
            Err(e) => first_fault(p@) == Some(e),
        }),
{
    let worst = match outcall_worst_case(
        p.rpc_nodes,
        p.rpc_request_bytes,
        p.response_max_bytes,
        p.rpc_providers,
    ) {
        Some(v) => v,
        None => {
            return Err(Incoherent::UnderAttached);
        },
    };
    if p.attach_cycles < worst {
        return Err(Incoherent::UnderAttached);
    }
    if p.ingest_price < EXECUTION_RESERVE || p.attach_cycles > p.ingest_price
        - EXECUTION_RESERVE {
        return Err(Incoherent::Unprofitable);
    }
    if worst > p.attach_cycles / 2 {
        return Err(Incoherent::ThinMargin);
    }
    if p.consensus as u128 > p.rpc_providers || p.rpc_providers > 255 {
        return Err(Incoherent::UnreachableConsensus);
    }
    if p.consensus as u128 == p.rpc_providers {
        return Err(Incoherent::Unanimity);
    }
    if p.consensus < 3 {
        return Err(Incoherent::ThinConsensus);
    }
    if p.min_gross == 0 {
        return Err(Incoherent::NoDustFloor);
    }
    if p.cycle_floor == 0 {
        return Err(Incoherent::NoCycleFloor);
    }
    Ok(())
}

/// The recognition roots of a profile.
pub open spec fn roots_of(p: ProfileSpec) -> ChainConfigSpec {
    ChainConfigSpec {
        chain: p.chain_id,
        splitter: p.splitter,
        usdc: p.usdc,
        factories: p.factories,
        min_gross: p.min_gross,
    }
}

/// The pinned recognition roots for this profile's single cluster.
pub fn chain_config(p: &Profile) -> (r: ChainConfig)
    ensures
        r@ == roots_of(p@),
{
    let mut factories: Vec<Address> = Vec::with_capacity(p.factories.len());
    let mut n: usize = 0;
    while n < p.factories.len()
        invariant
            n <= p.factories@.len(),
            factories@ == p.factories@.take(n as int),
        decreases p.factories@.len() - n,
    {
        factories.push(p.factories[n]);
        assert(factories@ =~= p.factories@.take(n + 1));
        n += 1;
    }
    assert(factories@ =~= p.factories@);
    ChainConfig {
        chain: ChainId(p.chain_id),
        splitter: p.splitter,
        usdc: p.usdc,
        factories,
        min_gross: p.min_gross,
    }
}

/// An ingest never costs more than it charges: under a coherent profile, the
/// worst-case outcall and the index's own execution fit in the ingest price, with
/// the attached cycles at least twice the worst case.
pub proof fn an_ingest_never_costs_more_than_it_charges(p: ProfileSpec)
    requires
        first_fault(p) is None,
    ensures
        p.worst_case() + EXECUTION_RESERVE <= p.ingest_price,
        p.attach_cycles + EXECUTION_RESERVE <= p.ingest_price,
        2 * p.worst_case() <= p.attach_cycles,
        3 <= p.consensus < p.rpc_providers <= 255,
{
    assert(p.worst_case() * 2 <= p.attach_cycles);
}

/// The cost of an outcall, term by term: every provider costs the same, every node of
/// the subnet pays the base, 60,000 for each node, 400 for each byte of the request and
/// 800 for each byte of the capped response.
pub proof fn the_cost_of_an_outcall_by_its_terms(
    nodes: int,
    request_bytes: int,
    max_response_bytes: int,
    providers: int,
)
    ensures
        outcall_cost(nodes, request_bytes, max_response_bytes, 0) == 0,
        outcall_cost(nodes, request_bytes, max_response_bytes, providers + 1) - outcall_cost(
            nodes,
            request_bytes,
            max_response_bytes,
            providers,
        ) == nodes * (3_000_000 + 60_000 * nodes + 400 * request_bytes + 800 * max_response_bytes),
{
    let per = (3_000_000 + 60_000 * nodes) * nodes + 400 * nodes * request_bytes + 800 * nodes
        * max_response_bytes;
    assert(per * 0 == 0);
    assert(per * (providers + 1) - per * providers == per) by (nonlinear_arith);
    assert(per == nodes * (3_000_000 + 60_000 * nodes + 400 * request_bytes + 800
        * max_response_bytes)) by (nonlinear_arith)
        requires
            per == (3_000_000 + 60_000 * nodes) * nodes + 400 * nodes * request_bytes + 800 * nodes
                * max_response_bytes,
    ;
}

/// A profile is coherent exactly where an ingest pays for twice the worst case and for
/// the execution, at least three but not all of the providers must agree, and neither
/// floor is zero.
pub proof fn a_profile_is_coherent_exactly_where_its_laws_hold(p: ProfileSpec)
    ensures
        first_fault(p) is None <==> {
            &&& 2 * p.worst_case() <= p.attach_cycles
            &&& p.attach_cycles + 1_000_000_000 <= p.ingest_price
            &&& 3 <= p.consensus < p.rpc_providers <= 255
            &&& p.min_gross > 0
            &&& p.cycle_floor > 0
        },
{
}

/// A fault names what is wrong, and nothing that is checked before it is.
pub proof fn a_fault_names_what_is_wrong(p: ProfileSpec)
    ensures
        (match first_fault(p) {
            Some(Incoherent::UnderAttached) => p.attach_cycles < p.worst_case(),
            Some(Incoherent::Unprofitable) => p.worst_case() <= p.attach_cycles && p.ingest_price
                < p.attach_cycles + 1_000_000_000,
            Some(Incoherent::ThinMargin) => p.worst_case() <= p.attach_cycles < 2 * p.worst_case(),
            Some(Incoherent::UnreachableConsensus) => p.rpc_providers < p.consensus
                || p.rpc_providers > 255,
            Some(Incoherent::Unanimity) => p.consensus == p.rpc_providers,
            Some(Incoherent::ThinConsensus) => p.consensus < 3 && p.consensus < p.rpc_providers,
            Some(Incoherent::NoDustFloor) => p.min_gross == 0,
            Some(Incoherent::NoCycleFloor) => p.cycle_floor == 0 && p.min_gross > 0,
            None => true,
        }),
{
}

} // verus!
