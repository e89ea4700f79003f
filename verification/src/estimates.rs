//! What a compilation is estimated to take, and how a core moves to other limits.
use vstd::prelude::*;

use crate::arena::{OpportunityKind, OpportunitySpec};
use crate::consolidation::DerivedOperator;
use crate::digest::Digest;
use crate::ecology;
use crate::ecology::{EcologyView, RevisionView};
use crate::footprint;
use crate::footprint::{DerivationObservation, KnowledgeCompilationShape};
use crate::intelligence::CoreView;
use crate::restore;
use crate::types::{FeatureSchemaId, IntelligenceError, IntelligenceLimits, RoutingFamilyId};

verus! {

// ---------------------------------------------------------------------------
// Shapes
// ---------------------------------------------------------------------------
/// How many bytes some steps have together.
pub open spec fn bytes_of(steps: Seq<Seq<u8>>) -> int
    decreases steps.len(),
{
    if steps.len() == 0 {
        0
    } else {
        bytes_of(steps.drop_last()) + steps.last().len()
    }
}

proof fn lemma_with_steps(start: u64, steps: Seq<Seq<u8>>)
    ensures
        footprint::with_steps(start, steps).1 <==> start + bytes_of(steps) <= u64::MAX,
        footprint::with_steps(start, steps).1 ==> footprint::with_steps(start, steps).0 == start
            + bytes_of(steps),
        bytes_of(steps) >= 0,
    decreases steps.len(),
{
    if steps.len() > 0 {
        lemma_with_steps(start, steps.drop_last());
    }
}

/// A derivation that is counted adds one observation, the bytes of its identity, its
/// steps and all of their bytes; and it is counted wherever none of these is too many.
pub proof fn law_derivations_are_counted(
    shape: KnowledgeCompilationShape,
    identity: Seq<u8>,
    steps: Seq<Seq<u8>>,
)
    ensures
        ({
            let (next, all) = shape.observed(identity, steps);
            &&& all ==> {
                &&& next.observations == shape.observations + 1
                &&& next.identity_bytes == shape.identity_bytes + identity.len()
                &&& next.steps == shape.steps + steps.len()
                &&& next.step_bytes == shape.step_bytes + bytes_of(steps)
            }
            &&& all <==> {
                &&& shape.observations < u64::MAX
                &&& shape.identity_bytes + identity.len() <= u64::MAX
                &&& shape.steps + steps.len() <= u64::MAX
                &&& shape.step_bytes + bytes_of(steps) <= u64::MAX
            }
        }),
{
    lemma_with_steps(shape.step_bytes, steps);
}

// ---------------------------------------------------------------------------
// Bounds
// ---------------------------------------------------------------------------
proof fn lemma_one_more(count: nat, size: nat)
    ensures
        (count + 1) * size == count * size + size,
{
    assert((count + 1) * size == count * size + size) by (nonlinear_arith);
}

/// The bound counts what is held once; each further root by its entries in two trees;
/// each further active product by its name in three outcomes; and each further operator,
/// in three outcomes, by itself, its name, and the symbol of seventy-two bytes.
pub proof fn law_bound_grows_by_parts(
    shape: KnowledgeCompilationShape,
    roots: nat,
    operators: nat,
    active: nat,
    held: nat,
    bound: u64,
)
    requires
        footprint::compilation_bound(shape, roots, operators, active, held) == Ok::<
            u64,
            IntelligenceError,
        >(bound),
    ensures
        footprint::compilation_bound(shape, roots, operators, active, held + 1)
            == footprint::counted(bound as nat + 1),
        footprint::compilation_bound(shape, roots + 1, operators, active, held)
            == footprint::counted(bound as nat + 2 * footprint::tree_entry::<Digest>()),
        footprint::compilation_bound(shape, roots, operators, active + 1, held)
            == footprint::counted(bound as nat + 3 * vstd::layout::size_of::<Digest>()),
        footprint::compilation_bound(shape, roots, operators + 1, active, held)
            == footprint::counted(
            bound as nat + 3 * (vstd::layout::size_of::<DerivedOperator>()
                + vstd::layout::size_of::<Digest>() + 72),
        ),
        bound >= held + shape.identity_bytes + shape.step_bytes,
{
    lemma_one_more(roots, footprint::tree_entry::<Digest>());
    lemma_one_more(active, vstd::layout::size_of::<Digest>());
    lemma_one_more(operators, vstd::layout::size_of::<Digest>());
    lemma_one_more(operators, vstd::layout::size_of::<DerivedOperator>());
}

/// Each further observation counts by itself, by its entries in the indexes, by its name
/// in three outcomes, and by every expanded sequence in the working set and in three
/// outcomes.
pub proof fn law_bound_grows_by_observations(
    shape: KnowledgeCompilationShape,
    more: KnowledgeCompilationShape,
    roots: nat,
    operators: nat,
    active: nat,
    held: nat,
    bound: u64,
)
    requires
        footprint::compilation_bound(shape, roots, operators, active, held) == Ok::<
            u64,
            IntelligenceError,
        >(bound),
        shape.observations > 0,
        more == (KnowledgeCompilationShape {
            observations: (shape.observations + 1) as u64,
            ..shape
        }),
        2 * shape.observations + 2 <= u64::MAX,
    ensures
        footprint::compilation_bound(more, roots, operators, active, held) == footprint::counted(
            bound as nat + vstd::layout::size_of::<DerivationObservation>()
                + footprint::tree_entry::<(Digest, Digest, usize)>() + footprint::tree_entry::<
                (Vec<Vec<u8>>, (Vec<Digest>, Vec<Digest>)),
            >() + 2 * footprint::tree_entry::<Digest>() + 2 * footprint::tree_entry::<
                (Digest, u64),
            >() + 2 * vstd::layout::size_of::<(Digest, u64)>() + 3 * vstd::layout::size_of::<
                Digest,
            >() + 4 * (vstd::layout::size_of::<Vec<Vec<u8>>>() + shape.steps as nat
                * vstd::layout::size_of::<Vec<u8>>() + shape.step_bytes as nat),
        ),
{
    let n = shape.observations as nat;
    lemma_one_more(n, vstd::layout::size_of::<DerivationObservation>());
    lemma_one_more(n, footprint::tree_entry::<(Digest, Digest, usize)>());
    lemma_one_more(
        n,
        footprint::tree_entry::<(Vec<Vec<u8>>, (Vec<Digest>, Vec<Digest>))>(),
    );
    lemma_one_more(n, footprint::tree_entry::<Digest>());
    lemma_one_more(2 * n, footprint::tree_entry::<(Digest, u64)>());
    lemma_one_more(2 * n + 1, footprint::tree_entry::<(Digest, u64)>());
    lemma_one_more(2 * n, vstd::layout::size_of::<(Digest, u64)>());
    lemma_one_more(2 * n + 1, vstd::layout::size_of::<(Digest, u64)>());
    lemma_one_more(n, vstd::layout::size_of::<Digest>());
    let one = footprint::vector_total::<Vec<u8>>(shape.steps as nat) + shape.step_bytes as nat;
    assert(one * (n + 1) == one * n + one) by (nonlinear_arith);
    assert(footprint::expanded_total(more) == one * (n + 1));
    assert(footprint::expanded_total(shape) == one * n);
    assert(2 * (n + 1) == (2 * n + 1) + 1);
}

// ---------------------------------------------------------------------------
// Forks
// ---------------------------------------------------------------------------
/// A fork has the other limits and everything else of the core, and fits into them: in
/// specialists, in the width of routes, in entries, consequences, campaigns and
/// challengers. Only limits that are not valid, or too narrow, are refused.
pub proof fn law_fork_keeps_the_core(
    core: CoreView,
    limits: IntelligenceLimits,
    opportunity: OpportunitySpec,
    feature_count: nat,
)
    requires
        feature_count <= 64,
    ensures
        match core.forked(limits) {
            Ok(next) => {
                &&& limits.valid()
                &&& next.limits == limits
                &&& next.components == core.components
                &&& next.policy_import_eligible == core.policy_import_eligible
                &&& next.legacy_ftrl_import_eligible == core.legacy_ftrl_import_eligible
                &&& next.legacy_knowledge_import_eligible == core.legacy_knowledge_import_eligible
                &&& core.components.ecology.specialists.len() <= limits.maximum_specialists
                &&& ecology::routed_to(
                    core.components.ecology.specialists,
                    opportunity,
                    feature_count,
                ).len() <= limits.maximum_specialists_per_route
                &&& core.components.ledger.receipts.len() <= limits.maximum_investments * 64
                &&& core.components.ledger.settlements.len() <= limits.maximum_investments * 64
                &&& core.components.ledger.consequences.len() <= limits.maximum_forecast_cells * 64
                &&& core.components.ledger.shadows.len() <= limits.maximum_opportunities * 16
                &&& core.components.knowledge.records.len() <= limits.maximum_opportunities * 16
            },
            Err(IntelligenceError::InvalidLimits) => !limits.valid(),
            Err(IntelligenceError::CapacityExceeded) => limits.valid(),
            Err(_) => false,
        },
{
    ecology::lemma_routed_len(
        core.components.ecology.specialists,
        opportunity,
        feature_count,
    );
}

// ---------------------------------------------------------------------------
// Earlier limits
// ---------------------------------------------------------------------------
proof fn lemma_route_bounded(
    specialists: Seq<RevisionView>,
    kind: OpportunityKind,
    schema: FeatureSchemaId,
    family: Option<RoutingFamilyId>,
    feature_count: nat,
)
    ensures
        ecology::route_size(specialists, kind, schema, family, feature_count)
            <= specialists.len(),
    decreases specialists.len(),
{
    if specialists.len() > 0 {
        lemma_route_bounded(specialists.drop_last(), kind, schema, family, feature_count);
    }
}

proof fn lemma_widest_exists(specialists: Seq<RevisionView>, bound: nat) -> (size: nat)
    requires
        ecology::fanout_within(specialists, bound),
    ensures
        ecology::fanout_within(specialists, size),
        size == 0 || ecology::some_route(specialists, size),
    decreases bound,
{
    if bound == 0 || ecology::some_route(specialists, bound) {
        bound
    } else {
        let less = (bound - 1) as nat;
        assert forall|
            kind: OpportunityKind,
            schema: FeatureSchemaId,
            family: Option<RoutingFamilyId>,
            feature_count: nat,
        |
            feature_count <= 64 implies #[trigger] ecology::route_size(
            specialists,
            kind,
            schema,
            family,
            feature_count,
        ) <= less by {
            assert(ecology::route_size(specialists, kind, schema, family, feature_count) <= bound);
        }
        lemma_widest_exists(specialists, less)
    }
}

/// Where a format did not bound the width of routes, the bound is the usual one, or just
/// as wide as the widest route: every route keeps to it, and one reaches it where it is
/// wider than usual. No other limit changes.
pub proof fn law_earlier_routes_are_bounded(
    version: u8,
    base: IntelligenceLimits,
    reading: IntelligenceLimits,
    society: EcologyView,
    limits: IntelligenceLimits,
    opportunity: OpportunitySpec,
    feature_count: nat,
)
    requires
        version != 9,
        feature_count <= 64,
        society.specialists.len() <= usize::MAX,
        restore::settled_limits(version, base, reading, society) == Some(limits),
    ensures
        ecology::routed_to(society.specialists, opportunity, feature_count).len()
            <= limits.maximum_specialists_per_route,
        limits.maximum_specialists_per_route >= base.maximum_specialists_per_route,
        limits.maximum_specialists_per_route > base.maximum_specialists_per_route
            ==> ecology::some_route(
            society.specialists,
            limits.maximum_specialists_per_route as nat,
        ),
        limits.maximum_opportunities == base.maximum_opportunities,
        limits.maximum_investments == base.maximum_investments,
        limits.maximum_bids == base.maximum_bids,
        limits.maximum_forecast_cells == base.maximum_forecast_cells,
        limits.maximum_specialists == base.maximum_specialists,
        limits.maximum_model_bytes == base.maximum_model_bytes,
{
    let specialists = society.specialists;
    ecology::lemma_routed_len(specialists, opportunity, feature_count);
    assert forall|
        kind: OpportunityKind,
        schema: FeatureSchemaId,
        family: Option<RoutingFamilyId>,
        count: nat,
    |
        count <= 64 implies #[trigger] ecology::route_size(
        specialists,
        kind,
        schema,
        family,
        count,
    ) <= specialists.len() by {
        lemma_route_bounded(specialists, kind, schema, family, count);
    }
    let size = lemma_widest_exists(specialists, specialists.len());
    let widest = restore::widest(specialists);
    assert(ecology::fanout_within(specialists, widest) && (widest == 0 || ecology::some_route(
        specialists,
        widest,
    )));
    if widest != 0 {
        let (kind, schema, family, count) = choose|kind, schema, family, count: nat|
            count <= 64 && #[trigger] ecology::route_size(specialists, kind, schema, family, count)
                == widest;
        lemma_route_bounded(specialists, kind, schema, family, count);
    }
}

} // verus!
