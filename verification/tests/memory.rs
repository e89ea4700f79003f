//! Memory: what is counted is what is taken.
use reflex_intelligence::allocation::{buffer_bytes, Allocation, BidRecord, PortfolioBuffer};
use reflex_intelligence::causal::{ConsequenceEdge, InvestmentSettlement};
use reflex_intelligence::compiler::KnowledgeCompiler;
use reflex_intelligence::consolidation::{
    ConsolidationChallenger, DerivedOperator, KnowledgeState, OperatorStep,
};
use reflex_intelligence::digest::{hash_bytes, Digest, DIGEST_BYTES};
use reflex_intelligence::ecology::{society_bytes, SpecialistRevision};
use reflex_intelligence::footprint::{
    arc_vec_allocation_bytes, btree_capacity_bytes, core_bytes, interruption_bytes, ledger_bytes,
    materialization_bytes, reservation_bytes, vector_capacity_bytes, KnowledgeCompilationShape,
};
use reflex_intelligence::forecast::ScoredForecast;
use reflex_intelligence::intelligence::IntelligenceCore;
use reflex_intelligence::market::{market_bytes, InvestmentRecord, MarketArena, OpportunityRecord};
use reflex_intelligence::policy::PinnedPolicy;
use reflex_intelligence::receipt::InvestmentReceipt;
use reflex_intelligence::recovery::work_bytes;
use reflex_intelligence::resident::{
    bytes_for, growth_bytes, reserved, resident_u64, vector_heap_bytes,
};
use reflex_intelligence::shadow::{ContextualContrast, ShadowCampaignState, ShadowUpdate};
use reflex_intelligence::transition::SettlementFrame;
use reflex_intelligence::types::{IntelligenceError, IntelligenceLimits};
use std::mem::size_of;

fn limits() -> IntelligenceLimits {
    IntelligenceLimits::new(8, 16, 16, 128, 4, 64 * 1024).unwrap()
}

#[test]
fn lists_take_what_they_have_room_for() {
    let mut list: Vec<u32> = Vec::with_capacity(8);
    list.push(1);
    assert_eq!(vector_heap_bytes(&list), list.capacity() * 4);
    assert_eq!(bytes_for::<u64>(3), 24);
    assert_eq!(bytes_for::<u64>(usize::MAX), usize::MAX);
    assert_eq!(resident_u64(7), 7);
    assert_eq!(growth_bytes::<u32>(1, 8, 7), 0, "there is room for seven more");
    assert_eq!(growth_bytes::<u32>(1, 8, 8), 32, "the room is doubled");
    assert_eq!(growth_bytes::<u32>(8, 8, 20), 80, "or made to fit");
    assert_eq!(growth_bytes::<u8>(0, 0, 1), 8, "or has its least size");
    assert_eq!(growth_bytes::<u32>(0, 0, 1), 16);
}

#[test]
fn room_is_reserved_or_refused() {
    let list: Vec<u64> = reserved(5).unwrap();
    assert!(list.is_empty());
    assert!(list.capacity() >= 5);
    assert_eq!(reserved::<u64>(0), Ok(Vec::new()), "room for nothing is there");
    assert_eq!(
        reserved::<u64>(usize::MAX),
        Err(IntelligenceError::CapacityExceeded),
    );
}

#[test]
fn capacities_are_priced_by_the_size_of_what_they_hold() {
    let header = std::mem::size_of::<Vec<u64>>() as u64;
    let words = std::mem::size_of::<usize>() as u64;
    let tree = std::mem::size_of::<std::collections::BTreeMap<u64, u8>>() as u64;
    assert_eq!(vector_capacity_bytes::<u64>(0), Ok(header));
    assert_eq!(vector_capacity_bytes::<u64>(4), Ok(header + 32));
    assert_eq!(btree_capacity_bytes::<u64>(3), Ok(tree + 3 * (8 + 4 * words)));
    assert_eq!(
        vector_capacity_bytes::<u64>(u64::MAX),
        Err(IntelligenceError::ResourceOverflow),
    );
    assert_eq!(
        btree_capacity_bytes::<u64>(u64::MAX),
        Err(IntelligenceError::ResourceOverflow),
    );
    assert_eq!(
        arc_vec_allocation_bytes(),
        2 * words + std::mem::size_of::<Vec<u8>>() as u64,
    );
}

#[test]
fn empty_markets_and_portfolios_take_their_layout() {
    let layout = limits().scratch_layout().unwrap();
    let market = MarketArena::try_with_capacity(limits()).unwrap();
    let output = PortfolioBuffer::try_with_capacity(limits()).unwrap();
    assert_eq!(market.resident_bytes(), layout.market_bytes());
    assert_eq!(output.resident_bytes(), layout.portfolio_bytes());
    assert_eq!(
        layout.total_bytes(),
        layout.market_bytes() + layout.portfolio_bytes(),
    );
    let room = market.capacities();
    assert!(room.0 >= 8 && room.1 >= 16 && room.2 >= 8);
    assert_eq!(output.capacities()[1..5], [16, 16, 128, 16]);
    assert_eq!(limits().routed_bid_capacity(), Ok(16));
    assert_eq!(limits().routed_forecast_capacity(), Ok(128));
}

#[test]
fn a_transition_needs_more_than_the_core_keeps() {
    let core = IntelligenceCore::fresh::<PinnedPolicy>(limits());
    let least = core.transition_resident_bytes(0, 0, 0, None, 0);
    assert!(least > 0);
    assert!(core.transition_resident_bytes(1, 0, 0, None, 0) > least);
    assert!(core.transition_resident_bytes(0, 1, 0, None, 0) > least);
    assert!(core.transition_resident_bytes(0, 0, 1, None, 0) > least);
    assert!(core.transition_resident_bytes(0, 0, 0, None, 64) > least);
    assert_eq!(
        core.transition_resident_bytes(0, 0, 0, Some(u64::MAX), 0),
        u64::MAX,
    );
}

#[test]
fn a_shape_grows_with_what_is_observed() {
    let core = IntelligenceCore::fresh::<PinnedPolicy>(limits());
    let mut shape = KnowledgeCompilationShape::default();
    let mut previous = core
        .knowledge_compilation_resident_bound(shape, 1, 4, 16)
        .unwrap();
    for _ in 0..3 {
        shape
            .observe(b"identity", &[b"first".to_vec(), b"second".to_vec()])
            .unwrap();
        let bound = core
            .knowledge_compilation_resident_bound(shape, 1, 4, 16)
            .unwrap();
        assert!(bound > previous);
        previous = bound;
    }
}

#[test]
fn a_recovery_manifest_takes_what_was_counted_for_it() {
    let mut state = KnowledgeState::default();
    let exact = ConsolidationChallenger {
        product: Digest::new([70; 32]),
        base_product: state.product(),
        source: Digest::new([20; 32]),
        support: Digest::new([21; 32]),
        operators: vec![DerivedOperator {
            id: hash_bytes(b"simplify"),
            steps: vec![
                OperatorStep { bytes: b"first".to_vec() },
                OperatorStep { bytes: b"second".to_vec() },
            ],
            support: (1_u8..=8).map(|case| Digest::new([case; 32])).collect(),
        }],
    };
    state.activate_reverified_challenger(&exact).unwrap();
    let mut compiler = KnowledgeCompiler::default();
    compiler.import_legacy_active(&state, limits()).unwrap();
    let revision = Digest::new([1; 32]);
    let root = compiler.canonical_root();
    let counted = compiler.recovery_manifest_resident_bytes(limits()).unwrap();
    let manifest = compiler.recovery_manifest(revision, root, limits()).unwrap();
    assert_eq!(manifest.heap_bytes(), counted);
    assert_eq!(manifest.obligation_count(), 1);
    assert!(work_bytes(manifest.obligations()[0].work()) > 0);
    assert!(manifest.matches(revision, root));
    assert!(!manifest.matches(root, revision));
}

#[test]
fn the_room_of_a_ledger_is_priced_list_by_list() {
    let one = size_of::<InvestmentReceipt>()
        + 2 * size_of::<InvestmentSettlement>()
        + 3 * size_of::<ConsequenceEdge>()
        + 4 * size_of::<ContextualContrast>()
        + 5 * size_of::<ShadowCampaignState>();
    assert_eq!(ledger_bytes(1, 2, 3, 4, 5), one);
    assert_eq!(ledger_bytes(0, 0, 0, 0, 0), 0);
    assert_eq!(ledger_bytes(usize::MAX, 1, 1, 1, 1), usize::MAX);
}

#[test]
fn a_step_is_priced_by_the_lists_that_grow() {
    assert_eq!(reservation_bytes((3, 4, 1), (3, 4, 1), (0, 0, 0)), 0);
    assert_eq!(
        reservation_bytes((4, 4, 1), (4, 8, 1), (0, 0, 2)),
        4 * size_of::<InvestmentReceipt>() + 4 * size_of::<ConsequenceEdge>(),
        "one list is doubled, one has room, one gets its least size",
    );
    assert_eq!(
        reservation_bytes((4, 4, 1), (4, 4, 5), (0, 0, 0)),
        4 * size_of::<InvestmentReceipt>() + 5 * size_of::<InvestmentSettlement>(),
    );
    assert_eq!(
        reservation_bytes((0, 0, usize::MAX), (0, 0, 1), (0, 0, 1)),
        usize::MAX,
    );
}

#[test]
fn a_core_takes_its_parts_and_itself() {
    let own = size_of::<IntelligenceCore>() as u64;
    assert_eq!(core_bytes(0, 0, 0, 0, 0), own);
    assert_eq!(core_bytes(1, 20, 300, 4000, 50_000), own + 54_321);
    assert_eq!(core_bytes(usize::MAX, 1, 0, 0, 0), usize::MAX as u64);
    let core = IntelligenceCore::fresh::<PinnedPolicy>(limits());
    assert!(core.resident_bytes() >= own + core.checkpoint_bytes().len() as u64);
}

#[test]
fn an_interruption_takes_a_step_the_records_and_the_updates() {
    let update = size_of::<ShadowUpdate>() as u64;
    assert_eq!(interruption_bytes(100, 20, 3), 120 + 3 * update);
    assert_eq!(interruption_bytes(u64::MAX, 1, 0), u64::MAX);
    let core = IntelligenceCore::fresh::<PinnedPolicy>(limits());
    assert_eq!(
        core.shadow_interruption_transition_resident_bytes(2, 0),
        core.transition_resident_bytes(0, 0, 0, None, 0) + 2 * update,
        "no record has been kept yet",
    );
}

#[test]
fn taking_a_step_takes_its_checkpoint_and_the_growth() {
    let shared = arc_vec_allocation_bytes();
    assert_eq!(materialization_bytes(100, 0, 7), 7, "nothing was recorded");
    assert_eq!(materialization_bytes(100, 20, 7), 127 + shared);
    assert_eq!(materialization_bytes(100, 20, u64::MAX), u64::MAX);
    let core = IntelligenceCore::fresh::<PinnedPolicy>(limits());
    let transition = core.stage::<PinnedPolicy>(SettlementFrame::empty()).unwrap();
    assert_eq!(transition.materialization_resident_bytes(&core), 0);
}

#[test]
fn markets_and_buffers_are_priced_by_their_room() {
    assert_eq!(
        market_bytes(2, 3, 5) as usize,
        size_of::<MarketArena>()
            + 2 * size_of::<OpportunityRecord>()
            + 3 * size_of::<InvestmentRecord>()
            + 5 * 4,
    );
    assert_eq!(
        buffer_bytes([1, 2, 3, 4, 5, 6]) as usize,
        size_of::<PortfolioBuffer>()
            + size_of::<Allocation>()
            + 2 * size_of::<usize>()
            + 3 * size_of::<BidRecord>()
            + 4 * size_of::<ScoredForecast>()
            + 5
            + 6 * size_of::<InvestmentReceipt>(),
    );
    let market = MarketArena::try_with_capacity(limits()).unwrap();
    let room = market.capacities();
    assert_eq!(market.resident_bytes(), market_bytes(room.0, room.1, room.2));
    let output = PortfolioBuffer::try_with_capacity(limits()).unwrap();
    assert_eq!(output.resident_bytes(), buffer_bytes(output.capacities()));
}

#[test]
fn a_society_takes_its_specialists_and_its_free_places() {
    let place = size_of::<SpecialistRevision>();
    assert_eq!(society_bytes(1000, 3, 3), 1000);
    assert_eq!(society_bytes(1000, 3, 4), 1000 + place);
    assert_eq!(society_bytes(1000, 3, 2), 1000);
    assert_eq!(society_bytes(usize::MAX, 0, 1), usize::MAX);
}

#[test]
fn an_identity_takes_its_bytes() {
    assert_eq!(size_of::<Digest>(), DIGEST_BYTES);
    assert_eq!(Digest::new([7; 32]).to_bytes().len(), DIGEST_BYTES);
}
