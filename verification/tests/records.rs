//! Mandates, products and receipts in their byte forms.
use reflex_intelligence::arena::OpportunityKind;
use reflex_intelligence::challenger::KnowledgeProduct;
use reflex_intelligence::codec::Decoder;
use reflex_intelligence::digest::Digest;
use reflex_intelligence::ecology::SpecialistMandate;
use reflex_intelligence::forecast::{Forecast, ForecastAxis, MAXIMUM_TYPED_FORECASTS};
use reflex_intelligence::investment::InvestmentTag;
use reflex_intelligence::receipt::{decision_id, InvestmentReceipt};
use reflex_intelligence::types::{
    AllocationSource, FeatureSchemaId, IntelligenceError, ResourceVector, RoleId, RoutingFamilyId,
    SubjectId,
};

#[test]
fn mandate_decoder_rejects_empty_and_unknown_opportunity_filters() {
    let mandate = SpecialistMandate::for_opportunities(
        RoleId::new("decode-adversary").unwrap(),
        &[ForecastAxis::ImmediateImprovement],
        &[OpportunityKind::Candidate],
        &[FeatureSchemaId::new([61; 32])],
    )
    .unwrap();
    let mut encoded = Vec::new();
    mandate.encode_canonical(&mut encoded);
    assert_eq!(
        SpecialistMandate::decode_canonical(&mut Decoder::new(&encoded)).unwrap(),
        mandate
    );

    let mut empty_kinds = encoded.clone();
    empty_kinds[32..40].copy_from_slice(&0_u64.to_le_bytes());
    assert!(SpecialistMandate::decode_canonical(&mut Decoder::new(&empty_kinds)).is_err());

    let mut unknown_kind = encoded.clone();
    unknown_kind[40] = u8::MAX;
    assert!(SpecialistMandate::decode_canonical(&mut Decoder::new(&unknown_kind)).is_err());

    let mut empty_schemas = encoded;
    empty_schemas[41..49].copy_from_slice(&0_u64.to_le_bytes());
    assert!(SpecialistMandate::decode_canonical(&mut Decoder::new(&empty_schemas)).is_err());
}

#[test]
fn cloning_a_knowledge_product_shares_its_opaque_payload() {
    let product = KnowledgeProduct::derived_operator(SubjectId::new([7; 32]))
        .with_bytes(vec![0x5a; 1024 * 1024])
        .unwrap();
    let cloned = product.duplicate();

    assert!(product.shares_payload_with(&cloned));
}

#[test]
fn products_with_equal_payloads_need_not_share_them() {
    let first = KnowledgeProduct::artifact(SubjectId::new([7; 32]))
        .with_bytes(vec![1, 2, 3])
        .unwrap();
    let second = KnowledgeProduct::artifact(SubjectId::new([7; 32]))
        .with_bytes(vec![1, 2, 3])
        .unwrap();
    assert!(first.same(&second));
    assert!(!first.shares_payload_with(&second));
}

#[test]
fn receipt_decoder_rejects_hostile_oversized_forecast_vectors() {
    let active_revision = Digest::new([17; 32]);
    let epoch = 3;
    let investment = Digest::new([18; 32]);
    let source = AllocationSource::Bootstrap;
    let policy_rank = 4;
    // With a support of 63 the uncertainty is one eighth.
    let forecast = Forecast::with_uncertainty(
        ForecastAxis::ImmediateImprovement,
        0.75_f32.to_bits(),
        0.125_f32.to_bits(),
        0.125_f32.to_bits(),
        63,
    )
    .unwrap();
    let receipt = InvestmentReceipt::new(
        decision_id(active_revision, epoch, policy_rank, investment, source),
        epoch,
        investment,
        Digest::new([19; 32]),
        Digest::new([19; 32]),
        OpportunityKind::Candidate,
        FeatureSchemaId::built_in(1),
        RoutingFamilyId::generic(),
        &[],
        InvestmentTag::Verify,
        source,
        active_revision,
        policy_rank,
        0,
        5,
        &[forecast],
        ResourceVector::new(1, 2, 3, 4, 5),
    )
    .unwrap();
    let mut encoded = Vec::new();
    receipt.encode_canonical(&mut encoded);
    assert_eq!(encoded.len(), receipt.canonical_encoded_len());
    let forecast_count_offset = encoded.len() - 40 - 17 - 1;
    assert_eq!(encoded[forecast_count_offset], 1);
    encoded[forecast_count_offset] = u8::try_from(MAXIMUM_TYPED_FORECASTS + 1).unwrap();

    assert!(InvestmentReceipt::decode_canonical(&mut Decoder::new(&encoded)).is_err());

    let oversized = vec![forecast; MAXIMUM_TYPED_FORECASTS + 1];
    assert_eq!(
        InvestmentReceipt::new(
            decision_id(active_revision, epoch, policy_rank, investment, source),
            epoch,
            investment,
            Digest::new([19; 32]),
            Digest::new([19; 32]),
            OpportunityKind::Candidate,
            FeatureSchemaId::built_in(1),
            RoutingFamilyId::generic(),
            &[],
            InvestmentTag::Verify,
            source,
            active_revision,
            policy_rank,
            0,
            5,
            &oversized,
            ResourceVector::new(1, 2, 3, 4, 5),
        ),
        Err(IntelligenceError::InvalidForecast)
    );
}
