//! Compact forecasting models as plain data: one head per axis, with weights held
//! as the bit patterns of single-precision numbers.
use vstd::prelude::*;

use crate::codec;
use crate::codec::{Decoder, Wire};
use crate::digest;
use crate::digest::{hash_labelled, Digest};
use crate::forecast;
use crate::forecast::ForecastAxis;
use crate::ledger::copied;
use crate::receipt;
use crate::receipt::features_are_finite;
use crate::resident;
use crate::resident::bytes_for;
use crate::types::IntelligenceError;

verus! {

/// How many heads of a model a bid has room for.
pub const MAXIMUM_MODEL_HEADS: usize = 32;

/// What a head consists of.
#[verifier::ext_equal]
pub struct HeadView {
    pub axis: ForecastAxis,
    pub intercept: u32,
    pub weights: Seq<u32>,
    pub calibration_error: u32,
    pub support: u32,
}

/// What a model consists of; without a feature count it looks at no feature and
/// takes any number of them.
#[verifier::ext_equal]
pub struct ModelView {
    pub features: Option<u8>,
    pub heads: Seq<HeadView>,
}

impl HeadView {
    /// Finite numbers, an error between zero and one, and as many weights as
    /// there are features.
    pub open spec fn valid(self, features: Option<u8>) -> bool {
        &&& forecast::finite(self.intercept)
        &&& receipt::all_finite(self.weights)
        &&& forecast::in_unit_interval(self.calibration_error)
        &&& self.weights.len() == match features {
            Some(count) => count as nat,
            None => 0,
        }
    }
}

/// The axes of some heads, in order.
pub open spec fn head_axes(heads: Seq<HeadView>) -> Seq<ForecastAxis> {
    Seq::new(heads.len(), |i: int| heads[i].axis)
}

/// The smallest support among some heads, starting from a bound.
pub open spec fn least_support(heads: Seq<HeadView>) -> u32
    decreases heads.len(),
{
    if heads.len() == 0 {
        u32::MAX
    } else {
        let earlier = least_support(heads.drop_last());
        if heads.last().support < earlier {
            heads.last().support
        } else {
            earlier
        }
    }
}

/// The bytes that the weights of some heads take.
pub open spec fn weight_bytes(heads: Seq<HeadView>) -> nat
    decreases heads.len(),
{
    if heads.len() == 0 {
        0
    } else {
        resident::capped_sum(
            weight_bytes(heads.drop_last()),
            resident::room::<u32>(heads.last().weights.len()),
        )
    }
}

impl ModelView {
    /// Some heads on distinct axes, each valid.
    pub open spec fn valid(self) -> bool {
        &&& self.heads.len() > 0
        &&& forecast::distinct_axes(head_axes(self.heads))
        &&& self.features matches Some(count) ==> count <= 64
        &&& forall|i: int|
            0 <= i < self.heads.len() ==> (#[trigger] self.heads[i]).valid(self.features)
    }

    pub open spec fn accepts(self, feature_count: nat) -> bool {
        self.features matches Some(count) ==> feature_count == count
    }

    /// The bytes its heads take beside the model itself.
    pub open spec fn bytes(self) -> nat {
        resident::capped_sum(
            resident::room::<ModelHead>(self.heads.len()),
            weight_bytes(self.heads),
        )
    }
}

/// One head of a model.
#[derive(Clone, Debug, PartialEq, Eq)]
pub struct ModelHead {
    pub axis: ForecastAxis,
    pub intercept: u32,
    pub weights: Vec<u32>,
    pub calibration_error: u32,
    pub support: u32,
}

impl View for ModelHead {
    type V = HeadView;

    open spec fn view(&self) -> HeadView {
        HeadView {
            axis: self.axis,
            intercept: self.intercept,
            weights: self.weights@,
            calibration_error: self.calibration_error,
            support: self.support,
        }
    }
}

impl ModelHead {
    pub fn duplicate(&self) -> (copy: Self)
        ensures
            copy@ == self@,
    {
        ModelHead {
            axis: self.axis,
            intercept: self.intercept,
            weights: copied(self.weights.as_slice()),
            calibration_error: self.calibration_error,
            support: self.support,
        }
    }

    fn is_valid(&self, features: Option<u8>) -> (result: bool)
        ensures
            result == self@.valid(features),
    {
        let expected: usize = match features {
            Some(count) => count as usize,
            None => 0,
        };
        forecast::is_finite(self.intercept) && features_are_finite(self.weights.as_slice())
            && forecast::is_in_unit_interval(self.calibration_error) && self.weights.len()
            == expected
    }
}

impl Wire<()> for ModelHead {
    open spec fn wire(format: (), value: HeadView) -> Seq<u8> {
        ForecastAxis::wire((), value.axis) + (codec::put_u32(value.intercept) + (codec::put_list::<
            (),
            u32,
        >((), value.weights) + (codec::put_u32(value.calibration_error) + codec::put_u32(
            value.support,
        ))))
    }

    open spec fn parse(format: (), input: Seq<u8>) -> Option<(HeadView, Seq<u8>)> {
        match ForecastAxis::parse((), input) {
            None => None,
            Some((axis, rest)) => match codec::parse_u32(rest) {
                None => None,
                Some((intercept, rest)) => match codec::parse_list::<(), u32>((), rest, 64, 4) {
                    None => None,
                    Some((weights, rest)) => match codec::parse_u32(rest) {
                        None => None,
                        Some((calibration_error, rest)) => match codec::parse_u32(rest) {
                            None => None,
                            Some((support, rest)) => Some(
                                (
                                    HeadView { axis, intercept, weights, calibration_error, support },
                                    rest,
                                ),
                            ),
                        },
                    },
                },
            },
        }
    }

    open spec fn admissible(format: (), value: HeadView) -> bool {
        value.weights.len() <= 64
    }

    open spec fn least_bytes(format: ()) -> nat {
        21
    }

    proof fn lemma_round_trip(format: (), value: HeadView, rest: Seq<u8>) {
        broadcast use digest::group_digest;

        codec::lemma_list_round_trip::<(), u32>(
            (),
            value.weights,
            64,
            4,
            codec::put_u32(value.calibration_error) + (codec::put_u32(value.support) + rest),
        );
    }

    proof fn lemma_least_bytes(format: (), value: HeadView) {
        broadcast use digest::group_digest;

    }

    fn write(&self, format: &(), output: &mut Vec<u8>) {
        broadcast use digest::group_digest;

        assert(codec::views(self.weights@) =~= self.weights@);
        self.axis.write(&(), output);
        codec::write_u32(self.intercept, output);
        codec::write_list::<(), u32>(&(), self.weights.as_slice(), output);
        codec::write_u32(self.calibration_error, output);
        codec::write_u32(self.support, output);
    }

    fn read(format: &(), input: &mut Decoder<'_>) -> (result: Result<Self, ()>) {
        let axis = ForecastAxis::read(&(), input)?;
        let intercept: u32 = input.read_u32()?;
        let weights = codec::read_list::<(), u32>(&(), input, 64, 4)?;
        let calibration_error: u32 = input.read_u32()?;
        let support: u32 = input.read_u32()?;
        assert(codec::views(weights@) =~= weights@);
        Ok(ModelHead { axis, intercept, weights, calibration_error, support })
    }
}

/// A model of a few heads.
#[derive(Clone, Debug, PartialEq, Eq)]
pub struct CompactModel {
    features: Option<u8>,
    heads: Vec<ModelHead>,
}

impl View for CompactModel {
    type V = ModelView;

    closed spec fn view(&self) -> ModelView {
        ModelView { features: self.features, heads: codec::views(self.heads@) }
    }
}

pub fn axes_of_heads(heads: &[ModelHead]) -> (axes: Vec<ForecastAxis>)
    ensures
        axes@ == head_axes(codec::views(heads@)),
{
    let mut axes: Vec<ForecastAxis> = Vec::new();
    let mut index: usize = 0;
    while index < heads.len()
        invariant
            index <= heads@.len(),
            axes@.len() == index,
            forall|i: int| 0 <= i < index ==> axes@[i] == heads@[i].axis,
        decreases heads@.len() - index,
    {
        axes.push(heads[index].axis);
        index = index + 1;
    }
    assert(axes@ =~= head_axes(codec::views(heads@)));
    axes
}

impl CompactModel {
    /// A model of the given heads.
    pub fn new(features: Option<u8>, heads: Vec<ModelHead>) -> (result: Result<
        Self,
        IntelligenceError,
    >)
        ensures
            ({
                let view = ModelView { features, heads: codec::views(heads@) };
                match result {
                    Ok(model) => view.valid() && model@ == view,
                    Err(error) => !view.valid() && error == IntelligenceError::InvalidModel,
                }
            }),
    {
        let ghost view = ModelView { features, heads: codec::views(heads@) };
        let axes = axes_of_heads(heads.as_slice());
        if heads.len() == 0 || !forecast::axes_are_distinct(axes.as_slice()) {
            return Err(IntelligenceError::InvalidModel);
        }
        match features {
            Some(count) => {
                if count > 64 {
                    return Err(IntelligenceError::InvalidModel);
                }
            },
            None => {},
        }
        let mut index: usize = 0;
        while index < heads.len()
            invariant
                index <= heads@.len(),
                view == (ModelView { features, heads: codec::views(heads@) }),
                forall|i: int| 0 <= i < index ==> (#[trigger] view.heads[i]).valid(features),
            decreases heads@.len() - index,
        {
            if !heads[index].is_valid(features) {
                assert(!view.heads[index as int].valid(features));
                return Err(IntelligenceError::InvalidModel);
            }
            assert(view.heads[index as int] == heads@[index as int]@);
            index = index + 1;
        }
        Ok(CompactModel { features, heads })
    }

    pub fn duplicate(&self) -> (copy: Self)
        ensures
            copy@ == self@,
    {
        let mut heads: Vec<ModelHead> = Vec::new();
        let mut index: usize = 0;
        while index < self.heads.len()
            invariant
                index <= self.heads@.len(),
                heads@.len() == index,
                forall|i: int| 0 <= i < index ==> (#[trigger] heads@[i])@ == self.heads@[i]@,
            decreases self.heads@.len() - index,
        {
            heads.push(self.heads[index].duplicate());
            index = index + 1;
        }
        let copy = CompactModel { features: self.features, heads };
        assert(copy@ =~= self@);
        copy
    }

    pub fn heads(&self) -> (heads: &[ModelHead])
        ensures
            codec::views(heads@) == self@.heads,
    {
        self.heads.as_slice()
    }

    pub fn features(&self) -> (features: Option<u8>)
        ensures
            features == self@.features,
    {
        self.features
    }

    pub fn forecast_count(&self) -> (count: usize)
        ensures
            count == self@.heads.len(),
    {
        self.heads.len()
    }

    pub fn accepts_feature_count(&self, feature_count: usize) -> (result: bool)
        ensures
            result == self@.accepts(feature_count as nat),
    {
        match self.features {
            Some(count) => feature_count == count as usize,
            None => true,
        }
    }

    pub fn minimum_support(&self) -> (support: u32)
        ensures
            support == least_support(self@.heads),
    {
        let mut least: u32 = u32::MAX;
        let mut index: usize = 0;
        let ghost views = codec::views(self.heads@);
        assert(views.take(0) =~= Seq::empty());
        while index < self.heads.len()
            invariant
                index <= self.heads@.len(),
                views == codec::views(self.heads@),
                least == least_support(views.take(index as int)),
            decreases self.heads@.len() - index,
        {
            if self.heads[index].support < least {
                least = self.heads[index].support;
            }
            assert(views.take(index + 1).drop_last() =~= views.take(index as int));
            assert(views.take(index + 1).last() == self.heads@[index as int]@);
            index = index + 1;
        }
        assert(views.take(views.len() as int) =~= views);
        least
    }

    pub fn resident_bytes(&self) -> (bytes: usize)
        ensures
            bytes == self@.bytes(),
    {
        let mut weights: usize = 0;
        let mut index: usize = 0;
        let ghost views = codec::views(self.heads@);
        assert(views.take(0) =~= Seq::empty());
        while index < self.heads.len()
            invariant
                index <= self.heads@.len(),
                views == codec::views(self.heads@),
                weights == weight_bytes(views.take(index as int)),
            decreases self.heads@.len() - index,
        {
            weights = weights.saturating_add(bytes_for::<u32>(self.heads[index].weights.len()));
            assert(views.take(index + 1).drop_last() =~= views.take(index as int));
            assert(views.take(index + 1).last() == self.heads@[index as int]@);
            index = index + 1;
        }
        assert(views.take(views.len() as int) =~= views);
        bytes_for::<ModelHead>(self.heads.len()).saturating_add(weights)
    }

    /// The name that follows from what the model consists of.
    pub fn content_identity(&self) -> (identity: Digest)
        ensures
            identity == digest::labelled(
                "reflex-compact-model-v1\0",
                CompactModel::wire((), self@),
            ),
    {
        let mut encoded: Vec<u8> = Vec::new();
        self.write(&(), &mut encoded);
        assert(encoded@ =~= CompactModel::wire((), self@));
        hash_labelled("reflex-compact-model-v1\0", encoded.as_slice())
    }
}

/// How many features a model looks at.
pub open spec fn put_features(features: Option<u8>) -> Seq<u8> {
    match features {
        None => codec::put_u8(0),
        Some(count) => codec::put_u8(1) + codec::put_u8(count),
    }
}

pub open spec fn parse_features(input: Seq<u8>) -> Option<(Option<u8>, Seq<u8>)> {
    match codec::parse_u8(input) {
        None => None,
        Some((tag, rest)) => if tag == 0 {
            Some((None, rest))
        } else if tag == 1 {
            match codec::parse_u8(rest) {
                None => None,
                Some((count, rest)) => Some((Some(count), rest)),
            }
        } else {
            None
        },
    }
}

fn read_features(input: &mut Decoder<'_>) -> (result: Result<Option<u8>, ()>)
    ensures
        codec::reads(result, final(input)@, parse_features(old(input)@)),
{
    let tag: u8 = input.read_u8()?;
    if tag == 0 {
        Ok(None)
    } else if tag == 1 {
        let count: u8 = input.read_u8()?;
        Ok(Some(count))
    } else {
        Err(())
    }
}

impl Wire<()> for CompactModel {
    open spec fn wire(format: (), value: ModelView) -> Seq<u8> {
        put_features(value.features) + codec::put_list::<(), ModelHead>((), value.heads)
    }

    open spec fn parse(format: (), input: Seq<u8>) -> Option<(ModelView, Seq<u8>)> {
        match parse_features(input) {
            None => None,
            Some((features, rest)) => match codec::parse_list::<(), ModelHead>((), rest, 9, 21) {
                None => None,
                Some((heads, rest)) => if (ModelView { features, heads }).valid() {
                    Some((ModelView { features, heads }, rest))
                } else {
                    None
                },
            },
        }
    }

    open spec fn admissible(format: (), value: ModelView) -> bool {
        value.valid()
    }

    open spec fn least_bytes(format: ()) -> nat {
        9
    }

    proof fn lemma_round_trip(format: (), value: ModelView, rest: Seq<u8>) {
        broadcast use digest::group_digest;

        forecast::lemma_distinct_axes_bounded(head_axes(value.heads));
        assert forall|i: int| 0 <= i < value.heads.len() implies ModelHead::admissible(
            (),
            #[trigger] value.heads[i],
        ) by {
            assert(value.heads[i].valid(value.features));
        }
        codec::lemma_list_round_trip::<(), ModelHead>((), value.heads, 9, 21, rest);
    }

    proof fn lemma_least_bytes(format: (), value: ModelView) {
        broadcast use digest::group_digest;

    }

    fn write(&self, format: &(), output: &mut Vec<u8>) {
        broadcast use digest::group_digest;

        match self.features {
            None => codec::write_u8(0, output),
            Some(count) => {
                codec::write_u8(1, output);
                codec::write_u8(count, output);
            },
        }
        codec::write_list::<(), ModelHead>(&(), self.heads.as_slice(), output);
    }

    fn read(format: &(), input: &mut Decoder<'_>) -> (result: Result<Self, ()>) {
        let features = read_features(input)?;
        let heads = codec::read_list::<(), ModelHead>(&(), input, 9, 21)?;
        match CompactModel::new(features, heads) {
            Ok(model) => Ok(model),
            Err(_) => Err(()),
        }
    }
}

} // verus!
