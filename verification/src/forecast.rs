//! Typed forecasts, their canonical bytes and the order in which they rank bids.
//!
//! Single-precision numbers are held as their IEEE 754 bit patterns.
use vstd::prelude::*;

use crate::codec;
use crate::codec::{Decoder, Wire};
use crate::digest;
use crate::types::{IntelligenceError, ResourceVector};

verus! {

/// How many typed forecasts one bid carries at most: one per axis.
pub const MAXIMUM_TYPED_FORECASTS: usize = 9;

// ---------------------------------------------------------------------------
// Bit patterns of single-precision numbers
// ---------------------------------------------------------------------------
/// The pattern of one.
pub const ONE_BITS: u32 = 0x3f80_0000;

/// The pattern of negative zero.
pub const NEGATIVE_ZERO_BITS: u32 = 0x8000_0000;

/// Neither infinite nor undefined: the exponent field is not all ones.
pub open spec fn finite(bits: u32) -> bool {
    (bits / 0x80_0000) % 256 != 255
}

pub fn is_finite(bits: u32) -> (result: bool)
    ensures
        result == finite(bits),
{
    (bits / 0x80_0000) % 256 != 255
}

/// A number from zero to one, both included.
pub open spec fn in_unit_interval(bits: u32) -> bool {
    bits <= ONE_BITS || bits == NEGATIVE_ZERO_BITS
}

pub fn is_in_unit_interval(bits: u32) -> (result: bool)
    ensures
        result == in_unit_interval(bits),
{
    bits <= ONE_BITS || bits == NEGATIVE_ZERO_BITS
}

/// The pattern, with both zeros written the same way.
pub open spec fn magnitude(bits: u32) -> u32 {
    if bits == NEGATIVE_ZERO_BITS {
        0
    } else {
        bits
    }
}

/// Two finite patterns that stand for the same number.
pub open spec fn same_number(left: u32, right: u32) -> bool {
    magnitude(left) == magnitude(right)
}

pub fn is_same_number(left: u32, right: u32) -> (result: bool)
    ensures
        result == same_number(left, right),
{
    left == right || (left == 0 || left == NEGATIVE_ZERO_BITS) && (right == 0 || right
        == NEGATIVE_ZERO_BITS)
}

/// The rank of a pattern in the total order of IEEE 754: negative patterns by
/// falling magnitude, then positive ones by rising magnitude.
pub open spec fn total_rank(bits: u32) -> int {
    if bits < NEGATIVE_ZERO_BITS {
        bits as int
    } else {
        NEGATIVE_ZERO_BITS - 1 - bits
    }
}

fn rank_of(bits: u32) -> (rank: i64)
    ensures
        rank == total_rank(bits),
{
    if bits < NEGATIVE_ZERO_BITS {
        bits as i64
    } else {
        0x7fff_ffff - (bits as i64)
    }
}

// ---------------------------------------------------------------------------
// Axes
// ---------------------------------------------------------------------------
/// What a forecast is about.
#[derive(Clone, Copy, Debug, PartialEq, Eq, Hash, Structural)]
pub enum ForecastAxis {
    KernelAcceptance,
    ImmediateImprovement,
    UsefulDescendants,
    CrossGoalLeverage,
    CompressionValue,
    InformationValue,
    Novelty,
    DeadEndRisk,
    VerificationCost,
}

impl View for ForecastAxis {
    type V = ForecastAxis;

    open spec fn view(&self) -> ForecastAxis {
        *self
    }
}

impl ForecastAxis {
    /// The wire tag, from one to nine in declaration order.
    pub open spec fn tag_spec(self) -> u8 {
        match self {
            ForecastAxis::KernelAcceptance => 1,
            ForecastAxis::ImmediateImprovement => 2,
            ForecastAxis::UsefulDescendants => 3,
            ForecastAxis::CrossGoalLeverage => 4,
            ForecastAxis::CompressionValue => 5,
            ForecastAxis::InformationValue => 6,
            ForecastAxis::Novelty => 7,
            ForecastAxis::DeadEndRisk => 8,
            ForecastAxis::VerificationCost => 9,
        }
    }

    pub open spec fn decode_spec(tag: u8) -> Option<ForecastAxis> {
        match tag {
            1 => Some(ForecastAxis::KernelAcceptance),
            2 => Some(ForecastAxis::ImmediateImprovement),
            3 => Some(ForecastAxis::UsefulDescendants),
            4 => Some(ForecastAxis::CrossGoalLeverage),
            5 => Some(ForecastAxis::CompressionValue),
            6 => Some(ForecastAxis::InformationValue),
            7 => Some(ForecastAxis::Novelty),
            8 => Some(ForecastAxis::DeadEndRisk),
            9 => Some(ForecastAxis::VerificationCost),
            _ => None,
        }
    }

    pub fn tag(self) -> (tag: u8)
        ensures
            tag == self.tag_spec(),
    {
        match self {
            ForecastAxis::KernelAcceptance => 1,
            ForecastAxis::ImmediateImprovement => 2,
            ForecastAxis::UsefulDescendants => 3,
            ForecastAxis::CrossGoalLeverage => 4,
            ForecastAxis::CompressionValue => 5,
            ForecastAxis::InformationValue => 6,
            ForecastAxis::Novelty => 7,
            ForecastAxis::DeadEndRisk => 8,
            ForecastAxis::VerificationCost => 9,
        }
    }

    /// Whether larger values are preferred.
    pub open spec fn rewards_growth(self) -> bool {
        !(self is DeadEndRisk || self is VerificationCost)
    }

    pub fn higher_is_better(self) -> (result: bool)
        ensures
            result == self.rewards_growth(),
    {
        !matches!(self, ForecastAxis::DeadEndRisk | ForecastAxis::VerificationCost)
    }

    /// The tier in which the axis is compared; lower tiers come first.
    pub open spec fn tier(self) -> u8 {
        match self {
            ForecastAxis::ImmediateImprovement => 0,
            ForecastAxis::UsefulDescendants => 1,
            ForecastAxis::CrossGoalLeverage => 2,
            ForecastAxis::CompressionValue => 3,
            ForecastAxis::InformationValue => 4,
            ForecastAxis::Novelty => 5,
            ForecastAxis::KernelAcceptance => 6,
            ForecastAxis::DeadEndRisk => 7,
            ForecastAxis::VerificationCost => 8,
        }
    }

    pub fn default_priority(self) -> (priority: u8)
        ensures
            priority == self.tier(),
    {
        match self {
            ForecastAxis::ImmediateImprovement => 0,
            ForecastAxis::UsefulDescendants => 1,
            ForecastAxis::CrossGoalLeverage => 2,
            ForecastAxis::CompressionValue => 3,
            ForecastAxis::InformationValue => 4,
            ForecastAxis::Novelty => 5,
            ForecastAxis::KernelAcceptance => 6,
            ForecastAxis::DeadEndRisk => 7,
            ForecastAxis::VerificationCost => 8,
        }
    }

    pub fn decode(value: u8) -> (result: Result<Self, ()>)
        ensures
            match result {
                Ok(axis) => Self::decode_spec(value) == Some(axis),
                Err(_) => Self::decode_spec(value) is None,
            },
    {
        match value {
            1 => Ok(ForecastAxis::KernelAcceptance),
            2 => Ok(ForecastAxis::ImmediateImprovement),
            3 => Ok(ForecastAxis::UsefulDescendants),
            4 => Ok(ForecastAxis::CrossGoalLeverage),
            5 => Ok(ForecastAxis::CompressionValue),
            6 => Ok(ForecastAxis::InformationValue),
            7 => Ok(ForecastAxis::Novelty),
            8 => Ok(ForecastAxis::DeadEndRisk),
            9 => Ok(ForecastAxis::VerificationCost),
            _ => Err(()),
        }
    }
}

impl Wire<()> for ForecastAxis {
    open spec fn wire(format: (), value: ForecastAxis) -> Seq<u8> {
        codec::put_u8(value.tag_spec())
    }

    open spec fn parse(format: (), input: Seq<u8>) -> Option<(ForecastAxis, Seq<u8>)> {
        match codec::parse_u8(input) {
            Some((tag, rest)) => match ForecastAxis::decode_spec(tag) {
                Some(axis) => Some((axis, rest)),
                None => None,
            },
            None => None,
        }
    }

    open spec fn admissible(format: (), value: ForecastAxis) -> bool {
        true
    }

    open spec fn least_bytes(format: ()) -> nat {
        1
    }

    proof fn lemma_round_trip(format: (), value: ForecastAxis, rest: Seq<u8>) {
        broadcast use digest::group_digest;

    }

    proof fn lemma_least_bytes(format: (), value: ForecastAxis) {
    }

    fn write(&self, format: &(), output: &mut Vec<u8>) {
        codec::write_u8(self.tag(), output);
    }

    fn read(format: &(), input: &mut Decoder<'_>) -> (result: Result<Self, ()>) {
        let tag: u8 = input.read_u8()?;
        ForecastAxis::decode(tag)
    }
}

/// No axis occurs twice.
pub open spec fn distinct_axes(axes: Seq<ForecastAxis>) -> bool {
    forall|i: int, j: int|
        0 <= i < j < axes.len() ==> (#[trigger] axes[i]) != (#[trigger] axes[j])
}

/// There are nine axes, so distinct ones number nine at most.
pub proof fn lemma_distinct_axes_bounded(axes: Seq<ForecastAxis>)
    requires
        distinct_axes(axes),
    ensures
        axes.len() <= 9,
{
    let tags = axes.map_values(|axis: ForecastAxis| axis.tag_spec() as int);
    assert(tags.no_duplicates()) by {
        assert forall|i: int, j: int| 0 <= i < tags.len() && 0 <= j < tags.len() && i != j implies tags[i]
            != tags[j] by {
            if i < j {
                assert(axes[i] != axes[j]);
            } else {
                assert(axes[j] != axes[i]);
            }
        }
    }
    tags.unique_seq_to_set();
    let range = vstd::set_lib::set_int_range(1, 10);
    vstd::set_lib::lemma_int_range(1, 10);
    assert(tags.to_set().subset_of(range)) by {
        assert forall|tag: int| tags.to_set().contains(tag) implies range.contains(tag) by {
            let i = choose|i: int| 0 <= i < tags.len() && tags[i] == tag;
            assert(tags[i] == axes[i].tag_spec() as int);
        }
    }
    vstd::set_lib::lemma_len_subset(tags.to_set(), range);
}

/// Whether no axis occurs twice.
pub fn axes_are_distinct(axes: &[ForecastAxis]) -> (result: bool)
    ensures
        result == distinct_axes(axes@),
{
    let mut index: usize = 0;
    while index < axes.len()
        invariant
            index <= axes@.len(),
            distinct_axes(axes@.take(index as int)),
        decreases axes@.len() - index,
    {
        let mut prior: usize = 0;
        while prior < index
            invariant
                prior <= index < axes@.len(),
                forall|i: int| 0 <= i < prior ==> axes@[i] != axes@[index as int],
            decreases index - prior,
        {
            if axes[prior] == axes[index] {
                assert(axes@[prior as int] == axes@[index as int]);
                return false;
            }
            prior = prior + 1;
        }
        assert(distinct_axes(axes@.take(index + 1))) by {
            let shorter = axes@.take(index as int);
            let longer = axes@.take(index + 1);
            assert forall|i: int, j: int| 0 <= i < j < longer.len() implies (#[trigger] longer[i])
                != (#[trigger] longer[j]) by {
                if j < index {
                    assert(shorter[i] != shorter[j]);
                }
            }
        }
        index = index + 1;
    }
    assert(axes@.take(axes@.len() as int) =~= axes@);
    true
}

// ---------------------------------------------------------------------------
// Forecasts
// ---------------------------------------------------------------------------
/// One calibrated forecast.
#[derive(Clone, Copy, Debug, PartialEq, Eq, Hash, Structural)]
pub struct Forecast {
    pub axis: ForecastAxis,
    pub estimate: u32,
    pub calibration_error: u32,
    pub uncertainty: u32,
    pub support: u32,
}

impl View for Forecast {
    type V = Forecast;

    open spec fn view(&self) -> Forecast {
        *self
    }
}

impl Forecast {
    /// Estimate and error lie between zero and one, and the uncertainty between
    /// the error and one.
    pub open spec fn valid(self) -> bool {
        &&& in_unit_interval(self.estimate)
        &&& in_unit_interval(self.calibration_error)
        &&& in_unit_interval(self.uncertainty)
        &&& magnitude(self.calibration_error) <= magnitude(self.uncertainty)
    }

    /// What an unused slot holds.
    pub open spec fn placeholder() -> Forecast {
        Forecast {
            axis: ForecastAxis::KernelAcceptance,
            estimate: 0,
            calibration_error: 0,
            uncertainty: ONE_BITS,
            support: 0,
        }
    }

    pub fn storage_placeholder() -> (forecast: Self)
        ensures
            forecast == Self::placeholder(),
    {
        Self {
            axis: ForecastAxis::KernelAcceptance,
            estimate: 0,
            calibration_error: 0,
            uncertainty: ONE_BITS,
            support: 0,
        }
    }

    pub fn with_uncertainty(
        axis: ForecastAxis,
        estimate: u32,
        calibration_error: u32,
        uncertainty: u32,
        support: u32,
    ) -> (result: Result<Self, IntelligenceError>)
        ensures
            ({
                let forecast = Forecast {
                    axis,
                    estimate,
                    calibration_error,
                    uncertainty,
                    support,
                };
                result == (if forecast.valid() {
                    Ok(forecast)
                } else {
                    Err::<Self, IntelligenceError>(IntelligenceError::InvalidModel)
                })
            }),
    {
        let error_magnitude: u32 = if calibration_error == NEGATIVE_ZERO_BITS {
            0
        } else {
            calibration_error
        };
        let uncertainty_magnitude: u32 = if uncertainty == NEGATIVE_ZERO_BITS {
            0
        } else {
            uncertainty
        };
        if !is_in_unit_interval(estimate) || !is_in_unit_interval(calibration_error)
            || !is_in_unit_interval(uncertainty) || error_magnitude > uncertainty_magnitude {
            return Err(IntelligenceError::InvalidModel);
        }
        Ok(Self { axis, estimate, calibration_error, uncertainty, support })
    }

    pub fn axis(self) -> (axis: ForecastAxis)
        ensures
            axis == self.axis,
    {
        self.axis
    }

    pub fn estimate(self) -> (bits: u32)
        ensures
            bits == self.estimate,
    {
        self.estimate
    }

    pub fn calibration_error(self) -> (bits: u32)
        ensures
            bits == self.calibration_error,
    {
        self.calibration_error
    }

    pub fn uncertainty(self) -> (bits: u32)
        ensures
            bits == self.uncertainty,
    {
        self.uncertainty
    }

    /// Two forecasts that state the same numbers.
    pub open spec fn agrees(self, other: Forecast) -> bool {
        &&& self.axis == other.axis
        &&& same_number(self.estimate, other.estimate)
        &&& same_number(self.calibration_error, other.calibration_error)
        &&& same_number(self.uncertainty, other.uncertainty)
        &&& self.support == other.support
    }

    pub fn agrees_with(self, other: Self) -> (result: bool)
        ensures
            result == self.agrees(other),
    {
        self.axis == other.axis && is_same_number(self.estimate, other.estimate) && is_same_number(
            self.calibration_error,
            other.calibration_error,
        ) && is_same_number(self.uncertainty, other.uncertainty) && self.support == other.support
    }

    pub fn encode_canonical(self, output: &mut Vec<u8>)
        ensures
            final(output)@ == old(output)@ + Self::wire((), self),
    {
        self.write(&(), output);
    }

    pub fn decode_canonical(input: &mut Decoder<'_>) -> (result: Result<Self, ()>)
        ensures
            codec::reads(result, final(input)@, Self::parse((), old(input)@)),
    {
        Self::read(&(), input)
    }
}

impl Wire<()> for Forecast {
    open spec fn wire(format: (), value: Forecast) -> Seq<u8> {
        codec::put_u8(value.axis.tag_spec()) + (codec::put_u32(value.estimate) + (codec::put_u32(
            value.calibration_error,
        ) + (codec::put_u32(value.uncertainty) + codec::put_u32(value.support))))
    }

    open spec fn parse(format: (), input: Seq<u8>) -> Option<(Forecast, Seq<u8>)> {
        match ForecastAxis::parse((), input) {
            None => None,
            Some((axis, rest)) => match codec::parse_u32(rest) {
                None => None,
                Some((estimate, rest)) => match codec::parse_u32(rest) {
                    None => None,
                    Some((calibration_error, rest)) => match codec::parse_u32(rest) {
                        None => None,
                        Some((uncertainty, rest)) => match codec::parse_u32(rest) {
                            None => None,
                            Some((support, rest)) => {
                                let forecast = Forecast {
                                    axis,
                                    estimate,
                                    calibration_error,
                                    uncertainty,
                                    support,
                                };
                                if forecast.valid() {
                                    Some((forecast, rest))
                                } else {
                                    None
                                }
                            },
                        },
                    },
                },
            },
        }
    }

    open spec fn admissible(format: (), value: Forecast) -> bool {
        value.valid()
    }

    open spec fn least_bytes(format: ()) -> nat {
        17
    }

    proof fn lemma_round_trip(format: (), value: Forecast, rest: Seq<u8>) {
        broadcast use digest::group_digest;

    }

    proof fn lemma_least_bytes(format: (), value: Forecast) {
        broadcast use digest::group_digest;

    }

    fn write(&self, format: &(), output: &mut Vec<u8>) {
        broadcast use digest::group_digest;

        codec::write_u8(self.axis.tag(), output);
        codec::write_u32(self.estimate, output);
        codec::write_u32(self.calibration_error, output);
        codec::write_u32(self.uncertainty, output);
        codec::write_u32(self.support, output);
    }

    fn read(format: &(), input: &mut Decoder<'_>) -> (result: Result<Self, ()>) {
        let tag: u8 = input.read_u8()?;
        let axis = ForecastAxis::decode(tag)?;
        let estimate: u32 = input.read_u32()?;
        let calibration_error: u32 = input.read_u32()?;
        let uncertainty: u32 = input.read_u32()?;
        let support: u32 = input.read_u32()?;
        match Forecast::with_uncertainty(
            axis,
            estimate,
            calibration_error,
            uncertainty,
            support,
        ) {
            Ok(forecast) => Ok(forecast),
            Err(_) => Err(()),
        }
    }
}

// ---------------------------------------------------------------------------
// Resource forecasts
// ---------------------------------------------------------------------------
/// Whether an upper bound is declared or merely absent.
#[derive(Clone, Copy, Debug, PartialEq, Eq, Hash, Structural)]
pub enum ResourceBound {
    Known,
    Unknown,
}

impl ResourceBound {
    pub open spec fn tag_spec(self) -> u8 {
        match self {
            ResourceBound::Known => 1,
            ResourceBound::Unknown => 2,
        }
    }
}

/// What an investment is expected to consume, and at most.
#[derive(Clone, Copy, Debug, PartialEq, Eq, Hash)]
pub struct ResourceForecast {
    pub expected: ResourceVector,
    pub upper: ResourceVector,
    pub bounds: [ResourceBound; 5],
}

impl ResourceForecast {
    /// A demand that is known in every component.
    pub fn exact(resources: ResourceVector) -> (forecast: Self)
        ensures
            forecast.expected == resources,
            forecast.upper == resources,
            forall|i: int| 0 <= i < 5 ==> forecast.bounds@[i] == ResourceBound::Known,
    {
        Self { expected: resources, upper: resources, bounds: [ResourceBound::Known;5] }
    }

    /// One verification request whose time is not known.
    pub fn verification(resident_bytes: u64, durable_bytes: u64) -> (forecast: Self)
        ensures
            forecast.expected == (ResourceVector {
                cpu_time_ns: 0,
                resident_bytes,
                durable_bytes,
                elapsed_time_ns: 0,
                verification_requests: 1,
            }),
            forecast.upper == forecast.expected,
            forecast.bounds@ == seq![
                ResourceBound::Unknown,
                ResourceBound::Known,
                ResourceBound::Known,
                ResourceBound::Unknown,
                ResourceBound::Known,
            ],
    {
        let bounds = [
            ResourceBound::Unknown,
            ResourceBound::Known,
            ResourceBound::Known,
            ResourceBound::Unknown,
            ResourceBound::Known,
        ];
        assert(bounds@ =~= seq![
            ResourceBound::Unknown,
            ResourceBound::Known,
            ResourceBound::Known,
            ResourceBound::Unknown,
            ResourceBound::Known,
        ]);
        Self {
            expected: ResourceVector::new(0, resident_bytes, durable_bytes, 0, 1),
            upper: ResourceVector::new(0, resident_bytes, durable_bytes, 0, 1),
            bounds,
        }
    }

    pub fn declared_upper(self) -> (resources: ResourceVector)
        ensures
            resources == self.upper,
    {
        self.upper
    }

    pub fn expected(self) -> (resources: ResourceVector)
        ensures
            resources == self.expected,
    {
        self.expected
    }

    /// One tag per component: one where the bound is known, two where it is not.
    pub open spec fn bound_tags_spec(self) -> Seq<u8> {
        Seq::new(5, |i: int| self.bounds@[i].tag_spec())
    }

    pub fn bound_tags(self) -> (tags: [u8; 5])
        ensures
            tags@ == self.bound_tags_spec(),
    {
        let mut tags = [0u8; 5];
        let mut index: usize = 0;
        while index < 5
            invariant
                index <= 5,
                tags@.len() == 5,
                forall|i: int| 0 <= i < index ==> tags@[i] == self.bounds@[i].tag_spec(),
            decreases 5 - index,
        {
            tags[index] = match self.bounds[index] {
                ResourceBound::Known => 1,
                ResourceBound::Unknown => 2,
            };
            index = index + 1;
        }
        assert(tags@ =~= self.bound_tags_spec());
        tags
    }

    pub fn cpu_time_is_unknown(self) -> (unknown: bool)
        ensures
            unknown == (self.bounds@[0] == ResourceBound::Unknown),
    {
        matches!(self.bounds[0], ResourceBound::Unknown)
    }

    pub fn elapsed_time_is_unknown(self) -> (unknown: bool)
        ensures
            unknown == (self.bounds@[3] == ResourceBound::Unknown),
    {
        matches!(self.bounds[3], ResourceBound::Unknown)
    }
}

// ---------------------------------------------------------------------------
// Ranking
// ---------------------------------------------------------------------------
/// A forecast together with its conservative value: the estimate less what
/// uncertainty and error may cost, as a number to be maximised.
#[derive(Clone, Copy, Debug, PartialEq, Eq, Hash, Structural)]
pub struct ScoredForecast {
    pub forecast: Forecast,
    pub conservative_value: u32,
}

/// Which of two values comes first.
#[derive(Clone, Copy, Debug, PartialEq, Eq, Hash, Structural)]
pub enum Precedence {
    Before,
    Tied,
    After,
}

/// Which of two numbers comes first in rising order.
pub open spec fn rising(left: int, right: int) -> Precedence {
    if left < right {
        Precedence::Before
    } else if left > right {
        Precedence::After
    } else {
        Precedence::Tied
    }
}

/// The first decision that is not a tie.
pub open spec fn otherwise(first: Precedence, second: Precedence) -> Precedence {
    if first == Precedence::Tied {
        second
    } else {
        first
    }
}

pub open spec fn reversed(order: Precedence) -> Precedence {
    match order {
        Precedence::Before => Precedence::After,
        Precedence::Tied => Precedence::Tied,
        Precedence::After => Precedence::Before,
    }
}

/// Forecasts on one axis: the larger conservative value first, then the smaller
/// error, the smaller uncertainty and the larger support.
pub open spec fn compatible_order(left: ScoredForecast, right: ScoredForecast) -> Precedence {
    otherwise(
        rising(total_rank(right.conservative_value), total_rank(left.conservative_value)),
        otherwise(
            rising(
                total_rank(left.forecast.calibration_error),
                total_rank(right.forecast.calibration_error),
            ),
            otherwise(
                rising(
                    total_rank(left.forecast.uncertainty),
                    total_rank(right.forecast.uncertainty),
                ),
                rising(right.forecast.support as int, left.forecast.support as int),
            ),
        ),
    )
}

/// The forecasts that stand on the same tier in both vectors, read in step.
pub open spec fn matched(left: Seq<ScoredForecast>, right: Seq<ScoredForecast>) -> Seq<
    (ScoredForecast, ScoredForecast),
>
    decreases left.len() + right.len(),
{
    if left.len() == 0 || right.len() == 0 {
        Seq::empty()
    } else {
        let left_tier = left[0].forecast.axis.tier();
        let right_tier = right[0].forecast.axis.tier();
        if left_tier < right_tier {
            matched(left.skip(1), right)
        } else if left_tier > right_tier {
            matched(left, right.skip(1))
        } else {
            seq![(left[0], right[0])] + matched(left.skip(1), right.skip(1))
        }
    }
}

/// Some matched forecast is better on the left.
pub open spec fn left_wins_somewhere(pairs: Seq<(ScoredForecast, ScoredForecast)>) -> bool {
    exists|i: int|
        0 <= i < pairs.len() && total_rank((#[trigger] pairs[i]).0.conservative_value) > total_rank(
            pairs[i].1.conservative_value,
        )
}

/// Some matched forecast is better on the right.
pub open spec fn right_wins_somewhere(pairs: Seq<(ScoredForecast, ScoredForecast)>) -> bool {
    exists|i: int|
        0 <= i < pairs.len() && total_rank((#[trigger] pairs[i]).0.conservative_value) < total_rank(
            pairs[i].1.conservative_value,
        )
}

/// The order of the first matched forecasts that differ.
pub open spec fn first_difference(pairs: Seq<(ScoredForecast, ScoredForecast)>) -> Precedence
    decreases pairs.len(),
{
    if pairs.len() == 0 {
        Precedence::Tied
    } else {
        otherwise(
            first_difference(pairs.drop_last()),
            compatible_order(pairs.last().0, pairs.last().1),
        )
    }
}

/// A vector that is better somewhere and worse nowhere comes first; without such
/// dominance the first difference decides.
pub open spec fn vector_order(left: Seq<ScoredForecast>, right: Seq<ScoredForecast>) -> Precedence {
    let pairs = matched(left, right);
    if left_wins_somewhere(pairs) && !right_wins_somewhere(pairs) {
        Precedence::Before
    } else if right_wins_somewhere(pairs) && !left_wins_somewhere(pairs) {
        Precedence::After
    } else {
        first_difference(pairs)
    }
}

pub fn compare_ranks(left: u32, right: u32) -> (order: Precedence)
    ensures
        order == rising(total_rank(left), total_rank(right)),
{
    let left: i64 = rank_of(left);
    let right: i64 = rank_of(right);
    if left < right {
        Precedence::Before
    } else if left > right {
        Precedence::After
    } else {
        Precedence::Tied
    }
}

pub fn compare_compatible_forecasts(left: ScoredForecast, right: ScoredForecast) -> (order:
    Precedence)
    ensures
        order == compatible_order(left, right),
{
    match compare_ranks(right.conservative_value, left.conservative_value) {
        Precedence::Tied => {},
        order => return order,
    }
    match compare_ranks(left.forecast.calibration_error, right.forecast.calibration_error) {
        Precedence::Tied => {},
        order => return order,
    }
    match compare_ranks(left.forecast.uncertainty, right.forecast.uncertainty) {
        Precedence::Tied => {},
        order => return order,
    }
    if right.forecast.support < left.forecast.support {
        Precedence::Before
    } else if right.forecast.support > left.forecast.support {
        Precedence::After
    } else {
        Precedence::Tied
    }
}

pub fn compare_forecast_vectors(left: &[ScoredForecast], right: &[ScoredForecast]) -> (order:
    Precedence)
    ensures
        order == vector_order(left@, right@),
{
    let mut left_index: usize = 0;
    let mut right_index: usize = 0;
    let mut left_better = false;
    let mut right_better = false;
    let mut tier_order = Precedence::Tied;
    let ghost mut pairs: Seq<(ScoredForecast, ScoredForecast)> = Seq::empty();
    assert(left@.skip(0) =~= left@);
    assert(right@.skip(0) =~= right@);
    assert(pairs + matched(left@, right@) =~= matched(left@, right@));
    while left_index < left.len() && right_index < right.len()
        invariant
            left_index <= left@.len(),
            right_index <= right@.len(),
            matched(left@, right@) == pairs + matched(
                left@.skip(left_index as int),
                right@.skip(right_index as int),
            ),
            left_better == left_wins_somewhere(pairs),
            right_better == right_wins_somewhere(pairs),
            tier_order == first_difference(pairs),
        decreases left@.len() - left_index + right@.len() - right_index,
    {
        let ghost left_rest = left@.skip(left_index as int);
        let ghost right_rest = right@.skip(right_index as int);
        assert(left_rest.skip(1) =~= left@.skip(left_index + 1));
        assert(right_rest.skip(1) =~= right@.skip(right_index + 1));
        let left_priority: u8 = left[left_index].forecast.axis.default_priority();
        let right_priority: u8 = right[right_index].forecast.axis.default_priority();
        if left_priority < right_priority {
            left_index = left_index + 1;
        } else if left_priority > right_priority {
            right_index = right_index + 1;
        } else {
            let left_item = left[left_index];
            let right_item = right[right_index];
            match compare_ranks(right_item.conservative_value, left_item.conservative_value) {
                Precedence::Before => {
                    left_better = true;
                },
                Precedence::After => {
                    right_better = true;
                },
                Precedence::Tied => {},
            }
            match tier_order {
                Precedence::Tied => {
                    tier_order = compare_compatible_forecasts(left_item, right_item);
                },
                _ => {},
            }
            proof {
                let pair = (left_item, right_item);
                let longer = pairs.push(pair);
                assert(longer.drop_last() =~= pairs);
                assert(longer[pairs.len() as int] == pair);
                assert forall|i: int| 0 <= i < pairs.len() implies longer[i] == pairs[i] by {}
                assert(left_wins_somewhere(longer) == (left_wins_somewhere(pairs) || total_rank(
                    pair.0.conservative_value,
                ) > total_rank(pair.1.conservative_value))) by {
                    if left_wins_somewhere(pairs) {
                        let i = choose|i: int|
                            0 <= i < pairs.len() && total_rank(
                                (#[trigger] pairs[i]).0.conservative_value,
                            ) > total_rank(pairs[i].1.conservative_value);
                        assert(longer[i] == pairs[i]);
                    }
                }
                assert(right_wins_somewhere(longer) == (right_wins_somewhere(pairs) || total_rank(
                    pair.0.conservative_value,
                ) < total_rank(pair.1.conservative_value))) by {
                    if right_wins_somewhere(pairs) {
                        let i = choose|i: int|
                            0 <= i < pairs.len() && total_rank(
                                (#[trigger] pairs[i]).0.conservative_value,
                            ) < total_rank(pairs[i].1.conservative_value);
                        assert(longer[i] == pairs[i]);
                    }
                }
                let tail = matched(left_rest.skip(1), right_rest.skip(1));
                assert(pairs + (seq![pair] + tail) =~= longer + tail);
                pairs = longer;
            }
            left_index = left_index + 1;
            right_index = right_index + 1;
        }
    }
    assert(pairs + Seq::<(ScoredForecast, ScoredForecast)>::empty() =~= pairs);
    match (left_better, right_better) {
        (true, false) => Precedence::Before,
        (false, true) => Precedence::After,
        _ => tier_order,
    }
}

/// Exchanging the two vectors exchanges the two sides of every match.
pub open spec fn exchanged(pairs: Seq<(ScoredForecast, ScoredForecast)>) -> Seq<
    (ScoredForecast, ScoredForecast),
> {
    Seq::new(pairs.len(), |i: int| (pairs[i].1, pairs[i].0))
}

proof fn lemma_matched_exchanged(left: Seq<ScoredForecast>, right: Seq<ScoredForecast>)
    ensures
        matched(right, left) == exchanged(matched(left, right)),
    decreases left.len() + right.len(),
{
    if left.len() == 0 || right.len() == 0 {
        assert(matched(right, left) =~= exchanged(matched(left, right)));
    } else {
        let left_tier = left[0].forecast.axis.tier();
        let right_tier = right[0].forecast.axis.tier();
        if left_tier < right_tier {
            lemma_matched_exchanged(left.skip(1), right);
        } else if left_tier > right_tier {
            lemma_matched_exchanged(left, right.skip(1));
        } else {
            lemma_matched_exchanged(left.skip(1), right.skip(1));
            assert(matched(right, left) =~= exchanged(matched(left, right)));
        }
    }
}

proof fn lemma_first_difference_exchanged(pairs: Seq<(ScoredForecast, ScoredForecast)>)
    ensures
        first_difference(exchanged(pairs)) == reversed(first_difference(pairs)),
    decreases pairs.len(),
{
    if pairs.len() > 0 {
        lemma_first_difference_exchanged(pairs.drop_last());
        assert(exchanged(pairs).drop_last() =~= exchanged(pairs.drop_last()));
    }
}

/// Exchanging two forecast vectors reverses their order, so neither can come
/// before the other both ways.
pub proof fn law_vector_order_is_antisymmetric(
    left: Seq<ScoredForecast>,
    right: Seq<ScoredForecast>,
)
    ensures
        vector_order(right, left) == reversed(vector_order(left, right)),
{
    let pairs = matched(left, right);
    let swapped = matched(right, left);
    lemma_matched_exchanged(left, right);
    lemma_first_difference_exchanged(pairs);
    assert(left_wins_somewhere(swapped) == right_wins_somewhere(pairs)) by {
        if left_wins_somewhere(swapped) {
            let i = choose|i: int|
                0 <= i < swapped.len() && total_rank((#[trigger] swapped[i]).0.conservative_value)
                    > total_rank(swapped[i].1.conservative_value);
            assert(pairs[i].0 == swapped[i].1);
        }
        if right_wins_somewhere(pairs) {
            let i = choose|i: int|
                0 <= i < pairs.len() && total_rank((#[trigger] pairs[i]).0.conservative_value)
                    < total_rank(pairs[i].1.conservative_value);
            assert(swapped[i].0 == pairs[i].1);
        }
    }
    assert(right_wins_somewhere(swapped) == left_wins_somewhere(pairs)) by {
        if right_wins_somewhere(swapped) {
            let i = choose|i: int|
                0 <= i < swapped.len() && total_rank((#[trigger] swapped[i]).0.conservative_value)
                    < total_rank(swapped[i].1.conservative_value);
            assert(pairs[i].0 == swapped[i].1);
        }
        if left_wins_somewhere(pairs) {
            let i = choose|i: int|
                0 <= i < pairs.len() && total_rank((#[trigger] pairs[i]).0.conservative_value)
                    > total_rank(pairs[i].1.conservative_value);
            assert(swapped[i].0 == pairs[i].1);
        }
    }
}

} // verus!
