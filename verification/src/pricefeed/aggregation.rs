//! One price out of several.
use crate::pricefeed::records::{AggregatedPrice, AggregationMethod, PriceDataPoint, PriceStatus};
use crate::pricefeed::validation;
use soroban_sdk::Env;
use vstd::prelude::*;

verus! {

/// The position of the first of the most recent prices.
pub open spec fn newest(points: Seq<PriceDataPoint>) -> int
    recommends
        points.len() > 0,
    decreases points.len(),
{
    if points.len() <= 1 {
        0
    } else {
        let before = newest(points.drop_last());
        if points.last().timestamp > points[before].timestamp {
            points.len() - 1
        } else {
            before
        }
    }
}

/// The price that stands for several.
pub open spec fn joint_price(points: Seq<PriceDataPoint>, method: AggregationMethod) -> i128 {
    match method {
        AggregationMethod::Median => validation::middle(
            validation::sorted(validation::prices(points)),
        ) as i128,
        AggregationMethod::Latest => points[newest(points)].price,
    }
}

/// What stands for several prices of an asset.
pub open spec fn aggregated(
    points: Seq<PriceDataPoint>,
    method: AggregationMethod,
    now: u64,
) -> AggregatedPrice {
    AggregatedPrice {
        asset: points[0].asset,
        price: joint_price(points, method),
        timestamp: now,
        num_sources: points.len() as u32,
        method,
        status: PriceStatus::Valid,
    }
}

/// The newest price stands among the others.
proof fn lemma_newest_is_one(points: Seq<PriceDataPoint>)
    requires
        points.len() > 0,
    ensures
        0 <= newest(points) < points.len(),
    decreases points.len(),
{
    if points.len() > 1 {
        lemma_newest_is_one(points.drop_last());
    }
}

/// No price is more recent than the newest one.
pub proof fn the_newest_is_not_older(points: Seq<PriceDataPoint>, i: int)
    requires
        0 <= i < points.len(),
    ensures
        0 <= newest(points) < points.len(),
        points[i].timestamp <= points[newest(points)].timestamp,
    decreases points.len(),
{
    lemma_newest_is_one(points);
    if points.len() > 1 {
        let before = points.drop_last();
        lemma_newest_is_one(before);
        if i < before.len() {
            the_newest_is_not_older(before, i);
            assert(before[i] == points[i]);
        }
        assert(before[newest(before)] == points[newest(before)]);
    }
}

/// Makes one price out of several.
pub struct AggregateEngine;

impl AggregateEngine {
    /// The price that stands for several prices of an asset.
    pub fn aggregate(
        env: &Env,
        points: &Vec<PriceDataPoint>,
        method: AggregationMethod,
        now: u64,
    ) -> (price: AggregatedPrice)
        requires
            0 < points@.len() <= u32::MAX,
            method == AggregationMethod::Median ==> validation::has_middle(points@),
        ensures
            price == aggregated(points@, method, now),
    {
        let price = match method {
            AggregationMethod::Median => match validation::calculate_median(env, points) {
                Some(median) => median,
                None => 0,
            },
            AggregationMethod::Latest => Self::latest(points),
        };
        AggregatedPrice {
            asset: points[0].asset,
            price,
            timestamp: now,
            num_sources: points.len() as u32,
            method,
            status: PriceStatus::Valid,
        }
    }

    /// The most recent price.
    fn latest(points: &Vec<PriceDataPoint>) -> (price: i128)
        requires
            points@.len() > 0,
        ensures
            price == points@[newest(points@)].price,
    {
        let mut best: usize = 0;
        let mut i: usize = 1;
        while i < points.len()
            invariant
                1 <= i <= points@.len(),
                best < i,
                best == newest(points@.take(i as int)),
            decreases points@.len() - i,
        {
            let ghost next = points@.take(i + 1);
            assert(next.drop_last() =~= points@.take(i as int));
            assert(next.last() == points@[i as int]);
            assert(next[best as int] == points@[best as int]);
            if points[i].timestamp > points[best].timestamp {
                best = i;
            }
            i += 1;
        }
        assert(points@.take(i as int) =~= points@);
        points[best].price
    }
}

/// What stands for several prices says how it came about: which asset, when,
/// by which method, and of how many prices. By the most recent it is the price
/// of a point that no other is newer than, the first of them.
pub proof fn aggregates_tell_their_sources(
    points: Seq<PriceDataPoint>,
    method: AggregationMethod,
    now: u64,
    i: int,
)
    requires
        0 < points.len() <= u32::MAX,
        0 <= i < points.len(),
    ensures
        ({
            let joint = aggregated(points, method, now);
            let at = newest(points);
            &&& joint.asset == points[0].asset && joint.timestamp == now && joint.method == method
                && joint.status == PriceStatus::Valid && joint.num_sources == points.len()
            &&& method == AggregationMethod::Latest ==> joint.price == points[at].price
                && points[i].timestamp <= points[at].timestamp && (i < at ==> points[i].timestamp
                < points[at].timestamp)
            &&& method == AggregationMethod::Median ==> Some(joint.price) == validation::median(
                points,
            )
        }),
{
    the_newest_is_not_older(points, i);
    lemma_newest_is_first(points, i);
}

proof fn lemma_newest_is_first(points: Seq<PriceDataPoint>, i: int)
    requires
        0 <= i < points.len(),
    ensures
        i < newest(points) ==> points[i].timestamp < points[newest(points)].timestamp,
    decreases points.len(),
{
    if points.len() > 1 {
        let before = points.drop_last();
        lemma_newest_is_one(before);
        if i < before.len() {
            lemma_newest_is_first(before, i);
            the_newest_is_not_older(before, i);
        }
        assert(before[newest(before)] == points[newest(before)]);
    }
}

} // verus!
