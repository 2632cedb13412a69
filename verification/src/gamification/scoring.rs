//! The composite score of a player and the tier it gives.
use crate::gamification::types::{PlayerStats, ProgressionTier};
use crate::math;
use vstd::prelude::*;

verus! {

/// Most points for trades.
pub const TRADE_SCORE_MAX: i128 = 30;

/// Most points for the best return.
pub const ROI_SCORE_MAX: i128 = 30;

/// Most points for the best streak.
pub const STREAK_SCORE_MAX: i128 = 15;

/// Most points for learning.
pub const LEARN_SCORE_MAX: i128 = 15;

/// Most points for taking part in the community.
pub const COMMUNITY_SCORE_MAX: i128 = 10;

/// The score from which a player is Silver.
pub const TIER_SILVER: i128 = 25;

/// The score from which a player is Gold.
pub const TIER_GOLD: i128 = 50;

/// The score from which a player is Platinum.
pub const TIER_PLATINUM: i128 = 75;

/// The reward of the Bronze tier.
pub const REWARD_BRONZE: i128 = 10;

/// The reward of the Silver tier.
pub const REWARD_SILVER: i128 = 25;

/// The reward of the Gold tier.
pub const REWARD_GOLD: i128 = 50;

/// The reward of the Platinum tier.
pub const REWARD_PLATINUM: i128 = 100;

/// Points for successful trades: two each.
pub open spec fn trade_points(trades: int) -> int {
    math::least(trades * 2, TRADE_SCORE_MAX as int)
}

/// Points for the best return: all of them from 100% on.
pub open spec fn roi_points(roi_bps: int) -> int {
    if roi_bps <= 0 {
        0
    } else {
        math::least(roi_bps * ROI_SCORE_MAX / 10_000, ROI_SCORE_MAX as int)
    }
}

/// Points for the best streak: three for each trade in it.
pub open spec fn streak_points(streak: int) -> int {
    math::least(streak * 3, STREAK_SCORE_MAX as int)
}

/// Points for the share of modules that were completed.
pub open spec fn learn_points(completed: int, total: int) -> int {
    if total == 0 {
        0
    } else {
        math::least(completed * LEARN_SCORE_MAX / total, LEARN_SCORE_MAX as int)
    }
}

/// Points for community actions: two each.
pub open spec fn community_points(actions: int) -> int {
    math::least(actions * 2, COMMUNITY_SCORE_MAX as int)
}

/// The composite score.
pub open spec fn score_of(stats: PlayerStats) -> int {
    trade_points(stats.successful_trades as int) + roi_points(stats.best_roi_bps as int)
        + streak_points(stats.best_streak as int) + learn_points(
        stats.modules_completed as int,
        stats.total_modules as int,
    ) + community_points(stats.community_actions as int)
}

/// Whether a return can be scored.
pub open spec fn is_scorable(roi_bps: int) -> bool {
    roi_bps * ROI_SCORE_MAX <= i128::MAX
}

/// The tier that a score gives.
pub open spec fn tier_of(score: int) -> ProgressionTier {
    if score >= TIER_PLATINUM {
        ProgressionTier::Platinum
    } else if score >= TIER_GOLD {
        ProgressionTier::Gold
    } else if score >= TIER_SILVER {
        ProgressionTier::Silver
    } else {
        ProgressionTier::Bronze
    }
}

/// The reward of a tier.
pub open spec fn reward_of(tier: ProgressionTier) -> i128 {
    match tier {
        ProgressionTier::Bronze => REWARD_BRONZE,
        ProgressionTier::Silver => REWARD_SILVER,
        ProgressionTier::Gold => REWARD_GOLD,
        ProgressionTier::Platinum => REWARD_PLATINUM,
    }
}

/// A score is between 0 and 100.
pub proof fn scores_are_out_of_a_hundred(stats: PlayerStats)
    ensures
        0 <= score_of(stats) <= 100,
{
    let total = stats.total_modules as int;
    if total > 0 {
        let done = stats.modules_completed * LEARN_SCORE_MAX;
        assert(done / total >= 0) by (nonlinear_arith)
            requires
                done >= 0,
                total > 0,
        ;
    }
}

/// A player who is not behind another in any statistic has no lower score.
pub proof fn scores_grow_with_each_statistic(low: PlayerStats, high: PlayerStats)
    requires
        low.successful_trades <= high.successful_trades,
        low.best_roi_bps <= high.best_roi_bps,
        low.best_streak <= high.best_streak,
        low.modules_completed <= high.modules_completed,
        low.total_modules == high.total_modules,
        low.community_actions <= high.community_actions,
    ensures
        trade_points(low.successful_trades as int) <= trade_points(high.successful_trades as int),
        roi_points(low.best_roi_bps as int) <= roi_points(high.best_roi_bps as int),
        streak_points(low.best_streak as int) <= streak_points(high.best_streak as int),
        learn_points(low.modules_completed as int, low.total_modules as int) <= learn_points(
            high.modules_completed as int,
            high.total_modules as int,
        ),
        community_points(low.community_actions as int) <= community_points(
            high.community_actions as int,
        ),
        score_of(low) <= score_of(high),
        tier_of(score_of(low)).level() <= tier_of(score_of(high)).level(),
{
    let total = low.total_modules as int;
    if total > 0 {
        math::lemma_quot_monotone(
            low.modules_completed * LEARN_SCORE_MAX,
            high.modules_completed * LEARN_SCORE_MAX,
            total,
        );
    }
}

/// A better score never gives a lower tier or a lower reward.
pub proof fn tiers_follow_the_score(low: int, high: int)
    requires
        low <= high,
    ensures
        tier_of(low).level() <= tier_of(high).level(),
        reward_of(tier_of(low)) <= reward_of(tier_of(high)),
{
}

/// Points for successful trades.
pub fn compute_trade_score(trade_count: u32) -> (score: i128)
    ensures
        score == trade_points(trade_count as int),
{
    let score = (trade_count as i128) * 2;
    if score > TRADE_SCORE_MAX {
        TRADE_SCORE_MAX
    } else {
        score
    }
}

/// Points for the best return.
pub fn compute_roi_score(roi_bps: i128) -> (score: i128)
    requires
        is_scorable(roi_bps as int),
    ensures
        score == roi_points(roi_bps as int),
{
    if roi_bps <= 0 {
        return 0;
    }
    let score = roi_bps * ROI_SCORE_MAX / 10_000;
    if score > ROI_SCORE_MAX {
        ROI_SCORE_MAX
    } else {
        score
    }
}

/// Points for the best streak.
pub fn compute_streak_score(streak: u32) -> (score: i128)
    ensures
        score == streak_points(streak as int),
{
    let score = (streak as i128) * 3;
    if score > STREAK_SCORE_MAX {
        STREAK_SCORE_MAX
    } else {
        score
    }
}

/// Points for completed modules.
pub fn compute_learn_score(modules_completed: u32, total_modules: u32) -> (score: i128)
    ensures
        score == learn_points(modules_completed as int, total_modules as int),
{
    if total_modules == 0 {
        return 0;
    }
    let done = (modules_completed as i128) * LEARN_SCORE_MAX;
    proof {
        math::lemma_quot_shrinks(done as int, total_modules as int);
    }
    let score = done / (total_modules as i128);
    if score > LEARN_SCORE_MAX {
        LEARN_SCORE_MAX
    } else {
        score
    }
}

/// Points for community actions.
pub fn compute_community_score(actions: u32) -> (score: i128)
    ensures
        score == community_points(actions as int),
{
    let score = (actions as i128) * 2;
    if score > COMMUNITY_SCORE_MAX {
        COMMUNITY_SCORE_MAX
    } else {
        score
    }
}

/// The composite score of a player, between 0 and 100.
pub fn compute_total_score(stats: &PlayerStats) -> (score: i128)
    requires
        is_scorable(stats.best_roi_bps as int),
    ensures
        score == score_of(*stats),
        0 <= score <= 100,
{
    proof {
        scores_are_out_of_a_hundred(*stats);
    }
    let trade = compute_trade_score(stats.successful_trades);
    let roi = compute_roi_score(stats.best_roi_bps);
    let streak = compute_streak_score(stats.best_streak);
    let learn = compute_learn_score(stats.modules_completed, stats.total_modules);
    let community = compute_community_score(stats.community_actions);
    assert(roi >= 0 && learn >= 0) by {
        if stats.total_modules > 0 {
            math::lemma_quot_shrinks(
                stats.modules_completed * LEARN_SCORE_MAX,
                stats.total_modules as int,
            );
        }
    }
    trade + roi + streak + learn + community
}

/// The tier that a score gives.
pub fn score_to_tier(score: i128) -> (tier: ProgressionTier)
    ensures
        tier == tier_of(score as int),
{
    if score >= TIER_PLATINUM {
        ProgressionTier::Platinum
    } else if score >= TIER_GOLD {
        ProgressionTier::Gold
    } else if score >= TIER_SILVER {
        ProgressionTier::Silver
    } else {
        ProgressionTier::Bronze
    }
}

/// The reward of a tier.
pub fn tier_reward(tier: &ProgressionTier) -> (reward: i128)
    ensures
        reward == reward_of(*tier),
{
    match tier {
        ProgressionTier::Bronze => REWARD_BRONZE,
        ProgressionTier::Silver => REWARD_SILVER,
        ProgressionTier::Gold => REWARD_GOLD,
        ProgressionTier::Platinum => REWARD_PLATINUM,
    }
}

/// Points are counted as promised: two for each successful trade up to 30,
/// thirty for a return of 100% and less in proportion, three for each trade of
/// the best streak up to 15, fifteen for all modules and less in proportion,
/// and two for each community action up to 10. What is in proportion is
/// rounded down. The score is their sum.
pub proof fn points_are_counted(stats: PlayerStats)
    ensures
        ({
            let (won, roi, run) = (
                stats.successful_trades as int,
                stats.best_roi_bps as int,
                stats.best_streak as int,
            );
            let (done, all, acts) = (
                stats.modules_completed as int,
                stats.total_modules as int,
                stats.community_actions as int,
            );
            let learned = learn_points(done, all);
            &&& won <= 15 ==> trade_points(won) == 2 * won
            &&& won >= 15 ==> trade_points(won) == 30
            &&& roi <= 0 ==> roi_points(roi) == 0
            &&& 0 < roi < 10_000 ==> roi_points(roi) * 10_000 <= roi * 30 < (roi_points(roi) + 1)
                * 10_000
            &&& roi >= 10_000 ==> roi_points(roi) == 30
            &&& run <= 5 ==> streak_points(run) == 3 * run
            &&& run >= 5 ==> streak_points(run) == 15
            &&& all == 0 ==> learned == 0
            &&& all > 0 && done < all ==> learned * all <= done * 15 < (learned + 1) * all
            &&& all > 0 && done >= all ==> learned == 15
            &&& acts <= 5 ==> community_points(acts) == 2 * acts
            &&& acts >= 5 ==> community_points(acts) == 10
            &&& score_of(stats) == trade_points(won) + roi_points(roi) + streak_points(run) + learned
                + community_points(acts)
        }),
{
    let done = stats.modules_completed as int;
    let all = stats.total_modules as int;
    if all > 0 {
        math::quotients_round_toward_zero(done * 15, all);
        let q = done * 15 / all;
        if done < all {
            assert(q < 15) by (nonlinear_arith)
                requires
                    q * all <= done * 15,
                    done < all,
                    all > 0,
            ;
        } else {
            assert(q >= 15) by (nonlinear_arith)
                requires
                    done * 15 < (q + 1) * all,
                    done >= all,
                    all > 0,
            ;
        }
    }
}

/// The tiers begin at scores of 25, 50 and 75, and pay 10, 25, 50 and 100.
pub proof fn tiers_begin_where_promised(score: int)
    ensures
        tier_of(score) == ProgressionTier::Bronze <==> score < 25,
        tier_of(score) == ProgressionTier::Silver <==> 25 <= score < 50,
        tier_of(score) == ProgressionTier::Gold <==> 50 <= score < 75,
        tier_of(score) == ProgressionTier::Platinum <==> 75 <= score,
        reward_of(ProgressionTier::Bronze) == 10,
        reward_of(ProgressionTier::Silver) == 25,
        reward_of(ProgressionTier::Gold) == 50,
        reward_of(ProgressionTier::Platinum) == 100,
{
}

} // verus!
