use astraport::gamification::badges::{create_default_badge_defs, find_badge_reward};
use astraport::gamification::engine::GamificationEngine;
use astraport::gamification::leaderboard::MAX_LEADERBOARD_RETURN;
use astraport::gamification::scoring::{
    compute_community_score, compute_learn_score, compute_roi_score, compute_streak_score,
    compute_total_score, compute_trade_score, score_to_tier, tier_reward, COMMUNITY_SCORE_MAX,
    LEARN_SCORE_MAX, REWARD_BRONZE, REWARD_GOLD, REWARD_PLATINUM, REWARD_SILVER, ROI_SCORE_MAX,
    STREAK_SCORE_MAX, TIER_GOLD, TIER_PLATINUM, TIER_SILVER, TRADE_SCORE_MAX,
};
use astraport::gamification::types::{
    Error, PlayerStats, ProgressionTier, SortMetric, TimeWindow,
};
use astraport::values::{Address, Symbol};

fn address(n: u128) -> Address {
    Address { is_contract: false, hi: 2, lo: n }
}

fn symbol(text: &str) -> Symbol {
    Symbol::from_text(text)
}

fn engine() -> GamificationEngine {
    let mut engine = GamificationEngine::new();
    engine.initialize(address(1), 5).unwrap();
    engine
}

#[test]
fn test_score_components_trade() {
    assert_eq!(compute_trade_score(0), 0);
    assert_eq!(compute_trade_score(5), 10);
    assert_eq!(compute_trade_score(15), TRADE_SCORE_MAX);
}

#[test]
fn test_score_components_roi() {
    assert_eq!(compute_roi_score(0), 0);
    assert_eq!(compute_roi_score(-500), 0);
    assert_eq!(compute_roi_score(5_000), 15);
    assert_eq!(compute_roi_score(10_000), ROI_SCORE_MAX);
    assert_eq!(compute_roi_score(15_000), ROI_SCORE_MAX);
}

#[test]
fn test_score_components_streak() {
    assert_eq!(compute_streak_score(0), 0);
    assert_eq!(compute_streak_score(3), 9);
    assert_eq!(compute_streak_score(5), STREAK_SCORE_MAX);
    assert_eq!(compute_streak_score(10), STREAK_SCORE_MAX);
}

#[test]
fn test_score_components_learn() {
    assert_eq!(compute_learn_score(0, 5), 0);
    assert_eq!(compute_learn_score(5, 5), LEARN_SCORE_MAX);
    assert_eq!(compute_learn_score(3, 5), 9);
}

#[test]
fn test_score_components_community() {
    assert_eq!(compute_community_score(0), 0);
    assert_eq!(compute_community_score(5), COMMUNITY_SCORE_MAX);
    assert_eq!(compute_community_score(10), COMMUNITY_SCORE_MAX);
}

#[test]
fn each_statistic_raises_the_score() {
    let stats = PlayerStats {
        user: address(2),
        trade_count: 4,
        successful_trades: 3,
        best_roi_bps: 2_000,
        current_streak: 1,
        best_streak: 2,
        modules_completed: 1,
        total_modules: 5,
        community_actions: 1,
        challenges_won: 0,
        tier: ProgressionTier::Bronze,
        total_score: 0,
        last_active: 0,
    };
    let score = compute_total_score(&stats);
    let more = [
        PlayerStats { successful_trades: 4, ..stats },
        PlayerStats { best_roi_bps: 3_000, ..stats },
        PlayerStats { best_streak: 3, ..stats },
        PlayerStats { modules_completed: 2, ..stats },
        PlayerStats { community_actions: 2, ..stats },
    ];
    for better in &more {
        assert!(compute_total_score(better) > score);
    }
    let most = PlayerStats {
        successful_trades: 100,
        best_roi_bps: 50_000,
        best_streak: 100,
        modules_completed: 5,
        community_actions: 100,
        ..stats
    };
    assert_eq!(compute_total_score(&most), 100);
}

#[test]
fn test_tier_progression() {
    assert_eq!(score_to_tier(0), ProgressionTier::Bronze);
    assert_eq!(score_to_tier(24), ProgressionTier::Bronze);
    assert_eq!(score_to_tier(25), ProgressionTier::Silver);
    assert_eq!(score_to_tier(49), ProgressionTier::Silver);
    assert_eq!(score_to_tier(50), ProgressionTier::Gold);
    assert_eq!(score_to_tier(74), ProgressionTier::Gold);
    assert_eq!(score_to_tier(75), ProgressionTier::Platinum);
    assert_eq!(score_to_tier(100), ProgressionTier::Platinum);
}

#[test]
fn test_tier_rewards() {
    assert_eq!(tier_reward(&ProgressionTier::Bronze), REWARD_BRONZE);
    assert_eq!(tier_reward(&ProgressionTier::Silver), REWARD_SILVER);
    assert_eq!(tier_reward(&ProgressionTier::Gold), REWARD_GOLD);
    assert_eq!(tier_reward(&ProgressionTier::Platinum), REWARD_PLATINUM);
}

#[test]
fn lib_test_constants() {
    assert_eq!(MAX_LEADERBOARD_RETURN, 100);
    assert_eq!(TRADE_SCORE_MAX, 30);
    assert_eq!(ROI_SCORE_MAX, 30);
    assert_eq!(STREAK_SCORE_MAX, 15);
    assert_eq!(LEARN_SCORE_MAX, 15);
    assert_eq!(COMMUNITY_SCORE_MAX, 10);
    assert_eq!(TIER_SILVER, 25);
    assert_eq!(TIER_GOLD, 50);
    assert_eq!(TIER_PLATINUM, 75);
}

#[test]
fn lib_test_error_codes() {
    assert_eq!(Error::AlreadyInitialized.code(), 1);
    assert_eq!(Error::NotInitialized.code(), 2);
    assert_eq!(Error::UserAlreadyRegistered.code(), 3);
    assert_eq!(Error::UserNotFound.code(), 4);
    assert_eq!(Error::BadgeAlreadyEarned.code(), 5);
    assert_eq!(Error::BadgeNotFound.code(), 6);
    assert_eq!(Error::ChallengeNotFound.code(), 7);
    assert_eq!(Error::ChallengeAlreadyEnded.code(), 8);
    assert_eq!(Error::ChallengeNotStarted.code(), 9);
    assert_eq!(Error::ChallengeAlreadyJoined.code(), 10);
    assert_eq!(Error::InvalidChallengeParams.code(), 11);
    assert_eq!(Error::InsufficientRewardPool.code(), 12);
    assert_eq!(Error::ArithmeticOverflow.code(), 13);
    assert_eq!(Error::AdminRequired.code(), 14);
    assert_eq!(Error::BadgeDefinitionNotFound.code(), 15);
}

#[test]
fn test_find_badge_reward() {
    let defs = create_default_badge_defs();
    assert!(find_badge_reward(&defs, &symbol("1ST_TRD")) > 0);
    assert_eq!(find_badge_reward(&defs, &symbol("NOPE")), 0);
}

#[test]
fn test_progression_tier_ordering() {
    assert!(ProgressionTier::Bronze < ProgressionTier::Silver);
    assert!(ProgressionTier::Silver < ProgressionTier::Gold);
    assert!(ProgressionTier::Gold < ProgressionTier::Platinum);
    assert!(ProgressionTier::Platinum > ProgressionTier::Bronze);
}

#[test]
fn nothing_works_before_initialization() {
    let mut engine = GamificationEngine::new();
    assert_eq!(engine.register_user(address(2), 0), Err(Error::NotInitialized));
    assert_eq!(engine.get_admin(), Err(Error::NotInitialized));
}

#[test]
fn a_player_registers_once() {
    let mut engine = engine();
    assert_eq!(engine.initialize(address(1), 5), Err(Error::AlreadyInitialized));
    engine.register_user(address(2), 3).unwrap();
    assert_eq!(engine.register_user(address(2), 4), Err(Error::UserAlreadyRegistered));
    assert_eq!(engine.get_total_players(), 1);
    assert_eq!(engine.get_all_users(), vec![address(2)]);
}

#[test]
fn trades_raise_the_score_and_the_tier() {
    let mut engine = engine();
    engine.register_user(address(2), 0).unwrap();
    assert_eq!(engine.record_trade(address(3), 1, true, 0), Err(Error::UserNotFound));
    let score = engine.record_trade(address(2), 10_000, true, 1).unwrap();
    assert_eq!(score, engine.get_score(address(2)));
    assert_eq!(score, 2 + 30 + 3);
    assert_eq!(engine.get_tier(address(2)), ProgressionTier::Silver);
    assert_eq!(engine.get_streak(address(2)), Ok((1, 1)));
    engine.record_trade(address(2), -10, false, 2).unwrap();
    assert_eq!(engine.get_streak(address(2)), Ok((0, 1)));
}

#[test]
fn a_batch_scores_like_its_trades() {
    let mut one = engine();
    let mut other = engine();
    one.register_user(address(2), 0).unwrap();
    other.register_user(address(2), 0).unwrap();
    let trades = vec![(100, true), (-5, false), (7_000, true)];
    let batch = one.record_trades_batch(address(2), &trades, 9).unwrap();
    let mut last = 0;
    for (roi, ok) in trades {
        last = other.record_trade(address(2), roi, ok, 9).unwrap();
    }
    assert_eq!(batch, last);
    assert_eq!(one.get_player_stats(address(2)), other.get_player_stats(address(2)));
}

#[test]
fn a_badge_is_issued_once() {
    let mut engine = engine();
    engine.fund_reward_pool(address(1), 1_000_000_000).unwrap();
    engine.register_user(address(2), 0).unwrap();
    engine.record_trade(address(2), 100, true, 1).unwrap();
    let first = engine.check_and_issue_badges(address(2), 2).unwrap();
    assert!(first.contains(&symbol("1ST_TRD")));
    assert_eq!(engine.check_and_issue_badges(address(2), 3), Ok(vec![]));
    assert!(engine.get_user_badges(address(2)).contains(&symbol("1ST_TRD")));
    assert_eq!(
        engine.issue_badge(address(1), address(2), symbol("1ST_TRD"), 4),
        Err(Error::BadgeAlreadyEarned)
    );
    assert_eq!(
        engine.issue_badge(address(3), address(2), symbol("VIP"), 4),
        Err(Error::AdminRequired)
    );
    assert_eq!(
        engine.issue_badge(address(1), address(3), symbol("VIP"), 4),
        Err(Error::UserNotFound)
    );
    assert_eq!(engine.issue_badge(address(1), address(2), symbol("VIP"), 4), Ok(symbol("ok")));
    assert_eq!(
        engine.update_badge_definition(
            address(1),
            symbol("NOPE"),
            symbol("a"),
            symbol("b"),
            1,
            true,
        ),
        Err(Error::BadgeDefinitionNotFound)
    );
}

#[test]
fn rewards_come_out_of_the_pool() {
    let mut engine = engine();
    engine.register_user(address(2), 0).unwrap();
    assert_eq!(engine.get_reward_pool(), 1_000_000);
    assert_eq!(engine.distribute_tier_reward(address(2)), Ok(REWARD_BRONZE));
    assert_eq!(engine.get_reward_pool(), 1_000_000 - REWARD_BRONZE);
    assert_eq!(engine.get_reward_distributed(address(2)), REWARD_BRONZE);
    engine.pool = REWARD_BRONZE - 1;
    assert_eq!(engine.distribute_tier_reward(address(2)), Err(Error::InsufficientRewardPool));
    assert_eq!(engine.fund_reward_pool(address(1), 1), Ok(REWARD_BRONZE));
    assert_eq!(engine.fund_reward_pool(address(1), i128::MAX), Err(Error::ArithmeticOverflow));
}

#[test]
fn the_leaderboard_has_the_best_first() {
    let mut engine = engine();
    for n in 2..5u128 {
        engine.register_user(address(n), 0).unwrap();
    }
    engine.record_trade(address(3), 500, true, 1).unwrap();
    engine.record_trade(address(4), 9_000, true, 1).unwrap();
    let page = engine.get_leaderboard(SortMetric::Score, TimeWindow::AllTime, 0, 10);
    let users: Vec<Address> = page.entries.iter().map(|e| e.user).collect();
    assert_eq!(users, vec![address(4), address(3), address(2)]);
    assert_eq!(page.total_players, 3);
    assert_eq!(engine.get_user_rank(address(3), SortMetric::Score), Some(2));
    assert_eq!(engine.get_user_rank(address(9), SortMetric::Score), None);
    assert_eq!(engine.get_top_players(1)[0].user, address(4));
}

#[test]
fn equal_players_stand_in_joining_order() {
    let mut engine = engine();
    for n in [5u128, 2, 4, 3, 6] {
        engine.register_user(address(n), 0).unwrap();
    }
    engine.record_trade(address(4), 500, true, 1).unwrap();
    engine.record_trade(address(3), 500, true, 1).unwrap();
    let page = engine.get_leaderboard(SortMetric::Score, TimeWindow::AllTime, 0, 10);
    let users: Vec<Address> = page.entries.iter().map(|e| e.user).collect();
    assert_eq!(users, vec![address(4), address(3), address(5), address(2), address(6)]);
}

#[test]
fn a_challenge_is_joined_and_won() {
    let mut engine = engine();
    engine.fund_reward_pool(address(1), 10_000).unwrap();
    engine.register_user(address(2), 0).unwrap();
    let id = symbol("race");
    assert_eq!(
        engine.create_challenge(
            address(1), id, id, id, SortMetric::TradeCount, 10, 500, 50, 50,
        ),
        Err(Error::InvalidChallengeParams)
    );
    engine
        .create_challenge(address(1), id, id, id, SortMetric::TradeCount, 10, 500, 100, 200)
        .unwrap();
    assert_eq!(engine.join_challenge(address(2), symbol("x"), 150), Err(Error::ChallengeNotFound));
    assert_eq!(engine.join_challenge(address(2), id, 99), Err(Error::ChallengeNotStarted));
    engine.join_challenge(address(2), id, 150).unwrap();
    assert_eq!(engine.join_challenge(address(2), id, 151), Err(Error::ChallengeAlreadyJoined));
    assert_eq!(engine.update_challenge_progress(address(2), id, 4, 160), Ok(false));
    assert_eq!(engine.update_challenge_progress(address(2), id, 6, 170), Ok(true));
    let entry = engine.get_challenge_entry(address(2), id).unwrap();
    assert!(entry.completed);
    assert_eq!(entry.completed_at, 170);
    assert_eq!(engine.get_reward_pool(), 1_000_000 + 10_000 - 500);
}

#[test]
fn learning_and_community_count() {
    let mut engine = engine();
    engine.register_user(address(2), 0).unwrap();
    assert_eq!(engine.complete_learning_module(address(2), 1), Ok(3));
    assert_eq!(engine.record_community_action(address(2), 2), Ok(5));
    assert_eq!(engine.get_score_breakdown(address(2)), Ok((0, 0, 0, 3, 2, 5)));
}

#[test]
fn only_the_administrator_administers() {
    let mut engine = engine();
    assert_eq!(engine.fund_reward_pool(address(8), 1), Err(Error::AdminRequired));
    assert_eq!(engine.end_challenge(address(1), symbol("x")), Err(Error::ChallengeNotFound));
}

#[test]
fn players_beyond_the_first_page_have_a_rank() {
    let mut engine = engine();
    for n in 0..130u128 {
        engine.register_user(address(1_000 + n), 0).unwrap();
    }
    engine.record_trade(address(1_129), 500, true, 1).unwrap();
    assert_eq!(engine.get_user_rank(address(1_129), SortMetric::Score), Some(1));
    assert_eq!(engine.get_user_rank(address(1_000), SortMetric::Score), Some(2));
    assert_eq!(engine.get_user_rank(address(1_100), SortMetric::Score), Some(102));
    assert_eq!(engine.get_user_rank(address(1_128), SortMetric::Score), Some(130));
    assert_eq!(engine.get_user_rank(address(1_130), SortMetric::Score), None);
}

#[test]
fn a_streak_is_of_trades_that_gained() {
    let mut engine = engine();
    engine.register_user(address(2), 0).unwrap();
    engine.record_trade(address(2), 5, false, 1).unwrap();
    engine.record_trade(address(2), 1, true, 2).unwrap();
    assert_eq!(engine.get_streak(address(2)), Ok((2, 2)));
    engine.record_trade(address(2), 0, true, 3).unwrap();
    assert_eq!(engine.get_streak(address(2)), Ok((0, 2)));
    let trades = vec![(1, false), (-1, true), (3, false)];
    engine.record_trades_batch(address(2), &trades, 4).unwrap();
    assert_eq!(engine.get_streak(address(2)), Ok((1, 2)));
    let stats = engine.get_player_stats(address(2)).unwrap();
    assert_eq!((stats.trade_count, stats.successful_trades), (6, 3));
}
