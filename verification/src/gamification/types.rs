//! What the gamification engine stores and hands out.
use crate::values::{Address, Symbol};
use vstd::prelude::*;

verus! {

/// Why a call was refused.
#[derive(Clone, Copy, PartialEq, Eq, Structural, Debug)]
pub enum Error {
    AlreadyInitialized,
    NotInitialized,
    UserAlreadyRegistered,
    UserNotFound,
    BadgeAlreadyEarned,
    BadgeNotFound,
    ChallengeNotFound,
    ChallengeAlreadyEnded,
    ChallengeNotStarted,
    ChallengeAlreadyJoined,
    InvalidChallengeParams,
    InsufficientRewardPool,
    ArithmeticOverflow,
    AdminRequired,
    BadgeDefinitionNotFound,
}

impl Error {
    /// The number under which an error is reported.
    pub open spec fn number(self) -> u32 {
        match self {
            Error::AlreadyInitialized => 1,
            Error::NotInitialized => 2,
            Error::UserAlreadyRegistered => 3,
            Error::UserNotFound => 4,
            Error::BadgeAlreadyEarned => 5,
            Error::BadgeNotFound => 6,
            Error::ChallengeNotFound => 7,
            Error::ChallengeAlreadyEnded => 8,
            Error::ChallengeNotStarted => 9,
            Error::ChallengeAlreadyJoined => 10,
            Error::InvalidChallengeParams => 11,
            Error::InsufficientRewardPool => 12,
            Error::ArithmeticOverflow => 13,
            Error::AdminRequired => 14,
            Error::BadgeDefinitionNotFound => 15,
        }
    }

    /// The number under which an error is reported.
    pub fn code(self) -> (code: u32)
        ensures
            code == self.number(),
    {
        match self {
            Error::AlreadyInitialized => 1,
            Error::NotInitialized => 2,
            Error::UserAlreadyRegistered => 3,
            Error::UserNotFound => 4,
            Error::BadgeAlreadyEarned => 5,
            Error::BadgeNotFound => 6,
            Error::ChallengeNotFound => 7,
            Error::ChallengeAlreadyEnded => 8,
            Error::ChallengeNotStarted => 9,
            Error::ChallengeAlreadyJoined => 10,
            Error::InvalidChallengeParams => 11,
            Error::InsufficientRewardPool => 12,
            Error::ArithmeticOverflow => 13,
            Error::AdminRequired => 14,
            Error::BadgeDefinitionNotFound => 15,
        }
    }
}

/// How far a player has come.
#[derive(Clone, Copy, PartialEq, Eq, PartialOrd, Structural, Debug)]
pub enum ProgressionTier {
    Bronze,
    Silver,
    Gold,
    Platinum,
}

impl ProgressionTier {
    /// The position of the tier, from 0.
    pub open spec fn level(self) -> u32 {
        match self {
            ProgressionTier::Bronze => 0,
            ProgressionTier::Silver => 1,
            ProgressionTier::Gold => 2,
            ProgressionTier::Platinum => 3,
        }
    }

    /// The position of the tier, from 0.
    pub fn code(self) -> (code: u32)
        ensures
            code == self.level(),
    {
        match self {
            ProgressionTier::Bronze => 0,
            ProgressionTier::Silver => 1,
            ProgressionTier::Gold => 2,
            ProgressionTier::Platinum => 3,
        }
    }
}

/// What a badge is for.
#[derive(Clone, Copy, PartialEq, Eq, Structural, Debug)]
pub enum BadgeType {
    FirstTrade,
    Trade10,
    Trade50,
    Trade100,
    PositiveRoi,
    Roi50,
    Roi100,
    Streak3,
    Streak5,
    Streak10,
    Learn1,
    Learn5,
    LearnAll,
    Community1,
    ChallengeWin,
    BronzeTier,
    SilverTier,
    GoldTier,
    PlatinumTier,
}

/// A badge as the administrator defines it.
#[derive(Clone, Copy, PartialEq, Eq, Structural, Debug)]
pub struct BadgeDefinition {
    pub badge_id: Symbol,
    pub badge_type: BadgeType,
    pub name: Symbol,
    pub description: Symbol,
    pub reward_amount: i128,
    pub active: bool,
}

/// A badge that a user has earned.
#[derive(Clone, Copy, PartialEq, Eq, Structural, Debug)]
pub struct BadgeRecord {
    pub badge_id: Symbol,
    pub user: Address,
    pub earned_at: u64,
    pub score_at_earn: i128,
}

/// What is known of a player.
#[derive(Clone, Copy, PartialEq, Eq, Structural, Debug)]
pub struct PlayerStats {
    pub user: Address,
    pub trade_count: u32,
    pub successful_trades: u32,
    pub best_roi_bps: i128,
    pub current_streak: u32,
    pub best_streak: u32,
    pub modules_completed: u32,
    pub total_modules: u32,
    pub community_actions: u32,
    pub challenges_won: u32,
    pub tier: ProgressionTier,
    pub total_score: i128,
    pub last_active: u64,
}

/// One line of a leaderboard.
#[derive(Clone, Copy, PartialEq, Eq, Structural, Debug)]
pub struct LeaderboardEntry {
    pub rank: u32,
    pub user: Address,
    pub score: i128,
    pub tier: ProgressionTier,
    pub trade_count: u32,
    pub best_roi_bps: i128,
    pub streak: u32,
}

/// A page of a leaderboard.
pub struct LeaderboardPage {
    pub entries: Vec<LeaderboardEntry>,
    pub total_players: u32,
    pub page_offset: u32,
    pub page_limit: u32,
}

/// What a leaderboard or a challenge goes by.
#[derive(Clone, Copy, PartialEq, Eq, Structural, Debug)]
pub enum SortMetric {
    Score,
    TradeCount,
    Roi,
    Streak,
}

/// The time that a leaderboard covers.
#[derive(Clone, Copy, PartialEq, Eq, Structural, Debug)]
pub enum TimeWindow {
    AllTime,
    Daily,
    Weekly,
    Monthly,
}

/// A challenge that runs for a time.
#[derive(Clone, Copy, PartialEq, Eq, Structural, Debug)]
pub struct Challenge {
    pub challenge_id: Symbol,
    pub name: Symbol,
    pub description: Symbol,
    pub target_metric: SortMetric,
    pub target_value: i128,
    pub reward_amount: i128,
    pub start_time: u64,
    pub end_time: u64,
    pub active: bool,
}

/// A user's part in a challenge.
#[derive(Clone, Copy, PartialEq, Eq, Structural, Debug)]
pub struct ChallengeEntry {
    pub challenge_id: Symbol,
    pub user: Address,
    pub current_value: i128,
    pub completed: bool,
    pub completed_at: u64,
}

/// What is published about a player.
#[derive(Clone, Copy, PartialEq, Eq, Structural, Debug)]
pub enum GameEvent {
    Trade { user: Address, roi_bps: i128, successful: bool, score: i128 },
    Learn { user: Address, modules: u32, score: i128 },
    Community { user: Address, actions: u32, score: i128 },
    BadgeEarned { user: Address, badge_id: Symbol, reward: i128 },
    BadgeIssued { user: Address, badge_id: Symbol, reward: i128 },
    ChallengeJoined { user: Address, challenge_id: Symbol },
    ChallengeCompleted { user: Address, challenge_id: Symbol, reward: i128 },
    TierReward { user: Address, amount: i128, tier: u32 },
}

} // verus!
