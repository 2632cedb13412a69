//! Gamification: scores, tiers, badges, leaderboards, challenges and rewards.
pub mod badges;
pub mod engine;
pub mod leaderboard;
pub mod scoring;
pub mod types;
