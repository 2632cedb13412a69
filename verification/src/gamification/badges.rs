//! Badges: what they are, who has earned which, and what they pay.
use crate::gamification::scoring::TIER_SILVER;
use crate::gamification::types::{BadgeDefinition, BadgeType, PlayerStats, ProgressionTier};
use crate::table;
use crate::values;
use crate::values::Symbol;
use vstd::prelude::*;

verus! {

/// An active badge.
pub open spec fn badge(
    badge_id: Seq<char>,
    badge_type: BadgeType,
    name: Seq<char>,
    description: Seq<char>,
    reward_amount: i128,
) -> BadgeDefinition {
    BadgeDefinition {
        badge_id: values::symbol_of(badge_id),
        badge_type,
        name: values::symbol_of(name),
        description: values::symbol_of(description),
        reward_amount,
        active: true,
    }
}

/// The badges that the engine starts with.
pub open spec fn default_badges() -> Seq<BadgeDefinition> {
    seq![
        badge("1ST_TRD"@, BadgeType::FirstTrade, "FirstTrd"@, "1st_trd"@, 5),
        badge("TRD_10"@, BadgeType::Trade10, "10_Trades"@, "10_trds"@, 10),
        badge("TRD_50"@, BadgeType::Trade50, "50_Trades"@, "50_trds"@, 25),
        badge("TRD100"@, BadgeType::Trade100, "100_Trds"@, "100_trds"@, 50),
        badge("POS_ROI"@, BadgeType::PositiveRoi, "Pos_ROI"@, "Pos_ROI"@, 10),
        badge("ROI_50"@, BadgeType::Roi50, "ROI_50"@, "50pct_ROI"@, 30),
        badge("ROI100"@, BadgeType::Roi100, "ROI_100"@, "100pct"@, 50),
        badge("STRK_3"@, BadgeType::Streak3, "Strk_3"@, "3win"@, 10),
        badge("STRK_5"@, BadgeType::Streak5, "Strk_5"@, "5win"@, 20),
        badge("STRK10"@, BadgeType::Streak10, "Strk_10"@, "10win"@, 40),
        badge("LRN_1"@, BadgeType::Learn1, "LRN_1"@, "1_module"@, 5),
        badge("LRN_5"@, BadgeType::Learn5, "LRN_5"@, "5_modules"@, 15),
        badge("LRN_ALL"@, BadgeType::LearnAll, "LRN_ALL"@, "All_mods"@, 50),
        badge("COM_1"@, BadgeType::Community1, "COM_1"@, "1st_com"@, 5),
        badge("BRZ_TIR"@, BadgeType::BronzeTier, "Bronze"@, "Brz_tier"@, 10),
        badge("SLV_TIR"@, BadgeType::SilverTier, "Silver"@, "Slv_tier"@, 25),
        badge("GLD_TIR"@, BadgeType::GoldTier, "Gold"@, "Gld_tier"@, 50),
        badge("PLT_TIR"@, BadgeType::PlatinumTier, "Platinum"@, "Plt_tier"@, 100),
    ]
}

fn define(
    badge_id: &str,
    badge_type: BadgeType,
    name: &str,
    description: &str,
    reward_amount: i128,
) -> (definition: BadgeDefinition)
    ensures
        definition == badge(badge_id@, badge_type, name@, description@, reward_amount),
{
    BadgeDefinition {
        badge_id: Symbol::from_text(badge_id),
        badge_type,
        name: Symbol::from_text(name),
        description: Symbol::from_text(description),
        reward_amount,
        active: true,
    }
}

/// The badges that the engine starts with.
pub fn create_default_badge_defs() -> (defs: Vec<BadgeDefinition>)
    ensures
        defs@ == default_badges(),
{
    let mut defs: Vec<BadgeDefinition> = Vec::new();
    defs.push(define("1ST_TRD", BadgeType::FirstTrade, "FirstTrd", "1st_trd", 5));
    defs.push(define("TRD_10", BadgeType::Trade10, "10_Trades", "10_trds", 10));
    defs.push(define("TRD_50", BadgeType::Trade50, "50_Trades", "50_trds", 25));
    defs.push(define("TRD100", BadgeType::Trade100, "100_Trds", "100_trds", 50));
    defs.push(define("POS_ROI", BadgeType::PositiveRoi, "Pos_ROI", "Pos_ROI", 10));
    defs.push(define("ROI_50", BadgeType::Roi50, "ROI_50", "50pct_ROI", 30));
    defs.push(define("ROI100", BadgeType::Roi100, "ROI_100", "100pct", 50));
    defs.push(define("STRK_3", BadgeType::Streak3, "Strk_3", "3win", 10));
    defs.push(define("STRK_5", BadgeType::Streak5, "Strk_5", "5win", 20));
    defs.push(define("STRK10", BadgeType::Streak10, "Strk_10", "10win", 40));
    defs.push(define("LRN_1", BadgeType::Learn1, "LRN_1", "1_module", 5));
    defs.push(define("LRN_5", BadgeType::Learn5, "LRN_5", "5_modules", 15));
    defs.push(define("LRN_ALL", BadgeType::LearnAll, "LRN_ALL", "All_mods", 50));
    defs.push(define("COM_1", BadgeType::Community1, "COM_1", "1st_com", 5));
    defs.push(define("BRZ_TIR", BadgeType::BronzeTier, "Bronze", "Brz_tier", 10));
    defs.push(define("SLV_TIR", BadgeType::SilverTier, "Silver", "Slv_tier", 25));
    defs.push(define("GLD_TIR", BadgeType::GoldTier, "Gold", "Gld_tier", 50));
    defs.push(define("PLT_TIR", BadgeType::PlatinumTier, "Platinum", "Plt_tier", 100));
    assert(defs@ =~= default_badges());
    defs
}

/// The reward of the first definition of a badge, 0 where there is none.
pub open spec fn badge_reward(defs: Seq<BadgeDefinition>, badge_id: Symbol) -> i128
    decreases defs.len(),
{
    if defs.len() == 0 {
        0
    } else if defs[0].badge_id == badge_id {
        defs[0].reward_amount
    } else {
        badge_reward(defs.drop_first(), badge_id)
    }
}

/// The reward of a badge, 0 where it is not defined.
pub fn find_badge_reward(defs: &Vec<BadgeDefinition>, badge_id: &Symbol) -> (reward: i128)
    ensures
        reward == badge_reward(defs@, *badge_id),
{
    let mut i: usize = 0;
    assert(defs@.skip(0) =~= defs@);
    while i < defs.len()
        invariant
            i <= defs@.len(),
            badge_reward(defs@, *badge_id) == badge_reward(defs@.skip(i as int), *badge_id),
        decreases defs@.len() - i,
    {
        let def = defs[i];
        assert(defs@.skip(i as int)[0] == def);
        assert(defs@.skip(i as int).drop_first() =~= defs@.skip(i + 1));
        if def.badge_id == *badge_id {
            return def.reward_amount;
        }
        i += 1;
    }
    0
}

/// A badge that statistics can earn.
#[derive(Clone, Copy)]
pub struct EarnableBadge {
    pub badge_id: Symbol,
    pub badge_type: BadgeType,
}

/// Whether a player's statistics deserve a badge.
pub open spec fn deserves(stats: PlayerStats, badge_type: BadgeType) -> bool {
    match badge_type {
        BadgeType::FirstTrade => stats.trade_count >= 1,
        BadgeType::Trade10 => stats.successful_trades >= 10,
        BadgeType::Trade50 => stats.successful_trades >= 50,
        BadgeType::Trade100 => stats.successful_trades >= 100,
        BadgeType::PositiveRoi => stats.best_roi_bps > 0,
        BadgeType::Roi50 => stats.best_roi_bps >= 5_000,
        BadgeType::Roi100 => stats.best_roi_bps >= 10_000,
        BadgeType::Streak3 => stats.best_streak >= 3,
        BadgeType::Streak5 => stats.best_streak >= 5,
        BadgeType::Streak10 => stats.best_streak >= 10,
        BadgeType::Learn1 => stats.modules_completed >= 1,
        BadgeType::Learn5 => stats.modules_completed >= 5,
        BadgeType::LearnAll => stats.total_modules > 0 && stats.modules_completed
            >= stats.total_modules,
        BadgeType::Community1 => stats.community_actions >= 1,
        BadgeType::BronzeTier => stats.tier == ProgressionTier::Bronze && stats.total_score
            >= TIER_SILVER - 1,
        BadgeType::SilverTier => stats.tier != ProgressionTier::Bronze,
        BadgeType::GoldTier => stats.tier == ProgressionTier::Gold || stats.tier
            == ProgressionTier::Platinum,
        BadgeType::PlatinumTier => stats.tier == ProgressionTier::Platinum,
        BadgeType::ChallengeWin => false,
    }
}

/// A badge that can be earned.
pub open spec fn earnable(badge_id: Seq<char>, badge_type: BadgeType) -> EarnableBadge {
    EarnableBadge { badge_id: values::symbol_of(badge_id), badge_type }
}

/// The badges that statistics can earn, in the order in which they are
/// looked at.
pub open spec fn earnable_badges() -> Seq<EarnableBadge> {
    seq![
        earnable("1ST_TRD"@, BadgeType::FirstTrade),
        earnable("TRD_10"@, BadgeType::Trade10),
        earnable("TRD_50"@, BadgeType::Trade50),
        earnable("TRD_100"@, BadgeType::Trade100),
        earnable("POS_ROI"@, BadgeType::PositiveRoi),
        earnable("ROI_50"@, BadgeType::Roi50),
        earnable("ROI_100"@, BadgeType::Roi100),
        earnable("STRK_3"@, BadgeType::Streak3),
        earnable("STRK_5"@, BadgeType::Streak5),
        earnable("STRK10"@, BadgeType::Streak10),
        earnable("LRN_1"@, BadgeType::Learn1),
        earnable("LRN_5"@, BadgeType::Learn5),
        earnable("LRN_ALL"@, BadgeType::LearnAll),
        earnable("COM_1"@, BadgeType::Community1),
        earnable("BRZ_TIR"@, BadgeType::BronzeTier),
        earnable("SLV_TIR"@, BadgeType::SilverTier),
        earnable("GLD_TIR"@, BadgeType::GoldTier),
        earnable("PLT_TIR"@, BadgeType::PlatinumTier),
    ]
}

/// The badges that a player deserves and does not have yet.
pub open spec fn badges_due(earned: Seq<Symbol>, stats: PlayerStats) -> Seq<Symbol> {
    earnable_badges().filter(|b: EarnableBadge| deserves(stats, b.badge_type) && !earned.contains(b.badge_id)).map_values(
        |b: EarnableBadge| b.badge_id,
    )
}

/// Whether a badge is among those earned.
pub fn badge_already_earned(earned: &Vec<Symbol>, badge_id: &Symbol) -> (b: bool)
    ensures
        b == earned@.contains(*badge_id),
{
    let mut i: usize = 0;
    while i < earned.len()
        invariant
            i <= earned@.len(),
            forall|j: int| 0 <= j < i ==> earned@[j] != *badge_id,
        decreases earned@.len() - i,
    {
        if earned[i] == *badge_id {
            return true;
        }
        i += 1;
    }
    false
}

fn earns(badge_id: &str, badge_type: BadgeType) -> (b: EarnableBadge)
    ensures
        b == earnable(badge_id@, badge_type),
{
    EarnableBadge { badge_id: Symbol::from_text(badge_id), badge_type }
}

fn list_earnable_badges() -> (badges: Vec<EarnableBadge>)
    ensures
        badges@ == earnable_badges(),
{
    let mut badges: Vec<EarnableBadge> = Vec::new();
    badges.push(earns("1ST_TRD", BadgeType::FirstTrade));
    badges.push(earns("TRD_10", BadgeType::Trade10));
    badges.push(earns("TRD_50", BadgeType::Trade50));
    badges.push(earns("TRD_100", BadgeType::Trade100));
    badges.push(earns("POS_ROI", BadgeType::PositiveRoi));
    badges.push(earns("ROI_50", BadgeType::Roi50));
    badges.push(earns("ROI_100", BadgeType::Roi100));
    badges.push(earns("STRK_3", BadgeType::Streak3));
    badges.push(earns("STRK_5", BadgeType::Streak5));
    badges.push(earns("STRK10", BadgeType::Streak10));
    badges.push(earns("LRN_1", BadgeType::Learn1));
    badges.push(earns("LRN_5", BadgeType::Learn5));
    badges.push(earns("LRN_ALL", BadgeType::LearnAll));
    badges.push(earns("COM_1", BadgeType::Community1));
    badges.push(earns("BRZ_TIR", BadgeType::BronzeTier));
    badges.push(earns("SLV_TIR", BadgeType::SilverTier));
    badges.push(earns("GLD_TIR", BadgeType::GoldTier));
    badges.push(earns("PLT_TIR", BadgeType::PlatinumTier));
    assert(badges@ =~= earnable_badges());
    badges
}

fn is_deserved(stats: &PlayerStats, badge_type: BadgeType) -> (b: bool)
    ensures
        b == deserves(*stats, badge_type),
{
    match badge_type {
        BadgeType::FirstTrade => stats.trade_count >= 1,
        BadgeType::Trade10 => stats.successful_trades >= 10,
        BadgeType::Trade50 => stats.successful_trades >= 50,
        BadgeType::Trade100 => stats.successful_trades >= 100,
        BadgeType::PositiveRoi => stats.best_roi_bps > 0,
        BadgeType::Roi50 => stats.best_roi_bps >= 5_000,
        BadgeType::Roi100 => stats.best_roi_bps >= 10_000,
        BadgeType::Streak3 => stats.best_streak >= 3,
        BadgeType::Streak5 => stats.best_streak >= 5,
        BadgeType::Streak10 => stats.best_streak >= 10,
        BadgeType::Learn1 => stats.modules_completed >= 1,
        BadgeType::Learn5 => stats.modules_completed >= 5,
        BadgeType::LearnAll => stats.total_modules > 0 && stats.modules_completed
            >= stats.total_modules,
        BadgeType::Community1 => stats.community_actions >= 1,
        BadgeType::BronzeTier => stats.tier == ProgressionTier::Bronze && stats.total_score
            >= TIER_SILVER - 1,
        BadgeType::SilverTier => stats.tier != ProgressionTier::Bronze,
        BadgeType::GoldTier => stats.tier == ProgressionTier::Gold || stats.tier
            == ProgressionTier::Platinum,
        BadgeType::PlatinumTier => stats.tier == ProgressionTier::Platinum,
        BadgeType::ChallengeWin => false,
    }
}

/// The badges that a player deserves and does not have yet, in the order of
/// [`earnable_badges`].
pub fn evaluate_badges(earned: &Vec<Symbol>, stats: &PlayerStats) -> (due: Vec<Symbol>)
    ensures
        due@ == badges_due(earned@, *stats),
{
    let badges = list_earnable_badges();
    let ghost keep = |b: EarnableBadge| deserves(*stats, b.badge_type) && !earned@.contains(b.badge_id);
    let ghost name = |b: EarnableBadge| b.badge_id;
    let mut due: Vec<Symbol> = Vec::new();
    let mut i: usize = 0;
    proof {
        table::lemma_filter_none(badges@, keep);
        assert(due@ =~= badges@.take(0).filter(keep).map_values(name));
    }
    while i < badges.len()
        invariant
            i <= badges@.len(),
            keep == (|b: EarnableBadge| deserves(*stats, b.badge_type) && !earned@.contains(b.badge_id)),
            name == (|b: EarnableBadge| b.badge_id),
            due@ == badges@.take(i as int).filter(keep).map_values(name),
        decreases badges@.len() - i,
    {
        let b = badges[i];
        proof {
            table::lemma_filter_step(badges@, i as int, keep);
        }
        if is_deserved(stats, b.badge_type) && !badge_already_earned(earned, &b.badge_id) {
            due.push(b.badge_id);
        }
        i += 1;
        assert(due@ =~= badges@.take(i as int).filter(keep).map_values(name));
    }
    assert(badges@.take(i as int) =~= badges@);
    due
}

/// The texts of the badges that can be earned, in order.
spec fn badge_texts() -> Seq<Seq<char>> {
    seq![
        "1ST_TRD"@, "TRD_10"@, "TRD_50"@, "TRD_100"@, "POS_ROI"@, "ROI_50"@,
        "ROI_100"@, "STRK_3"@, "STRK_5"@, "STRK10"@, "LRN_1"@, "LRN_5"@,
        "LRN_ALL"@, "COM_1"@, "BRZ_TIR"@, "SLV_TIR"@, "GLD_TIR"@, "PLT_TIR"@,
    ]
}

/// A number that tells the badge texts apart.
spec fn mark(text: Seq<char>) -> int {
    text.len() * 1_000_000_000 + text[0] as int * 1_000_000 + text[4] as int * 1_000 + text.last() as int
}

/// The position of a badge text by its mark.
spec fn place(mark: int) -> int {
    if mark == 7_049_084_068 {
        0
    } else if mark == 6_084_049_048 {
        1
    } else if mark == 6_084_053_048 {
        2
    } else if mark == 7_084_049_048 {
        3
    } else if mark == 7_080_082_073 {
        4
    } else if mark == 6_082_053_048 {
        5
    } else if mark == 7_082_049_048 {
        6
    } else if mark == 6_083_095_051 {
        7
    } else if mark == 6_083_095_053 {
        8
    } else if mark == 6_083_049_048 {
        9
    } else if mark == 5_076_049_049 {
        10
    } else if mark == 5_076_053_053 {
        11
    } else if mark == 7_076_065_076 {
        12
    } else if mark == 5_067_049_049 {
        13
    } else if mark == 7_066_084_082 {
        14
    } else if mark == 7_083_084_082 {
        15
    } else if mark == 7_071_084_082 {
        16
    } else if mark == 7_080_084_082 {
        17
    } else {
        18
    }
}

/// The badges that can be earned are all different.
proof fn lemma_badges_differ()
    ensures
        earnable_badges().len() == 18,
        forall|i: int, j: int|
            0 <= i < j < 18 ==> (#[trigger] earnable_badges()[i]).badge_id != (
            #[trigger] earnable_badges()[j]).badge_id,
{
    reveal_strlit("1ST_TRD");
    reveal_strlit("TRD_10");
    reveal_strlit("TRD_50");
    reveal_strlit("TRD_100");
    reveal_strlit("POS_ROI");
    reveal_strlit("ROI_50");
    reveal_strlit("ROI_100");
    reveal_strlit("STRK_3");
    reveal_strlit("STRK_5");
    reveal_strlit("STRK10");
    reveal_strlit("LRN_1");
    reveal_strlit("LRN_5");
    reveal_strlit("LRN_ALL");
    reveal_strlit("COM_1");
    reveal_strlit("BRZ_TIR");
    reveal_strlit("SLV_TIR");
    reveal_strlit("GLD_TIR");
    reveal_strlit("PLT_TIR");
    values::symbol_reads_back("1ST_TRD"@);
    values::symbol_reads_back("TRD_10"@);
    values::symbol_reads_back("TRD_50"@);
    values::symbol_reads_back("TRD_100"@);
    values::symbol_reads_back("POS_ROI"@);
    values::symbol_reads_back("ROI_50"@);
    values::symbol_reads_back("ROI_100"@);
    values::symbol_reads_back("STRK_3"@);
    values::symbol_reads_back("STRK_5"@);
    values::symbol_reads_back("STRK10"@);
    values::symbol_reads_back("LRN_1"@);
    values::symbol_reads_back("LRN_5"@);
    values::symbol_reads_back("LRN_ALL"@);
    values::symbol_reads_back("COM_1"@);
    values::symbol_reads_back("BRZ_TIR"@);
    values::symbol_reads_back("SLV_TIR"@);
    values::symbol_reads_back("GLD_TIR"@);
    values::symbol_reads_back("PLT_TIR"@);
    let texts = badge_texts();
    let badges = earnable_badges();
    assert forall|i: int| 0 <= i < 18 implies (#[trigger] badges[i]).badge_id.text() == texts[i] && place(
        mark(texts[i]),
    ) == i by {
    }
    assert forall|i: int, j: int| 0 <= i < j < 18 implies (#[trigger] badges[i]).badge_id != (
    #[trigger] badges[j]).badge_id by {
        assert(place(mark(badges[i].badge_id.text())) == i);
        assert(place(mark(badges[j].badge_id.text())) == j);
    }
}

/// Filtering distinct pairs by their first part keeps them distinct.
proof fn lemma_filtered_names_differ(badges: Seq<EarnableBadge>, keep: spec_fn(EarnableBadge) -> bool)
    requires
        forall|i: int, j: int|
            0 <= i < j < badges.len() ==> (#[trigger] badges[i]).badge_id != (#[trigger] badges[j]).badge_id,
    ensures
        ({
            let kept = badges.filter(keep);
            &&& forall|i: int, j: int|
                0 <= i < j < kept.len() ==> (#[trigger] kept[i]).badge_id != (#[trigger] kept[j]).badge_id
            &&& forall|i: int|
                0 <= i < kept.len() ==> keep(#[trigger] kept[i]) && badges.contains(kept[i])
        }),
    decreases badges.len(),
{
    reveal(Seq::filter);
    if badges.len() > 0 {
        let less = badges.drop_last();
        assert forall|i: int, j: int| 0 <= i < j < less.len() implies (#[trigger] less[i]).badge_id != (
        #[trigger] less[j]).badge_id by {
            assert(less[i] == badges[i]);
            assert(less[j] == badges[j]);
        }
        lemma_filtered_names_differ(less, keep);
        let kept = badges.filter(keep);
        let sub = less.filter(keep);
        assert forall|i: int| 0 <= i < kept.len() implies keep(#[trigger] kept[i])
            && badges.contains(kept[i]) by {
            if i < sub.len() {
                assert(kept[i] == sub[i]);
                let k = choose|k: int| 0 <= k < less.len() && less[k] == sub[i];
                assert(badges[k] == kept[i]);
            } else {
                assert(badges[badges.len() - 1] == kept[i]);
            }
        }
        assert forall|i: int, j: int| 0 <= i < j < kept.len() implies (#[trigger] kept[i]).badge_id != (
        #[trigger] kept[j]).badge_id by {
            assert(kept[i] == sub[i]);
            if j < sub.len() {
                assert(kept[j] == sub[j]);
            } else {
                let k = choose|k: int| 0 <= k < less.len() && less[k] == sub[i];
                assert(badges[k] == kept[i]);
                assert(badges[badges.len() - 1] == kept[j]);
            }
        }
    }
}

/// No badge is earned twice: the badges that are due differ from each other
/// and from those earned before.
pub proof fn no_badge_is_due_twice(earned: Seq<Symbol>, stats: PlayerStats)
    requires
        earned.no_duplicates(),
    ensures
        (earned + badges_due(earned, stats)).no_duplicates(),
{
    let keep = |b: EarnableBadge| deserves(stats, b.badge_type) && !earned.contains(b.badge_id);
    lemma_badges_differ();
    lemma_filtered_names_differ(earnable_badges(), keep);
    let kept = earnable_badges().filter(keep);
    let due = badges_due(earned, stats);
    let all = earned + due;
    assert forall|i: int, j: int| 0 <= i < all.len() && 0 <= j < all.len() && i != j implies all[i]
        != all[j] by {
        let n = earned.len() as int;
        if i >= n {
            assert(keep(kept[i - n]));
        }
        if j >= n {
            assert(keep(kept[j - n]));
        }
        if i < n && j < n {
        } else if i >= n && j >= n {
            if i < j {
                assert(kept[i - n].badge_id != kept[j - n].badge_id);
            } else {
                assert(kept[j - n].badge_id != kept[i - n].badge_id);
            }
        }
    }
}

/// Each badge is deserved from its own mark on: trades, successes, returns,
/// streaks, modules, community actions, and tiers. The badge of the Bronze
/// tier is for who is one point short of Silver; that of a won challenge is
/// not for statistics.
pub proof fn badges_have_their_marks(stats: PlayerStats)
    ensures
        deserves(stats, BadgeType::FirstTrade) <==> stats.trade_count > 0,
        deserves(stats, BadgeType::Trade10) <==> stats.successful_trades > 9,
        deserves(stats, BadgeType::Trade50) <==> stats.successful_trades > 49,
        deserves(stats, BadgeType::Trade100) <==> stats.successful_trades > 99,
        deserves(stats, BadgeType::PositiveRoi) <==> stats.best_roi_bps > 0,
        deserves(stats, BadgeType::Roi50) <==> stats.best_roi_bps * 2 >= 10_000,
        deserves(stats, BadgeType::Roi100) <==> stats.best_roi_bps >= 10_000,
        deserves(stats, BadgeType::Streak3) <==> stats.best_streak > 2,
        deserves(stats, BadgeType::Streak5) <==> stats.best_streak > 4,
        deserves(stats, BadgeType::Streak10) <==> stats.best_streak > 9,
        deserves(stats, BadgeType::Learn1) <==> stats.modules_completed > 0,
        deserves(stats, BadgeType::Learn5) <==> stats.modules_completed > 4,
        deserves(stats, BadgeType::LearnAll) <==> 0 < stats.total_modules
            <= stats.modules_completed,
        deserves(stats, BadgeType::Community1) <==> stats.community_actions > 0,
        deserves(stats, BadgeType::BronzeTier) <==> stats.tier.level() == 0 && stats.total_score
            >= 24,
        deserves(stats, BadgeType::SilverTier) <==> stats.tier.level() >= 1,
        deserves(stats, BadgeType::GoldTier) <==> stats.tier.level() >= 2,
        deserves(stats, BadgeType::PlatinumTier) <==> stats.tier.level() >= 3,
        !deserves(stats, BadgeType::ChallengeWin),
{
}

/// There is a badge to earn for every kind but that of a won challenge. Gives
/// its place.
pub proof fn every_kind_can_be_earned(kind: BadgeType) -> (i: int)
    requires
        kind != BadgeType::ChallengeWin,
    ensures
        earnable_badges().len() == 18,
        0 <= i < 18,
        earnable_badges()[i].badge_type == kind,
{
    match kind {
        BadgeType::FirstTrade => 0,
        BadgeType::Trade10 => 1,
        BadgeType::Trade50 => 2,
        BadgeType::Trade100 => 3,
        BadgeType::PositiveRoi => 4,
        BadgeType::Roi50 => 5,
        BadgeType::Roi100 => 6,
        BadgeType::Streak3 => 7,
        BadgeType::Streak5 => 8,
        BadgeType::Streak10 => 9,
        BadgeType::Learn1 => 10,
        BadgeType::Learn5 => 11,
        BadgeType::LearnAll => 12,
        BadgeType::Community1 => 13,
        BadgeType::BronzeTier => 14,
        BadgeType::SilverTier => 15,
        BadgeType::GoldTier => 16,
        BadgeType::PlatinumTier => 17,
        BadgeType::ChallengeWin => 0,
    }
}

/// A badge is due exactly where it can be earned, is deserved, and was not
/// earned before.
pub proof fn due_badges_are_deserved_and_new(
    earned: Seq<Symbol>,
    stats: PlayerStats,
    i: int,
    k: int,
)
    ensures
        0 <= i < earnable_badges().len() && deserves(stats, earnable_badges()[i].badge_type)
            && !earned.contains(earnable_badges()[i].badge_id) ==> badges_due(
            earned,
            stats,
        ).contains(earnable_badges()[i].badge_id),
        0 <= k < badges_due(earned, stats).len() ==> !earned.contains(badges_due(earned, stats)[k])
            && exists|j: int|
            0 <= j < earnable_badges().len() && (#[trigger] earnable_badges()[j]).badge_id
                == badges_due(earned, stats)[k] && deserves(
                stats,
                earnable_badges()[j].badge_type,
            ),
{
    let all = earnable_badges();
    let keep = |b: EarnableBadge| deserves(stats, b.badge_type) && !earned.contains(b.badge_id);
    let kept = all.filter(keep);
    let due = badges_due(earned, stats);
    if 0 <= i < all.len() && keep(all[i]) {
        all.lemma_filter_contains(keep, i);
        let m = kept.index_of(all[i]);
        assert(kept.contains(all[i]));
        assert(due[m] == all[i].badge_id);
    }
    if 0 <= k < due.len() {
        all.lemma_filter_pred(keep, k);
        all.lemma_filter_contains_rev(keep, kept[k]);
        let j = all.index_of(kept[k]);
        assert(all[j].badge_id == due[k]);
    }
}

/// The first definition of a badge sets its reward; a badge that is not
/// defined has none.
pub proof fn the_first_definition_pays(defs: Seq<BadgeDefinition>, badge_id: Symbol, i: int)
    requires
        0 <= i <= defs.len(),
        forall|j: int| 0 <= j < i ==> (#[trigger] defs[j]).badge_id != badge_id,
    ensures
        i == defs.len() ==> badge_reward(defs, badge_id) == 0,
        i < defs.len() && defs[i].badge_id == badge_id ==> badge_reward(defs, badge_id)
            == defs[i].reward_amount,
    decreases defs.len(),
{
    if i > 0 {
        let rest = defs.drop_first();
        assert(defs[0].badge_id != badge_id);
        assert forall|j: int| 0 <= j < i - 1 implies (#[trigger] rest[j]).badge_id != badge_id by {
            assert(rest[j] == defs[j + 1]);
        }
        the_first_definition_pays(rest, badge_id, i - 1);
    }
}

/// The badges that the engine starts with are active, and each pays the reward
/// of its kind.
pub proof fn default_badges_pay(i: int)
    requires
        0 <= i < default_badges().len(),
    ensures
        default_badges().len() == 18,
        default_badges()[i].active,
        default_badges()[i].reward_amount == (match default_badges()[i].badge_type {
            BadgeType::FirstTrade | BadgeType::Learn1 | BadgeType::Community1 => 5int,
            BadgeType::Trade10
            | BadgeType::PositiveRoi
            | BadgeType::Streak3
            | BadgeType::BronzeTier => 10,
            BadgeType::Learn5 => 15,
            BadgeType::Streak5 => 20,
            BadgeType::Trade50 | BadgeType::SilverTier => 25,
            BadgeType::Roi50 => 30,
            BadgeType::Streak10 => 40,
            BadgeType::PlatinumTier => 100,
            _ => 50,
        }),
{
}

} // verus!
