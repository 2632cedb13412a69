//! The gamification engine.
//!
//! A call that is refused changes nothing.
use crate::gamification::badges;
use crate::gamification::leaderboard;
use crate::gamification::scoring;
use crate::gamification::scoring::ROI_SCORE_MAX;
use crate::gamification::types::{
    BadgeDefinition, BadgeRecord, Challenge, ChallengeEntry, Error, GameEvent, LeaderboardEntry,
    LeaderboardPage, PlayerStats, ProgressionTier, SortMetric, TimeWindow,
};
use crate::math;
use crate::table;
use crate::table::Table;
use crate::values;
use crate::values::{Address, Symbol};
use vstd::prelude::*;

verus! {

/// What the reward pool holds at first.
pub const INITIAL_REWARD_POOL: i128 = 1_000_000;

/// Players, badges, challenges and rewards, and the events to publish.
pub struct GamificationEngine {
    pub admin: Option<Address>,
    pub total_modules: u32,
    pub pool: i128,
    pub users: Vec<Address>,
    pub players: Table<Address, PlayerStats>,
    pub scores: Table<Address, i128>,
    pub earned: Table<Address, Vec<Symbol>>,
    pub badges: Table<(Address, Symbol), BadgeRecord>,
    pub definitions: Vec<BadgeDefinition>,
    pub definition_ids: Vec<Symbol>,
    pub challenges: Table<Symbol, Challenge>,
    pub challenge_ids: Vec<Symbol>,
    pub entries: Table<(Symbol, Address), ChallengeEntry>,
    pub distributed: Table<Address, i128>,
    pub outbox: Vec<GameEvent>,
}

/// The engine's state as a value.
pub struct GameLedger {
    pub admin: Option<Address>,
    pub total_modules: u32,
    pub pool: i128,
    pub users: Seq<Address>,
    pub players: Map<Address, PlayerStats>,
    pub scores: Map<Address, i128>,
    pub earned: Map<Address, Seq<Symbol>>,
    pub badges: Map<(Address, Symbol), BadgeRecord>,
    pub definitions: Seq<BadgeDefinition>,
    pub definition_ids: Seq<Symbol>,
    pub challenges: Map<Symbol, Challenge>,
    pub challenge_ids: Seq<Symbol>,
    pub entries: Map<(Symbol, Address), ChallengeEntry>,
    pub distributed: Map<Address, i128>,
    pub outbox: Seq<GameEvent>,
}

impl View for GamificationEngine {
    type V = GameLedger;

    open spec fn view(&self) -> GameLedger {
        GameLedger {
            admin: self.admin,
            total_modules: self.total_modules,
            pool: self.pool,
            users: self.users@,
            players: self.players@,
            scores: self.scores@,
            earned: table::lists(self.earned@),
            badges: self.badges@,
            definitions: self.definitions@,
            definition_ids: self.definition_ids@,
            challenges: self.challenges@,
            challenge_ids: self.challenge_ids@,
            entries: self.entries@,
            distributed: self.distributed@,
            outbox: self.outbox@,
        }
    }
}

// ---------------------------------------------------------------------------
// Players
// ---------------------------------------------------------------------------

/// The statistics of a player hang together: successes and streaks are made of
/// trades, and score and tier are those of the other numbers.
pub open spec fn stats_wf(user: Address, stats: PlayerStats) -> bool {
    &&& stats.user == user
    &&& stats.successful_trades <= stats.trade_count
    &&& stats.current_streak <= stats.best_streak <= stats.trade_count
    &&& stats.modules_completed <= stats.total_modules
    &&& 0 <= stats.best_roi_bps
    &&& scoring::is_scorable(stats.best_roi_bps as int)
    &&& stats.total_score == scoring::score_of(stats)
    &&& stats.tier == scoring::tier_of(stats.total_score as int)
}

/// A player who has just registered.
pub open spec fn newcomer(user: Address, total_modules: u32, now: u64) -> PlayerStats {
    PlayerStats {
        user,
        trade_count: 0,
        successful_trades: 0,
        best_roi_bps: 0,
        current_streak: 0,
        best_streak: 0,
        modules_completed: 0,
        total_modules,
        community_actions: 0,
        challenges_won: 0,
        tier: ProgressionTier::Bronze,
        total_score: 0,
        last_active: now,
    }
}

/// The statistics with score and tier brought up to date.
pub open spec fn rescored(stats: PlayerStats) -> PlayerStats {
    PlayerStats {
        total_score: scoring::score_of(stats) as i128,
        tier: scoring::tier_of(scoring::score_of(stats)),
        ..stats
    }
}

/// The statistics after a trade, before they are scored: a return above zero
/// lengthens the streak, any other ends it.
pub open spec fn traded(stats: PlayerStats, roi_bps: i128, successful: bool) -> PlayerStats {
    let streak: int = if roi_bps > 0 {
        stats.current_streak + 1
    } else {
        0
    };
    PlayerStats {
        trade_count: (stats.trade_count + 1) as u32,
        successful_trades: if successful {
            (stats.successful_trades + 1) as u32
        } else {
            stats.successful_trades
        },
        current_streak: streak as u32,
        best_streak: if streak > stats.best_streak {
            streak as u32
        } else {
            stats.best_streak
        },
        best_roi_bps: if roi_bps > stats.best_roi_bps {
            roi_bps
        } else {
            stats.best_roi_bps
        },
        ..stats
    }
}

/// The statistics after trades one after another, before they are scored.
pub open spec fn traded_all(stats: PlayerStats, trades: Seq<(i128, bool)>) -> PlayerStats
    decreases trades.len(),
{
    if trades.len() == 0 {
        stats
    } else {
        traded(traded_all(stats, trades.drop_last()), trades.last().0, trades.last().1)
    }
}

/// The statistics after something the player did at `now`.
pub open spec fn active(stats: PlayerStats, now: u64) -> PlayerStats {
    rescored(PlayerStats { last_active: now, ..stats })
}

/// Each trade of a list recorded by itself.
pub open spec fn traded_singly(stats: PlayerStats, trades: Seq<(i128, bool)>, now: u64) -> PlayerStats
    decreases trades.len(),
{
    if trades.len() == 0 {
        active(stats, now)
    } else {
        active(
            traded(
                traded_singly(stats, trades.drop_last(), now),
                trades.last().0,
                trades.last().1,
            ),
            now,
        )
    }
}

/// A batch of trades leaves a player where the same trades, recorded one by
/// one, would.
pub proof fn a_batch_is_its_trades(stats: PlayerStats, trades: Seq<(i128, bool)>, now: u64)
    ensures
        active(traded_all(stats, trades), now) == traded_singly(stats, trades, now),
    decreases trades.len(),
{
    if trades.len() > 0 {
        a_batch_is_its_trades(stats, trades.drop_last(), now);
    }
}

/// Trades of a player whose statistics hang together keep them so, as long as
/// the count is in range.
proof fn lemma_traded_all(user: Address, stats: PlayerStats, trades: Seq<(i128, bool)>)
    requires
        stats_wf(user, stats),
        stats.trade_count + trades.len() <= u32::MAX,
    ensures
        ({
            let after = traded_all(stats, trades);
            &&& after.user == user
            &&& after.trade_count == stats.trade_count + trades.len()
            &&& after.successful_trades <= after.trade_count
            &&& after.current_streak <= after.best_streak <= after.trade_count
            &&& after.modules_completed == stats.modules_completed
            &&& after.total_modules == stats.total_modules
            &&& stats.best_roi_bps <= after.best_roi_bps
        }),
    decreases trades.len(),
{
    if trades.len() > 0 {
        lemma_traded_all(user, stats, trades.drop_last());
    }
}

// ---------------------------------------------------------------------------
// Rewards
// ---------------------------------------------------------------------------

/// The reward pool, and what one user was given out of it.
pub struct Purse {
    pub pool: int,
    pub given: int,
}

/// Pay a reward if there is one and the pool covers it.
pub open spec fn pay(purse: Purse, reward: int) -> Purse {
    if reward > 0 && purse.pool >= reward {
        Purse { pool: purse.pool - reward, given: purse.given + reward }
    } else {
        purse
    }
}

/// Pay the rewards of badges one after another.
pub open spec fn pay_badges(
    definitions: Seq<BadgeDefinition>,
    ids: Seq<Symbol>,
    purse: Purse,
) -> Purse
    decreases ids.len(),
{
    if ids.len() == 0 {
        purse
    } else {
        pay(
            pay_badges(definitions, ids.drop_last(), purse),
            badges::badge_reward(definitions, ids.last()) as int,
        )
    }
}

/// What users are given comes out of the pool, to the last unit, and never
/// overdraws it.
pub proof fn rewards_come_out_of_the_pool(
    definitions: Seq<BadgeDefinition>,
    ids: Seq<Symbol>,
    purse: Purse,
)
    ensures
        ({
            let after = pay_badges(definitions, ids, purse);
            &&& after.pool + after.given == purse.pool + purse.given
            &&& after.given >= purse.given
            &&& purse.pool >= 0 ==> after.pool >= 0
        }),
    decreases ids.len(),
{
    if ids.len() > 0 {
        rewards_come_out_of_the_pool(definitions, ids.drop_last(), purse);
    }
}

/// Paying for fewer badges gives no more.
proof fn lemma_pay_grows(definitions: Seq<BadgeDefinition>, ids: Seq<Symbol>, purse: Purse, k: int)
    requires
        0 <= k <= ids.len(),
    ensures
        pay_badges(definitions, ids.take(k), purse).given <= pay_badges(
            definitions,
            ids,
            purse,
        ).given,
        pay_badges(definitions, ids, purse).pool <= pay_badges(
            definitions,
            ids.take(k),
            purse,
        ).pool,
    decreases ids.len(),
{
    if k == ids.len() {
        assert(ids.take(k) =~= ids);
    } else {
        assert(ids.drop_last().take(k) =~= ids.take(k));
        lemma_pay_grows(definitions, ids.drop_last(), purse, k);
    }
}

/// The badge records after badges were awarded.
pub open spec fn with_records(
    records: Map<(Address, Symbol), BadgeRecord>,
    user: Address,
    ids: Seq<Symbol>,
    score: i128,
    now: u64,
) -> Map<(Address, Symbol), BadgeRecord>
    decreases ids.len(),
{
    if ids.len() == 0 {
        records
    } else {
        with_records(records, user, ids.drop_last(), score, now).insert(
            (user, ids.last()),
            BadgeRecord { badge_id: ids.last(), user, earned_at: now, score_at_earn: score },
        )
    }
}

// ---------------------------------------------------------------------------
// The state
// ---------------------------------------------------------------------------

impl GameLedger {
    /// Players hang together and are the users, nobody has a badge twice, and
    /// challenges are as they are allowed to be created.
    pub open spec fn wf(self) -> bool {
        &&& self.users.len() < u32::MAX
        &&& self.users.no_duplicates()
        &&& forall|user: Address| #[trigger]
            self.players.contains_key(user) ==> stats_wf(user, self.players[user])
                && self.users.contains(user)
        &&& forall|user: Address| #[trigger]
            self.earned.contains_key(user) ==> self.earned[user].no_duplicates()
        &&& forall|id: Symbol| #[trigger]
            self.challenges.contains_key(id) ==> {
                &&& self.challenges[id].challenge_id == id
                &&& self.challenges[id].start_time < self.challenges[id].end_time
                &&& self.challenges[id].target_value > 0
                &&& self.challenges[id].reward_amount > 0
            }
        &&& forall|key: (Symbol, Address)| #[trigger]
            self.entries.contains_key(key) ==> self.entries[key].challenge_id == key.0
                && self.entries[key].user == key.1
    }

    /// The reward pool and what `user` was given.
    pub open spec fn purse(self, user: Address) -> Purse {
        Purse {
            pool: self.pool as int,
            given: table::value_or(self.distributed, user, 0i128) as int,
        }
    }

    /// The state with pool and given rewards changed, where they did.
    pub open spec fn with_purse(self, user: Address, purse: Purse) -> GameLedger {
        if purse.given == self.purse(user).given {
            self
        } else {
            GameLedger {
                pool: purse.pool as i128,
                distributed: self.distributed.insert(user, purse.given as i128),
                ..self
            }
        }
    }

    /// The state with a player's statistics and score put in place.
    pub open spec fn with_player(self, stats: PlayerStats) -> GameLedger {
        GameLedger {
            players: self.players.insert(stats.user, stats),
            scores: self.scores.insert(stats.user, stats.total_score),
            ..self
        }
    }

    /// The state with an event to publish.
    pub open spec fn published(self, event: GameEvent) -> GameLedger {
        GameLedger { outbox: self.outbox.push(event), ..self }
    }

    /// Why the administrator's call is refused.
    pub open spec fn admin_refusal(self, admin: Address) -> Option<Error> {
        match self.admin {
            None => Some(Error::NotInitialized),
            Some(a) => if a != admin {
                Some(Error::AdminRequired)
            } else {
                None
            },
        }
    }

    /// The state after badges were awarded and paid.
    pub open spec fn awarded(
        self,
        user: Address,
        ids: Seq<Symbol>,
        score: i128,
        now: u64,
    ) -> GameLedger {
        GameLedger {
            badges: with_records(self.badges, user, ids, score, now),
            earned: self.earned.insert(user, table::list_at(self.earned, user) + ids),
            ..self.with_purse(user, pay_badges(self.definitions, ids, self.purse(user)))
        }
    }

    /// The events of badges that were earned.
    pub open spec fn badge_events(self, user: Address, ids: Seq<Symbol>) -> Seq<GameEvent> {
        Seq::new(
            ids.len(),
            |i: int|
                GameEvent::BadgeEarned {
                    user,
                    badge_id: ids[i],
                    reward: badges::badge_reward(self.definitions, ids[i]),
                },
        )
    }

    /// Whether progress completes a challenge for the first time.
    pub open spec fn completes(self, user: Address, id: Symbol, increment: i128) -> bool {
        let entry = self.entries[(id, user)];
        entry.current_value + increment >= self.challenges[id].target_value && !entry.completed
    }

    /// Why progress in a challenge is refused.
    pub open spec fn progress_refusal(
        self,
        user: Address,
        id: Symbol,
        increment: i128,
        now: u64,
    ) -> Option<Error> {
        let challenge = self.challenges[id];
        if !self.challenges.contains_key(id) {
            Some(Error::ChallengeNotFound)
        } else if !challenge.active || now > challenge.end_time || now < challenge.start_time {
            Some(Error::ChallengeAlreadyEnded)
        } else if !self.entries.contains_key((id, user)) {
            Some(Error::ChallengeNotFound)
        } else if !math::fits(self.entries[(id, user)].current_value + increment) {
            Some(Error::ArithmeticOverflow)
        } else if !self.completes(user, id, increment) {
            None
        } else if !math::fits(pay(self.purse(user), challenge.reward_amount as int).given) {
            Some(Error::ArithmeticOverflow)
        } else if !self.players.contains_key(user) {
            Some(Error::UserNotFound)
        } else if self.players[user].challenges_won == u32::MAX {
            Some(Error::ArithmeticOverflow)
        } else {
            None
        }
    }

    /// The state after progress in a challenge. Completing it pays the reward
    /// if the pool covers it, and counts as a win.
    pub open spec fn progressed(
        self,
        user: Address,
        id: Symbol,
        increment: i128,
        now: u64,
    ) -> GameLedger {
        let entry = self.entries[(id, user)];
        let value = (entry.current_value + increment) as i128;
        let reward = self.challenges[id].reward_amount;
        if self.completes(user, id, increment) {
            let stats = self.players[user];
            let won = rescored(
                PlayerStats { challenges_won: (stats.challenges_won + 1) as u32, ..stats },
            );
            GameLedger {
                entries: self.entries.insert(
                    (id, user),
                    ChallengeEntry {
                        current_value: value,
                        completed: true,
                        completed_at: now,
                        ..entry
                    },
                ),
                ..self.with_purse(user, pay(self.purse(user), reward as int)).with_player(
                    won,
                ).published(GameEvent::ChallengeCompleted { user, challenge_id: id, reward })
            }
        } else {
            GameLedger {
                entries: self.entries.insert(
                    (id, user),
                    ChallengeEntry { current_value: value, ..entry },
                ),
                ..self
            }
        }
    }
}

/// A player is rescored without leaving the range.
proof fn lemma_rescored(user: Address, stats: PlayerStats)
    requires
        stats.user == user,
        stats.successful_trades <= stats.trade_count,
        stats.current_streak <= stats.best_streak <= stats.trade_count,
        stats.modules_completed <= stats.total_modules,
        0 <= stats.best_roi_bps,
        scoring::is_scorable(stats.best_roi_bps as int),
    ensures
        stats_wf(user, rescored(stats)),
{
    scoring::scores_are_out_of_a_hundred(stats);
}

/// Putting a player's statistics in place keeps the state in order.
proof fn lemma_with_player(ledger: GameLedger, stats: PlayerStats)
    requires
        ledger.wf(),
        stats_wf(stats.user, stats),
        ledger.users.contains(stats.user),
    ensures
        ledger.with_player(stats).wf(),
{
}

impl GamificationEngine {
    /// An engine that waits to be initialized.
    pub fn new() -> (engine: GamificationEngine)
        ensures
            engine@.wf(),
            engine@.admin is None,
            engine@.total_modules == 0,
            engine@.pool == 0,
            engine@.users == Seq::<Address>::empty(),
            engine@.players == Map::<Address, PlayerStats>::empty(),
            engine@.scores == Map::<Address, i128>::empty(),
            engine@.earned == Map::<Address, Seq<Symbol>>::empty(),
            engine@.badges == Map::<(Address, Symbol), BadgeRecord>::empty(),
            engine@.definitions == Seq::<BadgeDefinition>::empty(),
            engine@.definition_ids == Seq::<Symbol>::empty(),
            engine@.challenges == Map::<Symbol, Challenge>::empty(),
            engine@.challenge_ids == Seq::<Symbol>::empty(),
            engine@.entries == Map::<(Symbol, Address), ChallengeEntry>::empty(),
            engine@.distributed == Map::<Address, i128>::empty(),
            engine@.outbox == Seq::<GameEvent>::empty(),
    {
        let engine = GamificationEngine {
            admin: None,
            total_modules: 0,
            pool: 0,
            users: Vec::new(),
            players: Table::new(),
            scores: Table::new(),
            earned: Table::new(),
            badges: Table::new(),
            definitions: Vec::new(),
            definition_ids: Vec::new(),
            challenges: Table::new(),
            challenge_ids: Vec::new(),
            entries: Table::new(),
            distributed: Table::new(),
            outbox: Vec::new(),
        };
        assert(engine@.earned =~= Map::<Address, Seq<Symbol>>::empty());
        engine
    }

    /// Name the administrator and the number of learning modules, fill the
    /// reward pool and define the first badges. This can be done once.
    pub fn initialize(&mut self, admin: Address, total_modules: u32) -> (r: Result<Symbol, Error>)
        requires
            old(self)@.wf(),
        ensures
            final(self)@.wf(),
            if old(self)@.admin is Some {
                r == Err::<Symbol, Error>(Error::AlreadyInitialized) && final(self)@ == old(self)@
            } else {
                r == Ok::<Symbol, Error>(values::symbol_of("ok"@)) && final(self)@ == (GameLedger {
                    admin: Some(admin),
                    total_modules,
                    pool: INITIAL_REWARD_POOL,
                    definitions: badges::default_badges(),
                    definition_ids: badges::default_badges().map_values(
                        |d: BadgeDefinition| d.badge_id,
                    ),
                    ..old(self)@
                })
            },
    {
        if self.admin.is_some() {
            return Err(Error::AlreadyInitialized);
        }
        let ghost name = |d: BadgeDefinition| d.badge_id;
        let defs = badges::create_default_badge_defs();
        let mut def_ids: Vec<Symbol> = Vec::new();
        let mut i: usize = 0;
        while i < defs.len()
            invariant
                i <= defs@.len(),
                name == (|d: BadgeDefinition| d.badge_id),
                def_ids@ == defs@.take(i as int).map_values(name),
            decreases defs@.len() - i,
        {
            def_ids.push(defs[i].badge_id);
            i += 1;
            assert(def_ids@ =~= defs@.take(i as int).map_values(name));
        }
        assert(defs@.take(i as int) =~= defs@);
        self.admin = Some(admin);
        self.pool = INITIAL_REWARD_POOL;
        self.total_modules = total_modules;
        self.definitions = defs;
        self.definition_ids = def_ids;
        Ok(Symbol::from_text("ok"))
    }

    /// Register a user as a player.
    pub fn register_user(&mut self, user: Address, now: u64) -> (r: Result<Symbol, Error>)
        requires
            old(self)@.wf(),
            old(self)@.users.len() + 1 < u32::MAX,
        ensures
            final(self)@.wf(),
            ({
                let ledger = old(self)@;
                if ledger.admin is None {
                    r == Err::<Symbol, Error>(Error::NotInitialized) && final(self)@ == ledger
                } else if ledger.players.contains_key(user) {
                    r == Err::<Symbol, Error>(Error::UserAlreadyRegistered) && final(self)@
                        == ledger
                } else {
                    r == Ok::<Symbol, Error>(values::symbol_of("ok"@)) && final(self)@ == (
                    GameLedger {
                        players: ledger.players.insert(
                            user,
                            newcomer(user, ledger.total_modules, now),
                        ),
                        users: if ledger.users.contains(user) {
                            ledger.users
                        } else {
                            ledger.users.push(user)
                        },
                        ..ledger
                    })
                }
            }),
    {
        let ghost ledger = self@;
        if self.admin.is_none() {
            return Err(Error::NotInitialized);
        }
        if self.players.has(&user) {
            return Err(Error::UserAlreadyRegistered);
        }
        let stats = PlayerStats {
            user,
            trade_count: 0,
            successful_trades: 0,
            best_roi_bps: 0,
            current_streak: 0,
            best_streak: 0,
            modules_completed: 0,
            total_modules: self.total_modules,
            community_actions: 0,
            challenges_won: 0,
            tier: ProgressionTier::Bronze,
            total_score: 0,
            last_active: now,
        };
        self.players.set(user, stats);
        self.add_user_id(&user);
        proof {
            let total = stats.total_modules as int;
            if total > 0 {
                assert(0int / total == 0) by (nonlinear_arith)
                    requires
                        total > 0,
                ;
            }
            assert(scoring::score_of(stats) == 0);
            assert(stats_wf(user, stats));
            assert(self@.users.contains(user)) by {
                if !ledger.users.contains(user) {
                    assert(self@.users[ledger.users.len() as int] == user);
                }
            }
            assert forall|u: Address| ledger.users.contains(u) implies self@.users.contains(u) by {
                let i = choose|i: int| 0 <= i < ledger.users.len() && ledger.users[i] == u;
                assert(self@.users[i] == u);
            }
        }
        Ok(Symbol::from_text("ok"))
    }

    fn add_user_id(&mut self, user: &Address)
        requires
            old(self)@.users.no_duplicates(),
        ensures
            final(self)@ == (GameLedger {
                users: if old(self)@.users.contains(*user) {
                    old(self)@.users
                } else {
                    old(self)@.users.push(*user)
                },
                ..old(self)@
            }),
            final(self)@.users.no_duplicates(),
    {
        let mut i: usize = 0;
        while i < self.users.len()
            invariant
                *self == *old(self),
                i <= self.users@.len(),
                forall|j: int| 0 <= j < i ==> self.users@[j] != *user,
                self.users@.no_duplicates(),
            decreases self.users@.len() - i,
        {
            if self.users[i] == *user {
                return ;
            }
            i += 1;
        }
        self.users.push(*user);
    }

    /// Store a player's statistics and score.
    fn save_player(&mut self, stats: &PlayerStats)
        requires
            old(self)@.wf(),
            stats_wf(stats.user, *stats),
            old(self)@.players.contains_key(stats.user),
        ensures
            final(self)@ == old(self)@.with_player(*stats),
            final(self)@.wf(),
    {
        proof {
            lemma_with_player(self@, *stats);
        }
        self.players.set(stats.user, *stats);
        self.scores.set(stats.user, stats.total_score);
    }

    /// Bring the score and the tier of statistics up to date.
    fn rescore(stats: &mut PlayerStats)
        requires
            scoring::is_scorable(old(stats).best_roi_bps as int),
        ensures
            *final(stats) == rescored(*old(stats)),
    {
        let score = scoring::compute_total_score(stats);
        stats.total_score = score;
        stats.tier = scoring::score_to_tier(score);
    }

    /// Count one trade.
    fn count_trade(stats: &mut PlayerStats, roi_bps: i128, successful: bool)
        requires
            old(stats).trade_count < u32::MAX,
            old(stats).successful_trades <= old(stats).trade_count,
            old(stats).current_streak <= old(stats).best_streak <= old(stats).trade_count,
        ensures
            *final(stats) == traded(*old(stats), roi_bps, successful),
    {
        stats.trade_count = stats.trade_count + 1;
        if successful {
            stats.successful_trades = stats.successful_trades + 1;
        }
        if roi_bps > 0 {
            stats.current_streak = stats.current_streak + 1;
            if stats.current_streak > stats.best_streak {
                stats.best_streak = stats.current_streak;
            }
        } else {
            stats.current_streak = 0;
        }
        if roi_bps > stats.best_roi_bps {
            stats.best_roi_bps = roi_bps;
        }
    }

    /// Record a trade and give the new score. A return above zero lengthens
    /// the streak, any other ends it.
    pub fn record_trade(&mut self, user: Address, roi_bps: i128, successful: bool, now: u64) -> (r:
        Result<i128, Error>)
        requires
            old(self)@.wf(),
        ensures
            final(self)@.wf(),
            ({
                let ledger = old(self)@;
                let stats = ledger.players[user];
                let after = active(traded(stats, roi_bps, successful), now);
                if !ledger.players.contains_key(user) {
                    r == Err::<i128, Error>(Error::UserNotFound) && final(self)@ == ledger
                } else if stats.trade_count == u32::MAX || !scoring::is_scorable(roi_bps as int) {
                    r == Err::<i128, Error>(Error::ArithmeticOverflow) && final(self)@ == ledger
                } else {
                    r == Ok::<i128, Error>(after.total_score) && final(self)@ == ledger.with_player(
                        after,
                    ).published(
                        GameEvent::Trade { user, roi_bps, successful, score: after.total_score },
                    )
                }
            }),
    {
        let mut stats = match self.players.get(&user) {
            Some(s) => *s,
            None => {
                return Err(Error::UserNotFound);
            },
        };
        let ghost before = stats;
        if stats.trade_count == u32::MAX || roi_bps > i128::MAX / ROI_SCORE_MAX {
            return Err(Error::ArithmeticOverflow);
        }
        Self::count_trade(&mut stats, roi_bps, successful);
        stats.last_active = now;
        proof {
            lemma_rescored(user, stats);
        }
        Self::rescore(&mut stats);
        self.save_player(&stats);
        self.outbox.push(
            GameEvent::Trade { user, roi_bps, successful, score: stats.total_score },
        );
        Ok(stats.total_score)
    }

    /// Record several trades, each a return and whether it was a success, and
    /// give the new score.
    pub fn record_trades_batch(&mut self, user: Address, rois: &Vec<(i128, bool)>, now: u64) -> (r:
        Result<i128, Error>)
        requires
            old(self)@.wf(),
        ensures
            final(self)@.wf(),
            ({
                let ledger = old(self)@;
                let stats = ledger.players[user];
                let after = active(traded_all(stats, rois@), now);
                if !ledger.players.contains_key(user) {
                    r == Err::<i128, Error>(Error::UserNotFound) && final(self)@ == ledger
                } else if stats.trade_count + rois@.len() > u32::MAX || !scoring::is_scorable(
                    traded_all(stats, rois@).best_roi_bps as int,
                ) {
                    r == Err::<i128, Error>(Error::ArithmeticOverflow) && final(self)@ == ledger
                } else {
                    r == Ok::<i128, Error>(after.total_score) && final(self)@ == ledger.with_player(
                        after,
                    )
                }
            }),
    {
        let mut stats = match self.players.get(&user) {
            Some(s) => *s,
            None => {
                return Err(Error::UserNotFound);
            },
        };
        let ghost before = stats;
        let mut i: usize = 0;
        assert(rois@.take(0) =~= Seq::<(i128, bool)>::empty());
        while i < rois.len()
            invariant
                i <= rois@.len(),
                stats_wf(user, before),
                before.trade_count + i <= u32::MAX,
                stats == traded_all(before, rois@.take(i as int)),
                self@ == old(self)@,
                old(self)@.wf(),
                old(self)@.players.contains_key(user),
                before == old(self)@.players[user],
            decreases rois@.len() - i,
        {
            proof {
                lemma_traded_all(user, before, rois@.take(i as int));
            }
            if stats.trade_count == u32::MAX {
                return Err(Error::ArithmeticOverflow);
            }
            let trade = rois[i];
            assert(rois@.take(i + 1).drop_last() =~= rois@.take(i as int));
            Self::count_trade(&mut stats, trade.0, trade.1);
            i += 1;
        }
        assert(rois@.take(i as int) =~= rois@);
        proof {
            lemma_traded_all(user, before, rois@);
        }
        if stats.best_roi_bps > i128::MAX / ROI_SCORE_MAX {
            return Err(Error::ArithmeticOverflow);
        }
        stats.last_active = now;
        proof {
            lemma_rescored(user, stats);
        }
        Self::rescore(&mut stats);
        self.save_player(&stats);
        Ok(stats.total_score)
    }

    /// Record that a user completed a learning module, and give the new score.
    pub fn complete_learning_module(&mut self, user: Address, now: u64) -> (r: Result<i128, Error>)
        requires
            old(self)@.wf(),
        ensures
            final(self)@.wf(),
            ({
                let ledger = old(self)@;
                let stats = ledger.players[user];
                let after = active(
                    PlayerStats {
                        modules_completed: if stats.modules_completed < stats.total_modules {
                            (stats.modules_completed + 1) as u32
                        } else {
                            stats.modules_completed
                        },
                        ..stats
                    },
                    now,
                );
                if !ledger.players.contains_key(user) {
                    r == Err::<i128, Error>(Error::UserNotFound) && final(self)@ == ledger
                } else {
                    r == Ok::<i128, Error>(after.total_score) && final(self)@ == ledger.with_player(
                        after,
                    ).published(
                        GameEvent::Learn {
                            user,
                            modules: after.modules_completed,
                            score: after.total_score,
                        },
                    )
                }
            }),
    {
        let mut stats = match self.players.get(&user) {
            Some(s) => *s,
            None => {
                return Err(Error::UserNotFound);
            },
        };
        if stats.modules_completed < stats.total_modules {
            stats.modules_completed = stats.modules_completed + 1;
        }
        stats.last_active = now;
        proof {
            lemma_rescored(user, stats);
        }
        Self::rescore(&mut stats);
        self.save_player(&stats);
        self.outbox.push(
            GameEvent::Learn {
                user,
                modules: stats.modules_completed,
                score: stats.total_score,
            },
        );
        Ok(stats.total_score)
    }

    /// Record a community action and give the new score.
    pub fn record_community_action(&mut self, user: Address, now: u64) -> (r: Result<i128, Error>)
        requires
            old(self)@.wf(),
        ensures
            final(self)@.wf(),
            ({
                let ledger = old(self)@;
                let stats = ledger.players[user];
                let after = active(
                    PlayerStats {
                        community_actions: (stats.community_actions + 1) as u32,
                        ..stats
                    },
                    now,
                );
                if !ledger.players.contains_key(user) {
                    r == Err::<i128, Error>(Error::UserNotFound) && final(self)@ == ledger
                } else if stats.community_actions == u32::MAX {
                    r == Err::<i128, Error>(Error::ArithmeticOverflow) && final(self)@ == ledger
                } else {
                    r == Ok::<i128, Error>(after.total_score) && final(self)@ == ledger.with_player(
                        after,
                    ).published(
                        GameEvent::Community {
                            user,
                            actions: after.community_actions,
                            score: after.total_score,
                        },
                    )
                }
            }),
    {
        let mut stats = match self.players.get(&user) {
            Some(s) => *s,
            None => {
                return Err(Error::UserNotFound);
            },
        };
        if stats.community_actions == u32::MAX {
            return Err(Error::ArithmeticOverflow);
        }
        stats.community_actions = stats.community_actions + 1;
        stats.last_active = now;
        proof {
            lemma_rescored(user, stats);
        }
        Self::rescore(&mut stats);
        self.save_player(&stats);
        self.outbox.push(
            GameEvent::Community {
                user,
                actions: stats.community_actions,
                score: stats.total_score,
            },
        );
        Ok(stats.total_score)
    }

    /// Award badges that a user does not have yet: keep records, and pay the
    /// rewards as far as the pool covers them.
    fn award(&mut self, user: &Address, ids: &Vec<Symbol>, score: i128, now: u64) -> (r: Result<
        (),
        Error,
    >)
        requires
            old(self)@.wf(),
            (table::list_at(old(self)@.earned, *user) + ids@).no_duplicates(),
        ensures
            final(self)@.wf(),
            if !math::fits(
                pay_badges(old(self)@.definitions, ids@, old(self)@.purse(*user)).given,
            ) {
                r == Err::<(), Error>(Error::ArithmeticOverflow) && final(self)@ == old(self)@
            } else {
                r == Ok::<(), Error>(()) && final(self)@ == old(self)@.awarded(
                    *user,
                    ids@,
                    score,
                    now,
                )
            },
    {
        let ghost ledger = self@;
        let ghost purse = ledger.purse(*user);
        let mut pool: i128 = self.pool;
        let mut given: i128 = match self.distributed.get(user) {
            Some(amount) => *amount,
            None => 0,
        };
        let before: i128 = given;
        let mut i: usize = 0;
        while i < ids.len()
            invariant
                i <= ids@.len(),
                self@ == ledger,
                ledger == old(self)@,
                purse == ledger.purse(*user),
                ({
                    let so_far = pay_badges(ledger.definitions, ids@.take(i as int), purse);
                    pool == so_far.pool && given == so_far.given
                }),
                ledger.wf(),
            decreases ids@.len() - i,
        {
            let reward = badges::find_badge_reward(&self.definitions, &ids[i]);
            assert(ids@.take(i + 1).drop_last() =~= ids@.take(i as int));
            proof {
                lemma_pay_grows(ledger.definitions, ids@, purse, i + 1);
            }
            if reward > 0 && pool >= reward {
                match given.checked_add(reward) {
                    Some(sum) => {
                        given = sum;
                        pool = pool - reward;
                    },
                    None => {
                        return Err(Error::ArithmeticOverflow);
                    },
                }
            }
            i += 1;
        }
        assert(ids@.take(i as int) =~= ids@);
        let mut k: usize = 0;
        while k < ids.len()
            invariant
                k <= ids@.len(),
                self@ == (GameLedger {
                    badges: with_records(ledger.badges, *user, ids@.take(k as int), score, now),
                    ..ledger
                }),
            decreases ids@.len() - k,
        {
            let badge_id = ids[k];
            assert(ids@.take(k + 1).drop_last() =~= ids@.take(k as int));
            self.badges.set(
                (*user, badge_id),
                BadgeRecord { badge_id, user: *user, earned_at: now, score_at_earn: score },
            );
            k += 1;
        }
        assert(ids@.take(k as int) =~= ids@);
        let mut earned_ids = table::list_of(&self.earned, user);
        let mut m: usize = 0;
        while m < ids.len()
            invariant
                m <= ids@.len(),
                earned_ids@ == table::list_at(ledger.earned, *user) + ids@.take(m as int),
            decreases ids@.len() - m,
        {
            earned_ids.push(ids[m]);
            m += 1;
            assert(earned_ids@ =~= table::list_at(ledger.earned, *user) + ids@.take(m as int));
        }
        assert(ids@.take(m as int) =~= ids@);
        table::put_list(&mut self.earned, *user, earned_ids);
        if given != before {
            self.pool = pool;
            self.distributed.set(*user, given);
        }
        Ok(())
    }

    /// Award every badge that a user deserves and does not have yet; gives
    /// those that are new.
    pub fn check_and_issue_badges(&mut self, user: Address, now: u64) -> (r: Result<
        Vec<Symbol>,
        Error,
    >)
        requires
            old(self)@.wf(),
        ensures
            final(self)@.wf(),
            ({
                let ledger = old(self)@;
                let stats = ledger.players[user];
                let ids = badges::badges_due(table::list_at(ledger.earned, user), stats);
                if !ledger.players.contains_key(user) {
                    r is Err && r->Err_0 == Error::UserNotFound && final(self)@ == ledger
                } else if !math::fits(
                    pay_badges(ledger.definitions, ids, ledger.purse(user)).given,
                ) {
                    r is Err && r->Err_0 == Error::ArithmeticOverflow && final(self)@ == ledger
                } else {
                    r is Ok && r->Ok_0@ == ids && final(self)@ == (GameLedger {
                        outbox: ledger.outbox + ledger.badge_events(user, ids),
                        ..ledger.awarded(user, ids, stats.total_score, now)
                    })
                }
            }),
    {
        let ghost ledger = self@;
        let stats = match self.players.get(&user) {
            Some(s) => *s,
            None => {
                return Err(Error::UserNotFound);
            },
        };
        let earned = table::list_of(&self.earned, &user);
        let new_badge_ids = badges::evaluate_badges(&earned, &stats);
        proof {
            badges::no_badge_is_due_twice(earned@, stats);
        }
        match self.award(&user, &new_badge_ids, stats.total_score, now) {
            Ok(_) => {},
            Err(e) => {
                return Err(e);
            },
        }
        let ghost awarded = self@;
        let ghost events = ledger.badge_events(user, new_badge_ids@);
        let mut i: usize = 0;
        while i < new_badge_ids.len()
            invariant
                i <= new_badge_ids@.len(),
                events == ledger.badge_events(user, new_badge_ids@),
                awarded.definitions == ledger.definitions,
                awarded.outbox == ledger.outbox,
                awarded.wf(),
                self@ == (GameLedger {
                    outbox: ledger.outbox + events.take(i as int),
                    ..awarded
                }),
            decreases new_badge_ids@.len() - i,
        {
            let badge_id = new_badge_ids[i];
            let reward = badges::find_badge_reward(&self.definitions, &badge_id);
            self.outbox.push(GameEvent::BadgeEarned { user, badge_id, reward });
            i += 1;
            assert(self@.outbox =~= ledger.outbox + events.take(i as int));
        }
        assert(events.take(i as int) =~= events);
        Ok(new_badge_ids)
    }

    /// Award one badge to a user, as the administrator.
    pub fn issue_badge(&mut self, admin: Address, user: Address, badge_id: Symbol, now: u64) -> (r:
        Result<Symbol, Error>)
        requires
            old(self)@.wf(),
        ensures
            final(self)@.wf(),
            ({
                let ledger = old(self)@;
                let stats = ledger.players[user];
                if ledger.admin_refusal(admin) is Some {
                    r == Err::<Symbol, Error>(ledger.admin_refusal(admin)->0) && final(self)@
                        == ledger
                } else if table::list_at(ledger.earned, user).contains(badge_id) {
                    r == Err::<Symbol, Error>(Error::BadgeAlreadyEarned) && final(self)@ == ledger
                } else if !ledger.players.contains_key(user) {
                    r == Err::<Symbol, Error>(Error::UserNotFound) && final(self)@ == ledger
                } else if !math::fits(
                    pay_badges(ledger.definitions, seq![badge_id], ledger.purse(user)).given,
                ) {
                    r == Err::<Symbol, Error>(Error::ArithmeticOverflow) && final(self)@ == ledger
                } else {
                    r == Ok::<Symbol, Error>(values::symbol_of("ok"@)) && final(self)@
                        == ledger.awarded(user, seq![badge_id], stats.total_score, now).published(
                        GameEvent::BadgeIssued {
                            user,
                            badge_id,
                            reward: badges::badge_reward(ledger.definitions, badge_id),
                        },
                    )
                }
            }),
    {
        match self.check_admin(&admin) {
            Ok(_) => {},
            Err(e) => {
                return Err(e);
            },
        }
        let earned = table::list_of(&self.earned, &user);
        if badges::badge_already_earned(&earned, &badge_id) {
            return Err(Error::BadgeAlreadyEarned);
        }
        let stats = match self.players.get(&user) {
            Some(s) => *s,
            None => {
                return Err(Error::UserNotFound);
            },
        };
        let reward = badges::find_badge_reward(&self.definitions, &badge_id);
        let mut ids: Vec<Symbol> = Vec::new();
        ids.push(badge_id);
        assert(ids@ =~= seq![badge_id]);
        assert((earned@ + ids@).no_duplicates());
        match self.award(&user, &ids, stats.total_score, now) {
            Ok(_) => {},
            Err(e) => {
                return Err(e);
            },
        }
        self.outbox.push(GameEvent::BadgeIssued { user, badge_id, reward });
        Ok(Symbol::from_text("ok"))
    }

    fn check_admin(&self, admin: &Address) -> (r: Result<(), Error>)
        ensures
            match self@.admin_refusal(*admin) {
                Some(e) => r == Err::<(), Error>(e),
                None => r == Ok::<(), Error>(()),
            },
    {
        match self.admin {
            None => Err(Error::NotInitialized),
            Some(a) => {
                if a != *admin {
                    Err(Error::AdminRequired)
                } else {
                    Ok(())
                }
            },
        }
    }

    /// The record of a badge that a user has earned.
    pub fn get_badge_record(&self, user: Address, badge_id: Symbol) -> (record: Option<BadgeRecord>)
        ensures
            record == self@.badges.get((user, badge_id)),
    {
        match self.badges.get(&(user, badge_id)) {
            Some(r) => Some(*r),
            None => None,
        }
    }

    /// The badges that a user has earned.
    pub fn get_user_badges(&self, user: Address) -> (ids: Vec<Symbol>)
        ensures
            ids@ == table::list_at(self@.earned, user),
    {
        table::list_of(&self.earned, &user)
    }

    /// All badge definitions.
    pub fn get_badge_definitions_list(&self) -> (defs: Vec<BadgeDefinition>)
        ensures
            defs@ == self@.definitions,
    {
        table::copy_list(&self.definitions)
    }

    /// The statistics of a player.
    pub fn get_player_stats(&self, user: Address) -> (stats: Option<PlayerStats>)
        ensures
            stats == self@.players.get(user),
    {
        match self.players.get(&user) {
            Some(s) => Some(*s),
            None => None,
        }
    }

    /// The score of a user, 0 before there is one.
    pub fn get_score(&self, user: Address) -> (score: i128)
        ensures
            score == table::value_or(self@.scores, user, 0i128),
    {
        match self.scores.get(&user) {
            Some(s) => *s,
            None => 0,
        }
    }

    /// The tier of a user, Bronze for one who is not a player.
    pub fn get_tier(&self, user: Address) -> (tier: ProgressionTier)
        ensures
            tier == (if self@.players.contains_key(user) {
                self@.players[user].tier
            } else {
                ProgressionTier::Bronze
            }),
    {
        match self.players.get(&user) {
            Some(s) => s.tier,
            None => ProgressionTier::Bronze,
        }
    }

    /// The points of a player for trades, return, streak, learning and
    /// community, and their sum.
    pub fn get_score_breakdown(&self, user: Address) -> (r: Result<
        (i128, i128, i128, i128, i128, i128),
        Error,
    >)
        requires
            self@.wf(),
        ensures
            ({
                let stats = self@.players[user];
                if !self@.players.contains_key(user) {
                    r is Err && r->Err_0 == Error::UserNotFound
                } else {
                    &&& r is Ok
                    &&& r->Ok_0.0 == scoring::trade_points(stats.successful_trades as int)
                    &&& r->Ok_0.1 == scoring::roi_points(stats.best_roi_bps as int)
                    &&& r->Ok_0.2 == scoring::streak_points(stats.best_streak as int)
                    &&& r->Ok_0.3 == scoring::learn_points(
                        stats.modules_completed as int,
                        stats.total_modules as int,
                    )
                    &&& r->Ok_0.4 == scoring::community_points(stats.community_actions as int)
                    &&& r->Ok_0.5 == stats.total_score
                }
            }),
    {
        let stats = match self.players.get(&user) {
            Some(s) => *s,
            None => {
                return Err(Error::UserNotFound);
            },
        };
        let trade = scoring::compute_trade_score(stats.successful_trades);
        let roi = scoring::compute_roi_score(stats.best_roi_bps);
        let streak = scoring::compute_streak_score(stats.best_streak);
        let learn = scoring::compute_learn_score(stats.modules_completed, stats.total_modules);
        let community = scoring::compute_community_score(stats.community_actions);
        let total = scoring::compute_total_score(&stats);
        Ok((trade, roi, streak, learn, community, total))
    }

    /// A page of the leaderboard by a metric. The numbers are those of all
    /// time, whatever the window.
    pub fn get_leaderboard(
        &self,
        metric: SortMetric,
        window: TimeWindow,
        offset: u32,
        limit: u32,
    ) -> (page: LeaderboardPage)
        requires
            self@.wf(),
        ensures
            ({
                let rows = leaderboard::ranked(
                    leaderboard::rows_of(self@.users, self@.players, metric),
                );
                &&& page.entries@ == leaderboard::page_lines(rows, offset as int, limit as int)
                &&& page.total_players == rows.len()
                &&& page.page_offset == leaderboard::page_start(rows.len() as int, offset as int)
                &&& page.page_limit == leaderboard::page_size(limit as int)
            }),
    {
        leaderboard::build_leaderboard(&self.users, &self.players, metric, offset, limit)
    }

    /// The rank of a user by a metric: the best player has rank 1. Every
    /// player has one.
    pub fn get_user_rank(&self, user: Address, metric: SortMetric) -> (rank: Option<u32>)
        requires
            self@.wf(),
        ensures
            rank is Some <==> self@.players.contains_key(user),
            ({
                let rows = leaderboard::ranked(
                    leaderboard::rows_of(self@.users, self@.players, metric),
                );
                match rank {
                    Some(k) => 1 <= k <= rows.len() && rows[k - 1].user == user && forall|i: int|
                        0 <= i < k - 1 ==> (#[trigger] rows[i]).user != user,
                    None => forall|i: int| 0 <= i < rows.len() ==> (#[trigger] rows[i]).user != user,
                }
            }),
    {
        let rows = leaderboard::standings(&self.users, &self.players, metric);
        proof {
            leaderboard::players_are_on_the_leaderboard(
                self@.users,
                self@.players,
                metric,
                user,
            );
        }
        let mut i: usize = 0;
        while i < rows.len()
            invariant
                i <= rows@.len() < u32::MAX,
                rows@ == leaderboard::ranked(
                    leaderboard::rows_of(self@.users, self@.players, metric),
                ),
                leaderboard::has_row(rows@, user) <==> self@.players.contains_key(user),
                forall|j: int| 0 <= j < i ==> (#[trigger] rows@[j]).user != user,
            decreases rows@.len() - i,
        {
            if rows[i].user == user {
                return Some(i as u32 + 1);
            }
            i += 1;
        }
        None
    }

    /// The best `n` players by score.
    pub fn get_top_players(&self, n: u32) -> (entries: Vec<LeaderboardEntry>)
        requires
            self@.wf(),
        ensures
            entries@ == leaderboard::page_lines(
                leaderboard::ranked(
                    leaderboard::rows_of(self@.users, self@.players, SortMetric::Score),
                ),
                0,
                n as int,
            ),
    {
        let page = leaderboard::build_leaderboard(
            &self.users,
            &self.players,
            SortMetric::Score,
            0,
            n,
        );
        page.entries
    }

    /// How many players there are.
    pub fn get_total_players(&self) -> (n: u32)
        requires
            self@.wf(),
        ensures
            n == self@.users.len(),
    {
        self.users.len() as u32
    }

    /// The current and the best streak of a player.
    pub fn get_streak(&self, user: Address) -> (r: Result<(u32, u32), Error>)
        ensures
            if self@.players.contains_key(user) {
                r == Ok::<(u32, u32), Error>(
                    (self@.players[user].current_streak, self@.players[user].best_streak),
                )
            } else {
                r == Err::<(u32, u32), Error>(Error::UserNotFound)
            },
    {
        match self.players.get(&user) {
            Some(s) => Ok((s.current_streak, s.best_streak)),
            None => Err(Error::UserNotFound),
        }
    }

    /// Create a challenge, as the administrator.
    pub fn create_challenge(
        &mut self,
        admin: Address,
        challenge_id: Symbol,
        name: Symbol,
        description: Symbol,
        target_metric: SortMetric,
        target_value: i128,
        reward_amount: i128,
        start_time: u64,
        end_time: u64,
    ) -> (r: Result<Symbol, Error>)
        requires
            old(self)@.wf(),
        ensures
            final(self)@.wf(),
            ({
                let ledger = old(self)@;
                if ledger.admin_refusal(admin) is Some {
                    r == Err::<Symbol, Error>(ledger.admin_refusal(admin)->0) && final(self)@
                        == ledger
                } else if start_time >= end_time || target_value <= 0 || reward_amount <= 0 {
                    r == Err::<Symbol, Error>(Error::InvalidChallengeParams) && final(self)@
                        == ledger
                } else {
                    r == Ok::<Symbol, Error>(values::symbol_of("ok"@)) && final(self)@ == (
                    GameLedger {
                        challenges: ledger.challenges.insert(
                            challenge_id,
                            Challenge {
                                challenge_id,
                                name,
                                description,
                                target_metric,
                                target_value,
                                reward_amount,
                                start_time,
                                end_time,
                                active: true,
                            },
                        ),
                        challenge_ids: ledger.challenge_ids.push(challenge_id),
                        ..ledger
                    })
                }
            }),
    {
        match self.check_admin(&admin) {
            Ok(_) => {},
            Err(e) => {
                return Err(e);
            },
        }
        if start_time >= end_time || target_value <= 0 || reward_amount <= 0 {
            return Err(Error::InvalidChallengeParams);
        }
        let challenge = Challenge {
            challenge_id,
            name,
            description,
            target_metric,
            target_value,
            reward_amount,
            start_time,
            end_time,
            active: true,
        };
        self.challenges.set(challenge_id, challenge);
        self.challenge_ids.push(challenge_id);
        Ok(Symbol::from_text("ok"))
    }

    /// Join a challenge while it runs.
    pub fn join_challenge(&mut self, user: Address, challenge_id: Symbol, now: u64) -> (r: Result<
        Symbol,
        Error,
    >)
        requires
            old(self)@.wf(),
        ensures
            final(self)@.wf(),
            ({
                let ledger = old(self)@;
                let challenge = ledger.challenges[challenge_id];
                if !ledger.challenges.contains_key(challenge_id) {
                    r == Err::<Symbol, Error>(Error::ChallengeNotFound) && final(self)@ == ledger
                } else if now < challenge.start_time {
                    r == Err::<Symbol, Error>(Error::ChallengeNotStarted) && final(self)@ == ledger
                } else if now > challenge.end_time {
                    r == Err::<Symbol, Error>(Error::ChallengeAlreadyEnded) && final(self)@
                        == ledger
                } else if ledger.entries.contains_key((challenge_id, user)) {
                    r == Err::<Symbol, Error>(Error::ChallengeAlreadyJoined) && final(self)@
                        == ledger
                } else {
                    r == Ok::<Symbol, Error>(values::symbol_of("ok"@)) && final(self)@ == (
                    GameLedger {
                        entries: ledger.entries.insert(
                            (challenge_id, user),
                            ChallengeEntry {
                                challenge_id,
                                user,
                                current_value: 0,
                                completed: false,
                                completed_at: 0,
                            },
                        ),
                        ..ledger
                    }).published(GameEvent::ChallengeJoined { user, challenge_id })
                }
            }),
    {
        let challenge = match self.challenges.get(&challenge_id) {
            Some(c) => *c,
            None => {
                return Err(Error::ChallengeNotFound);
            },
        };
        if now < challenge.start_time {
            return Err(Error::ChallengeNotStarted);
        }
        if now > challenge.end_time {
            return Err(Error::ChallengeAlreadyEnded);
        }
        if self.entries.has(&(challenge_id, user)) {
            return Err(Error::ChallengeAlreadyJoined);
        }
        self.entries.set(
            (challenge_id, user),
            ChallengeEntry {
                challenge_id,
                user,
                current_value: 0,
                completed: false,
                completed_at: 0,
            },
        );
        self.outbox.push(GameEvent::ChallengeJoined { user, challenge_id });
        Ok(Symbol::from_text("ok"))
    }

    /// Add to a user's progress in a challenge; gives whether the target is
    /// reached.
    pub fn update_challenge_progress(
        &mut self,
        user: Address,
        challenge_id: Symbol,
        increment: i128,
        now: u64,
    ) -> (r: Result<bool, Error>)
        requires
            old(self)@.wf(),
        ensures
            final(self)@.wf(),
            match old(self)@.progress_refusal(user, challenge_id, increment, now) {
                Some(e) => r == Err::<bool, Error>(e) && final(self)@ == old(self)@,
                None => r == Ok::<bool, Error>(
                    old(self)@.entries[(challenge_id, user)].current_value + increment >= old(
                        self,
                    )@.challenges[challenge_id].target_value,
                ) && final(self)@ == old(self)@.progressed(user, challenge_id, increment, now),
            },
    {
        let ghost ledger = self@;
        let challenge = match self.challenges.get(&challenge_id) {
            Some(c) => *c,
            None => {
                return Err(Error::ChallengeNotFound);
            },
        };
        if !challenge.active {
            return Err(Error::ChallengeAlreadyEnded);
        }
        if now > challenge.end_time || now < challenge.start_time {
            return Err(Error::ChallengeAlreadyEnded);
        }
        let mut entry = match self.entries.get(&(challenge_id, user)) {
            Some(e) => *e,
            None => {
                return Err(Error::ChallengeNotFound);
            },
        };
        entry.current_value = match entry.current_value.checked_add(increment) {
            Some(v) => v,
            None => {
                return Err(Error::ArithmeticOverflow);
            },
        };
        let completed = entry.current_value >= challenge.target_value;
        if completed && !entry.completed {
            entry.completed = true;
            entry.completed_at = now;
            let given: i128 = match self.distributed.get(&user) {
                Some(amount) => *amount,
                None => 0,
            };
            let pool = self.pool;
            let paid = pool >= challenge.reward_amount;
            let new_given = if paid {
                match given.checked_add(challenge.reward_amount) {
                    Some(sum) => sum,
                    None => {
                        return Err(Error::ArithmeticOverflow);
                    },
                }
            } else {
                given
            };
            let mut stats = match self.players.get(&user) {
                Some(s) => *s,
                None => {
                    return Err(Error::UserNotFound);
                },
            };
            if stats.challenges_won == u32::MAX {
                return Err(Error::ArithmeticOverflow);
            }
            stats.challenges_won = stats.challenges_won + 1;
            if paid {
                self.pool = pool - challenge.reward_amount;
                self.distributed.set(user, new_given);
            }
            proof {
                lemma_rescored(user, stats);
            }
            Self::rescore(&mut stats);
            self.save_player(&stats);
            self.outbox.push(
                GameEvent::ChallengeCompleted {
                    user,
                    challenge_id,
                    reward: challenge.reward_amount,
                },
            );
        }
        self.entries.set((challenge_id, user), entry);
        Ok(completed)
    }

    /// A user's part in a challenge.
    pub fn get_challenge_entry(&self, user: Address, challenge_id: Symbol) -> (entry: Option<
        ChallengeEntry,
    >)
        ensures
            entry == self@.entries.get((challenge_id, user)),
    {
        match self.entries.get(&(challenge_id, user)) {
            Some(e) => Some(*e),
            None => None,
        }
    }

    /// A challenge.
    pub fn get_challenge(&self, challenge_id: Symbol) -> (challenge: Option<Challenge>)
        ensures
            challenge == self@.challenges.get(challenge_id),
    {
        match self.challenges.get(&challenge_id) {
            Some(c) => Some(*c),
            None => None,
        }
    }

    /// The ids of all challenges.
    pub fn get_challenge_ids(&self) -> (ids: Vec<Symbol>)
        ensures
            ids@ == self@.challenge_ids,
    {
        table::copy_list(&self.challenge_ids)
    }

    /// End a challenge, as the administrator.
    pub fn end_challenge(&mut self, admin: Address, challenge_id: Symbol) -> (r: Result<
        Symbol,
        Error,
    >)
        requires
            old(self)@.wf(),
        ensures
            final(self)@.wf(),
            ({
                let ledger = old(self)@;
                if ledger.admin_refusal(admin) is Some {
                    r == Err::<Symbol, Error>(ledger.admin_refusal(admin)->0) && final(self)@
                        == ledger
                } else if !ledger.challenges.contains_key(challenge_id) {
                    r == Err::<Symbol, Error>(Error::ChallengeNotFound) && final(self)@ == ledger
                } else {
                    r == Ok::<Symbol, Error>(values::symbol_of("ok"@)) && final(self)@ == (
                    GameLedger {
                        challenges: ledger.challenges.insert(
                            challenge_id,
                            Challenge { active: false, ..ledger.challenges[challenge_id] },
                        ),
                        ..ledger
                    })
                }
            }),
    {
        match self.check_admin(&admin) {
            Ok(_) => {},
            Err(e) => {
                return Err(e);
            },
        }
        let mut challenge = match self.challenges.get(&challenge_id) {
            Some(c) => *c,
            None => {
                return Err(Error::ChallengeNotFound);
            },
        };
        challenge.active = false;
        self.challenges.set(challenge_id, challenge);
        Ok(Symbol::from_text("ok"))
    }

    /// What the reward pool holds.
    pub fn get_reward_pool(&self) -> (pool: i128)
        ensures
            pool == self@.pool,
    {
        self.pool
    }

    /// What a user was given in all.
    pub fn get_reward_distributed(&self, user: Address) -> (given: i128)
        ensures
            given == self@.purse(user).given,
    {
        match self.distributed.get(&user) {
            Some(amount) => *amount,
            None => 0,
        }
    }

    /// Pay a player the reward of their tier; gives the amount.
    pub fn distribute_tier_reward(&mut self, user: Address) -> (r: Result<i128, Error>)
        requires
            old(self)@.wf(),
        ensures
            final(self)@.wf(),
            ({
                let ledger = old(self)@;
                let stats = ledger.players[user];
                let amount = scoring::reward_of(stats.tier);
                if !ledger.players.contains_key(user) {
                    r == Err::<i128, Error>(Error::UserNotFound) && final(self)@ == ledger
                } else if ledger.pool < amount {
                    r == Err::<i128, Error>(Error::InsufficientRewardPool) && final(self)@
                        == ledger
                } else if !math::fits(ledger.purse(user).given + amount) {
                    r == Err::<i128, Error>(Error::ArithmeticOverflow) && final(self)@ == ledger
                } else {
                    r == Ok::<i128, Error>(amount) && final(self)@ == ledger.with_purse(
                        user,
                        pay(ledger.purse(user), amount as int),
                    ).published(GameEvent::TierReward { user, amount, tier: stats.tier.level() })
                }
            }),
    {
        let stats = match self.players.get(&user) {
            Some(s) => *s,
            None => {
                return Err(Error::UserNotFound);
            },
        };
        let amount = scoring::tier_reward(&stats.tier);
        let pool = self.pool;
        if pool < amount {
            return Err(Error::InsufficientRewardPool);
        }
        let given = match self.get_reward_distributed(user).checked_add(amount) {
            Some(sum) => sum,
            None => {
                return Err(Error::ArithmeticOverflow);
            },
        };
        self.pool = pool - amount;
        self.distributed.set(user, given);
        self.outbox.push(GameEvent::TierReward { user, amount, tier: stats.tier.code() });
        Ok(amount)
    }

    /// Add to the reward pool, as the administrator; gives the new balance.
    pub fn fund_reward_pool(&mut self, admin: Address, amount: i128) -> (r: Result<i128, Error>)
        requires
            old(self)@.wf(),
        ensures
            final(self)@.wf(),
            ({
                let ledger = old(self)@;
                if ledger.admin_refusal(admin) is Some {
                    r == Err::<i128, Error>(ledger.admin_refusal(admin)->0) && final(self)@
                        == ledger
                } else if !math::fits(ledger.pool + amount) {
                    r == Err::<i128, Error>(Error::ArithmeticOverflow) && final(self)@ == ledger
                } else {
                    r == Ok::<i128, Error>((ledger.pool + amount) as i128) && final(self)@ == (
                    GameLedger { pool: (ledger.pool + amount) as i128, ..ledger })
                }
            }),
    {
        match self.check_admin(&admin) {
            Ok(_) => {},
            Err(e) => {
                return Err(e);
            },
        }
        match self.pool.checked_add(amount) {
            Some(new_total) => {
                self.pool = new_total;
                Ok(new_total)
            },
            None => Err(Error::ArithmeticOverflow),
        }
    }

    /// Change the definition of a badge, as the administrator.
    pub fn update_badge_definition(
        &mut self,
        admin: Address,
        badge_id: Symbol,
        name: Symbol,
        description: Symbol,
        reward_amount: i128,
        active: bool,
    ) -> (r: Result<Symbol, Error>)
        requires
            old(self)@.wf(),
        ensures
            final(self)@.wf(),
            ({
                let ledger = old(self)@;
                let at = definition_at(ledger.definitions, badge_id);
                if ledger.admin_refusal(admin) is Some {
                    r == Err::<Symbol, Error>(ledger.admin_refusal(admin)->0) && final(self)@
                        == ledger
                } else if at == ledger.definitions.len() {
                    r == Err::<Symbol, Error>(Error::BadgeDefinitionNotFound) && final(self)@
                        == ledger
                } else {
                    r == Ok::<Symbol, Error>(values::symbol_of("ok"@)) && final(self)@ == (
                    GameLedger {
                        definitions: ledger.definitions.update(
                            at,
                            BadgeDefinition {
                                name,
                                description,
                                reward_amount,
                                active,
                                ..ledger.definitions[at]
                            },
                        ),
                        ..ledger
                    })
                }
            }),
    {
        match self.check_admin(&admin) {
            Ok(_) => {},
            Err(e) => {
                return Err(e);
            },
        }
        let mut idx: usize = 0;
        while idx < self.definitions.len() && self.definitions[idx].badge_id != badge_id
            invariant
                *self == *old(self),
                idx <= self.definitions@.len(),
                forall|j: int| 0 <= j < idx ==> (#[trigger] self.definitions@[j]).badge_id != badge_id,
            decreases self.definitions@.len() - idx,
        {
            idx += 1;
        }
        proof {
            lemma_definition_at(self.definitions@, badge_id, idx as int);
        }
        if idx == self.definitions.len() {
            return Err(Error::BadgeDefinitionNotFound);
        }
        let mut def = self.definitions[idx];
        def.name = name;
        def.description = description;
        def.reward_amount = reward_amount;
        def.active = active;
        self.definitions.set(idx, def);
        Ok(Symbol::from_text("ok"))
    }

    /// The administrator.
    pub fn get_admin(&self) -> (r: Result<Address, Error>)
        ensures
            r == (match self@.admin {
                Some(a) => Ok::<Address, Error>(a),
                None => Err::<Address, Error>(Error::NotInitialized),
            }),
    {
        match self.admin {
            Some(a) => Ok(a),
            None => Err(Error::NotInitialized),
        }
    }

    /// Hand the administration over.
    pub fn transfer_admin(&mut self, new_admin: Address) -> (r: Result<Symbol, Error>)
        requires
            old(self)@.wf(),
        ensures
            final(self)@.wf(),
            if old(self)@.admin is None {
                r == Err::<Symbol, Error>(Error::NotInitialized) && final(self)@ == old(self)@
            } else {
                r == Ok::<Symbol, Error>(values::symbol_of("ok"@)) && final(self)@ == (GameLedger {
                    admin: Some(new_admin),
                    ..old(self)@
                })
            },
    {
        if self.admin.is_none() {
            return Err(Error::NotInitialized);
        }
        self.admin = Some(new_admin);
        Ok(Symbol::from_text("ok"))
    }

    /// All users, in the order in which they registered.
    pub fn get_all_users(&self) -> (users: Vec<Address>)
        ensures
            users@ == self@.users,
    {
        table::copy_list(&self.users)
    }
}

/// The position of the first definition of a badge; the length where there is
/// none.
pub open spec fn definition_at(definitions: Seq<BadgeDefinition>, badge_id: Symbol) -> int
    decreases definitions.len(),
{
    if definitions.len() == 0 || definitions[0].badge_id == badge_id {
        0
    } else {
        1 + definition_at(definitions.drop_first(), badge_id)
    }
}

proof fn lemma_definition_at(definitions: Seq<BadgeDefinition>, badge_id: Symbol, at: int)
    requires
        0 <= at <= definitions.len(),
        forall|j: int| 0 <= j < at ==> (#[trigger] definitions[j]).badge_id != badge_id,
        at < definitions.len() ==> definitions[at].badge_id == badge_id,
    ensures
        definition_at(definitions, badge_id) == at,
    decreases definitions.len(),
{
    if definitions.len() > 0 && at > 0 {
        assert(definitions[0].badge_id != badge_id);
        let rest = definitions.drop_first();
        assert forall|j: int| 0 <= j < at - 1 implies (#[trigger] rest[j]).badge_id != badge_id by {
            assert(rest[j] == definitions[j + 1]);
        }
        lemma_definition_at(rest, badge_id, at - 1);
    }
}

/// A trade counts: as a trade, as a success where it was one, and for the
/// streak where its return was above zero; any other return ends the streak.
/// What was best stays best until it is beaten.
pub proof fn trades_count(stats: PlayerStats, roi_bps: i128, successful: bool)
    requires
        stats.trade_count < u32::MAX,
        stats.successful_trades <= stats.trade_count,
        stats.current_streak <= stats.best_streak <= stats.trade_count,
    ensures
        ({
            let after = traded(stats, roi_bps, successful);
            &&& after.trade_count == stats.trade_count + 1
            &&& successful ==> after.successful_trades == stats.successful_trades + 1
            &&& !successful ==> after.successful_trades == stats.successful_trades
            &&& roi_bps > 0 ==> after.current_streak == stats.current_streak + 1
            &&& roi_bps <= 0 ==> after.current_streak == 0
            &&& after.best_streak >= stats.best_streak && after.best_streak >= after.current_streak
            &&& after.best_streak == stats.best_streak || after.best_streak == after.current_streak
            &&& after.best_roi_bps >= stats.best_roi_bps && after.best_roi_bps >= roi_bps
            &&& after.best_roi_bps == stats.best_roi_bps || after.best_roi_bps == roi_bps
            &&& after.user == stats.user && after.modules_completed == stats.modules_completed
                && after.community_actions == stats.community_actions && after.challenges_won
                == stats.challenges_won
        }),
{
}

/// Whatever a player does brings score and tier up to date and is the last
/// that was seen of the player; it changes nothing else. Trades of a batch
/// count in order.
pub proof fn activity_rescores(stats: PlayerStats, now: u64, trades: Seq<(i128, bool)>, t: (i128, bool))
    ensures
        active(stats, now).total_score == scoring::score_of(stats),
        active(stats, now).tier == scoring::tier_of(scoring::score_of(stats)),
        active(stats, now).last_active == now,
        active(stats, now) == (PlayerStats {
            total_score: active(stats, now).total_score,
            tier: active(stats, now).tier,
            last_active: now,
            ..stats
        }),
        traded_all(stats, Seq::empty()) == stats,
        traded_all(stats, trades.push(t)) == traded(traded_all(stats, trades), t.0, t.1),
{
    scoring::scores_are_out_of_a_hundred(stats);
    assert(trades.push(t).drop_last() =~= trades);
}

/// A newcomer has nothing yet: no trades, no returns, no score, and the lowest
/// tier.
pub proof fn newcomers_have_nothing(user: Address, total_modules: u32, now: u64)
    ensures
        ({
            let stats = newcomer(user, total_modules, now);
            &&& stats.user == user && stats.total_modules == total_modules && stats.last_active
                == now
            &&& stats.trade_count == 0 && stats.successful_trades == 0 && stats.best_roi_bps == 0
                && stats.current_streak == 0 && stats.best_streak == 0 && stats.modules_completed
                == 0 && stats.community_actions == 0 && stats.challenges_won == 0
            &&& stats.total_score == 0 && stats.tier.level() == 0
            &&& scoring::score_of(stats) == 0
        }),
{
    scoring::points_are_counted(newcomer(user, total_modules, now));
    let all = total_modules as int;
    if all > 0 {
        let p = scoring::learn_points(0, all);
        scoring::scores_are_out_of_a_hundred(newcomer(user, total_modules, now));
        assert(0int / all == 0) by (nonlinear_arith)
            requires
                all > 0,
        ;
    }
}

/// A reward is paid in full or not at all: in full where it is above zero and
/// the pool covers it.
pub proof fn rewards_are_paid_in_full(
    definitions: Seq<BadgeDefinition>,
    ids: Seq<Symbol>,
    id: Symbol,
    purse: Purse,
)
    ensures
        ({
            let before = pay_badges(definitions, ids, purse);
            let after = pay_badges(definitions, ids.push(id), purse);
            let reward = badges::badge_reward(definitions, id);
            &&& 0 < reward <= before.pool ==> after.given == before.given + reward && after.pool
                == before.pool - reward
            &&& reward <= 0 || reward > before.pool ==> after == before
        }),
        pay_badges(definitions, Seq::empty(), purse) == purse,
{
    assert(ids.push(id).drop_last() =~= ids);
}

/// Badges that are awarded are recorded for the user, with the moment and the
/// score, and join those earned before, in order; what they pay comes out of
/// the pool.
pub proof fn awards_are_recorded(
    ledger: GameLedger,
    user: Address,
    ids: Seq<Symbol>,
    score: i128,
    now: u64,
    i: int,
    other: Address,
)
    requires
        0 <= i < ids.len(),
        ids.no_duplicates(),
        0 <= ledger.pool,
        math::fits(pay_badges(ledger.definitions, ids, ledger.purse(user)).given),
    ensures
        ({
            let after = ledger.awarded(user, ids, score, now);
            let record = after.badges[(user, ids[i])];
            let paid = pay_badges(ledger.definitions, ids, ledger.purse(user));
            &&& after.badges.contains_key((user, ids[i]))
            &&& record.badge_id == ids[i] && record.user == user && record.earned_at == now
                && record.score_at_earn == score
            &&& table::list_at(after.earned, user) == table::list_at(ledger.earned, user) + ids
            &&& other != user ==> table::list_at(after.earned, other) == table::list_at(
                ledger.earned,
                other,
            ) && after.purse(other).given == ledger.purse(other).given
            &&& after.purse(user).given == paid.given
            &&& after.pool + after.purse(user).given == ledger.pool + ledger.purse(user).given
            &&& after.players == ledger.players
        }),
{
    rewards_come_out_of_the_pool(ledger.definitions, ids, ledger.purse(user));
    lemma_records(ledger.badges, user, ids, score, now, i);
}

proof fn lemma_records(
    records: Map<(Address, Symbol), BadgeRecord>,
    user: Address,
    ids: Seq<Symbol>,
    score: i128,
    now: u64,
    i: int,
)
    requires
        0 <= i < ids.len(),
        ids.no_duplicates(),
    ensures
        with_records(records, user, ids, score, now).contains_key((user, ids[i])),
        with_records(records, user, ids, score, now)[(user, ids[i])] == (BadgeRecord {
            badge_id: ids[i],
            user,
            earned_at: now,
            score_at_earn: score,
        }),
    decreases ids.len(),
{
    if i < ids.len() - 1 {
        let less = ids.drop_last();
        assert forall|a: int, b: int| 0 <= a < less.len() && 0 <= b < less.len() && a
            != b implies less[a] != less[b] by {
            assert(ids[a] != ids[b]);
        }
        lemma_records(records, user, less, score, now, i);
        assert(ids[i] != ids[ids.len() - 1]);
    }
}

/// Progress is refused where there is no such challenge, where it is not
/// running, or where the user did not join it; otherwise it adds to what was
/// reached. Reaching the target for the first time completes the challenge: it
/// pays the reward where the pool covers it, and counts as one more win.
pub proof fn progress_completes_challenges(
    ledger: GameLedger,
    user: Address,
    id: Symbol,
    increment: i128,
    now: u64,
)
    requires
        ledger.wf(),
    ensures
        ({
            let refusal = ledger.progress_refusal(user, id, increment, now);
            let challenge = ledger.challenges[id];
            let entry = ledger.entries[(id, user)];
            let running = challenge.active && challenge.start_time <= now <= challenge.end_time;
            let after = ledger.progressed(user, id, increment, now);
            let reached = after.entries[(id, user)];
            let first = !entry.completed && entry.current_value + increment
                >= challenge.target_value;
            &&& !ledger.challenges.contains_key(id) ==> refusal == Some(Error::ChallengeNotFound)
            &&& ledger.challenges.contains_key(id) && !running ==> refusal == Some(
                Error::ChallengeAlreadyEnded,
            )
            &&& ledger.challenges.contains_key(id) && running && !ledger.entries.contains_key(
                (id, user),
            ) ==> refusal == Some(Error::ChallengeNotFound)
            &&& refusal is None ==> {
                &&& ledger.challenges.contains_key(id) && running && ledger.entries.contains_key(
                    (id, user),
                )
                &&& reached.current_value == entry.current_value + increment
                &&& reached.user == entry.user && reached.challenge_id == entry.challenge_id
                &&& first ==> reached.completed && reached.completed_at == now
                &&& !first ==> reached.completed == entry.completed && after.pool == ledger.pool
                    && after.players == ledger.players
                &&& first ==> after.players[user].challenges_won
                    == ledger.players[user].challenges_won + 1
                &&& first && ledger.pool >= challenge.reward_amount ==> after.pool == ledger.pool
                    - challenge.reward_amount && after.purse(user).given == ledger.purse(user).given
                    + challenge.reward_amount
                &&& first && ledger.pool < challenge.reward_amount ==> after.pool == ledger.pool
                    && after.purse(user).given == ledger.purse(user).given
                &&& first ==> after.outbox == ledger.outbox.push(
                    GameEvent::ChallengeCompleted {
                        user,
                        challenge_id: id,
                        reward: challenge.reward_amount,
                    },
                )
            }
        }),
{
}

/// Only the administrator may administer, and nobody before there is one.
pub proof fn administration_is_for_the_administrator(ledger: GameLedger, caller: Address)
    ensures
        ledger.admin_refusal(caller) is None <==> ledger.admin == Some(caller),
        ledger.admin is None <==> ledger.admin_refusal(caller) == Some(Error::NotInitialized),
{
}

} // verus!
