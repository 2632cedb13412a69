//! Leaderboards: players in the order of a metric, the best first and those
//! that are equal in the order in which they joined.
use crate::gamification::scoring;
use crate::gamification::types::{LeaderboardEntry, LeaderboardPage, PlayerStats, SortMetric};
use crate::table::Table;
use crate::values::Address;
use vstd::prelude::*;

verus! {

/// Most lines that a page holds.
pub const MAX_LEADERBOARD_RETURN: u32 = 100;

/// What a player is ranked by.
pub open spec fn sort_key(stats: PlayerStats, metric: SortMetric) -> i128 {
    match metric {
        SortMetric::Score => stats.total_score,
        SortMetric::TradeCount => stats.successful_trades as i128,
        SortMetric::Roi => stats.best_roi_bps,
        SortMetric::Streak => stats.best_streak as i128,
    }
}

/// A player on the way into a leaderboard.
#[derive(Clone, Copy)]
pub struct Row {
    pub user: Address,
    pub key: i128,
    pub score: i128,
    pub trades: u32,
    pub roi_bps: i128,
    pub streak: u32,
}

/// The row of a player.
pub open spec fn row_of(user: Address, stats: PlayerStats, metric: SortMetric) -> Row {
    Row {
        user,
        key: sort_key(stats, metric),
        score: stats.total_score,
        trades: stats.successful_trades,
        roi_bps: stats.best_roi_bps,
        streak: stats.best_streak,
    }
}

/// The rows of those users who are players, in the order of the users.
pub open spec fn rows_of(
    users: Seq<Address>,
    players: Map<Address, PlayerStats>,
    metric: SortMetric,
) -> Seq<Row>
    decreases users.len(),
{
    if users.len() == 0 {
        Seq::empty()
    } else {
        let so_far = rows_of(users.drop_last(), players, metric);
        if players.contains_key(users.last()) {
            so_far.push(row_of(users.last(), players[users.last()], metric))
        } else {
            so_far
        }
    }
}

/// Where a row with this key enters rows that are in order: before the first
/// one with a smaller key.
pub open spec fn slot_for(rows: Seq<Row>, key: i128) -> int
    decreases rows.len(),
{
    if rows.len() == 0 || rows[0].key < key {
        0
    } else {
        1 + slot_for(rows.drop_first(), key)
    }
}

/// Rows in the order of their keys, the largest first; equal ones keep their
/// order.
pub open spec fn ranked(rows: Seq<Row>) -> Seq<Row>
    decreases rows.len(),
{
    if rows.len() == 0 {
        rows
    } else {
        let so_far = ranked(rows.drop_last());
        so_far.insert(slot_for(so_far, rows.last().key), rows.last())
    }
}

/// Largest key first.
pub open spec fn in_rank_order(rows: Seq<Row>) -> bool {
    forall|i: int, j: int|
        0 <= i < j < rows.len() ==> (#[trigger] rows[i]).key >= (#[trigger] rows[j]).key
}

proof fn lemma_slot(rows: Seq<Row>, key: i128)
    ensures
        0 <= slot_for(rows, key) <= rows.len(),
        forall|i: int| 0 <= i < slot_for(rows, key) ==> (#[trigger] rows[i]).key >= key,
        slot_for(rows, key) < rows.len() ==> rows[slot_for(rows, key)].key < key,
    decreases rows.len(),
{
    if rows.len() == 0 || rows[0].key < key {
    } else {
        let rest = rows.drop_first();
        lemma_slot(rest, key);
        assert forall|i: int| 0 <= i < slot_for(rows, key) implies (#[trigger] rows[i]).key
            >= key by {
            if i > 0 {
                assert(rows[i] == rest[i - 1]);
            }
        }
    }
}

proof fn lemma_slot_is(rows: Seq<Row>, key: i128, at: int)
    requires
        0 <= at <= rows.len(),
        forall|i: int| 0 <= i < at ==> (#[trigger] rows[i]).key >= key,
        at < rows.len() ==> rows[at].key < key,
    ensures
        slot_for(rows, key) == at,
{
    lemma_slot(rows, key);
    let s = slot_for(rows, key);
    if s < at {
        assert(rows[s].key >= key);
    } else if at < s {
        assert(rows[at].key >= key);
    }
}

/// A leaderboard is in order, and has every player exactly once.
pub proof fn leaderboards_are_sorted(rows: Seq<Row>)
    ensures
        in_rank_order(ranked(rows)),
        ranked(rows).to_multiset() == rows.to_multiset(),
        ranked(rows).len() == rows.len(),
    decreases rows.len(),
{
    if rows.len() > 0 {
        let less = rows.drop_last();
        leaderboards_are_sorted(less);
        let so_far = ranked(less);
        let row = rows.last();
        lemma_slot(so_far, row.key);
        let at = slot_for(so_far, row.key);
        let all = so_far.insert(at, row);
        assert(all == ranked(rows));
        assert forall|i: int, j: int| 0 <= i < j < all.len() implies (#[trigger] all[i]).key >= (
        #[trigger] all[j]).key by {
            let pi = if i < at { i } else { i - 1 };
            let pj = if j < at { j } else { j - 1 };
            if i != at {
                assert(all[i] == so_far[pi]);
            }
            if j != at {
                assert(all[j] == so_far[pj]);
            }
            if i == at {
                if pj > at {
                    assert(so_far[at].key >= so_far[pj].key);
                }
            } else if j != at {
                assert(so_far[pi].key >= so_far[pj].key);
            }
        }
        vstd::seq_lib::to_multiset_insert(so_far, at, row);
        vstd::seq_lib::to_multiset_build(less, row);
        assert(less.push(row) =~= rows);
    }
}

/// Nothing is left of rows of which none is to be kept.
proof fn lemma_nothing_kept(rows: Seq<Row>, keep: spec_fn(Row) -> bool)
    requires
        forall|i: int| 0 <= i < rows.len() ==> !keep(#[trigger] rows[i]),
    ensures
        rows.filter(keep) == Seq::<Row>::empty(),
    decreases rows.len(),
{
    reveal(Seq::filter);
    if rows.len() > 0 {
        let less = rows.drop_last();
        assert forall|i: int| 0 <= i < less.len() implies !keep(#[trigger] less[i]) by {
            assert(less[i] == rows[i]);
        }
        lemma_nothing_kept(less, keep);
        assert(!keep(rows[rows.len() - 1]));
    }
    assert(rows.filter(keep) =~= Seq::<Row>::empty());
}

/// Players with the same key stand on a leaderboard in the order in which
/// their rows were.
pub proof fn ties_keep_their_order(rows: Seq<Row>, key: i128)
    ensures
        ranked(rows).filter(|r: Row| r.key == key) == rows.filter(|r: Row| r.key == key),
    decreases rows.len(),
{
    let keep = |r: Row| r.key == key;
    if rows.len() > 0 {
        let less = rows.drop_last();
        let row = rows.last();
        let so_far = ranked(less);
        ties_keep_their_order(less, key);
        leaderboards_are_sorted(less);
        lemma_slot(so_far, row.key);
        let at = slot_for(so_far, row.key);
        let (front, back) = (so_far.take(at), so_far.skip(at));
        assert(so_far =~= front + back);
        assert(ranked(rows) =~= front + seq![row] + back);
        Seq::filter_distributes_over_add(front, back, keep);
        Seq::filter_distributes_over_add(front + seq![row], back, keep);
        Seq::filter_distributes_over_add(front, seq![row], keep);
        assert(rows =~= less + seq![row]);
        Seq::filter_distributes_over_add(less, seq![row], keep);
        if row.key == key {
            assert forall|i: int| 0 <= i < back.len() implies !keep(#[trigger] back[i]) by {
                assert(back[i] == so_far[at + i]);
                assert(so_far[at].key >= so_far[at + i].key || i == 0);
            }
            lemma_nothing_kept(back, keep);
            assert(ranked(rows).filter(keep) =~= rows.filter(keep));
        } else {
            assert forall|i: int| 0 <= i < seq![row].len() implies !keep(
                #[trigger] seq![row][i],
            ) by {}
            lemma_nothing_kept(seq![row], keep);
            assert(ranked(rows).filter(keep) =~= rows.filter(keep));
        }
    }
}

/// The rows are those of the users who are players, in the order in which they
/// joined.
pub proof fn rows_are_in_joining_order(
    users: Seq<Address>,
    players: Map<Address, PlayerStats>,
    metric: SortMetric,
)
    ensures
        rows_of(users, players, metric).map_values(|r: Row| r.user) == users.filter(
            |u: Address| players.contains_key(u),
        ),
    decreases users.len(),
{
    reveal(Seq::filter);
    let name = |r: Row| r.user;
    let keep = |u: Address| players.contains_key(u);
    let rows = rows_of(users, players, metric);
    if users.len() > 0 {
        rows_are_in_joining_order(users.drop_last(), players, metric);
        let before = rows_of(users.drop_last(), players, metric);
        if players.contains_key(users.last()) {
            assert(rows.map_values(name) =~= before.map_values(name).push(users.last()));
        }
    }
    assert(rows.map_values(name) =~= users.filter(keep));
}

/// The line of a row at a rank.
pub open spec fn line_of(row: Row, rank: int) -> LeaderboardEntry {
    LeaderboardEntry {
        rank: rank as u32,
        user: row.user,
        score: row.score,
        tier: scoring::tier_of(row.score as int),
        trade_count: row.trades,
        best_roi_bps: row.roi_bps,
        streak: row.streak,
    }
}

/// Where a page begins: at the offset, or else at the end.
pub open spec fn page_start(total: int, offset: int) -> int {
    if offset >= total {
        total
    } else {
        offset
    }
}

/// How many lines a page may hold.
pub open spec fn page_size(limit: int) -> int {
    if limit > MAX_LEADERBOARD_RETURN {
        MAX_LEADERBOARD_RETURN as int
    } else {
        limit
    }
}

/// Where a page ends.
pub open spec fn page_end(total: int, offset: int, limit: int) -> int {
    let end = page_start(total, offset) + page_size(limit);
    if end > total {
        total
    } else {
        end
    }
}

/// The lines of a page.
pub open spec fn page_lines(rows: Seq<Row>, offset: int, limit: int) -> Seq<LeaderboardEntry> {
    let total = rows.len() as int;
    let start = page_start(total, offset);
    Seq::new(
        (page_end(total, offset, limit) - start) as nat,
        |i: int| line_of(rows[start + i], start + i + 1),
    )
}

proof fn lemma_rows_bounded(
    users: Seq<Address>,
    players: Map<Address, PlayerStats>,
    metric: SortMetric,
)
    ensures
        rows_of(users, players, metric).len() <= users.len(),
    decreases users.len(),
{
    if users.len() > 0 {
        lemma_rows_bounded(users.drop_last(), players, metric);
    }
}

/// Whether there is a row of a user.
pub open spec fn has_row(rows: Seq<Row>, user: Address) -> bool {
    exists|i: int| 0 <= i < rows.len() && (#[trigger] rows[i]).user == user
}

proof fn lemma_rows_of_players(
    users: Seq<Address>,
    players: Map<Address, PlayerStats>,
    metric: SortMetric,
    user: Address,
)
    ensures
        has_row(rows_of(users, players, metric), user) <==> users.contains(user)
            && players.contains_key(user),
    decreases users.len(),
{
    if users.len() > 0 {
        let before = users.drop_last();
        let last = users.last();
        lemma_rows_of_players(before, players, metric, user);
        let so_far = rows_of(before, players, metric);
        let rows = rows_of(users, players, metric);
        assert(users[users.len() - 1] == last);
        if users.contains(user) && user != last {
            let k = choose|k: int| 0 <= k < users.len() && users[k] == user;
            assert(before[k] == user);
        }
        if before.contains(user) {
            let k = choose|k: int| 0 <= k < before.len() && before[k] == user;
            assert(users[k] == user);
        }
        if has_row(so_far, user) {
            let i = choose|i: int| 0 <= i < so_far.len() && (#[trigger] so_far[i]).user == user;
            assert(rows[i].user == user);
        }
        if players.contains_key(last) {
            assert(rows[rows.len() - 1].user == last);
            if has_row(rows, user) && user != last {
                let i = choose|i: int| 0 <= i < rows.len() && (#[trigger] rows[i]).user == user;
                assert(so_far[i].user == user);
            }
        }
    }
}

/// Exactly those users who are players are on a leaderboard.
pub proof fn players_are_on_the_leaderboard(
    users: Seq<Address>,
    players: Map<Address, PlayerStats>,
    metric: SortMetric,
    user: Address,
)
    ensures
        has_row(ranked(rows_of(users, players, metric)), user) <==> users.contains(user)
            && players.contains_key(user),
{
    let rows = rows_of(users, players, metric);
    let all = ranked(rows);
    lemma_rows_of_players(users, players, metric, user);
    leaderboards_are_sorted(rows);
    if has_row(rows, user) {
        let i = choose|i: int| 0 <= i < rows.len() && (#[trigger] rows[i]).user == user;
        assert(rows.contains(rows[i]));
        vstd::seq_lib::to_multiset_contains(rows, rows[i]);
        vstd::seq_lib::to_multiset_contains(all, rows[i]);
        let k = choose|k: int| 0 <= k < all.len() && all[k] == rows[i];
        assert(all[k].user == user);
    }
    if has_row(all, user) {
        let i = choose|i: int| 0 <= i < all.len() && (#[trigger] all[i]).user == user;
        assert(all.contains(all[i]));
        vstd::seq_lib::to_multiset_contains(all, all[i]);
        vstd::seq_lib::to_multiset_contains(rows, all[i]);
        let k = choose|k: int| 0 <= k < rows.len() && rows[k] == all[i];
        assert(rows[k].user == user);
    }
}

/// All players in the order of a metric.
pub fn standings(users: &Vec<Address>, players: &Table<Address, PlayerStats>, metric: SortMetric) -> (
    rows: Vec<Row>)
    ensures
        rows@ == ranked(rows_of(users@, players@, metric)),
        rows@.len() <= users@.len(),
{
    let mut rows: Vec<Row> = Vec::new();
    let mut i: usize = 0;
    assert(rows@ =~= ranked(rows_of(users@.take(0), players@, metric)));
    while i < users.len()
        invariant
            i <= users@.len(),
            rows@ == ranked(rows_of(users@.take(i as int), players@, metric)),
        decreases users@.len() - i,
    {
        let user = users[i];
        assert(users@.take(i + 1).drop_last() =~= users@.take(i as int));
        assert(users@.take(i + 1).last() == user);
        let ghost so_far = rows_of(users@.take(i as int), players@, metric);
        if let Some(s) = players.get(&user) {
            let key: i128 = match metric {
                SortMetric::Score => s.total_score,
                SortMetric::TradeCount => s.successful_trades as i128,
                SortMetric::Roi => s.best_roi_bps,
                SortMetric::Streak => s.best_streak as i128,
            };
            let row = Row {
                user,
                key,
                score: s.total_score,
                trades: s.successful_trades,
                roi_bps: s.best_roi_bps,
                streak: s.best_streak,
            };
            let mut at: usize = 0;
            while at < rows.len() && rows[at].key >= key
                invariant
                    at <= rows@.len(),
                    forall|j: int| 0 <= j < at ==> (#[trigger] rows@[j]).key >= key,
                decreases rows@.len() - at,
            {
                at += 1;
            }
            proof {
                lemma_slot_is(rows@, key, at as int);
                assert(so_far.push(row).drop_last() =~= so_far);
            }
            rows.insert(at, row);
        }
        i += 1;
    }
    assert(users@.take(i as int) =~= users@);
    proof {
        lemma_rows_bounded(users@, players@, metric);
        leaderboards_are_sorted(rows_of(users@, players@, metric));
    }
    rows
}

/// A page of the leaderboard of all players.
pub fn build_leaderboard(
    users: &Vec<Address>,
    players: &Table<Address, PlayerStats>,
    metric: SortMetric,
    offset: u32,
    limit: u32,
) -> (page: LeaderboardPage)
    requires
        users@.len() < u32::MAX,
    ensures
        ({
            let rows = ranked(rows_of(users@, players@, metric));
            &&& page.entries@ == page_lines(rows, offset as int, limit as int)
            &&& page.total_players == rows.len()
            &&& page.page_offset == page_start(rows.len() as int, offset as int)
            &&& page.page_limit == page_size(limit as int)
        }),
{
    let rows = standings(users, players, metric);
    let total_players = rows.len() as u32;
    let actual_offset = if offset >= total_players {
        total_players
    } else {
        offset
    };
    let actual_limit = if limit > MAX_LEADERBOARD_RETURN {
        MAX_LEADERBOARD_RETURN
    } else {
        limit
    };
    let end = if actual_limit > total_players - actual_offset {
        total_players
    } else {
        actual_offset + actual_limit
    };
    let ghost lines = page_lines(rows@, offset as int, limit as int);
    let mut entries: Vec<LeaderboardEntry> = Vec::new();
    let mut idx: u32 = actual_offset;
    while idx < end
        invariant
            actual_offset <= idx <= end <= rows@.len() < u32::MAX,
            actual_offset == page_start(rows@.len() as int, offset as int),
            end == page_end(rows@.len() as int, offset as int, limit as int),
            lines == page_lines(rows@, offset as int, limit as int),
            entries@ == lines.take(idx - actual_offset),
        decreases end - idx,
    {
        let row = rows[idx as usize];
        entries.push(
            LeaderboardEntry {
                rank: idx + 1,
                user: row.user,
                score: row.score,
                tier: scoring::score_to_tier(row.score),
                trade_count: row.trades,
                best_roi_bps: row.roi_bps,
                streak: row.streak,
            },
        );
        idx += 1;
        assert(entries@ =~= lines.take(idx - actual_offset));
    }
    assert(entries@ =~= lines);
    LeaderboardPage {
        entries,
        total_players,
        page_offset: actual_offset,
        page_limit: actual_limit,
    }
}

/// Players are ranked by what the metric names: their score, their successful
/// trades, their best return or their best streak. Their row tells all four.
pub proof fn metrics_name_what_counts(user: Address, stats: PlayerStats, metric: SortMetric)
    ensures
        metric == SortMetric::Score ==> row_of(user, stats, metric).key == stats.total_score,
        metric == SortMetric::TradeCount ==> row_of(user, stats, metric).key
            == stats.successful_trades,
        metric == SortMetric::Roi ==> row_of(user, stats, metric).key == stats.best_roi_bps,
        metric == SortMetric::Streak ==> row_of(user, stats, metric).key == stats.best_streak,
        row_of(user, stats, metric).user == user,
        row_of(user, stats, metric).score == stats.total_score,
        row_of(user, stats, metric).trades == stats.successful_trades,
        row_of(user, stats, metric).roi_bps == stats.best_roi_bps,
        row_of(user, stats, metric).streak == stats.best_streak,
{
}

/// A page shows the rows from its offset on, as many as the limit asks for and
/// there are, and never more than a hundred; each line has the rank of its
/// row, counted from one over the whole leaderboard, and the row's numbers.
pub proof fn pages_show_ranks(rows: Seq<Row>, offset: int, limit: int, i: int)
    requires
        0 <= offset,
        0 <= limit,
        rows.len() < u32::MAX,
    ensures
        ({
            let lines = page_lines(rows, offset, limit);
            &&& lines.len() <= limit && lines.len() <= 100
            &&& offset >= rows.len() ==> lines.len() == 0
            &&& offset < rows.len() ==> offset + lines.len() <= rows.len()
            &&& offset < rows.len() && lines.len() < limit && lines.len() < 100 ==> offset
                + lines.len() == rows.len()
            &&& 0 <= i < lines.len() ==> {
                let (line, row) = (lines[i], rows[offset + i]);
                &&& line.rank == offset + i + 1
                &&& line.user == row.user && line.score == row.score && line.trade_count
                    == row.trades && line.best_roi_bps == row.roi_bps && line.streak == row.streak
                &&& line.tier == scoring::tier_of(row.score as int)
            }
        }),
{
}

} // verus!
