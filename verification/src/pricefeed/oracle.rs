//! Oracle registration and the prices that oracles submit.
use crate::pricefeed::records::{
    OracleProvider, PriceDataPoint, PriceFeedError, PriceFeedLedger, PriceFeedStore,
};
use crate::table;
use crate::values;
use crate::values::Symbol;
use vstd::prelude::*;

verus! {

/// The registered oracles, in the order of their ids.
pub open spec fn providers(oracles: Map<Symbol, OracleProvider>) -> Seq<OracleProvider> {
    let entries = table::ordered(oracles);
    Seq::new(entries.len(), |i: int| entries[i].1)
}

/// Those of the oracles that are active.
pub open spec fn active(all: Seq<OracleProvider>) -> Seq<OracleProvider> {
    all.filter(|p: OracleProvider| p.is_active)
}

/// Whether a price is older than its oracle allows. The age is known only
/// where both times are.
pub open spec fn outdated(point: PriceDataPoint, provider: OracleProvider, now: u64) -> bool {
    now > 0 && point.timestamp > 0 && now - point.timestamp > provider.max_staleness
}

/// What an oracle has to say about an asset.
pub open spec fn offer(
    ledger: PriceFeedLedger,
    provider: OracleProvider,
    asset: Symbol,
    now: u64,
) -> Option<PriceDataPoint> {
    match ledger.point(asset, provider.provider_id) {
        Some(point) => if outdated(point, provider, now) {
            None
        } else {
            Some(point)
        },
        None => None,
    }
}

/// What a list of oracles has to say about an asset.
pub open spec fn offers(
    ledger: PriceFeedLedger,
    from: Seq<OracleProvider>,
    asset: Symbol,
    now: u64,
) -> Seq<PriceDataPoint>
    decreases from.len(),
{
    if from.len() == 0 {
        Seq::empty()
    } else {
        let before = offers(ledger, from.drop_last(), asset, now);
        match offer(ledger, from.last(), asset, now) {
            Some(point) => before.push(point),
            None => before,
        }
    }
}

/// Submitted prices, each in place of the one before it.
pub open spec fn submitted(
    points: Map<(Symbol, Symbol), PriceDataPoint>,
    batch: Seq<PriceDataPoint>,
) -> Map<(Symbol, Symbol), PriceDataPoint>
    decreases batch.len(),
{
    if batch.len() == 0 {
        points
    } else {
        let last = batch.last();
        submitted(points, batch.drop_last()).insert((last.asset, last.provider_id), last)
    }
}

/// Registers oracles and takes their prices.
pub struct OracleManager;

impl OracleManager {
    /// Register an oracle that is not registered yet.
    pub fn register_provider(store: &mut PriceFeedStore, provider: OracleProvider) -> (r: Result<
        Symbol,
        PriceFeedError,
    >)
        requires
            old(store).wf(),
        ensures
            final(store).wf(),
            match r {
                Ok(id) => !old(store)@.oracles.contains_key(provider.provider_id) && id
                    == provider.provider_id && final(store)@ == (PriceFeedLedger {
                    oracles: old(store)@.oracles.insert(provider.provider_id, provider),
                    ..old(store)@
                }),
                Err(e) => old(store)@.oracles.contains_key(provider.provider_id) && e
                    == PriceFeedError::OracleAlreadyExists && final(store)@ == old(store)@,
            },
    {
        if store.oracles.get(&provider.provider_id).is_some() {
            return Err(PriceFeedError::OracleAlreadyExists);
        }
        store.oracles.set(provider.provider_id, provider);
        Ok(provider.provider_id)
    }

    /// Replace the settings of an oracle that is registered.
    pub fn update_provider(store: &mut PriceFeedStore, provider: OracleProvider) -> (r: Result<
        Symbol,
        PriceFeedError,
    >)
        requires
            old(store).wf(),
        ensures
            final(store).wf(),
            match r {
                Ok(id) => old(store)@.oracles.contains_key(provider.provider_id) && id
                    == provider.provider_id && final(store)@ == (PriceFeedLedger {
                    oracles: old(store)@.oracles.insert(provider.provider_id, provider),
                    ..old(store)@
                }),
                Err(e) => !old(store)@.oracles.contains_key(provider.provider_id) && e
                    == PriceFeedError::OracleNotFound && final(store)@ == old(store)@,
            },
    {
        if store.oracles.get(&provider.provider_id).is_none() {
            return Err(PriceFeedError::OracleNotFound);
        }
        store.oracles.set(provider.provider_id, provider);
        Ok(provider.provider_id)
    }

    /// Remove an oracle.
    pub fn remove_provider(store: &mut PriceFeedStore, provider_id: Symbol) -> (r: Result<
        (),
        PriceFeedError,
    >)
        requires
            old(store).wf(),
        ensures
            final(store).wf(),
            match r {
                Ok(_) => old(store)@.oracles.contains_key(provider_id) && final(store)@ == (
                PriceFeedLedger {
                    oracles: old(store)@.oracles.remove(provider_id),
                    ..old(store)@
                }),
                Err(e) => !old(store)@.oracles.contains_key(provider_id) && e
                    == PriceFeedError::OracleNotFound && final(store)@ == old(store)@,
            },
    {
        if store.oracles.get(&provider_id).is_none() {
            return Err(PriceFeedError::OracleNotFound);
        }
        store.oracles.take(&provider_id);
        Ok(())
    }

    /// An oracle by its id.
    pub fn get_provider(store: &PriceFeedStore, provider_id: Symbol) -> (provider: Option<
        OracleProvider,
    >)
        requires
            store.wf(),
        ensures
            provider == (if store@.oracles.contains_key(provider_id) {
                Some(store@.oracles[provider_id])
            } else {
                None
            }),
    {
        match store.oracles.get(&provider_id) {
            Some(provider) => Some(*provider),
            None => None,
        }
    }

    /// All oracles, in the order of their ids.
    pub fn get_all_providers(store: &PriceFeedStore) -> (all: Vec<OracleProvider>)
        requires
            store.wf(),
        ensures
            all@ == providers(store@.oracles),
    {
        let ghost whole = providers(store@.oracles);
        proof {
            store.oracles.lemma_in_order();
        }
        let mut all: Vec<OracleProvider> = Vec::new();
        let mut i: usize = 0;
        while i < store.oracles.len()
            invariant
                i <= store.oracles.in_order().len(),
                store.oracles.in_order() == table::ordered(store@.oracles),
                whole == providers(store@.oracles),
                all@ == whole.take(i as int),
            decreases store.oracles.in_order().len() - i,
        {
            all.push(store.oracles.at(i).1);
            i += 1;
            assert(whole.take(i as int) =~= whole.take(i - 1).push(whole[i - 1]));
        }
        assert(whole.take(i as int) =~= whole);
        all
    }

    /// The active oracles, in the order of their ids.
    pub fn get_active_providers(store: &PriceFeedStore) -> (list: Vec<OracleProvider>)
        requires
            store.wf(),
        ensures
            list@ == active(providers(store@.oracles)),
    {
        let all = Self::get_all_providers(store);
        let ghost keep = |p: OracleProvider| p.is_active;
        let mut list: Vec<OracleProvider> = Vec::new();
        let mut i: usize = 0;
        proof {
            table::lemma_filter_none(all@, keep);
        }
        while i < all.len()
            invariant
                i <= all@.len(),
                keep == (|p: OracleProvider| p.is_active),
                list@ == all@.take(i as int).filter(keep),
            decreases all@.len() - i,
        {
            proof {
                table::lemma_filter_step(all@, i as int, keep);
            }
            if all[i].is_active {
                list.push(all[i]);
            }
            i += 1;
        }
        assert(all@.take(i as int) =~= all@);
        list
    }

    /// The price that an oracle submitted last for an asset.
    pub fn fetch_price(store: &PriceFeedStore, asset: Symbol, provider_id: Symbol) -> (point:
        Option<PriceDataPoint>)
        ensures
            point == store@.point(asset, provider_id),
    {
        match store.latest_points.get(&(asset, provider_id)) {
            Some(point) => Some(*point),
            None => None,
        }
    }

    /// Take a price from an oracle.
    pub fn submit_price(store: &mut PriceFeedStore, data_point: PriceDataPoint) -> (ok: Symbol)
        requires
            old(store).wf(),
        ensures
            final(store).wf(),
            ok == values::symbol_of("ok"@),
            final(store)@ == (PriceFeedLedger {
                latest_points: old(store)@.latest_points.insert(
                    (data_point.asset, data_point.provider_id),
                    data_point,
                ),
                ..old(store)@
            }),
    {
        store.latest_points.set((data_point.asset, data_point.provider_id), data_point);
        Symbol::from_text("ok")
    }

    /// Take several prices in turn; how many there were.
    pub fn batch_submit_prices(store: &mut PriceFeedStore, data_points: &Vec<PriceDataPoint>) -> (n:
        u32)
        requires
            old(store).wf(),
            data_points@.len() <= u32::MAX,
        ensures
            final(store).wf(),
            n == data_points@.len(),
            final(store)@ == (PriceFeedLedger {
                latest_points: submitted(old(store)@.latest_points, data_points@),
                ..old(store)@
            }),
    {
        let ghost before = store@;
        let mut i: usize = 0;
        assert(data_points@.take(0) =~= Seq::<PriceDataPoint>::empty());
        while i < data_points.len()
            invariant
                i <= data_points@.len(),
                store.wf(),
                store@ == (PriceFeedLedger {
                    latest_points: submitted(
                        before.latest_points,
                        data_points@.take(i as int),
                    ),
                    ..before
                }),
            decreases data_points@.len() - i,
        {
            let point = data_points[i];
            Self::submit_price(store, point);
            assert(data_points@.take(i + 1).drop_last() =~= data_points@.take(i as int));
            i += 1;
        }
        assert(data_points@.take(i as int) =~= data_points@);
        data_points.len() as u32
    }

    /// The prices of an asset from the active oracles that have one and whose
    /// price is not older than they allow.
    pub fn fetch_all_for_asset(store: &PriceFeedStore, asset: Symbol, now: u64) -> (points: Vec<
        PriceDataPoint,
    >)
        requires
            store.wf(),
        ensures
            points@ == offers(store@, active(providers(store@.oracles)), asset, now),
    {
        let from = Self::get_active_providers(store);
        let mut points: Vec<PriceDataPoint> = Vec::new();
        let mut i: usize = 0;
        assert(from@.take(0) =~= Seq::<OracleProvider>::empty());
        while i < from.len()
            invariant
                i <= from@.len(),
                points@ == offers(store@, from@.take(i as int), asset, now),
            decreases from@.len() - i,
        {
            assert(from@.take(i + 1).drop_last() =~= from@.take(i as int));
            assert(from@.take(i + 1).last() == from@[i as int]);
            let provider = from[i];
            if let Some(point) = Self::fetch_price(store, asset, provider.provider_id) {
                let late = now > 0 && point.timestamp > 0 && now.saturating_sub(point.timestamp)
                    > provider.max_staleness;
                if !late {
                    points.push(point);
                }
            }
            i += 1;
        }
        assert(from@.take(i as int) =~= from@);
        points
    }
}

/// What an oracle submits is what is fetched from it, and no other price
/// changes.
pub proof fn a_submitted_price_is_fetched(
    ledger: PriceFeedLedger,
    point: PriceDataPoint,
    asset: Symbol,
    provider_id: Symbol,
)
    ensures
        ({
            let after = PriceFeedLedger {
                latest_points: ledger.latest_points.insert(
                    (point.asset, point.provider_id),
                    point,
                ),
                ..ledger
            };
            after.point(asset, provider_id) == if (asset, provider_id) == (
                point.asset,
                point.provider_id,
            ) {
                Some(point)
            } else {
                ledger.point(asset, provider_id)
            }
        }),
{
}

/// Submitting prices together is submitting them one after the other.
pub proof fn a_batch_is_its_prices(
    points: Map<(Symbol, Symbol), PriceDataPoint>,
    first: Seq<PriceDataPoint>,
    rest: Seq<PriceDataPoint>,
)
    ensures
        submitted(points, first + rest) == submitted(submitted(points, first), rest),
    decreases rest.len(),
{
    if rest.len() == 0 {
        assert(first + rest =~= first);
    } else {
        assert((first + rest).drop_last() =~= first + rest.drop_last());
        a_batch_is_its_prices(points, first, rest.drop_last());
    }
}

/// Each price that is fetched for an asset comes from an active oracle and is
/// not older than that oracle allows.
pub proof fn fetched_prices_are_current(
    ledger: PriceFeedLedger,
    from: Seq<OracleProvider>,
    asset: Symbol,
    now: u64,
    i: int,
)
    requires
        0 <= i < offers(ledger, active(from), asset, now).len(),
    ensures
        exists|p: OracleProvider| #[trigger]
            from.contains(p) && p.is_active && ledger.point(asset, p.provider_id) == Some(
                offers(ledger, active(from), asset, now)[i],
            ) && !outdated(offers(ledger, active(from), asset, now)[i], p, now),
{
    let chosen = active(from);
    lemma_offer_has_a_source(ledger, chosen, asset, now, i);
    let point = offers(ledger, chosen, asset, now)[i];
    let k = choose|k: int|
        0 <= k < chosen.len() && offer(ledger, #[trigger] chosen[k], asset, now) == Some(point);
    let p = chosen[k];
    let keep = |p: OracleProvider| p.is_active;
    from.lemma_filter_contains_rev(keep, p);
    from.lemma_filter_pred(keep, k);
    assert(from.contains(p));
}

/// Oracles of which no two have the same id.
spec fn are_distinct(list: Seq<OracleProvider>) -> bool {
    forall|i: int, j: int|
        0 <= i < j < list.len() ==> (#[trigger] list[i]).provider_id != (
        #[trigger] list[j]).provider_id
}

proof fn lemma_active_are_distinct(all: Seq<OracleProvider>)
    requires
        are_distinct(all),
    ensures
        are_distinct(active(all)),
    decreases all.len(),
{
    reveal(Seq::filter);
    if all.len() > 0 {
        let keep = |p: OracleProvider| p.is_active;
        let before = all.drop_last();
        assert forall|i: int, j: int| 0 <= i < j < before.len() implies (
        #[trigger] before[i]).provider_id != (#[trigger] before[j]).provider_id by {
            assert(before[i] == all[i] && before[j] == all[j]);
        }
        lemma_active_are_distinct(before);
        let kept = active(before);
        assert forall|i: int| 0 <= i < kept.len() implies (#[trigger] kept[i]).provider_id
            != all.last().provider_id by {
            assert(kept.contains(kept[i]));
            before.lemma_filter_contains_rev(keep, kept[i]);
            let k = choose|k: int| 0 <= k < before.len() && before[k] == kept[i];
            assert(all[k] == kept[i]);
            assert(all[k].provider_id != all[all.len() - 1].provider_id);
        }
        assert(active(all) == (if all.last().is_active {
            kept.push(all.last())
        } else {
            kept
        }));
    }
}

proof fn lemma_offers_are_of_their_oracles(
    ledger: PriceFeedLedger,
    from: Seq<OracleProvider>,
    asset: Symbol,
    now: u64,
)
    requires
        ledger.wf(),
        are_distinct(from),
    ensures
        ({
            let points = offers(ledger, from, asset, now);
            &&& forall|i: int| 0 <= i < points.len() ==> (#[trigger] points[i]).asset == asset
            &&& forall|i: int, j: int|
                0 <= i < j < points.len() ==> (#[trigger] points[i]).provider_id != (
                #[trigger] points[j]).provider_id
            &&& forall|k: int|
                0 <= k < from.len() && offer(ledger, #[trigger] from[k], asset, now) is Some
                    ==> points.contains(offer(ledger, from[k], asset, now)->0)
        }),
    decreases from.len(),
{
    if from.len() > 0 {
        let before = from.drop_last();
        let last = from.last();
        assert forall|i: int, j: int| 0 <= i < j < before.len() implies (
        #[trigger] before[i]).provider_id != (#[trigger] before[j]).provider_id by {
            assert(before[i] == from[i] && before[j] == from[j]);
        }
        lemma_offers_are_of_their_oracles(ledger, before, asset, now);
        let earlier = offers(ledger, before, asset, now);
        let points = offers(ledger, from, asset, now);
        assert forall|i: int| 0 <= i < earlier.len() implies (#[trigger] earlier[i]).provider_id
            != last.provider_id by {
            lemma_offer_has_a_source(ledger, before, asset, now, i);
            let k = choose|k: int|
                0 <= k < before.len() && offer(ledger, #[trigger] before[k], asset, now) == Some(
                    earlier[i],
                );
            assert(from[k] == before[k]);
            assert(from[k].provider_id != from[from.len() - 1].provider_id);
        }
        assert forall|k: int|
            0 <= k < from.len() && offer(
                ledger,
                #[trigger] from[k],
                asset,
                now,
            ) is Some implies points.contains(offer(ledger, from[k], asset, now)->0) by {
            let point = offer(ledger, from[k], asset, now)->0;
            if k < from.len() - 1 {
                assert(before[k] == from[k]);
                let i = choose|i: int| 0 <= i < earlier.len() && earlier[i] == point;
                assert(points[i] == point);
            } else {
                assert(points[points.len() - 1] == point);
            }
        }
    }
}

/// For an asset, each active oracle with a price that is not outdated is heard
/// exactly once, and nobody else is.
pub proof fn each_current_oracle_is_heard_once(store: PriceFeedStore, asset: Symbol, now: u64)
    requires
        store.wf(),
    ensures
        ({
            let points = offers(store@, active(providers(store@.oracles)), asset, now);
            &&& forall|i: int, j: int|
                0 <= i < j < points.len() ==> (#[trigger] points[i]).provider_id != (
                #[trigger] points[j]).provider_id
            &&& forall|i: int|
                0 <= i < points.len() ==> {
                    let id = (#[trigger] points[i]).provider_id;
                    store@.oracles.contains_key(id) && store@.oracles[id].is_active && offer(
                        store@,
                        store@.oracles[id],
                        asset,
                        now,
                    ) == Some(points[i])
                }
            &&& forall|id: Symbol| #[trigger]
                store@.oracles.contains_key(id) && store@.oracles[id].is_active && offer(
                    store@,
                    store@.oracles[id],
                    asset,
                    now,
                ) is Some ==> points.contains(offer(store@, store@.oracles[id], asset, now)->0)
        }),
{
    let ledger = store@;
    store.oracles.lemma_in_order();
    let entries = table::ordered(ledger.oracles);
    let all = providers(ledger.oracles);
    let keep = |p: OracleProvider| p.is_active;
    assert forall|i: int, j: int| 0 <= i < j < all.len() implies (#[trigger] all[i]).provider_id
        != (#[trigger] all[j]).provider_id by {
        assert(ledger.oracles.contains_key(entries[i].0));
        assert(ledger.oracles.contains_key(entries[j].0));
    }
    lemma_active_are_distinct(all);
    let from = active(all);
    lemma_offers_are_of_their_oracles(ledger, from, asset, now);
    let points = offers(ledger, from, asset, now);
    assert forall|i: int| 0 <= i < points.len() implies {
        let id = (#[trigger] points[i]).provider_id;
        ledger.oracles.contains_key(id) && ledger.oracles[id].is_active && offer(
            ledger,
            ledger.oracles[id],
            asset,
            now,
        ) == Some(points[i])
    } by {
        lemma_offer_has_a_source(ledger, from, asset, now, i);
        let k = choose|k: int|
            0 <= k < from.len() && offer(ledger, #[trigger] from[k], asset, now) == Some(points[i]);
        assert(from.contains(from[k]));
        all.lemma_filter_contains_rev(keep, from[k]);
        all.lemma_filter_pred(keep, k);
        let n = choose|n: int| 0 <= n < all.len() && all[n] == from[k];
        assert(all[n] == entries[n].1);
        assert(ledger.oracles.contains_key(entries[n].0));
    }
    assert forall|id: Symbol| #[trigger]
        ledger.oracles.contains_key(id) && ledger.oracles[id].is_active && offer(
            ledger,
            ledger.oracles[id],
            asset,
            now,
        ) is Some implies points.contains(offer(ledger, ledger.oracles[id], asset, now)->0) by {
        let n = choose|n: int| 0 <= n < entries.len() && (#[trigger] entries[n]).0 == id;
        assert(all[n] == ledger.oracles[id]);
        all.lemma_filter_contains(keep, n);
        let k = choose|k: int| 0 <= k < from.len() && from[k] == all[n];
        assert(offer(ledger, from[k], asset, now) is Some);
    }
}

proof fn lemma_offer_has_a_source(
    ledger: PriceFeedLedger,
    from: Seq<OracleProvider>,
    asset: Symbol,
    now: u64,
    i: int,
)
    requires
        0 <= i < offers(ledger, from, asset, now).len(),
    ensures
        exists|k: int|
            0 <= k < from.len() && offer(ledger, #[trigger] from[k], asset, now) == Some(
                offers(ledger, from, asset, now)[i],
            ),
    decreases from.len(),
{
    if from.len() > 0 {
        let before = from.drop_last();
        let point = offers(ledger, from, asset, now)[i];
        if i < offers(ledger, before, asset, now).len() {
            lemma_offer_has_a_source(ledger, before, asset, now, i);
            let k = choose|k: int|
                0 <= k < before.len() && offer(ledger, #[trigger] before[k], asset, now) == Some(
                    offers(ledger, before, asset, now)[i],
                );
            assert(from[k] == before[k]);
        } else {
            assert(from[from.len() - 1] == from.last());
        }
    }
}

/// An oracle is heard on an asset where it submitted a price for it that is
/// not older than the oracle allows; a price counts as too old only where its
/// age is known. Oracles that are not active are not asked.
pub proof fn oracles_are_heard_while_current(
    ledger: PriceFeedLedger,
    provider: OracleProvider,
    asset: Symbol,
    now: u64,
    all: Seq<OracleProvider>,
)
    ensures
        ({
            let key = (asset, provider.provider_id);
            let point = ledger.latest_points[key];
            let too_old = now > 0 && point.timestamp > 0 && now > point.timestamp
                + provider.max_staleness;
            &&& !ledger.latest_points.contains_key(key) || too_old ==> offer(
                ledger,
                provider,
                asset,
                now,
            ) is None
            &&& ledger.latest_points.contains_key(key) && !too_old ==> offer(
                ledger,
                provider,
                asset,
                now,
            ) == Some(point)
        }),
        active(all.push(provider)) == (if provider.is_active {
            active(all).push(provider)
        } else {
            active(all)
        }),
        active(Seq::empty()).len() == 0,
{
    let keep = |p: OracleProvider| p.is_active;
    let longer = all.push(provider);
    let n = all.len() as int;
    table::lemma_filter_step(longer, n, keep);
    table::lemma_filter_none(longer, keep);
    assert(longer.take(n) =~= all);
    assert(longer.take(n + 1) =~= longer);
    assert(longer.take(0) =~= Seq::<OracleProvider>::empty());
}

/// Of the prices that one oracle submits for one asset the last one stays.
pub proof fn the_last_price_stays(
    points: Map<(Symbol, Symbol), PriceDataPoint>,
    batch: Seq<PriceDataPoint>,
    i: int,
)
    requires
        0 <= i < batch.len(),
        forall|j: int|
            i < j < batch.len() ==> (#[trigger] batch[j]).asset != batch[i].asset
                || batch[j].provider_id != batch[i].provider_id,
    ensures
        submitted(points, batch).contains_key((batch[i].asset, batch[i].provider_id)),
        submitted(points, batch)[(batch[i].asset, batch[i].provider_id)] == batch[i],
    decreases batch.len(),
{
    if i < batch.len() - 1 {
        let less = batch.drop_last();
        assert forall|j: int| i < j < less.len() implies (#[trigger] less[j]).asset != less[i].asset
            || less[j].provider_id != less[i].provider_id by {
            assert(less[j] == batch[j]);
        }
        the_last_price_stays(points, less, i);
        let last = batch[batch.len() - 1];
        assert(last.asset != batch[i].asset || last.provider_id != batch[i].provider_id);
    }
}

} // verus!
