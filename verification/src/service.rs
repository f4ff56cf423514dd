//! The server-side service state and the fused write/conditional-read
//! protocol: one request both records a player's report and, unless the
//! client's version token is already current, answers with a fresh
//! aggregate and the new version.

use vstd::prelude::*;

use crate::aggregate::{aggregate_post, get_list, resolve_model, resolve_games};
use crate::metrics::{
    ledger_wf, record_expired_model, record_played_model, LedgerView, MetricsContext, MetricsOp,
    OpView,
};
use crate::normalize::canon;
use crate::store::{
    advance_model, evict_keep, evict_removed, find_idx, lemma_evict_disjoint,
    lemma_evict_removed_unique, lemma_find_idx, report_model, store_wf, InfoView, PresenceStore,
    VersionClock,
};
use crate::types::{EntryView, Game, GameView, NowPlayingEntry, NowPlayingResponse, ResponseView};

verus! {

/// Mathematical model of the shared server state.
pub ghost struct SharedView {
    pub store: Seq<InfoView>,
    pub version: int,
    pub metrics: Seq<LedgerView>,
}

/// The shared server state: the presence store, the version clock, and the
/// metrics ledger. One instance is constructed at process start and handed
/// to every request handler and to the eviction task; the surrounding
/// process guards it with one lock so that store mutation and version bump
/// are never seen apart.
pub struct SharedData {
    pub store: PresenceStore,
    pub last_update: VersionClock,
    pub metrics: MetricsContext,
}

impl View for SharedData {
    type V = SharedView;

    open spec fn view(&self) -> SharedView {
        SharedView { store: self.store@, version: self.last_update@, metrics: self.metrics@ }
    }
}

/// Well-formedness of the shared state.
pub open spec fn shared_wf(s: SharedView) -> bool {
    store_wf(s.store) && ledger_wf(s.metrics)
}

/// What one report does to store and version clock: the store records the
/// report, and the clock advances exactly when the observable aggregate
/// changed — a new player or a changed game set, never a mere refresh.
pub open spec fn update_model(s: SharedView, entry: EntryView, now: int) -> (SharedView, bool) {
    let (store2, changed) = report_model(s.store, entry.player, entry.games, now);
    let version2 = if changed {
        advance_model(s.version, now)
    } else {
        s.version
    };
    (SharedView { store: store2, version: version2, metrics: s.metrics }, changed)
}

/// Expiry operations for a list of evicted players, in eviction order.
pub open spec fn all_expired_ops(metrics: Seq<LedgerView>, ids: Seq<Seq<char>>) -> Seq<OpView>
    decreases ids.len(),
{
    if ids.len() == 0 {
        Seq::<OpView>::empty()
    } else {
        all_expired_ops(metrics, ids.drop_last()) + record_expired_model(metrics, ids.last())
    }
}

/// The state after one submit: the report is recorded, the clock advances
/// if the aggregate changed, and the metrics ledger absorbs the report with
/// the catalog-resolved games.
pub open spec fn submit_state(
    s: SharedView,
    entry: EntryView,
    catalog: Seq<GameView>,
    now: int,
) -> SharedView {
    let (s1, changed) = update_model(s, entry, now);
    let resolved = resolve_model(canon(entry.games), catalog);
    let (m2, ops) = record_played_model(s1.metrics, entry.player, resolved, now);
    SharedView { store: s1.store, version: s1.version, metrics: m2 }
}

/// The metric operations one submit emits.
pub open spec fn submit_ops(
    s: SharedView,
    entry: EntryView,
    catalog: Seq<GameView>,
    now: int,
) -> Seq<OpView> {
    let (s1, changed) = update_model(s, entry, now);
    let resolved = resolve_model(canon(entry.games), catalog);
    let (m2, ops) = record_played_model(s1.metrics, entry.player, resolved, now);
    ops
}

/// Mathematical model of a [`Conditional`].
pub ghost enum CondView {
    NotModified,
    Fresh { view: ResponseView, version: int },
}

/// The answer to a conditional read: either the client's cached view is
/// already current, or a fresh aggregate together with the version it
/// reflects.
pub enum Conditional {
    NotModified,
    Fresh { view: NowPlayingResponse, version: i64 },
}

impl View for Conditional {
    type V = CondView;

    open spec fn view(&self) -> CondView {
        match self {
            Conditional::NotModified => CondView::NotModified,
            Conditional::Fresh { view, version } => CondView::Fresh {
                view: view@,
                version: *version as int,
            },
        }
    }
}

/// The conditional-read contract, relative to the state after the report:
/// "not modified" exactly when the client supplied a version at least as
/// new as the server's; otherwise a fresh aggregate of the new store,
/// stamped with the server's version — which is then strictly newer than
/// any version the client supplied.
pub open spec fn conditional_post(
    post: SharedView,
    client_version: Option<i64>,
    catalog: Seq<GameView>,
    cond: CondView,
) -> bool {
    match cond {
        CondView::NotModified => client_version matches Some(v) && v >= post.version,
        CondView::Fresh { view, version } => {
            &&& match client_version {
                Some(v) => v < post.version,
                None => true,
            }
            &&& version == post.version
            &&& aggregate_post(post.store, catalog, view)
        },
    }
}

impl SharedData {
    /// Fresh shared state: empty store, empty ledger, clock at `now`.
    pub fn new(now: i64) -> (r: SharedData)
        ensures
            r@.store == Seq::<InfoView>::empty(),
            r@.version == now as int,
            r@.metrics == Seq::<LedgerView>::empty(),
            shared_wf(r@),
    {
        SharedData {
            store: PresenceStore::new(),
            last_update: VersionClock::new(now),
            metrics: MetricsContext::new(),
        }
    }

    /// Record one report and advance the version clock exactly when the
    /// observable aggregate changed.
    pub fn update(&mut self, entry: NowPlayingEntry, now: i64) -> (changed: bool)
        requires
            shared_wf(old(self)@),
        ensures
            shared_wf(final(self)@),
            (final(self)@, changed) == update_model(old(self)@, entry@, now as int),
    {
        let NowPlayingEntry { player, games } = entry;
        let changed = self.store.report(player, &games, now);
        if changed {
            self.last_update.advance(now);
        }
        changed
    }

    /// One eviction pass: remove every record older than the staleness
    /// threshold, advance the version clock if any player left, and emit
    /// one batch of expiry operations per evicted player.
    pub fn clean(&mut self, now: i64, threshold: i64) -> (r: (Vec<String>, Vec<MetricsOp>))
        requires
            shared_wf(old(self)@),
            0 <= threshold,
            i64::MIN + threshold <= now,
        ensures
            shared_wf(final(self)@),
            final(self)@.store == evict_keep(old(self)@.store, now - threshold),
            r.0.deep_view() == evict_removed(old(self)@.store, now - threshold),
            final(self)@.version == if r.0.deep_view().len() > 0 {
                advance_model(old(self)@.version, now as int)
            } else {
                old(self)@.version
            },
            final(self)@.metrics == old(self)@.metrics,
            r.1.deep_view() == all_expired_ops(old(self)@.metrics, r.0.deep_view()),
    {
        let removed = self.store.evict_older_than(now, threshold);
        if removed.len() > 0 {
            self.last_update.advance(now);
        }
        let ghost rdv = removed.deep_view();
        let mut ops: Vec<MetricsOp> = Vec::new();
        let mut m: usize = 0;
        while m < removed.len()
            invariant
                m <= removed.len(),
                rdv == removed.deep_view(),
                rdv.len() == removed@.len(),
                ops.deep_view() =~= all_expired_ops(self@.metrics, rdv.subrange(0, m as int)),
                self@.metrics == old(self)@.metrics,
            decreases removed.len() - m,
        {
            let ghost prefix = rdv.subrange(0, m as int);
            let ghost next = rdv.subrange(0, m + 1);
            proof {
                assert(next.drop_last() =~= prefix);
                assert(next.last() == rdv[m as int]);
            }
            let ghost dv0 = ops.deep_view();
            let ghost w0 = ops@;
            let mut batch = self.metrics.record_expired_player(removed[m].as_str());
            let ghost bdv = batch.deep_view();
            let ghost bw = batch@;
            ops.append(&mut batch);
            proof {
                assert(ops@ == w0 + bw);
                assert(ops.deep_view() =~= dv0 + bdv) by {
                    assert forall|k: int| 0 <= k < ops@.len() implies ops.deep_view()[k] == (dv0
                        + bdv)[k] by {
                        if k < w0.len() {
                            assert(ops@[k] == (w0 + bw)[k]);
                            assert(ops@[k] == w0[k]);
                        } else {
                            assert(ops@[k] == (w0 + bw)[k]);
                            assert(ops@[k] == bw[k - w0.len()]);
                        }
                    }
                }
                assert(ops.deep_view() =~= all_expired_ops(self@.metrics, next));
            }
            m = m + 1;
        }
        proof {
            assert(rdv.subrange(0, rdv.len() as int) =~= rdv);
        }
        (removed, ops)
    }

    /// The fused write and conditional read: record the report, fold it
    /// into the metrics ledger, and answer the conditional read against the
    /// version clock as it stands after the report.
    pub fn submit(
        &mut self,
        entry: NowPlayingEntry,
        client_version: Option<i64>,
        catalog: &Vec<Game>,
        now: i64,
    ) -> (r: (Conditional, Vec<MetricsOp>))
        requires
            shared_wf(old(self)@),
            i64::MIN + 5000 <= now,
        ensures
            shared_wf(final(self)@),
            final(self)@ == submit_state(old(self)@, entry@, catalog.deep_view(), now as int),
            r.1.deep_view() == submit_ops(old(self)@, entry@, catalog.deep_view(), now as int),
            conditional_post(
                final(self)@,
                client_version.deep_view(),
                catalog.deep_view(),
                r.0@,
            ),
    {
        let norm = crate::normalize::normalize_games(&entry.games);
        let resolved = resolve_games(&norm, catalog);
        let player_for_metrics = entry.player.clone();
        self.update(entry, now);
        let ops = self.metrics.record_played_games(player_for_metrics, resolved, now);
        let current = self.last_update.value;
        let not_modified = match client_version {
            Some(v) => v >= current,
            None => false,
        };
        if not_modified {
            (Conditional::NotModified, ops)
        } else {
            let snap = self.store.snapshot();
            let view = get_list(&snap, catalog);
            (Conditional::Fresh { view, version: current }, ops)
        }
    }
}

/// A rejected request.
#[derive(Debug)]
pub enum ApiError {
    /// The `last_update` version token was not a valid RFC 3339 timestamp.
    BadVersionToken,
}

impl ApiError {
    /// The message sent back with the rejection.
    pub fn message(&self) -> (r: String)
        ensures
            r@ == "last_update: bad format"@,
    {
        "last_update: bad format".to_owned()
    }
}

/// The instant a version token denotes, in milliseconds, or nothing when
/// the token is not a valid RFC 3339 timestamp.
pub uninterp spec fn rfc3339_millis(s: Seq<char>) -> Option<i64>;

/// Relies on chrono's `DateTime::parse_from_rfc3339` and
/// `timestamp_millis`: whether a token parses, and the instant it denotes,
/// are functions of its characters alone.
#[verifier::external_body]
fn parse_version_token(s: &str) -> (r: Option<i64>)
    ensures
        r == rfc3339_millis(s@),
{
    match chrono::DateTime::parse_from_rfc3339(s) {
        Ok(d) => Some(d.timestamp_millis()),
        Err(_) => None,
    }
}

impl SharedData {
    /// The full request handler behind the reporting endpoint: parse the
    /// optional version token, reject a malformed one without touching any
    /// state, and otherwise submit the report with the parsed version.
    pub fn handle_now_playing(
        &mut self,
        entry: NowPlayingEntry,
        token: Option<&str>,
        catalog: &Vec<Game>,
        now: i64,
    ) -> (r: Result<(Conditional, Vec<MetricsOp>), ApiError>)
        requires
            shared_wf(old(self)@),
            i64::MIN + 5000 <= now,
        ensures
            shared_wf(final(self)@),
            match r {
                Err(e) => {
                    &&& e == ApiError::BadVersionToken
                    &&& token matches Some(t) && rfc3339_millis(t@) is None
                    &&& *final(self) == *old(self)
                },
                Ok((cond, ops)) => {
                    let parsed = match token {
                        Some(t) => rfc3339_millis(t@),
                        None => None,
                    };
                    &&& token matches Some(t) ==> rfc3339_millis(t@) is Some
                    &&& final(self)@ == submit_state(
                        old(self)@,
                        entry@,
                        catalog.deep_view(),
                        now as int,
                    )
                    &&& ops.deep_view() == submit_ops(
                        old(self)@,
                        entry@,
                        catalog.deep_view(),
                        now as int,
                    )
                    &&& conditional_post(
                        final(self)@,
                        parsed.deep_view(),
                        catalog.deep_view(),
                        cond@,
                    )
                },
            },
    {
        let client_version: Option<i64> = match token {
            None => None,
            Some(t) => {
                match parse_version_token(t) {
                    Some(v) => Some(v),
                    None => {
                        return Err(ApiError::BadVersionToken);
                    },
                }
            },
        };
        Ok(self.submit(entry, client_version, catalog, now))
    }
}

/// A first report by an unknown player is an observable change: it advances
/// the version clock.
pub proof fn lemma_first_report_bumps(s: SharedView, entry: EntryView, now: int)
    requires
        shared_wf(s),
        find_idx(s.store, entry.player.id) == -1,
    ensures
        update_model(s, entry, now).1 == true,
        update_model(s, entry, now).0.version == advance_model(s.version, now),
        find_idx(update_model(s, entry, now).0.store, entry.player.id) == s.store.len(),
        update_model(s, entry, now).0.store[s.store.len() as int].entry.games == canon(entry.games),
{
    lemma_find_idx(s.store, entry.player.id);
    let (store2, changed) = report_model(s.store, entry.player, entry.games, now);
    assert(store2 == s.store.push(
        InfoView {
            timestamp: now,
            entry: EntryView { player: entry.player, games: canon(entry.games) },
        },
    ));
    crate::store::lemma_find_idx_first(store2, entry.player.id, s.store.len() as int);
}

/// A repeated report with an order-independent identical game set is not an
/// observable change: the version clock does not advance and the stored
/// game set stays as it is; only the record's timestamp may move forward.
pub proof fn lemma_identical_report_no_bump(s: SharedView, entry: EntryView, now: int)
    requires
        shared_wf(s),
        find_idx(s.store, entry.player.id) >= 0,
        forall|y: Seq<char>|
            s.store[find_idx(s.store, entry.player.id)].entry.games.contains(y)
                <==> entry.games.contains(y),
    ensures
        update_model(s, entry, now).1 == false,
        update_model(s, entry, now).0.version == s.version,
        update_model(s, entry, now).0.store[find_idx(s.store, entry.player.id)].entry.games
            == s.store[find_idx(s.store, entry.player.id)].entry.games,
{
    let i = find_idx(s.store, entry.player.id);
    lemma_find_idx(s.store, entry.player.id);
    let stored = s.store[i].entry.games;
    assert(crate::normalize::sorted_unique(stored));
    crate::normalize::lemma_canon_order_independent(entry.games, stored);
    crate::normalize::lemma_canon_idempotent(stored);
    assert(canon(entry.games) == stored);
}

/// Eviction is complete and counted once: after an eviction pass, no record
/// for an evicted player survives — a subsequent snapshot excludes them —
/// and each evicted player id appears exactly once in the pass's result, so
/// the metrics collaborator receives exactly one expiry notice per evicted
/// player per pass.
pub proof fn lemma_eviction_excludes(s: SharedView, cutoff: int)
    requires
        shared_wf(s),
    ensures
        forall|y: Seq<char>|
            evict_removed(s.store, cutoff).contains(y) ==> find_idx(
                evict_keep(s.store, cutoff),
                y,
            ) == -1,
        forall|i: int, j: int|
            0 <= i < j < evict_removed(s.store, cutoff).len() ==> evict_removed(s.store, cutoff)[i]
                != evict_removed(s.store, cutoff)[j],
{
    lemma_evict_disjoint(s.store, cutoff);
    lemma_evict_removed_unique(s.store, cutoff);
    assert forall|y: Seq<char>| evict_removed(s.store, cutoff).contains(y) implies find_idx(
        evict_keep(s.store, cutoff),
        y,
    ) == -1 by {
        lemma_find_idx(evict_keep(s.store, cutoff), y);
        if find_idx(evict_keep(s.store, cutoff), y) >= 0 {
            let k = find_idx(evict_keep(s.store, cutoff), y);
            assert(evict_keep(s.store, cutoff)[k].entry.player.id == y);
        }
    }
}

/// The state after a whole sequence of reports, each folded in by
/// [`update_model`].
pub open spec fn run_updates(s: SharedView, entries: Seq<EntryView>, times: Seq<int>) -> SharedView
    decreases entries.len(),
{
    if entries.len() == 0 {
        s
    } else {
        run_updates(update_model(s, entries[0], times[0]).0, entries.drop_first(), times.drop_first())
    }
}

/// For any sequence of reports by one player whose game set never changes
/// (up to order and repetition), the version clock never advances: once the
/// player's record carries that game set, every further such report is no
/// observable change. Together with [`lemma_first_report_bumps`] this says
/// the clock advances exactly once, on the first report, and never again
/// for repeated identical reports.
pub proof fn lemma_version_advances_once(
    s: SharedView,
    entries: Seq<EntryView>,
    times: Seq<int>,
    id: Seq<char>,
)
    requires
        shared_wf(s),
        entries.len() == times.len(),
        find_idx(s.store, id) >= 0,
        forall|k: int| 0 <= k < entries.len() ==> (#[trigger] entries[k]).player.id == id,
        forall|k: int, y: Seq<char>|
            0 <= k < entries.len() ==> (#[trigger] entries[k].games.contains(y) <==> s.store[
                find_idx(s.store, id)
            ].entry.games.contains(y)),
    ensures
        run_updates(s, entries, times).version == s.version,
        run_updates(s, entries, times).metrics == s.metrics,
    decreases entries.len(),
{
    if entries.len() > 0 {
        let i = find_idx(s.store, id);
        lemma_find_idx(s.store, id);
        lemma_identical_report_no_bump(s, entries[0], times[0]);
        let s1 = update_model(s, entries[0], times[0]).0;
        let stored = s.store[i].entry.games;
        let ts = if times[0] > s.store[i].timestamp {
            times[0]
        } else {
            s.store[i].timestamp
        };
        assert(s1.store == s.store.update(
            i,
            InfoView {
                timestamp: ts,
                entry: EntryView { player: entries[0].player, games: canon(entries[0].games) },
            },
        ));
        assert(s1.store[i].entry.games == stored);
        assert(s1.store[i].entry.player.id == id);
        assert(s1.version == s.version);
        assert(s1.metrics == s.metrics);
        assert(forall|k: int| 0 <= k < s1.store.len() && k != i ==> s1.store[k] == s.store[k]);
        assert(shared_wf(s1)) by {
            assert forall|p: int, q: int| 0 <= p < q < s1.store.len() implies s1.store[p].entry.player.id != s1.store[q].entry.player.id by {
                if p != i && q != i {
                    assert(s1.store[p] == s.store[p] && s1.store[q] == s.store[q]);
                } else if p == i {
                    assert(s1.store[q] == s.store[q]);
                    assert(s.store[p].entry.player.id == id);
                } else {
                    assert(s1.store[p] == s.store[p]);
                    assert(s.store[q].entry.player.id == id);
                }
            }
            assert forall|p: int| 0 <= p < s1.store.len() implies crate::normalize::sorted_unique(
                (#[trigger] s1.store[p]).entry.games,
            ) by {
                if p != i {
                    assert(s1.store[p] == s.store[p]);
                } else {
                    assert(s1.store[p].entry.games == stored);
                }
            }
        }
        assert(find_idx(s1.store, id) == i) by {
            assert forall|k: int| 0 <= k < i implies s1.store[k].entry.player.id != id by {
                assert(s1.store[k] == s.store[k]);
            }
            crate::store::lemma_find_idx_first(s1.store, id, i);
        }
        let te = entries.drop_first();
        let tt = times.drop_first();
        assert forall|k: int| 0 <= k < te.len() implies (#[trigger] te[k]).player.id == id by {
            assert(te[k] == entries[k + 1]);
        }
        assert forall|k: int, y: Seq<char>| 0 <= k < te.len() implies (#[trigger] te[k].games.contains(y) <==> s1.store[find_idx(s1.store, id)].entry.games.contains(y)) by {
            assert(te[k] == entries[k + 1]);
            assert(entries[k + 1].games.contains(y) <==> stored.contains(y));
        }
        lemma_version_advances_once(s1, te, tt, id);
    }
}


/// The whole of the cost-control story in one statement: starting from a
/// store that does not know the player, a sequence of reports all carrying
/// the same game set (up to order and repetition) advances the version
/// clock exactly once — on the first report — and never again.
pub proof fn lemma_version_advances_exactly_once(
    s: SharedView,
    entries: Seq<EntryView>,
    times: Seq<int>,
    id: Seq<char>,
)
    requires
        shared_wf(s),
        entries.len() == times.len(),
        entries.len() > 0,
        find_idx(s.store, id) == -1,
        forall|k: int| 0 <= k < entries.len() ==> (#[trigger] entries[k]).player.id == id,
        forall|k: int, y: Seq<char>|
            0 <= k < entries.len() ==> (#[trigger] entries[k].games.contains(y)
                <==> entries[0].games.contains(y)),
    ensures
        update_model(s, entries[0], times[0]).1 == true,
        update_model(s, entries[0], times[0]).0.version == advance_model(s.version, times[0]),
        run_updates(update_model(s, entries[0], times[0]).0, entries.drop_first(), times.drop_first()).version
            == update_model(s, entries[0], times[0]).0.version,
{
    lemma_first_report_bumps(s, entries[0], times[0]);
    let s1 = update_model(s, entries[0], times[0]).0;
    let pos = s.store.len() as int;
    assert(s1.store == s.store.push(
        InfoView {
            timestamp: times[0],
            entry: EntryView { player: entries[0].player, games: canon(entries[0].games) },
        },
    ));
    crate::normalize::lemma_canon_props(entries[0].games);
    assert(shared_wf(s1)) by {
        lemma_find_idx(s.store, id);
        assert forall|p: int, q: int| 0 <= p < q < s1.store.len() implies s1.store[p].entry.player.id != s1.store[q].entry.player.id by {
            if q == pos {
                assert(s1.store[p] == s.store[p]);
            } else {
                assert(s1.store[p] == s.store[p] && s1.store[q] == s.store[q]);
            }
        }
        assert forall|p: int| 0 <= p < s1.store.len() implies crate::normalize::sorted_unique(
            (#[trigger] s1.store[p]).entry.games,
        ) by {
            if p < pos {
                assert(s1.store[p] == s.store[p]);
            } else {
                assert(s1.store[p].entry.games == canon(entries[0].games));
            }
        }
    }
    let te = entries.drop_first();
    let tt = times.drop_first();
    assert forall|k: int| 0 <= k < te.len() implies (#[trigger] te[k]).player.id == id by {
        assert(te[k] == entries[k + 1]);
    }
    assert(find_idx(s1.store, id) == pos);
    assert forall|k: int, y: Seq<char>| 0 <= k < te.len() implies (#[trigger] te[k].games.contains(
        y,
    ) <==> s1.store[find_idx(s1.store, id)].entry.games.contains(y)) by {
        assert(te[k] == entries[k + 1]);
        assert(entries[k + 1].games.contains(y) <==> entries[0].games.contains(y));
        assert(s1.store[pos].entry.games == canon(entries[0].games));
        assert(canon(entries[0].games).contains(y) <==> entries[0].games.contains(y));
    }
    lemma_version_advances_once(s1, te, tt, id);
}

} // verus!
