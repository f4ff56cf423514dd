//! The authoritative presence store: one entry per reporting player, holding
//! the normalized set of games from the player's latest report and the time
//! of that report, together with the version clock that summarizes the last
//! observable change.

use vstd::prelude::*;

use crate::normalize::{canon, normalize_games, sorted_unique};
use crate::order::str_eq;
use crate::types::{EntryView, NowPlayingEntry, Player, PlayerView};

verus! {

/// Mathematical model of a [`NowPlayingInfo`].
pub ghost struct InfoView {
    pub timestamp: int,
    pub entry: EntryView,
}

/// One stored presence record: a player's latest report and when it arrived.
pub struct NowPlayingInfo {
    pub timestamp: i64,
    pub entry: NowPlayingEntry,
}

impl View for NowPlayingInfo {
    type V = InfoView;

    open spec fn view(&self) -> InfoView {
        InfoView { timestamp: self.timestamp as int, entry: self.entry@ }
    }
}

impl DeepView for NowPlayingInfo {
    type V = InfoView;

    open spec fn deep_view(&self) -> InfoView {
        self.view()
    }
}

impl Clone for NowPlayingInfo {
    fn clone(&self) -> (r: Self)
        ensures
            r@ == self@,
            r.timestamp == self.timestamp,
    {
        NowPlayingInfo { timestamp: self.timestamp, entry: self.entry.clone() }
    }
}

/// Index of the first record for the given player id, or -1 when absent.
pub open spec fn find_idx(s: Seq<InfoView>, id: Seq<char>) -> int
    decreases s.len(),
{
    if s.len() == 0 {
        -1
    } else if s[0].entry.player.id == id {
        0
    } else {
        let r = find_idx(s.drop_first(), id);
        if r < 0 {
            -1
        } else {
            r + 1
        }
    }
}

/// `find_idx` finds a record exactly when one exists, and finds the first.
pub proof fn lemma_find_idx(s: Seq<InfoView>, id: Seq<char>)
    ensures
        -1 <= find_idx(s, id) < s.len(),
        find_idx(s, id) >= 0 ==> s[find_idx(s, id)].entry.player.id == id,
        forall|k: int| 0 <= k < s.len() && k < find_idx(s, id) ==> s[k].entry.player.id != id,
        find_idx(s, id) == -1 ==> forall|k: int|
            0 <= k < s.len() ==> s[k].entry.player.id != id,
    decreases s.len(),
{
    if s.len() == 0 {
    } else if s[0].entry.player.id == id {
    } else {
        let t = s.drop_first();
        lemma_find_idx(t, id);
        assert forall|k: int| 0 <= k < s.len() && k < find_idx(s, id) implies s[k].entry.player.id
            != id by {
            if k > 0 {
                assert(t[k - 1] == s[k]);
            }
        }
        if find_idx(s, id) == -1 {
            assert forall|k: int| 0 <= k < s.len() implies s[k].entry.player.id != id by {
                if k > 0 {
                    assert(t[k - 1] == s[k]);
                }
            }
        }
    }
}

/// Player ids are pairwise distinct: at most one record per player.
pub open spec fn ids_unique(s: Seq<InfoView>) -> bool {
    forall|i: int, j: int|
        0 <= i < j < s.len() ==> s[i].entry.player.id != s[j].entry.player.id
}

/// Every stored game list is in normal form.
pub open spec fn games_normal(s: Seq<InfoView>) -> bool {
    forall|i: int| 0 <= i < s.len() ==> sorted_unique(#[trigger] s[i].entry.games)
}

/// Well-formedness of the store contents.
pub open spec fn store_wf(s: Seq<InfoView>) -> bool {
    ids_unique(s) && games_normal(s)
}

/// What one report does to the store contents: insert a fresh record, or
/// replace the player's record in place. The boolean says whether the
/// observable aggregate changed: a new player, or a different normalized
/// game set. A repeated identical report only refreshes the timestamp.
pub open spec fn report_model(
    s: Seq<InfoView>,
    player: PlayerView,
    games: Seq<Seq<char>>,
    now: int,
) -> (Seq<InfoView>, bool) {
    let g = canon(games);
    let i = find_idx(s, player.id);
    if i < 0 {
        (s.push(InfoView { timestamp: now, entry: EntryView { player, games: g } }), true)
    } else {
        let ts = if now > s[i].timestamp {
            now
        } else {
            s[i].timestamp
        };
        (
            s.update(i, InfoView { timestamp: ts, entry: EntryView { player, games: g } }),
            s[i].entry.games != g,
        )
    }
}

/// Records that survive an eviction pass with the given cutoff.
pub open spec fn evict_keep(s: Seq<InfoView>, cutoff: int) -> Seq<InfoView>
    decreases s.len(),
{
    if s.len() == 0 {
        Seq::<InfoView>::empty()
    } else {
        let rest = evict_keep(s.drop_last(), cutoff);
        if s.last().timestamp >= cutoff {
            rest.push(s.last())
        } else {
            rest
        }
    }
}

/// Player ids removed by an eviction pass with the given cutoff.
pub open spec fn evict_removed(s: Seq<InfoView>, cutoff: int) -> Seq<Seq<char>>
    decreases s.len(),
{
    if s.len() == 0 {
        Seq::<Seq<char>>::empty()
    } else {
        let rest = evict_removed(s.drop_last(), cutoff);
        if s.last().timestamp < cutoff {
            rest.push(s.last().entry.player.id)
        } else {
            rest
        }
    }
}

/// Every record kept by eviction is a record of the input.
pub proof fn lemma_evict_keep_contains(s: Seq<InfoView>, cutoff: int)
    ensures
        forall|x: InfoView| evict_keep(s, cutoff).contains(x) ==> s.contains(x) && x.timestamp
            >= cutoff,
    decreases s.len(),
{
    if s.len() > 0 {
        let d = s.drop_last();
        lemma_evict_keep_contains(d, cutoff);
        assert forall|x: InfoView| evict_keep(s, cutoff).contains(x) implies s.contains(x)
            && x.timestamp >= cutoff by {
            let r = evict_keep(s, cutoff);
            let rest = evict_keep(d, cutoff);
            let k = choose|k: int| 0 <= k < r.len() && r[k] == x;
            if s.last().timestamp >= cutoff && k == rest.len() {
                assert(x == s.last());
                assert(s[s.len() - 1] == x);
            } else {
                assert(rest[k] == x);
                assert(rest.contains(x));
                assert(d.contains(x));
                let m = choose|m: int| 0 <= m < d.len() && d[m] == x;
                assert(s[m] == x);
            }
        }
    }
}

/// Every id removed by eviction belonged to a stale record of the input.
pub proof fn lemma_evict_removed_contains(s: Seq<InfoView>, cutoff: int)
    ensures
        forall|y: Seq<char>| evict_removed(s, cutoff).contains(y) ==> exists|k: int|
            0 <= k < s.len() && s[k].entry.player.id == y && s[k].timestamp < cutoff,
    decreases s.len(),
{
    if s.len() > 0 {
        let d = s.drop_last();
        lemma_evict_removed_contains(d, cutoff);
        assert forall|y: Seq<char>| evict_removed(s, cutoff).contains(y) implies exists|k: int|
            0 <= k < s.len() && s[k].entry.player.id == y && s[k].timestamp < cutoff by {
            let r = evict_removed(s, cutoff);
            let rest = evict_removed(d, cutoff);
            let k = choose|k: int| 0 <= k < r.len() && r[k] == y;
            if s.last().timestamp < cutoff && k == rest.len() {
                assert(s[s.len() - 1].entry.player.id == y && s[s.len() - 1].timestamp < cutoff);
            } else {
                assert(rest[k] == y);
                assert(rest.contains(y));
                let m = choose|m: int|
                    0 <= m < d.len() && d[m].entry.player.id == y && d[m].timestamp < cutoff;
                assert(s[m] == d[m]);
            }
        }
    }
}

/// Eviction keeps the store well formed.
pub proof fn lemma_evict_keep_wf(s: Seq<InfoView>, cutoff: int)
    requires
        store_wf(s),
    ensures
        store_wf(evict_keep(s, cutoff)),
    decreases s.len(),
{
    if s.len() > 0 {
        let d = s.drop_last();
        assert(store_wf(d)) by {
            assert forall|i: int| 0 <= i < d.len() implies sorted_unique(
                #[trigger] d[i].entry.games,
            ) by {
                assert(d[i] == s[i]);
            }
        }
        lemma_evict_keep_wf(d, cutoff);
        lemma_evict_keep_contains(d, cutoff);
        let rest = evict_keep(d, cutoff);
        if s.last().timestamp >= cutoff {
            let r = rest.push(s.last());
            assert forall|i: int, j: int| 0 <= i < j < r.len() implies r[i].entry.player.id
                != r[j].entry.player.id by {
                if j == rest.len() {
                    assert(r[i] == rest[i]);
                    assert(rest.contains(rest[i]));
                    assert(d.contains(rest[i]));
                    let m = choose|m: int| 0 <= m < d.len() && d[m] == rest[i];
                    assert(s[m] == d[m]);
                    assert(s[m].entry.player.id != s[s.len() - 1].entry.player.id);
                } else {
                    assert(r[i] == rest[i] && r[j] == rest[j]);
                }
            }
            assert forall|i: int| 0 <= i < r.len() implies sorted_unique(
                #[trigger] r[i].entry.games,
            ) by {
                if i == rest.len() {
                    assert(r[i] == s[s.len() - 1]);
                } else {
                    assert(r[i] == rest[i]);
                }
            }
        }
    }
}

/// No surviving record carries an evicted id: eviction removes a player
/// entirely or not at all.
pub proof fn lemma_evict_disjoint(s: Seq<InfoView>, cutoff: int)
    requires
        store_wf(s),
    ensures
        forall|y: Seq<char>| evict_removed(s, cutoff).contains(y) ==> !exists|k: int|
            0 <= k < evict_keep(s, cutoff).len() && evict_keep(s, cutoff)[k].entry.player.id == y,
{
    lemma_evict_keep_contains(s, cutoff);
    lemma_evict_removed_contains(s, cutoff);
    assert forall|y: Seq<char>| evict_removed(s, cutoff).contains(y) implies !exists|k: int|
        0 <= k < evict_keep(s, cutoff).len() && evict_keep(s, cutoff)[k].entry.player.id == y by {
        let m = choose|m: int|
            0 <= m < s.len() && s[m].entry.player.id == y && s[m].timestamp < cutoff;
        if exists|k: int|
            0 <= k < evict_keep(s, cutoff).len() && evict_keep(s, cutoff)[k].entry.player.id == y {
            let k = choose|k: int|
                0 <= k < evict_keep(s, cutoff).len() && evict_keep(s, cutoff)[k].entry.player.id
                    == y;
            let x = evict_keep(s, cutoff)[k];
            assert(evict_keep(s, cutoff).contains(x));
            assert(s.contains(x) && x.timestamp >= cutoff);
            let n = choose|n: int| 0 <= n < s.len() && s[n] == x;
            assert(n != m);
        }
    }
}

/// Evicted ids are pairwise distinct: one expiry per player per pass.
pub proof fn lemma_evict_removed_unique(s: Seq<InfoView>, cutoff: int)
    requires
        store_wf(s),
    ensures
        forall|i: int, j: int|
            0 <= i < j < evict_removed(s, cutoff).len() ==> evict_removed(s, cutoff)[i]
                != evict_removed(s, cutoff)[j],
    decreases s.len(),
{
    if s.len() > 0 {
        let d = s.drop_last();
        assert(store_wf(d)) by {
            assert forall|i: int| 0 <= i < d.len() implies sorted_unique(
                #[trigger] d[i].entry.games,
            ) by {
                assert(d[i] == s[i]);
            }
        }
        lemma_evict_removed_unique(d, cutoff);
        lemma_evict_removed_contains(d, cutoff);
        let rest = evict_removed(d, cutoff);
        let r = evict_removed(s, cutoff);
        if s.last().timestamp < cutoff {
            assert forall|i: int, j: int| 0 <= i < j < r.len() implies r[i] != r[j] by {
                if j == rest.len() {
                    assert(r[i] == rest[i]);
                    assert(rest.contains(rest[i]));
                    let m = choose|m: int|
                        0 <= m < d.len() && d[m].entry.player.id == rest[i] && d[m].timestamp
                            < cutoff;
                    assert(s[m] == d[m]);
                    assert(s[m].entry.player.id != s[s.len() - 1].entry.player.id);
                } else {
                    assert(r[i] == rest[i] && r[j] == rest[j]);
                }
            }
        }
    }
}

/// The in-memory presence store.
pub struct PresenceStore {
    pub entries: Vec<NowPlayingInfo>,
}

impl View for PresenceStore {
    type V = Seq<InfoView>;

    open spec fn view(&self) -> Seq<InfoView> {
        self.entries.deep_view()
    }
}

impl PresenceStore {
    /// An empty store.
    pub fn new() -> (r: PresenceStore)
        ensures
            r@ == Seq::<InfoView>::empty(),
            store_wf(r@),
    {
        let r = PresenceStore { entries: Vec::new() };
        proof {
            assert(r@ =~= Seq::<InfoView>::empty());
        }
        r
    }

    /// Index of the record for the given player id, if any.
    fn find(&self, id: &str) -> (r: Option<usize>)
        ensures
            match r {
                Some(i) => i < self@.len() && i as int == find_idx(self@, id@),
                None => find_idx(self@, id@) == -1,
            },
    {
        proof {
            lemma_find_idx(self@, id@);
        }
        let mut i: usize = 0;
        while i < self.entries.len()
            invariant
                i <= self@.len(),
                self@.len() == self.entries.len(),
                forall|k: int| 0 <= k < i ==> self@[k].entry.player.id != id@,
            decreases self@.len() - i,
        {
            if str_eq(self.entries[i].entry.player.id.as_str(), id) {
                proof {
                    lemma_find_idx_first(self@, id@, i as int);
                }
                return Some(i);
            }
            i = i + 1;
        }
        proof {
            if find_idx(self@, id@) >= 0 {
                lemma_find_idx(self@, id@);
            }
        }
        None
    }

    /// Record one report: normalize the game list, then insert or replace
    /// the player's record. Returns whether the observable aggregate
    /// changed; a repeated identical report only refreshes the timestamp
    /// and reports no change.
    pub fn report(&mut self, player: Player, games: &Vec<String>, now: i64) -> (changed: bool)
        requires
            store_wf(old(self)@),
        ensures
            store_wf(final(self)@),
            (final(self)@, changed) == report_model(
                old(self)@,
                player@,
                games.deep_view(),
                now as int,
            ),
    {
        let norm = normalize_games(games);
        let found = self.find(player.id.as_str());
        proof {
            lemma_find_idx(self@, player.id@);
        }
        match found {
            None => {
                let info = NowPlayingInfo {
                    timestamp: now,
                    entry: NowPlayingEntry { player, games: norm },
                };
                let ghost pre = self@;
                self.entries.push(info);
                proof {
                    assert(self@ =~= pre.push(info@));
                    let (m, c) = report_model(pre, player@, games.deep_view(), now as int);
                    assert(self@ =~= m);
                    lemma_find_idx(pre, player@.id);
                    assert forall|i: int, j: int| 0 <= i < j < self@.len() implies self@[i].entry.player.id != self@[j].entry.player.id by {
                        if j == pre.len() {
                            assert(self@[i] == pre[i]);
                        } else {
                            assert(self@[i] == pre[i] && self@[j] == pre[j]);
                        }
                    }
                    assert forall|i: int| 0 <= i < self@.len() implies sorted_unique(
                        #[trigger] self@[i].entry.games,
                    ) by {
                        if i < pre.len() {
                            assert(self@[i] == pre[i]);
                        } else {
                            assert(self@[i].entry.games == canon(games.deep_view()));
                        }
                    }
                }
                true
            },
            Some(i) => {
                let ghost pre = self@;
                let changed = !names_equal(&self.entries[i].entry.games, &norm);
                let ts = if now > self.entries[i].timestamp {
                    now
                } else {
                    self.entries[i].timestamp
                };
                let info = NowPlayingInfo {
                    timestamp: ts,
                    entry: NowPlayingEntry { player, games: norm },
                };
                let slot = &mut self.entries[i];
                *slot = info;
                proof {
                    assert(self@ =~= pre.update(i as int, self@[i as int]));
                    let (m, c) = report_model(pre, player@, games.deep_view(), now as int);
                    assert(self@ =~= m);
                    assert(changed == c);
                    assert forall|p: int, q: int| 0 <= p < q < self@.len() implies self@[p].entry.player.id != self@[q].entry.player.id by {
                        if p != i && q != i {
                            assert(self@[p] == pre[p] && self@[q] == pre[q]);
                        } else if p == i as int {
                            assert(self@[q] == pre[q]);
                            assert(pre[p].entry.player.id == player@.id);
                        } else {
                            assert(self@[p] == pre[p]);
                            assert(pre[q].entry.player.id == player@.id);
                        }
                    }
                    assert forall|p: int| 0 <= p < self@.len() implies sorted_unique(
                        #[trigger] self@[p].entry.games,
                    ) by {
                        if p != i {
                            assert(self@[p] == pre[p]);
                        } else {
                            assert(self@[p].entry.games == canon(games.deep_view()));
                        }
                    }
                }
                changed
            },
        }
    }

    /// A point-in-time copy of the store contents, so aggregation can run
    /// without further access to the store.
    pub fn snapshot(&self) -> (r: Vec<NowPlayingInfo>)
        ensures
            r.deep_view() == self@,
    {
        let mut r: Vec<NowPlayingInfo> = Vec::new();
        let mut i: usize = 0;
        while i < self.entries.len()
            invariant
                i <= self.entries.len(),
                self@.len() == self.entries.len(),
                r.deep_view() =~= self@.subrange(0, i as int),
            decreases self.entries.len() - i,
        {
            let ghost w0 = r@;
            let ghost dv0 = r.deep_view();
            let c = self.entries[i].clone();
            let ghost cv = c@;
            r.push(c);
            proof {
                assert(r.deep_view() =~= dv0.push(cv)) by {
                    assert forall|k: int| 0 <= k < r@.len() implies r.deep_view()[k] == dv0.push(
                        cv,
                    )[k] by {
                        if k < w0.len() {
                            assert(r@[k] == w0.push(r@[w0.len() as int])[k]);
                            assert(r@[k] == w0[k]);
                        }
                    }
                }
                assert(cv == self@[i as int]);
                assert(r.deep_view() =~= self@.subrange(0, i + 1));
            }
            i = i + 1;
        }
        proof {
            assert(r.deep_view() =~= self@);
        }
        r
    }

    /// Remove every record whose report time lies strictly before
    /// `now - threshold`, returning the removed player ids. Each evicted
    /// player appears exactly once, and no surviving record carries an
    /// evicted id.
    pub fn evict_older_than(&mut self, now: i64, threshold: i64) -> (removed: Vec<String>)
        requires
            store_wf(old(self)@),
            0 <= threshold,
            i64::MIN + threshold <= now,
        ensures
            store_wf(final(self)@),
            final(self)@ == evict_keep(old(self)@, now - threshold),
            removed.deep_view() == evict_removed(old(self)@, now - threshold),
    {
        let cutoff: i64 = now - threshold;
        let ghost pre = self@;
        let mut kept: Vec<NowPlayingInfo> = Vec::new();
        let mut removed: Vec<String> = Vec::new();
        let mut i: usize = 0;
        while i < self.entries.len()
            invariant
                i <= self.entries.len(),
                self@ == pre,
                self@.len() == self.entries.len(),
                cutoff == now - threshold,
                kept.deep_view() =~= evict_keep(pre.subrange(0, i as int), cutoff as int),
                removed.deep_view() =~= evict_removed(pre.subrange(0, i as int), cutoff as int),
            decreases self.entries.len() - i,
        {
            let ghost prefix = pre.subrange(0, i as int);
            let ghost next = pre.subrange(0, i + 1);
            proof {
                assert(next.drop_last() =~= prefix);
                assert(next.last() == pre[i as int]);
            }
            if self.entries[i].timestamp >= cutoff {
                kept.push(self.entries[i].clone());
                proof {
                    assert(kept.deep_view() =~= evict_keep(next, cutoff as int));
                    assert(removed.deep_view() =~= evict_removed(next, cutoff as int));
                }
            } else {
                removed.push(self.entries[i].entry.player.id.clone());
                proof {
                    assert(kept.deep_view() =~= evict_keep(next, cutoff as int));
                    assert(removed.deep_view() =~= evict_removed(next, cutoff as int));
                }
            }
            i = i + 1;
        }
        proof {
            assert(pre.subrange(0, pre.len() as int) =~= pre);
            lemma_evict_keep_wf(pre, cutoff as int);
        }
        self.entries = kept;
        removed
    }
}

/// `find_idx` returns exactly the scan position where the id first occurs.
pub proof fn lemma_find_idx_first(s: Seq<InfoView>, id: Seq<char>, i: int)
    requires
        0 <= i < s.len(),
        s[i].entry.player.id == id,
        forall|k: int| 0 <= k < i ==> s[k].entry.player.id != id,
    ensures
        find_idx(s, id) == i,
    decreases s.len(),
{
    if i == 0 {
    } else {
        let t = s.drop_first();
        assert(forall|k: int| 0 <= k < i - 1 ==> t[k] == s[k + 1]);
        lemma_find_idx_first(t, id, i - 1);
    }
}

/// Element-wise equality of two name lists, at the level of their models.
fn names_equal(a: &Vec<String>, b: &Vec<String>) -> (r: bool)
    ensures
        r == (a.deep_view() == b.deep_view()),
{
    if a.len() != b.len() {
        assert(a.deep_view().len() != b.deep_view().len());
        return false;
    }
    let mut i: usize = 0;
    while i < a.len()
        invariant
            a.len() == b.len(),
            i <= a.len(),
            forall|k: int| 0 <= k < i ==> a.deep_view()[k] == b.deep_view()[k],
        decreases a.len() - i,
    {
        if !(a[i] == b[i]) {
            assert(a.deep_view()[i as int] != b.deep_view()[i as int]);
            return false;
        }
        i = i + 1;
    }
    proof {
        assert(a.deep_view() =~= b.deep_view());
    }
    true
}

/// Mathematical model of the [`VersionClock`].
pub open spec fn advance_model(v: int, now: int) -> int {
    if now > v {
        now
    } else {
        v
    }
}

/// The shared version token: the time of the last observable change to the
/// aggregate view. It only ever moves forward.
pub struct VersionClock {
    pub value: i64,
}

impl View for VersionClock {
    type V = int;

    open spec fn view(&self) -> int {
        self.value as int
    }
}

impl VersionClock {
    /// A clock reading the given initial time.
    pub fn new(now: i64) -> (r: VersionClock)
        ensures
            r@ == now as int,
    {
        VersionClock { value: now }
    }

    /// Move the clock forward to `now`. A stale `now` leaves the clock
    /// unchanged, so the clock is monotonically non-decreasing.
    pub fn advance(&mut self, now: i64)
        ensures
            final(self)@ == advance_model(old(self)@, now as int),
            final(self)@ >= old(self)@,
            final(self)@ >= now as int,
    {
        if now > self.value {
            self.value = now;
        }
    }
}

} // verus!
