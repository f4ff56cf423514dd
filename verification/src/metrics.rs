//! The play-time ledger behind the metrics collaborator: per player, the
//! games last reported and when, from which each report is turned into a
//! list of plain metric operations — "credit this game this much play time"
//! and "this game is no longer active" — for an exporter to apply.

use vstd::prelude::*;

use crate::types::{Game, GameView, Player, PlayerView};

verus! {

/// How much play time the very first report of a player is credited with,
/// in milliseconds: one poll interval.
pub open spec fn first_credit_millis() -> int {
    5000
}

/// Mathematical model of a [`MetricsOp`].
pub ghost enum OpView {
    Played { player: PlayerView, game: GameView, millis: int },
    Expired { player: PlayerView, game: GameView },
}

/// One instruction to the metrics exporter.
pub enum MetricsOp {
    /// The player has been playing the game for another `millis`
    /// milliseconds; the game counts as active for them.
    Played { player: Player, game: Game, millis: i64 },
    /// The game is no longer active for the player.
    Expired { player: Player, game: Game },
}

impl View for MetricsOp {
    type V = OpView;

    open spec fn view(&self) -> OpView {
        match self {
            MetricsOp::Played { player, game, millis } => OpView::Played {
                player: player@,
                game: game@,
                millis: *millis as int,
            },
            MetricsOp::Expired { player, game } => OpView::Expired {
                player: player@,
                game: game@,
            },
        }
    }
}

impl DeepView for MetricsOp {
    type V = OpView;

    open spec fn deep_view(&self) -> OpView {
        self.view()
    }
}

/// Mathematical model of a [`PlayerMetricsContext`].
pub ghost struct LedgerView {
    pub player: PlayerView,
    pub last_seen: int,
    pub games: Seq<GameView>,
}

/// The ledger line for one player: the games of their latest report and
/// when that report arrived.
pub struct PlayerMetricsContext {
    pub player: Player,
    pub last_seen: i64,
    pub games: Vec<Game>,
}

impl View for PlayerMetricsContext {
    type V = LedgerView;

    open spec fn view(&self) -> LedgerView {
        LedgerView {
            player: self.player@,
            last_seen: self.last_seen as int,
            games: self.games.deep_view(),
        }
    }
}

impl DeepView for PlayerMetricsContext {
    type V = LedgerView;

    open spec fn deep_view(&self) -> LedgerView {
        self.view()
    }
}

/// Index of the ledger line for the given player id, or -1 when absent.
pub open spec fn ledger_find(s: Seq<LedgerView>, id: Seq<char>) -> int
    decreases s.len(),
{
    if s.len() == 0 {
        -1
    } else if s[0].player.id == id {
        0
    } else {
        let r = ledger_find(s.drop_first(), id);
        if r < 0 {
            -1
        } else {
            r + 1
        }
    }
}

/// `ledger_find` finds a line exactly when one exists, and finds the first.
pub proof fn lemma_ledger_find(s: Seq<LedgerView>, id: Seq<char>)
    ensures
        -1 <= ledger_find(s, id) < s.len(),
        ledger_find(s, id) >= 0 ==> s[ledger_find(s, id)].player.id == id,
        forall|k: int| 0 <= k < s.len() && k < ledger_find(s, id) ==> s[k].player.id != id,
        ledger_find(s, id) == -1 ==> forall|k: int| 0 <= k < s.len() ==> s[k].player.id != id,
    decreases s.len(),
{
    if s.len() == 0 {
    } else if s[0].player.id == id {
    } else {
        let t = s.drop_first();
        lemma_ledger_find(t, id);
        assert forall|k: int| 0 <= k < s.len() && k < ledger_find(s, id) implies s[k].player.id
            != id by {
            if k > 0 {
                assert(t[k - 1] == s[k]);
            }
        }
        if ledger_find(s, id) == -1 {
            assert forall|k: int| 0 <= k < s.len() implies s[k].player.id != id by {
                if k > 0 {
                    assert(t[k - 1] == s[k]);
                }
            }
        }
    }
}

/// Ledger lines have pairwise distinct player ids.
pub open spec fn ledger_wf(s: Seq<LedgerView>) -> bool {
    forall|i: int, j: int| 0 <= i < j < s.len() ==> s[i].player.id != s[j].player.id
}

/// Whether a game list carries a game of the given name.
pub open spec fn has_game_name(games: Seq<GameView>, name: Seq<char>) -> bool {
    exists|k: int| 0 <= k < games.len() && games[k].name == name
}

/// Play time credited to one report: `now` minus the previous report time,
/// clamped to the representable non-negative range.
pub open spec fn clamp_delta(now: int, prev: int) -> int {
    if prev >= now {
        0
    } else if now - prev > i64::MAX {
        i64::MAX as int
    } else {
        now - prev
    }
}

/// One `Played` operation per reported game, in report order.
pub open spec fn played_ops(player: PlayerView, games: Seq<GameView>, millis: int) -> Seq<OpView>
    decreases games.len(),
{
    if games.len() == 0 {
        Seq::<OpView>::empty()
    } else {
        played_ops(player, games.drop_last(), millis).push(
            OpView::Played { player, game: games.last(), millis },
        )
    }
}

/// One `Expired` operation per previously tracked game that the new report
/// no longer carries, in tracking order.
pub open spec fn expired_ops(
    player: PlayerView,
    prev_games: Seq<GameView>,
    reported: Seq<GameView>,
) -> Seq<OpView>
    decreases prev_games.len(),
{
    if prev_games.len() == 0 {
        Seq::<OpView>::empty()
    } else {
        let rest = expired_ops(player, prev_games.drop_last(), reported);
        if !has_game_name(reported, prev_games.last().name) {
            rest.push(OpView::Expired { player, game: prev_games.last() })
        } else {
            rest
        }
    }
}

/// What one report does to the ledger: the player's line is created or
/// replaced, every reported game is credited with the time since the
/// player's previous report (one poll interval for a first report), and
/// every game the player stopped reporting expires.
pub open spec fn record_played_model(
    s: Seq<LedgerView>,
    player: PlayerView,
    games: Seq<GameView>,
    now: int,
) -> (Seq<LedgerView>, Seq<OpView>) {
    let i = ledger_find(s, player.id);
    let prev_seen = if i < 0 {
        now - first_credit_millis()
    } else {
        s[i].last_seen
    };
    let prev_games = if i < 0 {
        Seq::<GameView>::empty()
    } else {
        s[i].games
    };
    let ops = played_ops(player, games, clamp_delta(now, prev_seen)) + expired_ops(
        player,
        prev_games,
        games,
    );
    let line = LedgerView { player, last_seen: now, games };
    if i < 0 {
        (s.push(line), ops)
    } else {
        (s.update(i, line), ops)
    }
}

/// The expiry operations for one evicted player: every tracked game expires
/// and the ledger is left unchanged.
pub open spec fn record_expired_model(s: Seq<LedgerView>, id: Seq<char>) -> Seq<OpView> {
    let i = ledger_find(s, id);
    if i < 0 {
        Seq::<OpView>::empty()
    } else {
        expired_ops(s[i].player, s[i].games, Seq::<GameView>::empty())
    }
}

/// The metrics ledger: one line per player that has ever reported.
pub struct MetricsContext {
    pub players: Vec<PlayerMetricsContext>,
}

impl View for MetricsContext {
    type V = Seq<LedgerView>;

    open spec fn view(&self) -> Seq<LedgerView> {
        self.players.deep_view()
    }
}

/// Whether a game list carries a game of the given name.
fn game_list_has_name(games: &Vec<Game>, name: &String) -> (r: bool)
    ensures
        r == has_game_name(games.deep_view(), name@),
{
    let mut i: usize = 0;
    while i < games.len()
        invariant
            i <= games.len(),
            forall|k: int| 0 <= k < i ==> games.deep_view()[k].name != name@,
        decreases games.len() - i,
    {
        if crate::order::str_eq(games[i].name.as_str(), name.as_str()) {
            assert(games.deep_view()[i as int].name == name@);
            return true;
        }
        i = i + 1;
    }
    false
}

impl MetricsContext {
    /// An empty ledger.
    pub fn new() -> (r: MetricsContext)
        ensures
            r@ == Seq::<LedgerView>::empty(),
            ledger_wf(r@),
    {
        let r = MetricsContext { players: Vec::new() };
        proof {
            assert(r@ =~= Seq::<LedgerView>::empty());
        }
        r
    }

    /// Index of the ledger line for the given player id, if any.
    fn find(&self, id: &str) -> (r: Option<usize>)
        ensures
            match r {
                Some(i) => i < self@.len() && i as int == ledger_find(self@, id@),
                None => ledger_find(self@, id@) == -1,
            },
    {
        let mut i: usize = 0;
        while i < self.players.len()
            invariant
                i <= self@.len(),
                self@.len() == self.players.len(),
                forall|k: int| 0 <= k < i ==> self@[k].player.id != id@,
            decreases self@.len() - i,
        {
            if crate::order::str_eq(self.players[i].player.id.as_str(), id) {
                proof {
                    lemma_ledger_find_first(self@, id@, i as int);
                }
                return Some(i);
            }
            i = i + 1;
        }
        proof {
            lemma_ledger_find(self@, id@);
            if ledger_find(self@, id@) >= 0 {
                assert(self@[ledger_find(self@, id@)].player.id == id@);
            }
        }
        None
    }

    /// Turn one report into metric operations and bring the player's ledger
    /// line up to date.
    pub fn record_played_games(&mut self, player: Player, games: Vec<Game>, now: i64) -> (ops: Vec<
        MetricsOp,
    >)
        requires
            ledger_wf(old(self)@),
            i64::MIN + 5000 <= now,
        ensures
            ledger_wf(final(self)@),
            (final(self)@, ops.deep_view()) == record_played_model(
                old(self)@,
                player@,
                games.deep_view(),
                now as int,
            ),
    {
        proof {
            lemma_ledger_find(self@, player.id@);
        }
        let found = self.find(player.id.as_str());
        let (prev_seen, prev_count): (i64, usize) = match found {
            Some(i) => (self.players[i].last_seen, self.players[i].games.len()),
            None => (now - 5000, 0),
        };
        let delta: i64 = if prev_seen >= now {
            0
        } else {
            match now.checked_sub(prev_seen) {
                Some(d) => d,
                None => i64::MAX,
            }
        };
        assert(delta as int == clamp_delta(now as int, prev_seen as int));
        let ghost pre = self@;
        let ghost gdv = games.deep_view();
        let mut ops: Vec<MetricsOp> = Vec::new();
        let mut k: usize = 0;
        while k < games.len()
            invariant
                k <= games.len(),
                gdv == games.deep_view(),
                gdv.len() == games@.len(),
                ops.deep_view() =~= played_ops(player@, gdv.subrange(0, k as int), delta as int),
            decreases games.len() - k,
        {
            let ghost prefix = gdv.subrange(0, k as int);
            let ghost next = gdv.subrange(0, k + 1);
            proof {
                assert(next.drop_last() =~= prefix);
                assert(next.last() == gdv[k as int]);
            }
            let ghost w0 = ops@;
            let ghost dv0 = ops.deep_view();
            let op = MetricsOp::Played {
                player: player.clone(),
                game: games[k].clone(),
                millis: delta,
            };
            let ghost ov = op@;
            ops.push(op);
            proof {
                assert(ops.deep_view() =~= dv0.push(ov)) by {
                    assert forall|m: int| 0 <= m < ops@.len() implies ops.deep_view()[m]
                        == dv0.push(ov)[m] by {
                        if m < w0.len() {
                            assert(ops@[m] == w0.push(ops@[w0.len() as int])[m]);
                            assert(ops@[m] == w0[m]);
                        }
                    }
                }
                assert(ops.deep_view() =~= played_ops(player@, next, delta as int));
            }
            k = k + 1;
        }
        proof {
            assert(gdv.subrange(0, games@.len() as int) =~= gdv);
        }
        // Expire the games the player stopped reporting.
        match found {
            Some(i) => {
                let ghost pgdv = self@[i as int].games;
                let mut m: usize = 0;
                while m < prev_count
                    invariant
                        m <= prev_count,
                        i < self.players.len(),
                        self@ == pre,
                        self@.len() == self.players.len(),
                        pgdv == self@[i as int].games,
                        prev_count == self.players[i as int].games.len(),
                        pgdv.len() == prev_count,
                        gdv == games.deep_view(),
                        ops.deep_view() =~= played_ops(player@, gdv, delta as int) + expired_ops(
                            player@,
                            pgdv.subrange(0, m as int),
                            gdv,
                        ),
                    decreases prev_count - m,
                {
                    let ghost prefix = pgdv.subrange(0, m as int);
                    let ghost next = pgdv.subrange(0, m + 1);
                    proof {
                        assert(next.drop_last() =~= prefix);
                        assert(next.last() == pgdv[m as int]);
                    }
                    if !game_list_has_name(&games, &self.players[i].games[m].name) {
                        let ghost w0 = ops@;
                        let ghost dv0 = ops.deep_view();
                        let op = MetricsOp::Expired {
                            player: player.clone(),
                            game: self.players[i].games[m].clone(),
                        };
                        let ghost ov = op@;
                        ops.push(op);
                        proof {
                            assert(ops.deep_view() =~= dv0.push(ov)) by {
                                assert forall|q: int| 0 <= q < ops@.len() implies ops.deep_view()[q]
                                    == dv0.push(ov)[q] by {
                                    if q < w0.len() {
                                        assert(ops@[q] == w0.push(ops@[w0.len() as int])[q]);
                                        assert(ops@[q] == w0[q]);
                                    }
                                }
                            }
                            assert(ov == OpView::Expired {
                                player: player@,
                                game: pgdv[m as int],
                            });
                            assert(ops.deep_view() =~= played_ops(player@, gdv, delta as int)
                                + expired_ops(player@, next, gdv));
                        }
                    } else {
                        proof {
                            assert(ops.deep_view() =~= played_ops(player@, gdv, delta as int)
                                + expired_ops(player@, next, gdv));
                        }
                    }
                    m = m + 1;
                }
                proof {
                    assert(pgdv.subrange(0, pgdv.len() as int) =~= pgdv);
                }
                let line = PlayerMetricsContext { player, last_seen: now, games };
                let slot = &mut self.players[i];
                *slot = line;
                proof {
                    let (ms, mo) = record_played_model(pre, player@, gdv, now as int);
                    assert(self@ =~= ms);
                    assert(ops.deep_view() =~= mo);
                    assert forall|p: int, q: int| 0 <= p < q < self@.len() implies self@[p].player.id != self@[q].player.id by {
                        if p != i && q != i {
                            assert(self@[p] == pre[p] && self@[q] == pre[q]);
                        } else if p == i as int {
                            assert(self@[q] == pre[q]);
                            assert(pre[p].player.id == player@.id);
                        } else {
                            assert(self@[p] == pre[p]);
                            assert(pre[q].player.id == player@.id);
                        }
                    }
                }
                ops
            },
            None => {
                let line = PlayerMetricsContext { player, last_seen: now, games };
                let ghost lv = line@;
                self.players.push(line);
                proof {
                    assert(self@ =~= pre.push(lv)) by {
                        assert forall|q: int| 0 <= q < self.players@.len() implies self@[q]
                            == pre.push(lv)[q] by {
                            if q < pre.len() {
                                assert(self.players@[q] == old(self).players@[q]);
                            }
                        }
                    }
                    let (ms, mo) = record_played_model(pre, player@, gdv, now as int);
                    assert(self@ =~= ms);
                    assert(expired_ops(player@, Seq::<GameView>::empty(), gdv) =~= Seq::<
                        OpView,
                    >::empty());
                    assert(ops.deep_view() =~= mo);
                    assert forall|p: int, q: int| 0 <= p < q < self@.len() implies self@[p].player.id != self@[q].player.id by {
                        if q == pre.len() {
                            assert(self@[p] == pre[p]);
                            lemma_ledger_find(pre, player@.id);
                        } else {
                            assert(self@[p] == pre[p] && self@[q] == pre[q]);
                        }
                    }
                }
                ops
            },
        }
    }

    /// Expiry operations for a player evicted from the presence store: every
    /// game still tracked for them is reported inactive. The ledger itself
    /// is left unchanged.
    pub fn record_expired_player(&self, player: &str) -> (ops: Vec<MetricsOp>)
        ensures
            ops.deep_view() == record_expired_model(self@, player@),
    {
        let found = self.find(player);
        match found {
            None => {
                let ops: Vec<MetricsOp> = Vec::new();
                proof {
                    assert(ops.deep_view() =~= record_expired_model(self@, player@));
                }
                ops
            },
            Some(i) => {
                let ghost pgdv = self@[i as int].games;
                let count = self.players[i].games.len();
                let mut ops: Vec<MetricsOp> = Vec::new();
                let mut m: usize = 0;
                while m < count
                    invariant
                        m <= count,
                        i < self.players.len(),
                        self@.len() == self.players.len(),
                        pgdv == self@[i as int].games,
                        count == self.players[i as int].games.len(),
                        pgdv.len() == count,
                        ops.deep_view() =~= expired_ops(
                            self@[i as int].player,
                            pgdv.subrange(0, m as int),
                            Seq::<GameView>::empty(),
                        ),
                    decreases count - m,
                {
                    let ghost prefix = pgdv.subrange(0, m as int);
                    let ghost next = pgdv.subrange(0, m + 1);
                    proof {
                        assert(next.drop_last() =~= prefix);
                        assert(next.last() == pgdv[m as int]);
                    }
                    let ghost w0 = ops@;
                    let ghost dv0 = ops.deep_view();
                    let op = MetricsOp::Expired {
                        player: self.players[i].player.clone(),
                        game: self.players[i].games[m].clone(),
                    };
                    let ghost ov = op@;
                    ops.push(op);
                    proof {
                        assert(ops.deep_view() =~= dv0.push(ov)) by {
                            assert forall|q: int| 0 <= q < ops@.len() implies ops.deep_view()[q]
                                == dv0.push(ov)[q] by {
                                if q < w0.len() {
                                    assert(ops@[q] == w0.push(ops@[w0.len() as int])[q]);
                                    assert(ops@[q] == w0[q]);
                                }
                            }
                        }
                        assert(ops.deep_view() =~= expired_ops(
                            self@[i as int].player,
                            next,
                            Seq::<GameView>::empty(),
                        ));
                    }
                    m = m + 1;
                }
                proof {
                    assert(pgdv.subrange(0, pgdv.len() as int) =~= pgdv);
                    assert(ops.deep_view() =~= record_expired_model(self@, player@));
                }
                ops
            },
        }
    }
}

/// `ledger_find` returns exactly the scan position where the id first
/// occurs.
proof fn lemma_ledger_find_first(s: Seq<LedgerView>, id: Seq<char>, i: int)
    requires
        0 <= i < s.len(),
        s[i].player.id == id,
        forall|k: int| 0 <= k < i ==> s[k].player.id != id,
    ensures
        ledger_find(s, id) == i,
    decreases s.len(),
{
    if i == 0 {
    } else {
        let t = s.drop_first();
        assert(forall|k: int| 0 <= k < i - 1 ==> t[k] == s[k + 1]);
        lemma_ledger_find_first(t, id, i - 1);
    }
}

} // verus!
