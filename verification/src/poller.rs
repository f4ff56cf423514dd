//! The desktop-side poll cycle, as pure logic: intersect the local process
//! list with the game catalog, fold the server's conditional answer into
//! the local cache, sort the aggregate for presentation, and run the
//! notification state machine — everything around the actual process
//! enumeration and network call, which the surrounding process performs.

use vstd::prelude::*;

use crate::metrics::has_game_name;
use crate::notify::{step_model, NoteView, NotificationContext};
use crate::order::{lemma_lex_le_total, lemma_lex_le_transitive, lex_le, str_le};
use crate::types::{Game, GameView, NowPlayingResponse, PartyPlayingEntry, PartyView, ResponseView};

verus! {

/// The locally open game set: the process names the catalog knows, each
/// name once, in first-seen order.
pub open spec fn open_games_model(
    processes: Seq<Seq<char>>,
    catalog: Seq<GameView>,
) -> Seq<Seq<char>>
    decreases processes.len(),
{
    if processes.len() == 0 {
        Seq::<Seq<char>>::empty()
    } else {
        let rest = open_games_model(processes.drop_last(), catalog);
        let x = processes.last();
        if has_game_name(catalog, x) && !rest.contains(x) {
            rest.push(x)
        } else {
            rest
        }
    }
}

/// The open game set holds exactly the process names the catalog knows,
/// without duplicates.
pub proof fn lemma_open_games_props(processes: Seq<Seq<char>>, catalog: Seq<GameView>)
    ensures
        forall|y: Seq<char>|
            #![trigger open_games_model(processes, catalog).contains(y)]
            open_games_model(processes, catalog).contains(y) <==> (processes.contains(y)
                && has_game_name(catalog, y)),
        forall|i: int, j: int|
            0 <= i < j < open_games_model(processes, catalog).len() ==> open_games_model(
                processes,
                catalog,
            )[i] != open_games_model(processes, catalog)[j],
    decreases processes.len(),
{
    if processes.len() > 0 {
        let d = processes.drop_last();
        lemma_open_games_props(d, catalog);
        let rest = open_games_model(d, catalog);
        let r = open_games_model(processes, catalog);
        let x = processes.last();
        assert forall|y: Seq<char>|
            #![trigger r.contains(y)]
            r.contains(y) <==> (processes.contains(y) && has_game_name(catalog, y)) by {
            if r.contains(y) {
                let k = choose|k: int| 0 <= k < r.len() && r[k] == y;
                if k < rest.len() {
                    assert(rest[k] == y);
                    assert(rest.contains(y));
                    assert(d.contains(y));
                    let m = choose|m: int| 0 <= m < d.len() && d[m] == y;
                    assert(processes[m] == y);
                } else {
                    assert(y == x);
                    assert(processes[processes.len() - 1] == y);
                }
                assert(processes.contains(y));
            }
            if processes.contains(y) && has_game_name(catalog, y) {
                let m = choose|m: int| 0 <= m < processes.len() && processes[m] == y;
                if m < d.len() {
                    assert(d[m] == y);
                    assert(d.contains(y));
                    assert(rest.contains(y));
                    let k = choose|k: int| 0 <= k < rest.len() && rest[k] == y;
                    assert(r[k] == y);
                } else {
                    assert(y == x);
                    if rest.contains(y) {
                        let k = choose|k: int| 0 <= k < rest.len() && rest[k] == y;
                        assert(r[k] == y);
                    } else {
                        assert(r[r.len() - 1] == y);
                    }
                }
                assert(r.contains(y));
            }
        }
        assert forall|i: int, j: int| 0 <= i < j < r.len() implies r[i] != r[j] by {
            if j < rest.len() {
                assert(r[i] == rest[i] && r[j] == rest[j]);
            } else if j == rest.len() && r.len() > rest.len() {
                assert(r[i] == rest[i]);
                assert(rest.contains(rest[i]));
            }
        }
    }
}

/// Games open on this machine: the process names that are catalog games,
/// each name once, in first-seen order.
pub fn filter_open_games(processes: &Vec<String>, catalog: &Vec<Game>) -> (r: Vec<String>)
    ensures
        r.deep_view() == open_games_model(processes.deep_view(), catalog.deep_view()),
{
    let pdv = Ghost(processes.deep_view());
    let mut r: Vec<String> = Vec::new();
    let mut i: usize = 0;
    while i < processes.len()
        invariant
            i <= processes.len(),
            pdv@ == processes.deep_view(),
            pdv@.len() == processes@.len(),
            r.deep_view() =~= open_games_model(pdv@.subrange(0, i as int), catalog.deep_view()),
        decreases processes.len() - i,
    {
        let ghost prefix = pdv@.subrange(0, i as int);
        let ghost next = pdv@.subrange(0, i + 1);
        proof {
            assert(next.drop_last() =~= prefix);
            assert(next.last() == pdv@[i as int]);
        }
        let in_catalog = catalog_has_name(catalog, processes[i].as_str());
        let already = crate::aggregate::contains_name(&r, processes[i].as_str());
        if in_catalog && !already {
            let ghost w0 = r@;
            let ghost dv0 = r.deep_view();
            let x = processes[i].clone();
            let ghost xv = x@;
            r.push(x);
            proof {
                assert(r.deep_view() =~= dv0.push(xv)) by {
                    assert forall|k: int| 0 <= k < r@.len() implies r.deep_view()[k] == dv0.push(
                        xv,
                    )[k] by {
                        if k < w0.len() {
                            assert(r@[k] == w0.push(r@[w0.len() as int])[k]);
                            assert(r@[k] == w0[k]);
                        }
                    }
                }
                assert(r.deep_view() =~= open_games_model(next, catalog.deep_view()));
            }
        } else {
            proof {
                assert(r.deep_view() =~= open_games_model(next, catalog.deep_view()));
            }
        }
        i = i + 1;
    }
    proof {
        assert(pdv@.subrange(0, processes@.len() as int) =~= pdv@);
    }
    r
}

/// Whether the catalog knows a game of the given name.
fn catalog_has_name(catalog: &Vec<Game>, name: &str) -> (r: bool)
    ensures
        r == has_game_name(catalog.deep_view(), name@),
{
    let mut i: usize = 0;
    while i < catalog.len()
        invariant
            i <= catalog.len(),
            forall|k: int| 0 <= k < i ==> catalog.deep_view()[k].name != name@,
        decreases catalog.len() - i,
    {
        if crate::order::str_eq(catalog[i].name.as_str(), name) {
            assert(catalog.deep_view()[i as int].name == name@);
            return true;
        }
        i = i + 1;
    }
    proof {
        if has_game_name(catalog.deep_view(), name@) {
            let k = choose|k: int|
                0 <= k < catalog.deep_view().len() && catalog.deep_view()[k].name == name@;
        }
    }
    false
}

/// Presentation order of party lines: more players first, ties broken by
/// label.
pub open spec fn rank_le(a: PartyView, b: PartyView) -> bool {
    ||| a.players.len() > b.players.len()
    ||| (a.players.len() == b.players.len() && lex_le(a.game.label, b.game.label))
}

/// A party list in presentation order.
pub open spec fn sorted_by_rank(s: Seq<PartyView>) -> bool {
    forall|i: int, j: int| 0 <= i < j < s.len() ==> rank_le(s[i], s[j])
}

/// `rank_le` is total.
pub proof fn lemma_rank_le_total(a: PartyView, b: PartyView)
    ensures
        rank_le(a, b) || rank_le(b, a),
{
    if a.players.len() == b.players.len() {
        lemma_lex_le_total(a.game.label, b.game.label);
    }
}

/// `rank_le` is transitive.
pub proof fn lemma_rank_le_transitive(a: PartyView, b: PartyView, c: PartyView)
    requires
        rank_le(a, b),
        rank_le(b, c),
    ensures
        rank_le(a, c),
{
    if a.players.len() == b.players.len() && b.players.len() == c.players.len() {
        lemma_lex_le_transitive(a.game.label, b.game.label, c.game.label);
    }
}

/// Inserting anywhere adds one occurrence to the multiset of a sequence.
proof fn lemma_insert_to_multiset<A>(s: Seq<A>, pos: int, x: A)
    requires
        0 <= pos <= s.len(),
    ensures
        s.insert(pos, x).to_multiset() =~= s.to_multiset().insert(x),
{
    broadcast use vstd::seq_lib::group_to_multiset_ensures;

    let big = s.insert(pos, x);
    s.insert_ensures(pos, x);
    assert(big.remove(pos) =~= s) by {
        big.remove_ensures(pos);
        assert forall|k: int| 0 <= k < big.remove(pos).len() implies big.remove(pos)[k]
            == s[k] by {
            if k < pos {
                assert(big.remove(pos)[k] == big[k]);
            } else {
                assert(big.remove(pos)[k] == big[k + 1]);
            }
        }
    }
    assert(big[pos] == x);
    assert(big.remove(pos).to_multiset() =~= big.to_multiset().remove(x));
    assert(big.contains(x)) by {
        assert(big[pos] == x);
    }
    assert(big.to_multiset().count(x) > 0);
    assert forall|y: A| big.to_multiset().count(y) == s.to_multiset().insert(x).count(y) by {
        assert(s.to_multiset().count(y) == big.to_multiset().remove(x).count(y));
    }
}

/// Insert one party line into a list kept in presentation order.
#[verifier::rlimit(30)]
fn insert_by_rank(v: &mut Vec<PartyPlayingEntry>, x: PartyPlayingEntry)
    requires
        sorted_by_rank(old(v).deep_view()),
    ensures
        sorted_by_rank(final(v).deep_view()),
        final(v).deep_view().to_multiset() == old(v).deep_view().to_multiset().insert(x@),
{
    broadcast use vstd::seq_lib::group_to_multiset_ensures;

    let ghost dv0 = v.deep_view();
    let ghost xv = x@;
    let mut idx: usize = 0;
    while idx < v.len()
        invariant
            sorted_by_rank(v.deep_view()),
            v.deep_view() == dv0,
            dv0 == old(v).deep_view(),
            xv == x@,
            idx <= v.len(),
            forall|k: int| 0 <= k < idx ==> !rank_le(xv, dv0[k]),
        decreases v.len() - idx,
    {
        if rank_le_exec(&x, &v[idx]) {
            let ghost pos = idx as int;
            let ghost w0 = v@;
            v.insert(idx, x);
            proof {
                w0.insert_ensures(pos, v@[pos]);
                dv0.insert_ensures(pos, xv);
                assert(v.deep_view() =~= dv0.insert(pos, xv)) by {
                    assert forall|k: int| 0 <= k < v@.len() implies v.deep_view()[k] == dv0.insert(
                        pos,
                        xv,
                    )[k] by {
                        if k < pos {
                            assert(v@[k] == w0[k]);
                        } else if k == pos {
                        } else {
                            assert(v@[k] == w0[k - 1]);
                        }
                    }
                }
                let dv = v.deep_view();
                assert forall|i: int, j: int| 0 <= i < j < dv.len() implies rank_le(
                    dv[i],
                    dv[j],
                ) by {
                    if j < pos {
                        assert(dv[i] == dv0[i] && dv[j] == dv0[j]);
                    } else if i < pos && j == pos {
                        assert(dv[i] == dv0[i] && dv[j] == xv);
                        lemma_rank_le_total(xv, dv0[i]);
                    } else if i < pos && j > pos {
                        assert(dv[i] == dv0[i] && dv[j] == dv0[j - 1]);
                        if i == j - 1 {
                            lemma_rank_le_total(xv, dv0[i]);
                            assert(rank_le(dv0[i], xv));
                            lemma_rank_le_transitive(dv0[i], xv, dv0[pos]);
                            assert(rank_le(dv0[i], dv0[pos]));
                            if pos == j - 1 {
                            } else {
                                assert(rank_le(dv0[pos], dv0[j - 1]));
                            }
                        }
                    } else if i == pos {
                        assert(dv[i] == xv && dv[j] == dv0[j - 1]);
                        assert(rank_le(xv, dv0[pos]));
                        if j - 1 == pos {
                        } else {
                            assert(rank_le(dv0[pos], dv0[j - 1]));
                            lemma_rank_le_transitive(xv, dv0[pos], dv0[j - 1]);
                        }
                    } else {
                        assert(dv[i] == dv0[i - 1] && dv[j] == dv0[j - 1]);
                    }
                }
                lemma_insert_to_multiset(dv0, pos, xv);
            }
            return ;
        }
        idx = idx + 1;
    }
    let ghost w0 = v@;
    let ghost pos = v.len() as int;
    v.push(x);
    proof {
        assert(v@ == w0.push(v@[pos]));
        assert(v.deep_view() =~= dv0.push(xv)) by {
            assert forall|k: int| 0 <= k < v@.len() implies v.deep_view()[k] == dv0.push(
                xv,
            )[k] by {
                if k < pos {
                    assert(v@[k] == w0.push(v@[pos])[k]);
                    assert(v@[k] == w0[k]);
                } else {
                    assert(v@[k] == w0.push(v@[pos])[k]);
                }
            }
        }
        let dv = v.deep_view();
        assert forall|i: int, j: int| 0 <= i < j < dv.len() implies rank_le(dv[i], dv[j]) by {
            if j == pos {
                assert(dv[i] == dv0[i] && dv[j] == xv);
                lemma_rank_le_total(xv, dv0[i]);
            } else {
                assert(dv[i] == dv0[i] && dv[j] == dv0[j]);
            }
        }
        assert(dv0.push(xv).to_multiset() =~= dv0.to_multiset().insert(xv));
    }
}

/// Executable presentation-order comparison.
fn rank_le_exec(a: &PartyPlayingEntry, b: &PartyPlayingEntry) -> (r: bool)
    ensures
        r == rank_le(a@, b@),
{
    if a.players.len() != b.players.len() {
        a.players.len() > b.players.len()
    } else {
        str_le(a.game.label.as_str(), b.game.label.as_str())
    }
}

/// Sort the party list for presentation: descending player count, ties by
/// ascending label. The lines themselves are exactly the ones given.
pub fn sort_aggregate(active: &mut Vec<PartyPlayingEntry>)
    ensures
        sorted_by_rank(final(active).deep_view()),
        final(active).deep_view().to_multiset() == old(active).deep_view().to_multiset(),
{
    broadcast use vstd::seq_lib::group_to_multiset_ensures;
    broadcast use vstd::multiset::group_multiset_axioms;

    let ghost total = active.deep_view().to_multiset();
    let mut result: Vec<PartyPlayingEntry> = Vec::new();
    proof {
        assert(result.deep_view() =~= Seq::<PartyView>::empty());
        result.deep_view().to_multiset_ensures();
        assert(result.deep_view().to_multiset().add(active.deep_view().to_multiset())
            =~= total) by {
            assert forall|y: PartyView| result.deep_view().to_multiset().count(y) == 0 by {
                if result.deep_view().to_multiset().count(y) > 0 {
                    assert(result.deep_view().contains(y));
                }
            }
        }
    }
    while active.len() > 0
        invariant
            sorted_by_rank(result.deep_view()),
            result.deep_view().to_multiset().add(active.deep_view().to_multiset()) == total,
        decreases active.len(),
    {
        let ghost adv0 = active.deep_view();
        let ghost rdv0 = result.deep_view();
        let ghost w0 = active@;
        let x = active.pop().unwrap();
        proof {
            assert(active@ =~= w0.drop_last());
            assert(x == w0.last());
            assert(active.deep_view() =~= adv0.drop_last()) by {
                assert forall|k: int| 0 <= k < active@.len() implies active.deep_view()[k]
                    == adv0.drop_last()[k] by {
                    assert(active@[k] == w0[k]);
                }
            }
            assert(adv0 =~= active.deep_view().push(x@));
            active.deep_view().to_multiset_ensures();
            assert(active.deep_view().push(x@).to_multiset() =~= active.deep_view().to_multiset().insert(x@));
            assert(adv0.to_multiset() =~= active.deep_view().to_multiset().insert(x@));
        }
        insert_by_rank(&mut result, x);
        proof {
            assert(result.deep_view().to_multiset() =~= rdv0.to_multiset().insert(x@));
            assert(result.deep_view().to_multiset().add(active.deep_view().to_multiset())
                =~= total) by {
                assert forall|y: PartyView| result.deep_view().to_multiset().add(
                    active.deep_view().to_multiset(),
                ).count(y) == total.count(y) by {
                    assert(total.count(y) == rdv0.to_multiset().count(y) + adv0.to_multiset().count(
                        y,
                    ));
                }
            }
        }
    }
    proof {
        assert(active.deep_view() =~= Seq::<PartyView>::empty());
        active.deep_view().to_multiset_ensures();
        assert(result.deep_view().to_multiset() =~= total) by {
            assert forall|y: PartyView| result.deep_view().to_multiset().count(y) == total.count(
                y,
            ) by {
                assert(active.deep_view().to_multiset().count(y) == 0) by {
                    if active.deep_view().to_multiset().count(y) > 0 {
                        assert(active.deep_view().contains(y));
                    }
                }
                assert(total.count(y) == result.deep_view().to_multiset().count(y)
                    + active.deep_view().to_multiset().count(y));
            }
        }
    }
    *active = result;
}

/// Mathematical model of a [`ProcessContext`].
pub ghost struct ProcessView {
    pub last_response: Option<ResponseView>,
    pub last_put: int,
    pub notification_ctx: Option<NoteView>,
}

/// The poll task's state between cycles: the last aggregate the server
/// sent, the version time of that answer (handed back as the conditional
/// token), and the notification tracking state.
pub struct ProcessContext {
    pub last_response: Option<NowPlayingResponse>,
    pub last_put: i64,
    pub notification_ctx: Option<NotificationContext>,
}

impl View for ProcessContext {
    type V = ProcessView;

    open spec fn view(&self) -> ProcessView {
        ProcessView {
            last_response: self.last_response.deep_view(),
            last_put: self.last_put as int,
            notification_ctx: self.notification_ctx.deep_view(),
        }
    }
}

impl ProcessContext {
    /// Fresh poll state: nothing cached, no tracking, and a token old
    /// enough that the first poll always gets a full answer.
    pub fn new(last_put: i64) -> (r: ProcessContext)
        ensures
            r@.last_response is None,
            r@.last_put == last_put as int,
            r@.notification_ctx is None,
    {
        ProcessContext { last_response: None, last_put, notification_ctx: None }
    }
}

/// The aggregate the cycle works with: a fresh answer replaces the cache,
/// "not modified" keeps it.
pub open spec fn cached_after(
    pre: ProcessView,
    response: Option<ResponseView>,
) -> Option<ResponseView> {
    match response {
        Some(r) => Some(r),
        None => pre.last_response,
    }
}

/// What one full poll cycle hands onward.
pub struct PollOutcome {
    /// The aggregate to show, sorted for presentation — or nothing, on a
    /// cold start with no cached answer.
    pub view: Option<NowPlayingResponse>,
    /// The game to notify the local player about, if this cycle fires.
    pub notify: Option<Game>,
}

/// One poll cycle after the network call: fold the server's answer into
/// the cache, sort the current aggregate for presentation, and run the
/// notification state machine on it. A "not modified" answer (`None`)
/// leaves cache and token untouched; with nothing cached at all the cycle
/// shows nothing and leaves the tracking state alone.
pub fn poll_step(
    ctx: &mut ProcessContext,
    open_games: &Vec<String>,
    response: Option<NowPlayingResponse>,
    now: i64,
) -> (r: PollOutcome)
    ensures
        final(ctx)@.last_response == cached_after(old(ctx)@, response.deep_view()),
        final(ctx)@.last_put == match response {
            Some(_) => now as int,
            None => old(ctx)@.last_put,
        },
        match (cached_after(old(ctx)@, response.deep_view()), r.view) {
            (None, None) => r.notify is None && final(ctx)@.notification_ctx == old(
                ctx,
            )@.notification_ctx,
            (Some(c), Some(v)) => {
                &&& v@.online == c.online
                &&& v@.active.to_multiset() == c.active.to_multiset()
                &&& sorted_by_rank(v@.active)
                &&& final(ctx)@.notification_ctx == step_model(
                    old(ctx)@.notification_ctx,
                    v@,
                    open_games.deep_view(),
                ).0
                &&& match r.notify {
                    Some(g) => step_model(
                        old(ctx)@.notification_ctx,
                        v@,
                        open_games.deep_view(),
                    ).1 == Some(g@),
                    None => step_model(
                        old(ctx)@.notification_ctx,
                        v@,
                        open_games.deep_view(),
                    ).1 is None,
                }
            },
            _ => false,
        },
{
    match response {
        Some(resp) => {
            ctx.last_response = Some(resp);
            ctx.last_put = now;
        },
        None => {},
    }
    let cloned: Option<NowPlayingResponse> = match &ctx.last_response {
        None => None,
        Some(c) => Some(c.clone()),
    };
    match cloned {
        None => PollOutcome { view: None, notify: None },
        Some(mut sorted) => {
            sort_aggregate(&mut sorted.active);
            let fire = crate::notify::notification_step(
                &mut ctx.notification_ctx,
                &sorted,
                open_games,
            );
            PollOutcome { view: Some(sorted), notify: fire }
        },
    }
}

/// How the client reads the server's answer to a report.
#[derive(Debug, PartialEq, Eq, Structural)]
pub enum StatusClass {
    /// A fresh aggregate follows.
    Success,
    /// The cached aggregate is still current; no payload.
    NotModified,
    /// The bearer token was rejected.
    Unauthorized,
    /// The request was malformed — a bad version token.
    BadRequest,
    /// Anything else: an unexpected failure.
    Other,
}

/// Mathematical model of [`classify_status`].
pub open spec fn classify_model(code: u16) -> StatusClass {
    if code == 200 {
        StatusClass::Success
    } else if code == 304 {
        StatusClass::NotModified
    } else if code == 401 {
        StatusClass::Unauthorized
    } else if code == 400 {
        StatusClass::BadRequest
    } else {
        StatusClass::Other
    }
}

/// Sort the server's numeric answer into the cases the poll cycle acts on.
pub fn classify_status(code: u16) -> (r: StatusClass)
    ensures
        r == classify_model(code),
{
    if code == 200 {
        StatusClass::Success
    } else if code == 304 {
        StatusClass::NotModified
    } else if code == 401 {
        StatusClass::Unauthorized
    } else if code == 400 {
        StatusClass::BadRequest
    } else {
        StatusClass::Other
    }
}

} // verus!
