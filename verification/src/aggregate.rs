//! Aggregation: from a snapshot of the presence store to the party view —
//! for every catalog game with at least one player, the list of players
//! reporting it, plus the total online count.

use vstd::prelude::*;

use crate::order::str_eq;
use crate::store::{InfoView, NowPlayingInfo};
use crate::types::{Game, GameView, NowPlayingResponse, PartyPlayingEntry, PartyView, Player, PlayerView, ResponseView};

verus! {

/// Catalog lookup: the first catalog game carrying the given name.
pub open spec fn spec_find_game(catalog: Seq<GameView>, name: Seq<char>) -> Option<GameView>
    decreases catalog.len(),
{
    if catalog.len() == 0 {
        None
    } else if catalog[0].name == name {
        Some(catalog[0])
    } else {
        spec_find_game(catalog.drop_first(), name)
    }
}

/// Find a game by exact name in the catalog; the first match wins.
pub fn get_game<'a>(games: &'a Vec<Game>, name: &str) -> (r: Option<&'a Game>)
    ensures
        match r {
            Some(g) => spec_find_game(games.deep_view(), name@) == Some(g@),
            None => spec_find_game(games.deep_view(), name@) is None,
        },
{
    let mut i: usize = 0;
    proof {
        assert(games.deep_view().skip(0) =~= games.deep_view());
    }
    while i < games.len()
        invariant
            i <= games.len(),
            spec_find_game(games.deep_view(), name@) == spec_find_game(
                games.deep_view().skip(i as int),
                name@,
            ),
        decreases games.len() - i,
    {
        proof {
            assert(games.deep_view().skip(i as int)[0] == games.deep_view()[i as int]);
            assert(games.deep_view().skip(i as int).drop_first() =~= games.deep_view().skip(i + 1));
        }
        if str_eq(games[i].name.as_str(), name) {
            return Some(&games[i]);
        }
        i = i + 1;
    }
    proof {
        assert(games.deep_view().skip(games.len() as int).len() == 0);
    }
    None
}

/// The players reporting the given game name, in snapshot order.
pub open spec fn players_of(snapshot: Seq<InfoView>, name: Seq<char>) -> Seq<PlayerView>
    decreases snapshot.len(),
{
    if snapshot.len() == 0 {
        Seq::<PlayerView>::empty()
    } else {
        let rest = players_of(snapshot.drop_last(), name);
        if snapshot.last().entry.games.contains(name) {
            rest.push(snapshot.last().entry.player)
        } else {
            rest
        }
    }
}

/// The catalog games that at least one player is reporting, in catalog
/// order.
pub open spec fn active_games(snapshot: Seq<InfoView>, catalog: Seq<GameView>) -> Seq<GameView>
    decreases catalog.len(),
{
    if catalog.len() == 0 {
        Seq::<GameView>::empty()
    } else {
        let rest = active_games(snapshot, catalog.drop_last());
        if players_of(snapshot, catalog.last().name).len() > 0 {
            rest.push(catalog.last())
        } else {
            rest
        }
    }
}

/// The party list matches the snapshot: one line per active catalog game,
/// carrying exactly the players reporting it.
pub open spec fn parties_match(
    snapshot: Seq<InfoView>,
    catalog: Seq<GameView>,
    active: Seq<PartyView>,
) -> bool {
    &&& active.len() == active_games(snapshot, catalog).len()
    &&& forall|k: int|
        0 <= k < active.len() ==> (#[trigger] active[k]).game == active_games(snapshot, catalog)[k]
            && active[k].players == players_of(snapshot, active_games(snapshot, catalog)[k].name)
}

/// Full functional description of aggregation.
pub open spec fn aggregate_post(
    snapshot: Seq<InfoView>,
    catalog: Seq<GameView>,
    r: ResponseView,
) -> bool {
    &&& r.online == snapshot.len()
    &&& parties_match(snapshot, catalog, r.active)
}

/// Whether a name list carries the given name.
pub fn contains_name(names: &Vec<String>, name: &str) -> (r: bool)
    ensures
        r == names.deep_view().contains(name@),
{
    let mut i: usize = 0;
    while i < names.len()
        invariant
            i <= names.len(),
            forall|k: int| 0 <= k < i ==> names.deep_view()[k] != name@,
        decreases names.len() - i,
    {
        if str_eq(names[i].as_str(), name) {
            assert(names.deep_view()[i as int] == name@);
            assert(names.deep_view().contains(name@));
            return true;
        }
        i = i + 1;
    }
    proof {
        if names.deep_view().contains(name@) {
            let k = choose|k: int|
                0 <= k < names.deep_view().len() && names.deep_view()[k] == name@;
        }
    }
    false
}

/// The players reporting the given game, copied out of the snapshot.
fn collect_players(snapshot: &Vec<NowPlayingInfo>, name: &str) -> (r: Vec<Player>)
    ensures
        r.deep_view() == players_of(snapshot.deep_view(), name@),
{
    let sdv = Ghost(snapshot.deep_view());
    let mut r: Vec<Player> = Vec::new();
    let mut j: usize = 0;
    while j < snapshot.len()
        invariant
            j <= snapshot.len(),
            sdv@ == snapshot.deep_view(),
            sdv@.len() == snapshot@.len(),
            r.deep_view() =~= players_of(sdv@.subrange(0, j as int), name@),
        decreases snapshot.len() - j,
    {
        let ghost prefix = sdv@.subrange(0, j as int);
        let ghost next = sdv@.subrange(0, j + 1);
        proof {
            assert(next.drop_last() =~= prefix);
            assert(next.last() == sdv@[j as int]);
        }
        if contains_name(&snapshot[j].entry.games, name) {
            let ghost w0 = r@;
            let ghost dv0 = r.deep_view();
            let p = snapshot[j].entry.player.clone();
            let ghost pv = p@;
            r.push(p);
            proof {
                assert(r.deep_view() =~= dv0.push(pv)) by {
                    assert forall|k: int| 0 <= k < r@.len() implies r.deep_view()[k] == dv0.push(
                        pv,
                    )[k] by {
                        if k < w0.len() {
                            assert(r@[k] == w0.push(r@[w0.len() as int])[k]);
                            assert(r@[k] == w0[k]);
                        }
                    }
                }
                assert(pv == sdv@[j as int].entry.player);
                assert(r.deep_view() =~= players_of(next, name@));
            }
        } else {
            proof {
                assert(r.deep_view() =~= players_of(next, name@));
            }
        }
        j = j + 1;
    }
    proof {
        assert(sdv@.subrange(0, snapshot@.len() as int) =~= sdv@);
    }
    r
}

/// Aggregate a snapshot into the party view: for each catalog game, in
/// catalog order, the players reporting it; games nobody reports produce no
/// line. `online` counts every snapshot record, including players reporting
/// no games at all.
pub fn get_list(snapshot: &Vec<NowPlayingInfo>, catalog: &Vec<Game>) -> (r: NowPlayingResponse)
    ensures
        aggregate_post(snapshot.deep_view(), catalog.deep_view(), r@),
{
    let sdv = Ghost(snapshot.deep_view());
    let cdv = Ghost(catalog.deep_view());
    let mut active: Vec<PartyPlayingEntry> = Vec::new();
    let mut k: usize = 0;
    while k < catalog.len()
        invariant
            k <= catalog.len(),
            sdv@ == snapshot.deep_view(),
            cdv@ == catalog.deep_view(),
            cdv@.len() == catalog@.len(),
            parties_match(sdv@, cdv@.subrange(0, k as int), active.deep_view()),
        decreases catalog.len() - k,
    {
        let ghost prefix = cdv@.subrange(0, k as int);
        let ghost next = cdv@.subrange(0, k + 1);
        proof {
            assert(next.drop_last() =~= prefix);
            assert(next.last() == cdv@[k as int]);
        }
        let players = collect_players(snapshot, catalog[k].name.as_str());
        if players.len() > 0 {
            let ghost w0 = active@;
            let ghost dv0 = active.deep_view();
            let entry = PartyPlayingEntry { game: catalog[k].clone(), players };
            let ghost ev = entry@;
            active.push(entry);
            proof {
                assert(active.deep_view() =~= dv0.push(ev)) by {
                    assert forall|m: int| 0 <= m < active@.len() implies active.deep_view()[m]
                        == dv0.push(ev)[m] by {
                        if m < w0.len() {
                            assert(active@[m] == w0.push(active@[w0.len() as int])[m]);
                            assert(active@[m] == w0[m]);
                        }
                    }
                }
                assert(ev.game == cdv@[k as int]);
                assert(ev.players == players_of(sdv@, cdv@[k as int].name));
                assert(active_games(sdv@, next) == active_games(sdv@, prefix).push(
                    cdv@[k as int],
                ));
                assert forall|m: int| 0 <= m < active.deep_view().len() implies (
                #[trigger] active.deep_view()[m]).game == active_games(sdv@, next)[m]
                    && active.deep_view()[m].players == players_of(
                    sdv@,
                    active_games(sdv@, next)[m].name,
                ) by {
                    if m < dv0.len() {
                        assert(active.deep_view()[m] == dv0[m]);
                        assert(active_games(sdv@, next)[m] == active_games(sdv@, prefix)[m]);
                    }
                }
            }
        } else {
            proof {
                assert(active_games(sdv@, next) == active_games(sdv@, prefix));
                assert(parties_match(sdv@, next, active.deep_view()));
            }
        }
        k = k + 1;
    }
    proof {
        assert(cdv@.subrange(0, catalog@.len() as int) =~= cdv@);
    }
    NowPlayingResponse { active, online: snapshot.len() }
}

/// The catalog games behind a list of names, unknown names skipped, in name
/// order.
pub open spec fn resolve_model(names: Seq<Seq<char>>, catalog: Seq<GameView>) -> Seq<GameView>
    decreases names.len(),
{
    if names.len() == 0 {
        Seq::<GameView>::empty()
    } else {
        let rest = resolve_model(names.drop_last(), catalog);
        match spec_find_game(catalog, names.last()) {
            Some(g) => rest.push(g),
            None => rest,
        }
    }
}

/// Resolve reported game names against the catalog, skipping names the
/// catalog does not know.
pub fn resolve_games(names: &Vec<String>, catalog: &Vec<Game>) -> (r: Vec<Game>)
    ensures
        r.deep_view() == resolve_model(names.deep_view(), catalog.deep_view()),
{
    let ndv = Ghost(names.deep_view());
    let mut r: Vec<Game> = Vec::new();
    let mut i: usize = 0;
    while i < names.len()
        invariant
            i <= names.len(),
            ndv@ == names.deep_view(),
            ndv@.len() == names@.len(),
            r.deep_view() =~= resolve_model(ndv@.subrange(0, i as int), catalog.deep_view()),
        decreases names.len() - i,
    {
        let ghost prefix = ndv@.subrange(0, i as int);
        let ghost next = ndv@.subrange(0, i + 1);
        proof {
            assert(next.drop_last() =~= prefix);
            assert(next.last() == ndv@[i as int]);
        }
        match get_game(catalog, names[i].as_str()) {
            Some(g) => {
                let ghost w0 = r@;
                let ghost dv0 = r.deep_view();
                let c = g.clone();
                let ghost cv = c@;
                r.push(c);
                proof {
                    assert(r.deep_view() =~= dv0.push(cv)) by {
                        assert forall|k: int| 0 <= k < r@.len() implies r.deep_view()[k]
                            == dv0.push(cv)[k] by {
                            if k < w0.len() {
                                assert(r@[k] == w0.push(r@[w0.len() as int])[k]);
                                assert(r@[k] == w0[k]);
                            }
                        }
                    }
                    assert(r.deep_view() =~= resolve_model(next, catalog.deep_view()));
                }
            },
            None => {
                proof {
                    assert(r.deep_view() =~= resolve_model(next, catalog.deep_view()));
                }
            },
        }
        i = i + 1;
    }
    proof {
        assert(ndv@.subrange(0, names@.len() as int) =~= ndv@);
    }
    r
}

/// Aggregation is a pure function of the snapshot: any two party views that
/// both match the same snapshot and catalog are equal — line for line, with
/// the same game and the same players.
pub proof fn lemma_aggregate_deterministic(
    snapshot: Seq<InfoView>,
    catalog: Seq<GameView>,
    r1: ResponseView,
    r2: ResponseView,
)
    requires
        aggregate_post(snapshot, catalog, r1),
        aggregate_post(snapshot, catalog, r2),
    ensures
        r1 == r2,
{
    assert forall|k: int| 0 <= k < r1.active.len() implies r1.active[k] == r2.active[k] by {
        assert(r1.active[k].game == active_games(snapshot, catalog)[k]);
        assert(r2.active[k].game == active_games(snapshot, catalog)[k]);
    }
    assert(r1.active =~= r2.active);
}

} // verus!
