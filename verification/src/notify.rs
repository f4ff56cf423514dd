//! The client-side notification state machine: watching successive
//! aggregate views, it decides — with a grace period of hysteresis — when
//! to tell the local player that the majority is playing a game they are
//! not in, and it fires at most once per continuous majority-game session.

use vstd::prelude::*;

use crate::types::{Game, GameView, NowPlayingResponse, PartyView, ResponseView};

verus! {

/// How many consecutive cycles a majority condition must persist before a
/// notification may fire.
pub const GRACE_PERIOD: u16 = 4;

/// Mathematical model of a [`NotificationContext`].
pub ghost struct NoteView {
    pub active_game: GameView,
    pub missed: int,
    pub notified: bool,
}

/// Tracking state for one candidate majority game: which game, how many
/// cycles the condition has held, and whether the notification for this
/// session has already fired.
pub struct NotificationContext {
    pub active_game: Game,
    pub missed: u16,
    pub notified: bool,
}

impl View for NotificationContext {
    type V = NoteView;

    open spec fn view(&self) -> NoteView {
        NoteView {
            active_game: self.active_game@,
            missed: self.missed as int,
            notified: self.notified,
        }
    }
}

impl DeepView for NotificationContext {
    type V = NoteView;

    open spec fn deep_view(&self) -> NoteView {
        self.view()
    }
}

impl NotificationContext {
    /// Start tracking a majority game: one cycle seen, nothing fired.
    pub fn new(game: &Game) -> (r: NotificationContext)
        ensures
            r@ == (NoteView { active_game: game@, missed: 1, notified: false }),
    {
        NotificationContext { active_game: game.clone(), missed: 1, notified: false }
    }

    /// The majority game changed: restart the grace period for the new one.
    pub fn switch_game(&mut self, game: &Game)
        ensures
            final(self)@ == (NoteView { active_game: game@, missed: 1, notified: false }),
    {
        self.active_game = game.clone();
        self.missed = 1;
        self.notified = false;
    }

    /// One more cycle of the majority condition.
    pub fn inc(&mut self)
        requires
            old(self).missed < u16::MAX,
        ensures
            final(self)@ == (NoteView {
                active_game: old(self)@.active_game,
                missed: old(self)@.missed + 1,
                notified: old(self)@.notified,
            }),
    {
        self.missed = self.missed + 1;
    }

    /// The notification for this session has fired.
    pub fn notify(&mut self)
        ensures
            final(self)@ == (NoteView {
                active_game: old(self)@.active_game,
                missed: old(self)@.missed,
                notified: true,
            }),
    {
        self.notified = true;
    }
}

/// The majority game of a sorted aggregate: its top line, provided that
/// line holds at least half the online players (majority or tie under
/// integer division). Without that, there is no majority.
pub open spec fn majority_game(r: ResponseView) -> Option<PartyView> {
    if r.active.len() == 0 {
        None
    } else if r.active[0].players.len() >= r.online / 2 {
        Some(r.active[0])
    } else {
        None
    }
}

/// One cycle of the notification state machine. Inputs: the current sorted
/// aggregate, and the names of the games open on this machine. Output: the
/// new state and the game to notify about, if this cycle fires.
///
/// No majority, or a majority the local player is part of, leaves the
/// state untouched and fires nothing. A new majority game starts (or, on a
/// game change, restarts) tracking with one missed cycle and no
/// notification. While the same majority persists, each cycle counts up to
/// the grace period; the cycle on which the count reaches it fires the one
/// notification of the session, and afterwards the session stays silent.
pub open spec fn step_model(
    state: Option<NoteView>,
    resp: ResponseView,
    open_games: Seq<Seq<char>>,
) -> (Option<NoteView>, Option<GameView>) {
    match majority_game(resp) {
        None => (state, None),
        Some(top) => {
            if open_games.contains(top.game.name) {
                (state, None)
            } else {
                match state {
                    None => (
                        Some(NoteView { active_game: top.game, missed: 1, notified: false }),
                        None,
                    ),
                    Some(c) => {
                        if c.active_game.name != top.game.name {
                            (
                                Some(
                                    NoteView { active_game: top.game, missed: 1, notified: false },
                                ),
                                None,
                            )
                        } else if c.notified {
                            (state, None)
                        } else {
                            let missed2 = if c.missed < GRACE_PERIOD {
                                c.missed + 1
                            } else {
                                c.missed
                            };
                            if missed2 >= GRACE_PERIOD {
                                (
                                    Some(
                                        NoteView {
                                            active_game: c.active_game,
                                            missed: missed2,
                                            notified: true,
                                        },
                                    ),
                                    Some(top.game),
                                )
                            } else {
                                (
                                    Some(
                                        NoteView {
                                            active_game: c.active_game,
                                            missed: missed2,
                                            notified: false,
                                        },
                                    ),
                                    None,
                                )
                            }
                        }
                    },
                }
            }
        },
    }
}

/// Run one cycle of the notification state machine against the current
/// sorted aggregate and the locally open games.
pub fn notification_step(
    state: &mut Option<NotificationContext>,
    resp: &NowPlayingResponse,
    open_games: &Vec<String>,
) -> (fire: Option<Game>)
    ensures
        final(state).deep_view() == step_model(
            old(state).deep_view(),
            resp@,
            open_games.deep_view(),
        ).0,
        match fire {
            Some(g) => step_model(old(state).deep_view(), resp@, open_games.deep_view()).1
                == Some(g@),
            None => step_model(old(state).deep_view(), resp@, open_games.deep_view()).1 is None,
        },
{
    if resp.active.len() == 0 {
        return None;
    }
    let top_players = resp.active[0].players.len();
    if top_players < resp.online / 2 {
        return None;
    }
    if crate::aggregate::contains_name(open_games, resp.active[0].game.name.as_str()) {
        return None;
    }
    let is_same = match state {
        None => false,
        Some(ctx) => crate::order::str_eq(
            ctx.active_game.name.as_str(),
            resp.active[0].game.name.as_str(),
        ),
    };
    match state {
        None => {
            *state = Some(NotificationContext::new(&resp.active[0].game));
            None
        },
        Some(ctx) => {
            if !is_same {
                ctx.switch_game(&resp.active[0].game);
                None
            } else if ctx.notified {
                None
            } else {
                if ctx.missed < GRACE_PERIOD {
                    ctx.inc();
                }
                if ctx.missed >= GRACE_PERIOD {
                    ctx.notify();
                    Some(resp.active[0].game.clone())
                } else {
                    None
                }
            }
        },
    }
}

/// One observation cannot re-fire an already notified session: as long as
/// every cycle's majority is absent or is still the session's game, the
/// machine neither fires nor changes state.
pub proof fn lemma_notified_step_silent(
    c: NoteView,
    resp: ResponseView,
    open_games: Seq<Seq<char>>,
)
    requires
        c.notified,
        match majority_game(resp) {
            Some(top) => top.game.name == c.active_game.name,
            None => true,
        },
    ensures
        step_model(Some(c), resp, open_games).0 == Some(c),
        step_model(Some(c), resp, open_games).1 is None,
{
}

/// Whether a whole run of observations stays silent: every cycle fires
/// nothing.
pub open spec fn run_never_fires(
    state: Option<NoteView>,
    observations: Seq<(ResponseView, Seq<Seq<char>>)>,
) -> bool
    decreases observations.len(),
{
    if observations.len() == 0 {
        true
    } else {
        let (s2, f) = step_model(state, observations[0].0, observations[0].1);
        f is None && run_never_fires(s2, observations.drop_first())
    }
}

/// At most one notification per continuous majority-game session: once the
/// session's notification has fired, no later cycle of the same session —
/// any sequence of observations whose majority is absent or still the
/// session's game — ever fires again.
pub proof fn lemma_at_most_one_notification(
    c: NoteView,
    observations: Seq<(ResponseView, Seq<Seq<char>>)>,
)
    requires
        c.notified,
        forall|k: int|
            0 <= k < observations.len() ==> match majority_game(
                (#[trigger] observations[k]).0,
            ) {
                Some(top) => top.game.name == c.active_game.name,
                None => true,
            },
    ensures
        run_never_fires(Some(c), observations),
    decreases observations.len(),
{
    if observations.len() > 0 {
        lemma_notified_step_silent(c, observations[0].0, observations[0].1);
        let rest = observations.drop_first();
        assert forall|k: int| 0 <= k < rest.len() implies match majority_game(
            (#[trigger] rest[k]).0,
        ) {
            Some(top) => top.game.name == c.active_game.name,
            None => true,
        } by {
            assert(rest[k] == observations[k + 1]);
        }
        lemma_at_most_one_notification(c, rest);
    }
}

} // verus!
