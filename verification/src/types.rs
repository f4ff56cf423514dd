//! The shared data model: games, players, and the request/response shapes
//! exchanged between the reporting clients and the presence server.

use vstd::prelude::*;

verus! {

/// Mathematical model of a [`Game`]: each field as a sequence of characters.
pub ghost struct GameView {
    pub name: Seq<char>,
    pub label: Seq<char>,
    pub icon: Seq<char>,
}

/// A known game. Identity is carried by `name` alone; `label` and `icon` are
/// presentational.
pub struct Game {
    pub name: String,
    pub label: String,
    pub icon: String,
}

impl View for Game {
    type V = GameView;

    open spec fn view(&self) -> GameView {
        GameView { name: self.name@, label: self.label@, icon: self.icon@ }
    }
}

impl DeepView for Game {
    type V = GameView;

    open spec fn deep_view(&self) -> GameView {
        self.view()
    }
}

impl Clone for Game {
    fn clone(&self) -> (r: Self)
        ensures
            r == *self,
    {
        Game { name: self.name.clone(), label: self.label.clone(), icon: self.icon.clone() }
    }
}

impl PartialEq for Game {
    /// Games compare by their identity key `name` alone.
    fn eq(&self, other: &Self) -> (r: bool) {
        self.name == other.name
    }
}

impl Eq for Game {

}

impl vstd::std_specs::cmp::PartialEqSpecImpl for Game {
    open spec fn obeys_eq_spec() -> bool {
        true
    }

    open spec fn eq_spec(&self, other: &Self) -> bool {
        self.name@ == other.name@
    }
}

/// Mathematical model of a [`Player`].
pub ghost struct PlayerView {
    pub id: Seq<char>,
    pub name: Seq<char>,
}

/// A reporting client. Identity is carried by `id` alone (a generated client
/// identifier); `name` is the display name.
pub struct Player {
    pub id: String,
    pub name: String,
}

impl View for Player {
    type V = PlayerView;

    open spec fn view(&self) -> PlayerView {
        PlayerView { id: self.id@, name: self.name@ }
    }
}

impl DeepView for Player {
    type V = PlayerView;

    open spec fn deep_view(&self) -> PlayerView {
        self.view()
    }
}

impl Clone for Player {
    fn clone(&self) -> (r: Self)
        ensures
            r == *self,
    {
        Player { id: self.id.clone(), name: self.name.clone() }
    }
}

impl PartialEq for Player {
    /// Players compare by their identity key `id` alone.
    fn eq(&self, other: &Self) -> (r: bool) {
        self.id == other.id
    }
}

impl Eq for Player {

}

impl vstd::std_specs::cmp::PartialEqSpecImpl for Player {
    open spec fn obeys_eq_spec() -> bool {
        true
    }

    open spec fn eq_spec(&self, other: &Self) -> bool {
        self.id@ == other.id@
    }
}

/// Mathematical model of a [`NowPlayingEntry`].
pub ghost struct EntryView {
    pub player: PlayerView,
    pub games: Seq<Seq<char>>,
}

/// One client's report: who they are and the names of the games they are
/// currently running.
pub struct NowPlayingEntry {
    pub player: Player,
    pub games: Vec<String>,
}

impl View for NowPlayingEntry {
    type V = EntryView;

    open spec fn view(&self) -> EntryView {
        EntryView { player: self.player@, games: self.games.deep_view() }
    }
}

impl DeepView for NowPlayingEntry {
    type V = EntryView;

    open spec fn deep_view(&self) -> EntryView {
        self.view()
    }
}

impl Clone for NowPlayingEntry {
    fn clone(&self) -> (r: Self)
        ensures
            r.player == self.player,
            r.games@ == self.games@,
    {
        NowPlayingEntry { player: self.player.clone(), games: clone_names(&self.games) }
    }
}

/// Mathematical model of a [`PartyPlayingEntry`].
pub ghost struct PartyView {
    pub game: GameView,
    pub players: Seq<PlayerView>,
}

/// One line of the derived party view: a game and the players currently
/// reporting it.
pub struct PartyPlayingEntry {
    pub game: Game,
    pub players: Vec<Player>,
}

impl View for PartyPlayingEntry {
    type V = PartyView;

    open spec fn view(&self) -> PartyView {
        PartyView { game: self.game@, players: self.players.deep_view() }
    }
}

impl DeepView for PartyPlayingEntry {
    type V = PartyView;

    open spec fn deep_view(&self) -> PartyView {
        self.view()
    }
}

impl Clone for PartyPlayingEntry {
    fn clone(&self) -> (r: Self)
        ensures
            r.game == self.game,
            r.players@ == self.players@,
            r@ == self@,
    {
        PartyPlayingEntry { game: self.game.clone(), players: clone_players(&self.players) }
    }
}

/// Mathematical model of a [`NowPlayingResponse`].
pub ghost struct ResponseView {
    pub active: Seq<PartyView>,
    pub online: int,
}

/// The aggregate answer handed to polling clients: the per-game grouping plus
/// the total number of players currently online.
pub struct NowPlayingResponse {
    pub active: Vec<PartyPlayingEntry>,
    pub online: usize,
}

impl View for NowPlayingResponse {
    type V = ResponseView;

    open spec fn view(&self) -> ResponseView {
        ResponseView { active: self.active.deep_view(), online: self.online as int }
    }
}

impl DeepView for NowPlayingResponse {
    type V = ResponseView;

    open spec fn deep_view(&self) -> ResponseView {
        self.view()
    }
}

impl Clone for NowPlayingResponse {
    fn clone(&self) -> (r: Self)
        ensures
            r@ == self@,
            r.online == self.online,
    {
        NowPlayingResponse { active: clone_parties(&self.active), online: self.online }
    }
}

/// The static game catalog as served to clients.
pub struct GamesResponse {
    pub games: Vec<Game>,
    pub hash: u64,
}

impl Clone for GamesResponse {
    fn clone(&self) -> (r: Self)
        ensures
            r.games@ == self.games@,
            r.hash == self.hash,
    {
        GamesResponse { games: clone_games(&self.games), hash: self.hash }
    }
}

/// Account details attached to a connected identity.
pub struct UserInfo {
    pub name: String,
    pub email: String,
    pub ip: String,
    pub picture: String,
}

impl Clone for UserInfo {
    fn clone(&self) -> (r: Self)
        ensures
            r == *self,
    {
        UserInfo {
            name: self.name.clone(),
            email: self.email.clone(),
            ip: self.ip.clone(),
            picture: self.picture.clone(),
        }
    }
}

/// Element-wise copy of a list of names.
pub fn clone_names(v: &Vec<String>) -> (r: Vec<String>)
    ensures
        r@ == v@,
{
    let mut r: Vec<String> = Vec::new();
    let mut i: usize = 0;
    while i < v.len()
        invariant
            i <= v.len(),
            r@ == v@.subrange(0, i as int),
        decreases v.len() - i,
    {
        r.push(v[i].clone());
        assert(r@ =~= v@.subrange(0, i + 1 as int));
        i = i + 1;
    }
    assert(r@ =~= v@);
    r
}

/// Element-wise copy of a list of players.
pub fn clone_players(v: &Vec<Player>) -> (r: Vec<Player>)
    ensures
        r@ == v@,
{
    let mut r: Vec<Player> = Vec::new();
    let mut i: usize = 0;
    while i < v.len()
        invariant
            i <= v.len(),
            r@ == v@.subrange(0, i as int),
        decreases v.len() - i,
    {
        r.push(v[i].clone());
        assert(r@ =~= v@.subrange(0, i + 1 as int));
        i = i + 1;
    }
    assert(r@ =~= v@);
    r
}

/// Element-wise copy of a list of games.
pub fn clone_games(v: &Vec<Game>) -> (r: Vec<Game>)
    ensures
        r@ == v@,
{
    let mut r: Vec<Game> = Vec::new();
    let mut i: usize = 0;
    while i < v.len()
        invariant
            i <= v.len(),
            r@ == v@.subrange(0, i as int),
        decreases v.len() - i,
    {
        r.push(v[i].clone());
        assert(r@ =~= v@.subrange(0, i + 1 as int));
        i = i + 1;
    }
    assert(r@ =~= v@);
    r
}

/// Element-wise copy of a party view list; the copy has the same model.
pub fn clone_parties(v: &Vec<PartyPlayingEntry>) -> (r: Vec<PartyPlayingEntry>)
    ensures
        r.deep_view() == v.deep_view(),
        r@.len() == v@.len(),
{
    let mut r: Vec<PartyPlayingEntry> = Vec::new();
    let mut i: usize = 0;
    while i < v.len()
        invariant
            i <= v.len(),
            r@.len() == i,
            r.deep_view() =~= v.deep_view().subrange(0, i as int),
        decreases v.len() - i,
    {
        r.push(v[i].clone());
        assert(r.deep_view() =~= v.deep_view().subrange(0, i + 1 as int));
        i = i + 1;
    }
    assert(r.deep_view() =~= v.deep_view());
    r
}

} // verus!
