//! The registry: every live game, keyed by identity. It creates games
//! (picking a random target from the vocabulary), validates and applies
//! guesses, and serves lookups and a most-recent-first listing.
use crate::ext;
use crate::game::{
    game_wf, spec_is_complete, spec_is_loss, spec_is_victory, spec_keyboard,
    spec_keyboard_state, spec_lower, spec_score, word_wf, Game, GameId, GameModel, Letter,
    WordState, MAX_GUESSES,
};
use crate::words::WordList;
use vstd::multiset::Multiset;
use vstd::prelude::*;

verus! {

/// Everything that can go wrong in the engine. `NotAWord` and
/// `GameAlreadyComplete` are expected user-facing outcomes; `NotFound`
/// and `EmptyVocabulary` are caller or configuration errors;
/// `PersistenceFailure` reports a snapshot that could not be decoded.
#[derive(Clone, Copy, Debug, PartialEq, Eq, Structural)]
pub enum GameError {
    NotFound,
    InvalidGuessLength,
    NotAWord,
    GameAlreadyComplete,
    EmptyVocabulary,
    PersistenceFailure,
}

/// Whether some game in `s` has the identity `id`.
pub open spec fn has_id(s: Seq<GameModel>, id: GameId) -> bool {
    exists|i: int| 0 <= i < s.len() && s[i].id == id
}

/// The game of `s` with identity `id` (meaningful under `has_id` and
/// unique identities).
pub open spec fn game_at(s: Seq<GameModel>, id: GameId) -> GameModel {
    s[choose|i: int| 0 <= i < s.len() && s[i].id == id]
}

/// No two games of `s` share an identity.
pub open spec fn ids_unique(s: Seq<GameModel>) -> bool {
    forall|i: int, j: int| 0 <= i < j < s.len() ==> s[i].id != s[j].id
}

/// Insert `g`: replace the game that already has `g`'s identity, or
/// append `g` if none does.
pub open spec fn spec_insert(s: Seq<GameModel>, g: GameModel) -> Seq<GameModel> {
    if has_id(s, g.id) {
        s.update(choose|i: int| 0 <= i < s.len() && s[i].id == g.id, g)
    } else {
        s.push(g)
    }
}

proof fn lemma_game_at_index(s: Seq<GameModel>, i: int)
    requires
        ids_unique(s),
        0 <= i < s.len(),
    ensures
        has_id(s, s[i].id),
        game_at(s, s[i].id) == s[i],
{
    assert(has_id(s, s[i].id));
    let j = choose|j: int| 0 <= j < s.len() && s[j].id == s[i].id;
    assert(j == i);
}

proof fn lemma_insert_at_index(s: Seq<GameModel>, i: int, g: GameModel)
    requires
        ids_unique(s),
        0 <= i < s.len(),
        s[i].id == g.id,
    ensures
        spec_insert(s, g) == s.update(i, g),
{
    lemma_game_at_index(s, i);
    let j = choose|j: int| 0 <= j < s.len() && s[j].id == g.id;
    assert(j == i);
}

/// What the excluded presentation layer needs of one game: the target
/// (revealed only once the game is complete), the padded board rows
/// with verdicts, the keyboard aggregate, and the derived flags.
pub struct GameView {
    pub id: GameId,
    pub word: Option<String>,
    pub rows: Vec<WordState>,
    pub keyboard: Vec<Letter>,
    pub complete: bool,
    pub victory: bool,
    pub loss: bool,
}

/// `v` presents exactly the game `m`.
pub open spec fn spec_view_ok(v: GameView, m: GameModel) -> bool {
    &&& v.id == m.id
    &&& v.complete == spec_is_complete(m)
    &&& v.victory == spec_is_victory(m)
    &&& v.loss == spec_is_loss(m)
    &&& (spec_is_complete(m) ==> (v.word matches Some(w) && w@ == m.word))
    &&& (!spec_is_complete(m) ==> v.word is None)
    &&& v.rows@.len() == MAX_GUESSES
    &&& forall|i: int|
        0 <= i < m.guesses.len() && i < MAX_GUESSES ==> spec_row_ok(
            #[trigger] v.rows@[i],
            m.guesses[i],
            m.word,
        )
    &&& forall|i: int|
        m.guesses.len() <= i < MAX_GUESSES ==> spec_row_empty(#[trigger] v.rows@[i])
    &&& v.keyboard@.len() == spec_keyboard().len()
    &&& forall|k: int|
        0 <= k < spec_keyboard().len() ==> #[trigger] v.keyboard@[k] == (Letter {
            id: spec_keyboard()[k],
            state: spec_keyboard_state(m.guesses, m.word, spec_keyboard()[k]),
        })
}

/// `row` is the scored board row for `g` against `t`.
pub open spec fn spec_row_ok(row: WordState, g: Seq<char>, t: Seq<char>) -> bool {
    &&& row.letters@.len() == g.len()
    &&& forall|p: int|
        0 <= p < g.len() ==> #[trigger] row.letters@[p] == (Letter {
            id: spec_lower(g[p]),
            state: spec_score(g, t)[p],
        })
}

/// `row` is the placeholder for a guess not yet made.
pub open spec fn spec_row_empty(row: WordState) -> bool {
    &&& row.letters@.len() == crate::game::WORD_LENGTH
    &&& forall|p: int|
        0 <= p < row.letters@.len() ==> #[trigger] row.letters@[p] == (Letter {
            id: '-',
            state: crate::game::LetterState::Empty,
        })
}

impl Game {
    /// Everything the presentation layer shows of this game.
    pub fn game_view(&self) -> (v: GameView)
        requires
            game_wf(self@),
        ensures
            spec_view_ok(v, self@),
    {
        assert(self.guesses_ok());
        let complete = self.is_complete();
        let mut rows: Vec<WordState> = Vec::new();
        let mut i: usize = 0;
        while i < MAX_GUESSES
            invariant
                game_wf(self@),
                self.guesses_ok(),
                i <= MAX_GUESSES,
                rows@.len() == i,
                forall|k: int|
                    0 <= k < i && k < self@.guesses.len() ==> spec_row_ok(
                        #[trigger] rows@[k],
                        self@.guesses[k],
                        self@.word,
                    ),
                forall|k: int|
                    self@.guesses.len() <= k < i ==> spec_row_empty(#[trigger] rows@[k]),
            decreases MAX_GUESSES - i,
        {
            if i < self.guesses.len() {
                assert(self.guesses@[i as int]@ == self@.guesses[i as int]);
                assert(self@.guesses[i as int].len() == self@.word.len());
                rows.push(WordState::guess(&self.guesses[i], &self.word));
            } else {
                rows.push(WordState::empty());
            }
            i = i + 1;
        }
        GameView {
            id: self.id,
            word: if complete {
                Some(self.word.clone())
            } else {
                None
            },
            rows,
            keyboard: self.get_available_letters(),
            complete,
            victory: self.is_victory(),
            loss: self.is_loss(),
        }
    }

    /// A field-for-field copy of this game.
    pub fn duplicate(&self) -> (r: Game)
        ensures
            r@ == self@,
    {
        let r = Game {
            id: self.id,
            word: self.word.clone(),
            guesses: self.guesses.clone(),
            created: self.created,
        };
        assert(r.guesses.deep_view() =~= self.guesses.deep_view());
        r
    }
}

/// The in-memory collection of live games. Identities are unique and
/// every game is well-formed; both hold by construction.
pub struct Registry {
    games: Vec<Game>,
}

impl View for Registry {
    type V = Seq<GameModel>;

    closed spec fn view(&self) -> Seq<GameModel> {
        self.games.deep_view()
    }
}

impl Registry {
    /// Identities unique, every game well-formed. Holds of every
    /// registry this module hands out.
    pub open spec fn inv(&self) -> bool {
        &&& ids_unique(self@)
        &&& forall|i: int| 0 <= i < self@.len() ==> game_wf(#[trigger] self@[i])
    }

    /// A registry with no games.
    pub fn new() -> (r: Registry)
        ensures
            r.inv(),
            r@ =~= Seq::<GameModel>::empty(),
    {
        let r = Registry { games: Vec::new() };
        assert(r.games.deep_view() =~= Seq::<GameModel>::empty());
        r
    }

    /// The index of the game with identity `id`, if any.
    fn index_of_id(&self, id: GameId) -> (r: Option<usize>)
        ensures
            match r {
                Some(i) => i < self@.len() && self@[i as int].id == id,
                None => !has_id(self@, id),
            },
    {
        let n = self.games.len();
        for i in 0..n
            invariant
                n == self@.len(),
                forall|k: int| 0 <= k < i ==> self@[k].id != id,
        {
            if self.games[i].id == id {
                return Some(i);
            }
        }
        None
    }

    /// Replace the game that has `g`'s identity, or append `g`.
    fn insert_game(&mut self, g: Game)
        requires
            old(self).inv(),
            game_wf(g@),
        ensures
            final(self).inv(),
            final(self)@ == spec_insert(old(self)@, g@),
    {
        let ghost s = self@;
        match self.index_of_id(g.id) {
            Some(i) => {
                proof {
                    lemma_insert_at_index(s, i as int, g@);
                }
                self.games.remove(i);
                self.games.insert(i, g);
                assert(self@ =~= s.update(i as int, g@));
            },
            None => {
                self.games.push(g);
                assert(self@ =~= s.push(g@));
            },
        }
    }

    /// Insert a fresh game with the given identity, target word and
    /// creation time. The deterministic half of game creation: callers
    /// supply whatever identity, word choice and clock reading they
    /// obtained, and this function is exact for every such value.
    pub fn create_game_with(&mut self, id: GameId, word: String, created: u64)
        requires
            old(self).inv(),
            word_wf(word@),
        ensures
            final(self).inv(),
            final(self)@ == spec_insert(
                old(self)@,
                GameModel { id, word: word@, guesses: Seq::<Seq<char>>::empty(), created },
            ),
    {
        let g = Game::new(id, word, created);
        self.insert_game(g);
    }

    /// Create a new game: pick a uniformly random target from the
    /// vocabulary, assign a fresh random identity and the current time,
    /// insert the game, and return its identity. Fails with
    /// `EmptyVocabulary`, leaving the registry unchanged, exactly when
    /// the vocabulary is empty.
    pub fn create_game(&mut self, words: &WordList) -> (r: Result<GameId, GameError>)
        requires
            old(self).inv(),
            words.wf(),
        ensures
            final(self).inv(),
            words@.len() == 0 ==> r == Err::<GameId, GameError>(GameError::EmptyVocabulary)
                && final(self)@ == old(self)@,
            words@.len() > 0 ==> (r matches Ok(id) && exists|g: GameModel|
                {
                    &&& #[trigger] g.id == id
                    &&& g.guesses =~= Seq::<Seq<char>>::empty()
                    &&& words@.contains(g.word)
                    &&& final(self)@ == spec_insert(old(self)@, g)
                }),
    {
        let n = words.len();
        if n == 0 {
            return Err(GameError::EmptyVocabulary);
        }
        let now = clamp_time(ext::unix_time_seconds());
        let mut rng = ext::seeded_rng(now);
        let idx = ext::rand_index(&mut rng, n);
        let word = words.get_word(idx);
        let id = ext::fresh_game_id();
        let ghost g = GameModel {
            id,
            word: word@,
            guesses: Seq::<Seq<char>>::empty(),
            created: now,
        };
        self.create_game_with(id, word, now);
        assert(words@.contains(g.word)) by {
            assert(words@[idx as int] == g.word);
        }
        Ok(id)
    }

    /// The game with identity `id`, if the registry holds one — an
    /// unknown identity is a legitimate "not found" outcome, not an
    /// error.
    pub fn get(&self, id: GameId) -> (r: Option<&Game>)
        requires
            self.inv(),
        ensures
            match r {
                Some(g) => has_id(self@, id) && g@ == game_at(self@, id),
                None => !has_id(self@, id),
            },
    {
        match self.index_of_id(id) {
            Some(i) => {
                proof {
                    lemma_game_at_index(self@, i as int);
                }
                Some(&self.games[i])
            },
            None => None,
        }
    }

    /// How many games the registry holds.
    pub fn len(&self) -> (r: usize)
        ensures
            r == self@.len(),
    {
        self.games.len()
    }

    /// Everything the presentation layer shows of the game with
    /// identity `id`, if the registry holds one.
    pub fn get_game(&self, id: GameId) -> (r: Option<GameView>)
        requires
            self.inv(),
        ensures
            match r {
                Some(v) => has_id(self@, id) && spec_view_ok(v, game_at(self@, id)),
                None => !has_id(self@, id),
            },
    {
        match self.index_of_id(id) {
            Some(i) => {
                proof {
                    lemma_game_at_index(self@, i as int);
                }
                Some(self.games[i].game_view())
            },
            None => None,
        }
    }

    /// Validate and apply one guess to the game with identity `id`:
    /// reject an unknown game, a guess on a completed game, a guess of
    /// the wrong length, and a guess outside the vocabulary, in that
    /// order and leaving the registry unchanged; otherwise append the
    /// guess and present the updated game.
    pub fn submit_guess(&mut self, id: GameId, guess: &String, words: &WordList) -> (r: Result<
        GameView,
        GameError,
    >)
        requires
            old(self).inv(),
            words.wf(),
        ensures
            final(self).inv(),
            match spec_submit_outcome(old(self)@, id, guess@, words@) {
                Ok(s2) => {
                    &&& final(self)@ == s2
                    &&& (r matches Ok(v) && spec_view_ok(v, game_at(s2, id)))
                },
                Err(e) => {
                    &&& final(self)@ == old(self)@
                    &&& r == Err::<GameView, GameError>(e)
                },
            },
    {
        let ghost s = self@;
        let i = match self.index_of_id(id) {
            Some(i) => i,
            None => {
                return Err(GameError::NotFound);
            },
        };
        proof {
            lemma_game_at_index(s, i as int);
        }
        if self.games[i].is_complete() {
            return Err(GameError::GameAlreadyComplete);
        }
        let glen = crate::game::str_chars(guess.as_str()).len();
        let wlen = crate::game::str_chars(self.games[i].word.as_str()).len();
        if glen != wlen {
            return Err(GameError::InvalidGuessLength);
        }
        if !words.contains(guess) {
            return Err(GameError::NotAWord);
        }
        assert(word_wf(guess@)) by {
            let k = choose|k: int| 0 <= k < words@.len() && words@[k] == guess@;
            assert(word_wf(words@[k]));
        }
        let mut g = self.games.remove(i);
        let ghost m = g@;
        assert(m == s[i as int]);
        g.add_guess(guess.clone());
        let ghost m2 = g@;
        let v = g.game_view();
        self.games.insert(i, g);
        proof {
            assert(self@ =~= s.update(i as int, m2));
            lemma_insert_at_index(s, i as int, m2);
            assert(ids_unique(self@));
            lemma_game_at_index(self@, i as int);
        }
        Ok(v)
    }

    /// A copy of every game, in registry order, for persistence.
    pub fn snapshot(&self) -> (r: Vec<Game>)
        requires
            self.inv(),
        ensures
            r.deep_view() == self@,
            forall|i: int| 0 <= i < r.deep_view().len() ==> game_wf(#[trigger] r.deep_view()[i]),
    {
        let n = self.games.len();
        let mut r: Vec<Game> = Vec::new();
        for i in 0..n
            invariant
                self.inv(),
                n == self@.len(),
                r.deep_view() == self@.subrange(0, i as int),
        {
            let ghost pre = r.deep_view();
            let dup = self.games[i].duplicate();
            assert(dup@ == self@[i as int]);
            r.push(dup);
            assert(r.deep_view() =~= self@.subrange(0, i + 1)) by {
                assert(forall|k: int|
                    0 <= k < pre.len() ==> #[trigger] r.deep_view()[k] == pre[k]);
                assert(r.deep_view()[i as int] == dup@);
            }
        }
        assert(self@.subrange(0, self@.len() as int) =~= self@);
        assert(forall|i: int|
            0 <= i < r.deep_view().len() ==> game_wf(#[trigger] r.deep_view()[i]));
        r
    }

    /// Rebuild a registry from a restored list of games, inserting them
    /// in order: a later record with an already-seen identity replaces
    /// the earlier one.
    pub fn from_games(games: Vec<Game>) -> (r: Registry)
        requires
            forall|i: int|
                0 <= i < games.deep_view().len() ==> game_wf(#[trigger] games.deep_view()[i]),
        ensures
            r.inv(),
            r@ == spec_load_registry(games.deep_view()),
    {
        let n = games.len();
        let mut r = Registry::new();
        let mut i: usize = 0;
        while i < n
            invariant
                n == games.deep_view().len(),
                forall|k: int|
                    0 <= k < games.deep_view().len() ==> game_wf(#[trigger] games.deep_view()[k]),
                r.inv(),
                r@ == spec_load_registry(games.deep_view().subrange(0, i as int)),
                i <= n,
            decreases n - i,
        {
            let ghost prefix = games.deep_view().subrange(0, i as int);
            let ghost prefix1 = games.deep_view().subrange(0, i + 1);
            assert(prefix1.drop_last() =~= prefix);
            assert(prefix1.last() == games.deep_view()[i as int]);
            r.insert_game(games[i].duplicate());
            i = i + 1;
        }
        assert(games.deep_view().subrange(0, games.deep_view().len() as int) =~= games.deep_view());
        r
    }
}

/// The outcome `submit_guess` owes for each input: the error named by
/// the first failing validation, or the registry with the guess
/// appended to its game.
pub open spec fn spec_submit_outcome(
    s: Seq<GameModel>,
    id: GameId,
    w: Seq<char>,
    vocab: Seq<Seq<char>>,
) -> Result<Seq<GameModel>, GameError> {
    if !has_id(s, id) {
        Err(GameError::NotFound)
    } else {
        let g = game_at(s, id);
        if spec_is_complete(g) {
            Err(GameError::GameAlreadyComplete)
        } else if w.len() != g.word.len() {
            Err(GameError::InvalidGuessLength)
        } else if !vocab.contains(w) {
            Err(GameError::NotAWord)
        } else {
            Ok(spec_insert(s, GameModel { guesses: g.guesses.push(w), ..g }))
        }
    }
}

/// The registry that restoring a list of game records yields: each
/// record inserted in order.
pub open spec fn spec_load_registry(s: Seq<GameModel>) -> Seq<GameModel>
    decreases s.len(),
{
    if s.len() == 0 {
        Seq::empty()
    } else {
        spec_insert(spec_load_registry(s.drop_last()), s.last())
    }
}

/// The mathematical content of one listing row.
pub struct SummaryModel {
    pub id: GameId,
    pub created: u64,
    pub word: Option<Seq<char>>,
    pub last_guess: Option<Seq<char>>,
    pub guess_count: int,
    pub complete: bool,
    pub victory: bool,
    pub loss: bool,
}

/// One row of the registry listing: the identity, creation time,
/// target (revealed only once complete), last guess, guess count and
/// the derived flags of one game.
pub struct GameSummary {
    pub id: GameId,
    pub created: u64,
    pub word: Option<String>,
    pub last_guess: Option<String>,
    pub guess_count: usize,
    pub complete: bool,
    pub victory: bool,
    pub loss: bool,
}

impl View for GameSummary {
    type V = SummaryModel;

    open spec fn view(&self) -> SummaryModel {
        SummaryModel {
            id: self.id,
            created: self.created,
            word: self.word.deep_view(),
            last_guess: self.last_guess.deep_view(),
            guess_count: self.guess_count as int,
            complete: self.complete,
            victory: self.victory,
            loss: self.loss,
        }
    }
}

/// The listing row that the game `m` yields.
pub open spec fn spec_summary_of(m: GameModel) -> SummaryModel {
    SummaryModel {
        id: m.id,
        created: m.created,
        word: if spec_is_complete(m) {
            Some(m.word)
        } else {
            None
        },
        last_guess: if m.guesses.len() > 0 {
            Some(m.guesses.last())
        } else {
            None
        },
        guess_count: m.guesses.len() as int,
        complete: spec_is_complete(m),
        victory: spec_is_victory(m),
        loss: spec_is_loss(m),
    }
}

/// The listing rows of `r`, as mathematical values.
pub open spec fn spec_summary_views(r: Seq<GameSummary>) -> Seq<SummaryModel> {
    r.map_values(|s: GameSummary| s@)
}

impl Game {
    /// The listing row for this game.
    pub fn summary(&self) -> (r: GameSummary)
        ensures
            r@ == spec_summary_of(self@),
    {
        let complete = self.is_complete();
        let n = self.guesses.len();
        GameSummary {
            id: self.id,
            created: self.created,
            word: if complete {
                Some(self.word.clone())
            } else {
                None
            },
            last_guess: if n > 0 {
                Some(self.guesses[n - 1].clone())
            } else {
                None
            },
            guess_count: n,
            complete,
            victory: self.is_victory(),
            loss: self.is_loss(),
        }
    }
}

impl Registry {
    /// The listing rows of every game, most recently created first.
    /// The result is a permutation of the games' rows, ordered by
    /// creation time descending (ties in either order).
    pub fn list_games(&self) -> (r: Vec<GameSummary>)
        requires
            self.inv(),
        ensures
            spec_summary_views(r@).to_multiset() == self@.map_values(
                |m: GameModel| spec_summary_of(m),
            ).to_multiset(),
            forall|i: int, j: int| 0 <= i < j < r@.len() ==> r@[i].created >= r@[j].created,
    {
        let n = self.games.len();
        let mut rows: Vec<GameSummary> = Vec::new();
        for i in 0..n
            invariant
                self.inv(),
                n == self@.len(),
                rows@.len() == i,
                forall|k: int|
                    0 <= k < i ==> #[trigger] rows@[k]@ == spec_summary_of(self@[k]),
        {
            rows.push(self.games[i].summary());
        }
        assert(spec_summary_views(rows@) =~= self@.map_values(|m: GameModel| spec_summary_of(m)));
        sort_summaries_desc(rows)
    }
}

/// Sort listing rows by creation time, newest first: the result is a
/// permutation of the input, ordered by `created` descending.
fn sort_summaries_desc(rows: Vec<GameSummary>) -> (r: Vec<GameSummary>)
    ensures
        spec_summary_views(r@).to_multiset() == spec_summary_views(rows@).to_multiset(),
        forall|i: int, j: int| 0 <= i < j < r@.len() ==> r@[i].created >= r@[j].created,
{
    broadcast use vstd::seq_lib::group_to_multiset_ensures;

    let ghost orig = spec_summary_views(rows@);
    let mut src = rows;
    let mut out: Vec<GameSummary> = Vec::new();
    while src.len() > 0
        invariant
            spec_summary_views(out@).to_multiset().add(spec_summary_views(src@).to_multiset())
                =~= orig.to_multiset(),
            forall|i: int, j: int| 0 <= i < j < out@.len() ==> out@[i].created >= out@[j].created,
            forall|k: int|
                0 <= k < src@.len() && out@.len() > 0 ==> out@.last().created
                    >= #[trigger] src@[k].created,
        decreases src.len(),
    {
        let m = src.len();
        let mut mi: usize = 0;
        let mut k: usize = 1;
        while k < m
            invariant
                m == src@.len(),
                mi < m,
                k <= m,
                forall|q: int| 0 <= q < k ==> src@[mi as int].created >= #[trigger] src@[q].created,
            decreases m - k,
        {
            if src[k].created > src[mi].created {
                mi = k;
            }
            k = k + 1;
        }
        let ghost pre_src = src@;
        let ghost pre_out = out@;
        let x = src.remove(mi);
        out.push(x);
        proof {
            broadcast use vstd::seq_lib::group_to_multiset_ensures;

            let vx = x@;
            assert(spec_summary_views(pre_src)[mi as int] == vx);
            assert(spec_summary_views(pre_src).contains(vx));
            assert(spec_summary_views(pre_src).to_multiset().count(vx) > 0);
            assert(spec_summary_views(out@) =~= spec_summary_views(pre_out).push(vx));
            assert(spec_summary_views(pre_out).push(vx).to_multiset() =~= spec_summary_views(
                pre_out,
            ).to_multiset().insert(vx));
            assert(spec_summary_views(src@) =~= spec_summary_views(pre_src).remove(mi as int));
            assert(spec_summary_views(pre_src).remove(mi as int).to_multiset()
                =~= spec_summary_views(pre_src).to_multiset().remove(vx));
            assert forall|y: SummaryModel|
                spec_summary_views(out@).to_multiset().add(
                    spec_summary_views(src@).to_multiset(),
                ).count(y) == orig.to_multiset().count(y) by {
                let m_out = spec_summary_views(pre_out).to_multiset();
                let m_src = spec_summary_views(pre_src).to_multiset();
                assert(m_out.add(m_src).count(y) == orig.to_multiset().count(y));
                assert(spec_summary_views(out@).to_multiset() == m_out.insert(vx));
                assert(spec_summary_views(src@).to_multiset() == m_src.remove(vx));
                assert(m_out.insert(vx).count(y) == m_out.count(y) + if y == vx {
                    1int
                } else {
                    0int
                });
                assert(m_src.remove(vx).count(y) == m_src.count(y) - if y == vx {
                    1int
                } else {
                    0int
                });
            }
            assert(spec_summary_views(out@).to_multiset().add(
                spec_summary_views(src@).to_multiset(),
            ) =~= orig.to_multiset());
        }
    }
    assert(spec_summary_views(src@).to_multiset() =~= Multiset::<SummaryModel>::empty()) by {
        assert(spec_summary_views(src@).len() == 0);
    }
    assert(spec_summary_views(out@).to_multiset() =~= orig.to_multiset());
    out
}

/// Unix seconds as an unsigned count; readings before the epoch clamp
/// to zero.
pub fn clamp_time(t: i64) -> (r: u64)
    ensures
        t >= 0 ==> r == t,
        t < 0 ==> r == 0,
{
    if t < 0 {
        0
    } else {
        t as u64
    }
}

} // verus!
