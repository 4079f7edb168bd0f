//! A single puzzle: per-letter scoring of a guess against the target
//! word, the game's guess history, and the derived completion,
//! victory, loss and keyboard-feedback state.
use vstd::prelude::*;

verus! {

/// A game ends after this many guesses if the target was not hit.
pub const MAX_GUESSES: usize = 6;

/// Every word of the vocabulary has exactly this many letters.
pub const WORD_LENGTH: usize = 5;

/// The verdict for one guessed letter. For keyboard aggregation the
/// outcomes are ordered `Correct > WrongPlace > Wrong > Empty`:
/// the best-known outcome wins when merging across guesses.
#[derive(Clone, Copy, Debug, PartialEq, Eq, Structural)]
pub enum LetterState {
    Correct,
    WrongPlace,
    Wrong,
    Empty,
}

/// Position of a letter state in the order `Correct > WrongPlace > Wrong > Empty`.
pub open spec fn spec_rank(s: LetterState) -> int {
    match s {
        LetterState::Correct => 3,
        LetterState::WrongPlace => 2,
        LetterState::Wrong => 1,
        LetterState::Empty => 0,
    }
}

/// The better-known of two outcomes; the first wins ties.
pub open spec fn spec_max_state(a: LetterState, b: LetterState) -> LetterState {
    if spec_rank(b) > spec_rank(a) {
        b
    } else {
        a
    }
}

impl LetterState {
    /// Executable counterpart of `spec_rank`.
    pub fn rank(self) -> (r: u8)
        ensures
            r as int == spec_rank(self),
    {
        match self {
            LetterState::Correct => 3,
            LetterState::WrongPlace => 2,
            LetterState::Wrong => 1,
            LetterState::Empty => 0,
        }
    }
}

/// One guessed letter together with its verdict.
#[derive(Clone, Copy, Debug, PartialEq, Eq, Structural)]
pub struct Letter {
    pub id: char,
    pub state: LetterState,
}

impl Letter {
    fn new(id: char, state: LetterState) -> (r: Letter)
        ensures
            r.id == id,
            r.state == state,
    {
        Letter { id, state }
    }
}

/// Scoring is case-insensitive: uppercase ASCII letters are folded to
/// lowercase before comparison, all other characters are untouched.
pub open spec fn spec_lower(c: char) -> char {
    if 65 <= c as u32 <= 90 {
        ((c as u8) + 32) as char
    } else {
        c
    }
}

/// Executable counterpart of `spec_lower`.
pub fn lower_char(c: char) -> (r: char)
    ensures
        r == spec_lower(c),
{
    let u = c as u32;
    if 65 <= u && u <= 90 {
        ((c as u8) + 32) as char
    } else {
        c
    }
}

/// A lowercase ASCII letter, the only characters a vocabulary word may hold.
pub open spec fn is_lower_alpha(c: char) -> bool {
    97 <= c as u32 <= 122
}

/// A well-formed word: exactly `WORD_LENGTH` lowercase ASCII letters.
pub open spec fn word_wf(w: Seq<char>) -> bool {
    &&& w.len() == WORD_LENGTH
    &&& forall|i: int| 0 <= i < w.len() ==> is_lower_alpha(#[trigger] w[i])
}

/// The verdict for position `i` of `guess` against `target`, where
/// `claimed` holds the letters that `WrongPlace` verdicts before this
/// position used up: `Correct` on a position-exact match; otherwise
/// `WrongPlace` if the target contains the letter and it is not in
/// `claimed`; otherwise `Wrong`.
pub open spec fn spec_verdict(
    guess: Seq<char>,
    target: Seq<char>,
    i: int,
    claimed: Set<char>,
) -> LetterState {
    let c = spec_lower(guess[i]);
    if target[i] == c {
        LetterState::Correct
    } else if target.contains(c) && !claimed.contains(c) {
        LetterState::WrongPlace
    } else {
        LetterState::Wrong
    }
}

/// The letters claimed by `WrongPlace` verdicts among the first `i`
/// positions of one scoring pass. `Correct` matches never claim.
pub open spec fn spec_claimed_upto(guess: Seq<char>, target: Seq<char>, i: int) -> Set<char>
    decreases i,
{
    if i <= 0 {
        Set::empty()
    } else {
        let prev = spec_claimed_upto(guess, target, i - 1);
        if spec_verdict(guess, target, i - 1, prev) == LetterState::WrongPlace {
            prev.insert(spec_lower(guess[i - 1]))
        } else {
            prev
        }
    }
}

/// The verdict the scoring pass assigns to position `i`.
pub open spec fn spec_score_at(guess: Seq<char>, target: Seq<char>, i: int) -> LetterState {
    spec_verdict(guess, target, i, spec_claimed_upto(guess, target, i))
}

/// The verdict sequence for `guess` against `target`, one per position.
pub open spec fn spec_score(guess: Seq<char>, target: Seq<char>) -> Seq<LetterState> {
    Seq::new(guess.len(), |i: int| spec_score_at(guess, target, i))
}

/// A scored position is `Correct` exactly when the (folded) guessed
/// letter equals the target letter at that position; the claim set
/// never interferes with position-exact matches.
pub proof fn lemma_correct_iff_position_match(guess: Seq<char>, target: Seq<char>, i: int)
    requires
        guess.len() == target.len(),
        0 <= i < guess.len(),
    ensures
        spec_score(guess, target)[i] == LetterState::Correct <==> target[i] == spec_lower(
            guess[i],
        ),
{
}

/// The characters of `s`, collected into a vector.
pub fn str_chars(s: &str) -> (v: Vec<char>)
    ensures
        v@ == s@,
{
    let n = s.unicode_len();
    let mut v: Vec<char> = Vec::new();
    for i in 0..n
        invariant
            n == s@.len(),
            v@ == s@.subrange(0, i as int),
    {
        v.push(s.get_char(i));
        assert(v@ =~= s@.subrange(0, i + 1 as int));
    }
    assert(v@ =~= s@);
    v
}

/// Whether `v` holds the character `c`.
fn contains_char(v: &Vec<char>, c: char) -> (r: bool)
    ensures
        r == v@.contains(c),
{
    for i in 0..v.len()
        invariant
            forall|k: int| 0 <= k < i ==> v@[k] != c,
    {
        if v[i] == c {
            return true;
        }
    }
    false
}

/// The scored board row for one guess: each guessed letter (folded to
/// lowercase) with its verdict.
pub struct WordState {
    pub letters: Vec<Letter>,
}

impl WordState {
    /// A placeholder row: `WORD_LENGTH` dashes, none carrying a verdict.
    pub fn empty() -> (r: WordState)
        ensures
            r.letters@.len() == WORD_LENGTH,
            forall|i: int|
                0 <= i < WORD_LENGTH ==> #[trigger] r.letters@[i] == (Letter {
                    id: '-',
                    state: LetterState::Empty,
                }),
    {
        let mut letters: Vec<Letter> = Vec::new();
        let mut i: usize = 0;
        while i < WORD_LENGTH
            invariant
                i <= WORD_LENGTH,
                letters@.len() == i,
                forall|k: int|
                    0 <= k < i ==> #[trigger] letters@[k] == (Letter {
                        id: '-',
                        state: LetterState::Empty,
                    }),
            decreases WORD_LENGTH - i,
        {
            letters.push(Letter::new('-', LetterState::Empty));
            i = i + 1;
        }
        WordState { letters }
    }

    /// Score `guess` against `word`, one verdict per position, handling
    /// duplicate letters: a letter value claimed by an earlier
    /// `WrongPlace` verdict in the same pass is not claimed again, and
    /// position-exact matches never claim.
    pub fn guess(guess: &String, word: &String) -> (r: WordState)
        requires
            guess@.len() == word@.len(),
        ensures
            r.letters@.len() == guess@.len(),
            forall|i: int|
                0 <= i < guess@.len() ==> #[trigger] r.letters@[i] == (Letter {
                    id: spec_lower(guess@[i]),
                    state: spec_score(guess@, word@)[i],
                }),
    {
        let gchars = str_chars(guess.as_str());
        let tchars = str_chars(word.as_str());
        let n = gchars.len();
        let mut claimed: Vec<char> = Vec::new();
        let mut letters: Vec<Letter> = Vec::new();
        for i in 0..n
            invariant
                n == guess@.len(),
                gchars@ == guess@,
                tchars@ == word@,
                guess@.len() == word@.len(),
                letters@.len() == i,
                forall|x: char|
                    spec_claimed_upto(guess@, word@, i as int).contains(x) <==> claimed@.contains(
                        x,
                    ),
                forall|k: int|
                    0 <= k < i ==> #[trigger] letters@[k] == (Letter {
                        id: spec_lower(guess@[k]),
                        state: spec_score_at(guess@, word@, k),
                    }),
        {
            let ghost pre_claimed = spec_claimed_upto(guess@, word@, i as int);
            let ghost post_claimed = spec_claimed_upto(guess@, word@, i as int + 1);
            let ghost verdict = spec_verdict(guess@, word@, i as int, pre_claimed);
            assert(post_claimed == if verdict == LetterState::WrongPlace {
                pre_claimed.insert(spec_lower(guess@[i as int]))
            } else {
                pre_claimed
            });
            let ghost pre_vec = claimed@;
            let c = lower_char(gchars[i]);
            if tchars[i] == c {
                letters.push(Letter::new(c, LetterState::Correct));
                assert(verdict == LetterState::Correct);
            } else if contains_char(&tchars, c) && !contains_char(&claimed, c) {
                claimed.push(c);
                letters.push(Letter::new(c, LetterState::WrongPlace));
                assert(verdict == LetterState::WrongPlace);
                assert(forall|x: char|
                    #[trigger] claimed@.contains(x) <==> (pre_vec.contains(x) || x == c)) by {
                    assert(forall|x: char| pre_vec.contains(x) ==> claimed@.contains(x)) by {
                        assert(forall|k: int|
                            0 <= k < pre_vec.len() ==> claimed@[k] == #[trigger] pre_vec[k]);
                    }
                    assert(claimed@[pre_vec.len() as int] == c);
                }
                assert(forall|x: char| post_claimed.contains(x) <==> claimed@.contains(x));
            } else {
                letters.push(Letter::new(c, LetterState::Wrong));
                assert(verdict != LetterState::Correct && verdict != LetterState::WrongPlace);
            }
            assert(letters@[i as int] == (Letter {
                id: spec_lower(guess@[i as int]),
                state: spec_score_at(guess@, word@, i as int),
            }));
        }
        WordState { letters }
    }
}

/// Identifies one game in the registry: the 128-bit value of a
/// randomly generated identifier.
pub type GameId = u128;

/// The mathematical model of a game: its identity, target word,
/// chronologically ordered guesses, and creation time (Unix seconds).
pub struct GameModel {
    pub id: GameId,
    pub word: Seq<char>,
    pub guesses: Seq<Seq<char>>,
    pub created: u64,
}

/// A single puzzle instance. The target word is fixed at creation;
/// guesses are append-only; completion, victory, loss and keyboard
/// state are derived from the history, never stored.
pub struct Game {
    pub id: GameId,
    pub word: String,
    pub guesses: Vec<String>,
    pub created: u64,
}

impl View for Game {
    type V = GameModel;

    open spec fn view(&self) -> GameModel {
        GameModel {
            id: self.id,
            word: self.word@,
            guesses: self.guesses.deep_view(),
            created: self.created,
        }
    }
}

impl DeepView for Game {
    type V = GameModel;

    open spec fn deep_view(&self) -> GameModel {
        self.view()
    }
}

/// The game is won: the target word stands among the guesses.
pub open spec fn spec_is_victory(m: GameModel) -> bool {
    m.guesses.contains(m.word)
}

/// The game is over: the guess budget is spent, or the game is won.
pub open spec fn spec_is_complete(m: GameModel) -> bool {
    m.guesses.len() >= MAX_GUESSES || spec_is_victory(m)
}

/// The game is lost: the guess budget is spent and the game is not won.
pub open spec fn spec_is_loss(m: GameModel) -> bool {
    m.guesses.len() >= MAX_GUESSES && !spec_is_victory(m)
}

/// A game is well-formed when its target is a well-formed word, it has
/// at most `MAX_GUESSES` guesses, and every guess is a well-formed word.
pub open spec fn game_wf(m: GameModel) -> bool {
    &&& word_wf(m.word)
    &&& m.guesses.len() <= MAX_GUESSES
    &&& forall|i: int| 0 <= i < m.guesses.len() ==> word_wf(#[trigger] m.guesses[i])
}

/// Once a game is complete it stays complete: appending a guess can
/// neither shrink the history nor remove the target from it.
pub proof fn lemma_complete_is_monotone(m: GameModel, w: Seq<char>)
    ensures
        spec_is_complete(m) ==> spec_is_complete(
            GameModel { guesses: m.guesses.push(w), ..m },
        ),
{
    if spec_is_victory(m) {
        let i = choose|i: int| 0 <= i < m.guesses.len() && m.guesses[i] == m.word;
        assert(m.guesses.push(w)[i] == m.word);
    }
}

impl Game {
    /// A fresh game with the given identity, target word and creation
    /// time, and no guesses.
    pub fn new(id: GameId, word: String, created: u64) -> (g: Game)
        ensures
            g@ == (GameModel { id, word: word@, guesses: Seq::<Seq<char>>::empty(), created }),
    {
        let g = Game { id, word, guesses: Vec::new(), created };
        assert(g.guesses.deep_view() =~= Seq::<Seq<char>>::empty());
        g
    }

    /// The guess budget is spent, or the game is won.
    pub fn is_complete(&self) -> (r: bool)
        ensures
            r == spec_is_complete(self@),
    {
        self.guesses.len() >= MAX_GUESSES || self.is_victory()
    }

    /// The target word stands among the guesses.
    pub fn is_victory(&self) -> (r: bool)
        ensures
            r == spec_is_victory(self@),
    {
        let n = self.guesses.len();
        for i in 0..n
            invariant
                n == self.guesses.len(),
                forall|k: int| 0 <= k < i ==> self@.guesses[k] != self@.word,
        {
            if self.guesses[i] == self.word {
                assert(self@.guesses[i as int] == self@.word);
                return true;
            }
        }
        false
    }

    /// The guess budget is spent and the game is not won.
    pub fn is_loss(&self) -> (r: bool)
        ensures
            r == spec_is_loss(self@),
    {
        self.guesses.len() >= MAX_GUESSES && !self.is_victory()
    }

    /// Every guess on record has the target word's length, so each can
    /// be scored against it.
    pub open spec fn guesses_ok(self) -> bool {
        forall|i: int|
            0 <= i < self@.guesses.len() ==> (#[trigger] self@.guesses[i]).len()
                == self@.word.len()
    }

    /// Append `word` to the guess history. The game itself validates
    /// nothing: the caller must have checked the word against the
    /// vocabulary and the target's length, and must not guess on a
    /// completed game.
    pub fn add_guess(&mut self, word: String)
        requires
            !spec_is_complete(old(self)@),
            word@.len() == old(self)@.word.len(),
        ensures
            final(self)@ == (GameModel {
                guesses: old(self)@.guesses.push(word@),
                ..old(self)@
            }),
    {
        self.guesses.push(word);
        assert(self.guesses.deep_view() =~= old(self).guesses.deep_view().push(word@));
    }

    /// The guess history padded to the fixed board size: index `i`
    /// holds guess `i` if it was made, and nothing otherwise.
    pub fn get_guesses(&self) -> (r: Vec<Option<String>>)
        ensures
            r@.len() == MAX_GUESSES,
            forall|i: int|
                0 <= i < MAX_GUESSES ==> #[trigger] r@[i].deep_view() == (if i
                    < self@.guesses.len() {
                    Some(self@.guesses[i])
                } else {
                    None
                }),
    {
        let mut r: Vec<Option<String>> = Vec::new();
        let mut i: usize = 0;
        while i < MAX_GUESSES
            invariant
                i <= MAX_GUESSES,
                r@.len() == i,
                forall|k: int|
                    0 <= k < i ==> #[trigger] r@[k].deep_view() == (if k < self@.guesses.len() {
                        Some(self@.guesses[k])
                    } else {
                        None
                    }),
            decreases MAX_GUESSES - i,
        {
            if i < self.guesses.len() {
                r.push(Some(self.guesses[i].clone()));
            } else {
                r.push(None);
            }
            i = i + 1;
        }
        r
    }
}

/// The keyboard's letters in display order, one row after another.
pub open spec fn spec_keyboard() -> Seq<char> {
    seq![
        'q', 'w', 'e', 'r', 't', 'y', 'u', 'i', 'o', 'p', 'a', 's', 'd', 'f', 'g', 'h', 'j', 'k',
        'l', 'z', 'x', 'c', 'v', 'b', 'n', 'm',
    ]
}

/// Executable counterpart of `spec_keyboard`.
pub fn keyboard_chars() -> (v: Vec<char>)
    ensures
        v@ == spec_keyboard(),
{
    let v: Vec<char> = vec![
        'q', 'w', 'e', 'r', 't', 'y', 'u', 'i', 'o', 'p', 'a', 's', 'd', 'f', 'g', 'h', 'j', 'k',
        'l', 'z', 'x', 'c', 'v', 'b', 'n', 'm',
    ];
    assert(v@ =~= spec_keyboard());
    v
}

/// The best verdict the letter `ch` earned among the first `i`
/// positions of one scored guess; `Empty` if it appears in none of them.
pub open spec fn spec_best_in_guess(
    g: Seq<char>,
    t: Seq<char>,
    ch: char,
    i: int,
) -> LetterState
    decreases i,
{
    if i <= 0 {
        LetterState::Empty
    } else {
        let prev = spec_best_in_guess(g, t, ch, i - 1);
        if spec_lower(g[i - 1]) == ch {
            spec_max_state(prev, spec_score_at(g, t, i - 1))
        } else {
            prev
        }
    }
}

/// The best verdict the letter `ch` earned across the first `j` guesses.
pub open spec fn spec_keyboard_upto(
    guesses: Seq<Seq<char>>,
    t: Seq<char>,
    ch: char,
    j: int,
) -> LetterState
    decreases j,
{
    if j <= 0 {
        LetterState::Empty
    } else {
        spec_max_state(
            spec_keyboard_upto(guesses, t, ch, j - 1),
            spec_best_in_guess(guesses[j - 1], t, ch, guesses[j - 1].len() as int),
        )
    }
}

/// The best-known outcome for the letter `ch` across the whole guess
/// history: the fold of every verdict it earned, under the order
/// `Correct > WrongPlace > Wrong > Empty`; `Empty` if never guessed.
pub open spec fn spec_keyboard_state(
    guesses: Seq<Seq<char>>,
    t: Seq<char>,
    ch: char,
) -> LetterState {
    spec_keyboard_upto(guesses, t, ch, guesses.len() as int)
}

proof fn lemma_keyboard_upto_push(guesses: Seq<Seq<char>>, t: Seq<char>, ch: char, g: Seq<char>, j: int)
    requires
        0 <= j <= guesses.len(),
    ensures
        spec_keyboard_upto(guesses.push(g), t, ch, j) == spec_keyboard_upto(guesses, t, ch, j),
    decreases j,
{
    if j > 0 {
        lemma_keyboard_upto_push(guesses, t, ch, g, j - 1);
        assert(guesses.push(g)[j - 1] == guesses[j - 1]);
    }
}

/// Aggregating the keyboard never downgrades a letter: after one more
/// guess, the best-known outcome of every letter is at least what it
/// was before.
pub proof fn lemma_keyboard_never_downgrades(
    guesses: Seq<Seq<char>>,
    t: Seq<char>,
    ch: char,
    g: Seq<char>,
)
    ensures
        spec_rank(spec_keyboard_state(guesses.push(g), t, ch)) >= spec_rank(
            spec_keyboard_state(guesses, t, ch),
        ),
{
    lemma_keyboard_upto_push(guesses, t, ch, g, guesses.len() as int);
    assert(guesses.push(g)[guesses.len() as int] == g);
}

/// The better-known of two outcomes; the first wins ties.
fn max_state(a: LetterState, b: LetterState) -> (r: LetterState)
    ensures
        r == spec_max_state(a, b),
{
    if b.rank() > a.rank() {
        b
    } else {
        a
    }
}

/// The best verdict `ch` earned in one scored guess.
fn best_in_guess(g: &String, t: &String, ch: char) -> (r: LetterState)
    requires
        g@.len() == t@.len(),
    ensures
        r == spec_best_in_guess(g@, t@, ch, g@.len() as int),
{
    let row = WordState::guess(g, t);
    let n = row.letters.len();
    let mut best = LetterState::Empty;
    for i in 0..n
        invariant
            n == g@.len(),
            g@.len() == t@.len(),
            row.letters@.len() == n,
            forall|k: int|
                0 <= k < n ==> #[trigger] row.letters@[k] == (Letter {
                    id: spec_lower(g@[k]),
                    state: spec_score(g@, t@)[k],
                }),
            best == spec_best_in_guess(g@, t@, ch, i as int),
    {
        if row.letters[i].id == ch {
            best = max_state(best, row.letters[i].state);
        }
    }
    best
}

impl Game {
    /// The keyboard feedback: one entry per keyboard letter, in display
    /// order, holding the best-known outcome that letter earned across
    /// all guesses so far — recomputed from the history on demand.
    pub fn get_available_letters(&self) -> (r: Vec<Letter>)
        requires
            self.guesses_ok(),
        ensures
            r@.len() == spec_keyboard().len(),
            forall|k: int|
                0 <= k < spec_keyboard().len() ==> #[trigger] r@[k] == (Letter {
                    id: spec_keyboard()[k],
                    state: spec_keyboard_state(self@.guesses, self@.word, spec_keyboard()[k]),
                }),
    {
        let kb = keyboard_chars();
        let mut r: Vec<Letter> = Vec::new();
        let nk = kb.len();
        for k in 0..nk
            invariant
                nk == spec_keyboard().len(),
                kb@ == spec_keyboard(),
                self.guesses_ok(),
                r@.len() == k,
                forall|q: int|
                    0 <= q < k ==> #[trigger] r@[q] == (Letter {
                        id: spec_keyboard()[q],
                        state: spec_keyboard_state(self@.guesses, self@.word, spec_keyboard()[q]),
                    }),
        {
            let ch = kb[k];
            let mut best = LetterState::Empty;
            let ng = self.guesses.len();
            for j in 0..ng
                invariant
                    ng == self@.guesses.len(),
                    self.guesses_ok(),
                    best == spec_keyboard_upto(self@.guesses, self@.word, ch, j as int),
            {
                let earned = best_in_guess(&self.guesses[j], &self.word, ch);
                best = max_state(best, earned);
            }
            r.push(Letter::new(ch, best));
        }
        r
    }
}

/// The short display form of a game identity: the first eight hex
/// digits of its 32-digit form, which spell out its topmost 32 bits.
pub open spec fn spec_short_id(id: GameId) -> Seq<char> {
    crate::storage::spec_encode_hex((id as nat) / crate::storage::pow16(24), 8).map_values(
        |b: u8| b as char,
    )
}

/// The first eight hex digits of the identity's 32-digit form.
pub fn short_id(id: GameId) -> (r: String)
    ensures
        r@ == spec_short_id(id),
{
    let hi = id / 0x1_0000_0000_0000_0000_0000_0000u128;
    proof {
        crate::storage::lemma_pow16_values();
        assert(hi as nat == (id as nat) / crate::storage::pow16(24));
    }
    let mut bytes: Vec<u8> = Vec::new();
    crate::storage::push_hex(&mut bytes, hi, 8);
    proof {
        crate::storage::lemma_encode_hex_props(hi as nat, 8);
        assert(bytes@ =~= crate::storage::spec_encode_hex(hi as nat, 8));
        assert(forall|i: int| 0 <= i < bytes@.len() ==> #[trigger] bytes@[i] < 128);
    }
    let r = crate::ext::ascii_bytes_to_string(&bytes);
    r
}

} // verus!

