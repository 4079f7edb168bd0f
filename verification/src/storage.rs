//! The persistence codec: the registry snapshot as a durable byte
//! document, one line per game, and its lossless decoder. A record that
//! lacks a creation time (a legacy form) is accepted on load and
//! backfilled with the restore-time clock value.
use crate::game::{game_wf, word_wf, Game, GameModel};
use crate::registry::GameError;
use vstd::arithmetic::div_mod::{lemma_fundamental_div_mod, lemma_multiply_divide_lt};
use vstd::prelude::*;

verus! {

/// Sixteen to the given power.
pub open spec fn pow16(n: nat) -> nat
    decreases n,
{
    if n == 0 {
        1
    } else {
        16 * pow16((n - 1) as nat)
    }
}

/// The ASCII byte for one hex digit value, lowercase.
pub open spec fn spec_hex_digit(d: int) -> u8 {
    if d < 10 {
        (48 + d) as u8
    } else {
        (87 + d) as u8
    }
}

/// An ASCII byte that is a lowercase hex digit.
pub open spec fn is_hex_digit(b: u8) -> bool {
    (48 <= b <= 57) || (97 <= b <= 102)
}

/// The value of one hex digit byte.
pub open spec fn spec_hex_val(b: u8) -> nat {
    if 48 <= b <= 57 {
        (b - 48) as nat
    } else if 97 <= b <= 102 {
        (b - 87) as nat
    } else {
        0
    }
}

/// `v` in fixed-width lowercase hex, most significant digit first.
pub open spec fn spec_encode_hex(v: nat, width: nat) -> Seq<u8>
    decreases width,
{
    if width == 0 {
        Seq::empty()
    } else {
        spec_encode_hex(v / 16, (width - 1) as nat).push(spec_hex_digit((v % 16) as int))
    }
}

/// The value of a big-endian sequence of hex digit bytes.
pub open spec fn spec_decode_hex(s: Seq<u8>) -> nat
    decreases s.len(),
{
    if s.len() == 0 {
        0
    } else {
        spec_decode_hex(s.drop_last()) * 16 + spec_hex_val(s.last())
    }
}

/// The capacities of the fixed widths the format uses.
pub proof fn lemma_pow16_values()
    ensures
        pow16(8) == 0x1_0000_0000nat,
        pow16(16) == 0x1_0000_0000_0000_0000nat,
        pow16(24) == 0x1_0000_0000_0000_0000_0000_0000nat,
        pow16(32) == 0x1_0000_0000_0000_0000_0000_0000_0000_0000nat,
{
    reveal_with_fuel(pow16, 33);
}

pub proof fn lemma_pow16_mono(a: nat, b: nat)
    requires
        a <= b,
    ensures
        pow16(a) <= pow16(b),
    decreases b,
{
    if a < b {
        lemma_pow16_mono(a, (b - 1) as nat);
        assert(pow16(b) == 16 * pow16((b - 1) as nat));
    }
}

pub proof fn lemma_encode_hex_props(v: nat, width: nat)
    ensures
        spec_encode_hex(v, width).len() == width,
        forall|i: int| 0 <= i < width ==> is_hex_digit(#[trigger] spec_encode_hex(v, width)[i]),
    decreases width,
{
    if width > 0 {
        lemma_encode_hex_props(v / 16, (width - 1) as nat);
        let pre = spec_encode_hex(v / 16, (width - 1) as nat);
        assert(spec_encode_hex(v, width) == pre.push(spec_hex_digit((v % 16) as int)));
        assert(is_hex_digit(spec_hex_digit((v % 16) as int)));
        assert(forall|i: int|
            0 <= i < width - 1 ==> #[trigger] spec_encode_hex(v, width)[i] == pre[i]);
    }
}

/// Fixed-width hex decoding inverts encoding for every value the width
/// can hold.
pub proof fn lemma_hex_round_trip(v: nat, width: nat)
    requires
        v < pow16(width),
    ensures
        spec_decode_hex(spec_encode_hex(v, width)) == v,
    decreases width,
{
    if width == 0 {
        assert(v == 0);
    } else {
        let w1 = (width - 1) as nat;
        let d = spec_hex_digit((v % 16) as int);
        lemma_encode_hex_props(v / 16, w1);
        assert(spec_encode_hex(v, width).drop_last() =~= spec_encode_hex(v / 16, w1));
        assert(spec_encode_hex(v, width).last() == d);
        assert(v / 16 < pow16(w1)) by {
            lemma_multiply_divide_lt(v as int, 16, pow16(w1) as int);
        }
        lemma_hex_round_trip(v / 16, w1);
        assert(spec_hex_val(d) == v % 16);
        assert(spec_decode_hex(spec_encode_hex(v, width)) == (v / 16) * 16 + v % 16);
        assert((v / 16) * 16 + v % 16 == v) by {
            lemma_fundamental_div_mod(v as int, 16);
        }
    }
}

/// A hex digit sequence decodes below the width's capacity.
pub proof fn lemma_decode_hex_bound(s: Seq<u8>)
    ensures
        spec_decode_hex(s) < pow16(s.len() as nat),
    decreases s.len(),
{
    if s.len() > 0 {
        lemma_decode_hex_bound(s.drop_last());
        let p = pow16((s.len() - 1) as nat);
        assert(spec_hex_val(s.last()) <= 15);
        assert(spec_decode_hex(s.drop_last()) * 16 + 15 < 16 * p) by (nonlinear_arith)
            requires
                spec_decode_hex(s.drop_last()) < p,
        ;
    }
}

/// The ASCII byte for one hex digit value.
fn hex_digit_byte(d: u8) -> (r: u8)
    requires
        d < 16,
    ensures
        r == spec_hex_digit(d as int),
{
    if d < 10 {
        48 + d
    } else {
        87 + d
    }
}

/// The value of one hex digit byte.
fn hex_val_byte(b: u8) -> (r: u8)
    requires
        is_hex_digit(b),
    ensures
        r as nat == spec_hex_val(b),
        r < 16,
{
    if b <= 57 {
        b - 48
    } else {
        b - 87
    }
}

/// Append `v` in fixed-width lowercase hex.
pub(crate) fn push_hex(out: &mut Vec<u8>, v: u128, width: usize)
    ensures
        final(out)@ == old(out)@ + spec_encode_hex(v as nat, width as nat),
    decreases width,
{
    if width == 0 {
        assert(old(out)@ + spec_encode_hex(v as nat, 0) =~= old(out)@);
        return ;
    }
    push_hex(out, v / 16, width - 1);
    out.push(hex_digit_byte((v % 16) as u8));
    assert((v % 16) as u8 as int == (v as nat % 16) as int);
    assert(out@ =~= old(out)@ + spec_encode_hex(v as nat, width as nat));
}

/// Read `width` hex digit bytes starting at `start`; nothing if any
/// byte is not a hex digit.
fn parse_hex(bytes: &Vec<u8>, start: usize, width: usize) -> (r: Option<u128>)
    requires
        start + width <= bytes@.len(),
        width <= 32,
    ensures
        match r {
            Some(v) => {
                &&& forall|q: int|
                    start <= q < start + width ==> is_hex_digit(#[trigger] bytes@[q])
                &&& v as nat == spec_decode_hex(bytes@.subrange(start as int, start + width))
            },
            None => !(forall|q: int|
                start <= q < start + width ==> is_hex_digit(#[trigger] bytes@[q])),
        },
{
    let len = bytes.len();
    let mut acc: u128 = 0;
    let mut k: usize = 0;
    proof {
        assert(bytes@.subrange(start as int, start as int) =~= Seq::<u8>::empty());
    }
    while k < width
        invariant
            len == bytes@.len(),
            start + width <= len,
            width <= 32,
            k <= width,
            forall|q: int| start <= q < start + k ==> is_hex_digit(#[trigger] bytes@[q]),
            acc as nat == spec_decode_hex(bytes@.subrange(start as int, start + k)),
            (acc as nat) < pow16(k as nat),
        decreases width - k,
    {
        let b = bytes[start + k];
        if !(48 <= b && b <= 57) && !(97 <= b && b <= 102) {
            return None;
        }
        let v = hex_val_byte(b);
        proof {
            let pre = bytes@.subrange(start as int, start + k);
            let post = bytes@.subrange(start as int, start + k + 1);
            assert(post.drop_last() =~= pre);
            assert(post.last() == bytes@[start + k]);
            assert((acc as nat) * 16 + 15 < pow16((k + 1) as nat)) by (nonlinear_arith)
                requires
                    (acc as nat) < pow16(k as nat),
                    pow16((k + 1) as nat) == 16 * pow16(k as nat),
            ;
            lemma_pow16_mono((k + 1) as nat, 32);
            lemma_pow16_values();
        }
        acc = acc * 16 + (v as u128);
        k = k + 1;
    }
    Some(acc)
}

/// A byte that may stand in a stored word: a lowercase ASCII letter.
pub open spec fn is_word_byte(b: u8) -> bool {
    97 <= b <= 122
}

/// A word as its ASCII bytes.
pub open spec fn spec_word_bytes(w: Seq<char>) -> Seq<u8> {
    w.map_values(|c: char| c as u8)
}

/// ASCII bytes as the word they spell.
pub open spec fn spec_bytes_word(s: Seq<u8>) -> Seq<char> {
    s.map_values(|b: u8| b as char)
}

proof fn lemma_word_byte_char(c: char)
    requires
        crate::game::is_lower_alpha(c),
    ensures
        is_word_byte(c as u8),
        ((c as u8) as char) == c,
{
}

/// The guess history as bytes: each guess's five letters, in order.
pub open spec fn spec_encode_guesses(gs: Seq<Seq<char>>) -> Seq<u8>
    decreases gs.len(),
{
    if gs.len() == 0 {
        Seq::empty()
    } else {
        spec_word_bytes(gs.first()) + spec_encode_guesses(gs.drop_first())
    }
}

/// One game as one record: identity (32 hex digits), target word
/// (5 letters), creation time (16 hex digits), guess count (one
/// digit), the guesses (5 letters each), and a terminating newline.
pub open spec fn spec_encode_game(m: GameModel) -> Seq<u8> {
    spec_encode_hex(m.id as nat, 32) + spec_word_bytes(m.word) + spec_encode_hex(
        m.created as nat,
        16,
    ) + seq![(48 + m.guesses.len()) as u8] + spec_encode_guesses(m.guesses) + seq![10u8]
}

/// A registry snapshot as its records, in order.
pub open spec fn spec_encode_games(s: Seq<GameModel>) -> Seq<u8>
    decreases s.len(),
{
    if s.len() == 0 {
        Seq::empty()
    } else {
        spec_encode_game(s.first()) + spec_encode_games(s.drop_first())
    }
}

/// Every byte of `s` is a hex digit.
pub open spec fn all_hex(s: Seq<u8>) -> bool {
    forall|i: int| 0 <= i < s.len() ==> is_hex_digit(#[trigger] s[i])
}

/// Every byte of `b` between `lo` and `hi` is a word letter.
pub open spec fn all_word_bytes(b: Seq<u8>, lo: int, hi: int) -> bool {
    forall|q: int| lo <= q < hi ==> is_word_byte(#[trigger] b[q])
}

/// Decode the rest of a record once identity and word are read: the
/// guess count, the guesses, and the terminating newline, starting at
/// `off`.
pub open spec fn spec_decode_tail(
    b: Seq<u8>,
    id: u128,
    word: Seq<char>,
    created: u64,
    off: int,
) -> Option<(GameModel, int)> {
    if off >= b.len() {
        None
    } else if !(48 <= b[off] <= 54) {
        None
    } else {
        let n = b[off] - 48;
        let k = off + 1 + 5 * n + 1;
        if b.len() < k {
            None
        } else if !all_word_bytes(b, off + 1, off + 1 + 5 * n) {
            None
        } else if b[k - 1] != 10 {
            None
        } else {
            Some(
                (
                    GameModel {
                        id,
                        word,
                        created,
                        guesses: Seq::new(
                            n as nat,
                            |j: int| spec_bytes_word(b.subrange(off + 1 + 5 * j, off + 6 + 5 * j)),
                        ),
                    },
                    k,
                ),
            )
        }
    }
}

/// Decode one record from the front of `b`: the restored game and how
/// many bytes the record took. A record whose creation-time field is a
/// single dash is a legacy form: its creation time is backfilled with
/// `now`.
pub open spec fn spec_decode_game(b: Seq<u8>, now: u64) -> Option<(GameModel, int)> {
    if b.len() < 38 {
        None
    } else if !all_hex(b.subrange(0, 32)) {
        None
    } else if !all_word_bytes(b, 32, 37) {
        None
    } else {
        let id = spec_decode_hex(b.subrange(0, 32)) as u128;
        let word = spec_bytes_word(b.subrange(32, 37));
        if b[37] == 45 {
            spec_decode_tail(b, id, word, now, 38)
        } else if b.len() < 53 {
            None
        } else if !all_hex(b.subrange(37, 53)) {
            None
        } else {
            spec_decode_tail(b, id, word, spec_decode_hex(b.subrange(37, 53)) as u64, 53)
        }
    }
}

/// Decode a whole document: every record in order; nothing if any part
/// of it cannot be read.
pub open spec fn spec_decode_games(b: Seq<u8>, now: u64) -> Option<Seq<GameModel>>
    decreases b.len(),
{
    if b.len() == 0 {
        Some(Seq::empty())
    } else {
        match spec_decode_game(b, now) {
            Some((m, k)) => {
                if 1 <= k <= b.len() {
                    match spec_decode_games(b.subrange(k, b.len() as int), now) {
                        Some(rest) => Some(seq![m] + rest),
                        None => None,
                    }
                } else {
                    None
                }
            },
            None => None,
        }
    }
}

/// Whatever decodes is a well-formed game.
pub proof fn lemma_decode_game_wf(b: Seq<u8>, now: u64, m: GameModel, k: int)
    requires
        spec_decode_game(b, now) == Some((m, k)),
    ensures
        game_wf(m),
        40 <= k <= b.len(),
{
    let word = spec_bytes_word(b.subrange(32, 37));
    assert(word.len() == 5);
    assert(forall|p: int|
        0 <= p < 5 ==> #[trigger] word[p] == (b.subrange(32, 37)[p] as char));
    assert(forall|p: int|
        0 <= p < 5 ==> crate::game::is_lower_alpha(#[trigger] word[p]));
    let off: int = if b[37] == 45 {
        38
    } else {
        53
    };
    let n = b[off] - 48;
    assert(0 <= n <= 6);
    assert(m.guesses.len() == n);
    assert forall|j: int| 0 <= j < m.guesses.len() implies word_wf(#[trigger] m.guesses[j]) by {
        let g = m.guesses[j];
        assert(g == spec_bytes_word(b.subrange(off + 1 + 5 * j, off + 6 + 5 * j)));
        assert(g.len() == 5);
        assert(forall|p: int|
            0 <= p < 5 ==> #[trigger] g[p] == (b.subrange(off + 1 + 5 * j, off + 6 + 5 * j)[p]
                as char));
        assert(forall|p: int|
            0 <= p < 5 ==> is_word_byte(#[trigger] b[off + 1 + 5 * j + p]));
        assert(forall|p: int|
            0 <= p < 5 ==> crate::game::is_lower_alpha(#[trigger] g[p]));
    }
}

proof fn lemma_encode_guesses_props(gs: Seq<Seq<char>>)
    requires
        forall|i: int| 0 <= i < gs.len() ==> word_wf(#[trigger] gs[i]),
    ensures
        spec_encode_guesses(gs).len() == 5 * gs.len(),
        forall|q: int|
            0 <= q < 5 * gs.len() ==> is_word_byte(#[trigger] spec_encode_guesses(gs)[q]),
        forall|j: int|
            0 <= j < gs.len() ==> spec_encode_guesses(gs).subrange(5 * j, 5 * j + 5)
                == spec_word_bytes(#[trigger] gs[j]),
    decreases gs.len(),
{
    if gs.len() > 0 {
        let w0 = spec_word_bytes(gs.first());
        let rest = spec_encode_guesses(gs.drop_first());
        assert(w0.len() == 5);
        assert(forall|p: int|
            0 <= p < 5 ==> #[trigger] w0[p] == (gs.first()[p] as u8));
        assert forall|p: int| 0 <= p < 5 implies is_word_byte(#[trigger] w0[p]) by {
            assert(crate::game::is_lower_alpha(gs.first()[p]));
            lemma_word_byte_char(gs.first()[p]);
        }
        assert(forall|i: int|
            0 <= i < gs.drop_first().len() ==> word_wf(#[trigger] gs.drop_first()[i]));
        lemma_encode_guesses_props(gs.drop_first());
        assert(spec_encode_guesses(gs).len() == 5 * gs.len());
        assert forall|j: int| 0 <= j < gs.len() implies spec_encode_guesses(gs).subrange(
            5 * j,
            5 * j + 5,
        ) == spec_word_bytes(#[trigger] gs[j]) by {
            if j == 0 {
                assert(spec_encode_guesses(gs).subrange(0, 5) =~= w0);
            } else {
                assert(spec_encode_guesses(gs).subrange(5 * j, 5 * j + 5) =~= rest.subrange(
                    5 * (j - 1),
                    5 * (j - 1) + 5,
                ));
                assert(gs.drop_first()[j - 1] == gs[j]);
            }
        }
    }
}

/// One record, followed by anything, decodes back to exactly the game
/// it encodes, consuming exactly the record.
proof fn lemma_decode_encode_game(m: GameModel, rest: Seq<u8>, now: u64)
    requires
        game_wf(m),
    ensures
        spec_encode_game(m).len() == 55 + 5 * m.guesses.len(),
        spec_decode_game(spec_encode_game(m) + rest, now) == Some(
            (m, spec_encode_game(m).len() as int),
        ),
{
    let n = m.guesses.len() as int;
    let ia = spec_encode_hex(m.id as nat, 32);
    let wb = spec_word_bytes(m.word);
    let ca = spec_encode_hex(m.created as nat, 16);
    let nb: Seq<u8> = seq![(48 + m.guesses.len()) as u8];
    let ga = spec_encode_guesses(m.guesses);
    let lb: Seq<u8> = seq![10u8];
    let e = spec_encode_game(m);
    let b = e + rest;
    lemma_encode_hex_props(m.id as nat, 32);
    lemma_encode_hex_props(m.created as nat, 16);
    lemma_encode_guesses_props(m.guesses);
    assert(wb.len() == 5);
    assert(e =~= ia + wb + ca + nb + ga + lb);
    assert(e.len() == 55 + 5 * n);
    // The pieces, read back out of the concatenation.
    assert(b.subrange(0, 32) =~= ia);
    assert(b.subrange(32, 37) =~= wb);
    assert(b.subrange(37, 53) =~= ca);
    assert(b[53] == (48 + m.guesses.len()) as u8);
    assert(b.subrange(54, 54 + 5 * n) =~= ga);
    assert(b[54 + 5 * n] == 10u8);
    // Identity and word fields.
    assert(b.len() >= 38);
    assert(all_hex(b.subrange(0, 32)));
    assert(forall|q: int| 32 <= q < 37 ==> #[trigger] b[q] == (m.word[q - 32] as u8));
    assert forall|q: int| 32 <= q < 37 implies is_word_byte(#[trigger] b[q]) by {
        lemma_word_byte_char(m.word[q - 32]);
    }
    lemma_pow16_values();
    lemma_hex_round_trip(m.id as nat, 32);
    assert(spec_decode_hex(b.subrange(0, 32)) as u128 == m.id);
    assert forall|p: int| 0 <= p < 5 implies #[trigger] spec_bytes_word(b.subrange(32, 37))[p]
        == m.word[p] by {
        lemma_word_byte_char(m.word[p]);
    }
    assert(spec_bytes_word(b.subrange(32, 37)) =~= m.word);
    // The creation-time field begins with a hex digit, never a dash.
    assert(is_hex_digit(b[37])) by {
        assert(b[37] == ca[0]);
    }
    assert(b[37] != 45);
    assert(b.len() >= 53);
    assert(all_hex(b.subrange(37, 53)));
    lemma_hex_round_trip(m.created as nat, 16);
    assert(spec_decode_hex(b.subrange(37, 53)) as u64 == m.created);
    // The tail: count, guesses, newline.
    assert(48 <= b[53] <= 54);
    assert(b[53] - 48 == n);
    let k = 53 + 1 + 5 * n + 1;
    assert(b.len() >= k);
    assert forall|q: int| 54 <= q < 54 + 5 * n implies is_word_byte(#[trigger] b[q]) by {
        assert(b[q] == ga[q - 54]);
    }
    assert(all_word_bytes(b, 54, 54 + 5 * n));
    assert(b[k - 1] == 10u8);
    let gdec = Seq::new(
        n as nat,
        |j: int| spec_bytes_word(b.subrange(54 + 5 * j, 59 + 5 * j)),
    );
    assert forall|j: int| 0 <= j < n implies #[trigger] gdec[j] == m.guesses[j] by {
        assert(b.subrange(54 + 5 * j, 59 + 5 * j) =~= ga.subrange(5 * j, 5 * j + 5));
        assert(ga.subrange(5 * j, 5 * j + 5) == spec_word_bytes(m.guesses[j]));
        assert forall|p: int| 0 <= p < 5 implies #[trigger] spec_bytes_word(
            spec_word_bytes(m.guesses[j]),
        )[p] == m.guesses[j][p] by {
            lemma_word_byte_char(m.guesses[j][p]);
        }
        assert(spec_bytes_word(spec_word_bytes(m.guesses[j])) =~= m.guesses[j]);
    }
    assert(gdec =~= m.guesses);
    assert(spec_decode_tail(
        b,
        m.id,
        spec_bytes_word(b.subrange(32, 37)),
        m.created,
        53,
    ) == Some((m, k)));
}

/// A snapshot is well-formed when each of its games is.
pub open spec fn snapshot_wf(s: Seq<GameModel>) -> bool {
    forall|i: int| 0 <= i < s.len() ==> game_wf(#[trigger] s[i])
}

/// Appending one game's record extends the document.
proof fn lemma_encode_games_snoc(s: Seq<GameModel>, m: GameModel)
    ensures
        spec_encode_games(s.push(m)) == spec_encode_games(s) + spec_encode_game(m),
    decreases s.len(),
{
    if s.len() == 0 {
        assert(s.push(m).first() == m);
        assert(s.push(m).drop_first() =~= Seq::<GameModel>::empty());
        assert(spec_encode_games(s.push(m).drop_first()) == Seq::<u8>::empty());
        assert(spec_encode_games(s.push(m)) == spec_encode_game(m) + Seq::<u8>::empty());
        assert(spec_encode_game(m) + Seq::<u8>::empty() =~= spec_encode_game(m));
        assert(spec_encode_games(s) + spec_encode_game(m) =~= spec_encode_game(m));
    } else {
        assert(s.push(m).first() == s.first());
        assert(s.push(m).drop_first() =~= s.drop_first().push(m));
        lemma_encode_games_snoc(s.drop_first(), m);
        assert(spec_encode_games(s.push(m)) == spec_encode_game(s.first()) + (spec_encode_games(
            s.drop_first(),
        ) + spec_encode_game(m)));
        assert(spec_encode_game(s.first()) + (spec_encode_games(s.drop_first())
            + spec_encode_game(m)) =~= (spec_encode_game(s.first()) + spec_encode_games(
            s.drop_first(),
        )) + spec_encode_game(m));
    }
}

/// Saving and loading round-trip: the document a well-formed snapshot
/// encodes to decodes back to exactly that snapshot, whatever clock
/// value the restorer would use for backfilling.
pub proof fn lemma_save_load_round_trip(s: Seq<GameModel>, now: u64)
    requires
        snapshot_wf(s),
    ensures
        spec_decode_games(spec_encode_games(s), now) == Some(s),
    decreases s.len(),
{
    if s.len() == 0 {
    } else {
        let m = s.first();
        let rest = spec_encode_games(s.drop_first());
        let b = spec_encode_games(s);
        assert(b == spec_encode_game(m) + rest);
        lemma_decode_encode_game(m, rest, now);
        let k = spec_encode_game(m).len() as int;
        assert(b.len() > 0);
        assert(1 <= k <= b.len());
        assert(b.subrange(k, b.len() as int) =~= rest);
        assert(forall|i: int|
            0 <= i < s.drop_first().len() ==> game_wf(#[trigger] s.drop_first()[i]));
        lemma_save_load_round_trip(s.drop_first(), now);
        assert(spec_decode_games(b, now) == Some(seq![m] + s.drop_first()));
        assert(seq![m] + s.drop_first() =~= s);
    }
}

/// Restoring a snapshot whose identities are unique rebuilds the very
/// same registry: each insertion is a plain append.
pub proof fn lemma_load_unique_is_identity(s: Seq<GameModel>)
    requires
        crate::registry::ids_unique(s),
    ensures
        crate::registry::spec_load_registry(s) == s,
    decreases s.len(),
{
    if s.len() > 0 {
        let pre = s.drop_last();
        assert(crate::registry::ids_unique(pre)) by {
            assert(forall|i: int| 0 <= i < pre.len() ==> #[trigger] pre[i] == s[i]);
        }
        lemma_load_unique_is_identity(pre);
        assert(!crate::registry::has_id(pre, s.last().id)) by {
            assert(forall|i: int| 0 <= i < pre.len() ==> #[trigger] pre[i] == s[i]);
            assert(s.last() == s[s.len() - 1]);
        }
        assert(crate::registry::spec_load_registry(s) == pre.push(s.last()));
        assert(pre.push(s.last()) =~= s);
    }
}

/// The persisted form of the registry: the full list of games.
pub struct SaveData {
    pub games: Vec<Game>,
}

proof fn lemma_encode_guesses_snoc(gs: Seq<Seq<char>>, w: Seq<char>)
    ensures
        spec_encode_guesses(gs.push(w)) == spec_encode_guesses(gs) + spec_word_bytes(w),
    decreases gs.len(),
{
    if gs.len() == 0 {
        assert(gs.push(w).first() == w);
        assert(gs.push(w).drop_first() =~= Seq::<Seq<char>>::empty());
        assert(spec_encode_guesses(gs.push(w).drop_first()) == Seq::<u8>::empty());
        assert(spec_encode_guesses(gs.push(w)) == spec_word_bytes(w) + Seq::<u8>::empty());
        assert(spec_word_bytes(w) + Seq::<u8>::empty() =~= spec_word_bytes(w));
        assert(spec_encode_guesses(gs) + spec_word_bytes(w) =~= spec_word_bytes(w));
    } else {
        assert(gs.push(w).first() == gs.first());
        assert(gs.push(w).drop_first() =~= gs.drop_first().push(w));
        lemma_encode_guesses_snoc(gs.drop_first(), w);
        assert(spec_word_bytes(gs.first()) + (spec_encode_guesses(gs.drop_first())
            + spec_word_bytes(w)) =~= (spec_word_bytes(gs.first()) + spec_encode_guesses(
            gs.drop_first(),
        )) + spec_word_bytes(w));
    }
}

/// Append a word's five letters as bytes.
fn push_word(out: &mut Vec<u8>, w: &String)
    requires
        word_wf(w@),
    ensures
        final(out)@ == old(out)@ + spec_word_bytes(w@),
{
    let chars = crate::game::str_chars(w.as_str());
    let n = chars.len();
    for i in 0..n
        invariant
            n == w@.len(),
            chars@ == w@,
            word_wf(w@),
            out@ == old(out)@ + spec_word_bytes(w@).subrange(0, i as int),
    {
        out.push(chars[i] as u8);
        assert(out@ =~= old(out)@ + spec_word_bytes(w@).subrange(0, i + 1));
    }
    assert(spec_word_bytes(w@).subrange(0, w@.len() as int) =~= spec_word_bytes(w@));
}

/// Append one game's record.
fn push_game(out: &mut Vec<u8>, g: &Game)
    requires
        game_wf(g@),
    ensures
        final(out)@ == old(out)@ + spec_encode_game(g@),
{
    push_hex(out, g.id, 32);
    push_word(out, &g.word);
    push_hex(out, g.created as u128, 16);
    assert((g.created as u128) as nat == g.created as nat);
    out.push(48 + (g.guesses.len() as u8));
    let ghost base = out@;
    let ng = g.guesses.len();
    let mut j: usize = 0;
    while j < ng
        invariant
            game_wf(g@),
            ng == g@.guesses.len(),
            out@ == base + spec_encode_guesses(g@.guesses.subrange(0, j as int)),
            j <= ng,
        decreases ng - j,
    {
        let ghost prefix = g@.guesses.subrange(0, j as int);
        assert(g.guesses@[j as int]@ == g@.guesses[j as int]);
        assert(word_wf(g@.guesses[j as int]));
        push_word(out, &g.guesses[j]);
        proof {
            lemma_encode_guesses_snoc(prefix, g@.guesses[j as int]);
            assert(g@.guesses.subrange(0, j + 1) =~= prefix.push(g@.guesses[j as int]));
            assert(out@ =~= base + spec_encode_guesses(g@.guesses.subrange(0, j + 1)));
        }
        j = j + 1;
    }
    assert(g@.guesses.subrange(0, g@.guesses.len() as int) =~= g@.guesses);
    out.push(10);
    assert(out@ =~= old(out)@ + spec_encode_game(g@));
}

/// Serialize the full snapshot to its byte document, one record per
/// game, in order.
pub fn save(games: &Vec<Game>) -> (out: Vec<u8>)
    requires
        snapshot_wf(games.deep_view()),
    ensures
        out@ == spec_encode_games(games.deep_view()),
{
    let n = games.len();
    let mut out: Vec<u8> = Vec::new();
    assert(out@ =~= spec_encode_games(games.deep_view().subrange(0, 0)));
    for i in 0..n
        invariant
            n == games.deep_view().len(),
            snapshot_wf(games.deep_view()),
            out@ == spec_encode_games(games.deep_view().subrange(0, i as int)),
    {
        let ghost prefix = games.deep_view().subrange(0, i as int);
        assert(games@[i as int]@ == games.deep_view()[i as int]);
        assert(game_wf(games.deep_view()[i as int]));
        push_game(&mut out, &games[i]);
        proof {
            lemma_encode_games_snoc(prefix, games.deep_view()[i as int]);
            assert(games.deep_view().subrange(0, i + 1) =~= prefix.push(
                games.deep_view()[i as int],
            ));
        }
    }
    assert(games.deep_view().subrange(0, games.deep_view().len() as int) =~= games.deep_view());
    out
}

proof fn lemma_byte_char_word(b: u8)
    requires
        is_word_byte(b),
    ensures
        crate::game::is_lower_alpha(b as char),
{
}

/// Read the five letters of one stored word starting at `start`;
/// nothing if any byte is not a lowercase letter.
fn read_word(bytes: &Vec<u8>, start: usize) -> (r: Option<String>)
    requires
        start + 5 <= bytes@.len(),
    ensures
        match r {
            Some(w) => {
                &&& all_word_bytes(bytes@, start as int, start + 5)
                &&& w@ == spec_bytes_word(bytes@.subrange(start as int, start + 5))
                &&& word_wf(w@)
            },
            None => !all_word_bytes(bytes@, start as int, start + 5),
        },
{
    let len = bytes.len();
    let mut chunk: Vec<u8> = Vec::new();
    let mut p: usize = 0;
    while p < 5
        invariant
            len == bytes@.len(),
            start + 5 <= len,
            p <= 5,
            chunk@ == bytes@.subrange(start as int, start + p),
            forall|q: int| start <= q < start + p ==> is_word_byte(#[trigger] bytes@[q]),
        decreases 5 - p,
    {
        let b = bytes[start + p];
        if b < 97 || b > 122 {
            return None;
        }
        chunk.push(b);
        assert(chunk@ =~= bytes@.subrange(start as int, start + p + 1));
        p = p + 1;
    }
    assert(forall|q: int| 0 <= q < chunk@.len() ==> #[trigger] chunk@[q] < 128);
    let w = crate::ext::ascii_bytes_to_string(&chunk);
    assert(w@ == spec_bytes_word(bytes@.subrange(start as int, start + 5)));
    assert(word_wf(w@)) by {
        assert forall|p2: int| 0 <= p2 < w@.len() implies crate::game::is_lower_alpha(
            #[trigger] w@[p2],
        ) by {
            assert(w@[p2] == (bytes@[start + p2] as char));
            lemma_byte_char_word(bytes@[start + p2]);
        }
    }
    Some(w)
}

/// Read one record starting at `pos`: the restored game and the
/// position just past the record; nothing if the bytes there are not a
/// record.
#[verifier::rlimit(50)]
fn parse_record(bytes: &Vec<u8>, pos: usize, now: u64) -> (r: Option<(Game, usize)>)
    requires
        pos < bytes@.len(),
    ensures
        match r {
            Some((g, npos)) => {
                &&& spec_decode_game(bytes@.subrange(pos as int, bytes@.len() as int), now)
                    == Some((g@, npos - pos as int))
                &&& pos < npos <= bytes@.len()
                &&& game_wf(g@)
            },
            None => spec_decode_game(bytes@.subrange(pos as int, bytes@.len() as int), now)
                is None,
        },
{
    let len = bytes.len();
    let ghost sfx = bytes@.subrange(pos as int, len as int);
    assert(forall|q: int| 0 <= q < sfx.len() ==> #[trigger] sfx[q] == bytes@[pos + q]);
    if len - pos < 38 {
        return None;
    }
    // Identity: 32 hex digits.
    assert(sfx.subrange(0, 32) =~= bytes@.subrange(pos as int, pos + 32));
    let id128 = match parse_hex(bytes, pos, 32) {
        Some(v) => v,
        None => {
            assert(!all_hex(sfx.subrange(0, 32))) by {
                if all_hex(sfx.subrange(0, 32)) {
                    assert(forall|q: int|
                        pos <= q < pos + 32 ==> is_hex_digit(#[trigger] bytes@[q])) by {
                        assert(forall|q: int|
                            pos <= q < pos + 32 ==> bytes@[q] == sfx.subrange(0, 32)[q - pos]);
                    }
                }
            }
            return None;
        },
    };
    assert(all_hex(sfx.subrange(0, 32)));
    proof {
        lemma_decode_hex_bound(sfx.subrange(0, 32));
        lemma_pow16_values();
    }
    assert(id128 as nat == spec_decode_hex(sfx.subrange(0, 32)));
    assert(id128 == spec_decode_hex(sfx.subrange(0, 32)) as u128);
    // Target word: 5 letters.
    let word = match read_word(bytes, pos + 32) {
        Some(w) => w,
        None => {
            assert(!all_word_bytes(sfx, 32, 37)) by {
                if all_word_bytes(sfx, 32, 37) {
                    assert(forall|q: int|
                        pos + 32 <= q < pos + 37 ==> is_word_byte(#[trigger] bytes@[q])) by {
                        assert(forall|q: int|
                            pos + 32 <= q < pos + 37 ==> bytes@[q] == sfx[q - pos]);
                    }
                }
            }
            return None;
        },
    };
    assert(all_word_bytes(sfx, 32, 37));
    assert(bytes@.subrange(pos + 32, pos + 37) =~= sfx.subrange(32, 37));
    assert(word@ == spec_bytes_word(sfx.subrange(32, 37)));
    // Creation time: 16 hex digits, or a dash in the legacy form.
    let created: u64;
    let off: usize;
    if bytes[pos + 37] == 45 {
        created = now;
        off = 38;
    } else {
        if len - pos < 53 {
            return None;
        }
        assert(sfx.subrange(37, 53) =~= bytes@.subrange(pos + 37, pos + 53));
        match parse_hex(bytes, pos + 37, 16) {
            Some(v) => {
                proof {
                    lemma_decode_hex_bound(sfx.subrange(37, 53));
                    lemma_pow16_values();
                }
                assert(v as nat == spec_decode_hex(sfx.subrange(37, 53)));
                created = v as u64;
                assert(created == spec_decode_hex(sfx.subrange(37, 53)) as u64);
            },
            None => {
                assert(!all_hex(sfx.subrange(37, 53))) by {
                    if all_hex(sfx.subrange(37, 53)) {
                        assert(forall|q: int|
                            pos + 37 <= q < pos + 53 ==> is_hex_digit(#[trigger] bytes@[q])) by {
                            assert(forall|q: int|
                                pos + 37 <= q < pos + 53 ==> bytes@[q] == sfx.subrange(
                                    37,
                                    53,
                                )[q - pos - 37]);
                        }
                    }
                }
                return None;
            },
        }
        off = 53;
        assert(all_hex(sfx.subrange(37, 53)));
    }
    proof {
        if off == 38 {
            assert(sfx[37] == 45);
        } else {
            assert(is_hex_digit(sfx[37])) by {
                assert(sfx.subrange(37, 53)[0] == sfx[37]);
            }
            assert(sfx[37] != 45);
        }
        assert(spec_decode_game(sfx, now) == spec_decode_tail(
            sfx,
            id128,
            word@,
            created,
            off as int,
        ));
    }
    if len - pos <= off {
        assert(off >= sfx.len());
        assert(spec_decode_tail(sfx, id128, word@, created, off as int) is None);
        return None;
    }
    assert(off < sfx.len());
    // Guess count: one digit, at most six.
    let cb = bytes[pos + off];
    assert(cb == sfx[off as int]);
    if cb < 48 || cb > 54 {
        assert(spec_decode_tail(sfx, id128, word@, created, off as int) is None);
        return None;
    }
    let n = (cb - 48) as usize;
    let ghost k = off + 1 + 5 * n + 1;
    if len - pos < off + 1 + 5 * n + 1 {
        assert(sfx.len() < k);
        assert(spec_decode_tail(sfx, id128, word@, created, off as int) is None);
        return None;
    }
    // The guesses, five letters each.
    let mut guesses: Vec<String> = Vec::new();
    let mut j: usize = 0;
    while j < n
        invariant
            len == bytes@.len(),
            pos < len,
            sfx == bytes@.subrange(pos as int, len as int),
            n <= 6,
            off == 38 || off == 53,
            pos + off + 1 + 5 * n + 1 <= len,
            48 <= sfx[off as int] <= 54,
            sfx[off as int] - 48 == n,
            spec_decode_game(sfx, now) == spec_decode_tail(
                sfx,
                id128,
                word@,
                created,
                off as int,
            ),
            j <= n,
            guesses@.len() == j,
            forall|q: int|
                off + 1 <= q < off + 1 + 5 * j ==> is_word_byte(#[trigger] sfx[q]),
            forall|t: int|
                0 <= t < j ==> #[trigger] guesses.deep_view()[t] == spec_bytes_word(
                    sfx.subrange(off + 1 + 5 * t, off + 6 + 5 * t),
                ),
            forall|t: int| 0 <= t < j ==> word_wf(#[trigger] guesses.deep_view()[t]),
        decreases n - j,
    {
        let start = pos + off + 1 + 5 * j;
        let w = match read_word(bytes, start) {
            Some(w) => w,
            None => {
                assert(!all_word_bytes(sfx, off + 1 + 5 * j, off + 6 + 5 * j)) by {
                    if all_word_bytes(sfx, off + 1 + 5 * j, off + 6 + 5 * j) {
                        assert(forall|q: int|
                            pos + off + 1 + 5 * j <= q < pos + off + 6 + 5 * j ==> is_word_byte(
                                #[trigger] bytes@[q],
                            )) by {
                            assert(forall|q: int|
                                pos + off + 1 + 5 * j <= q < pos + off + 6 + 5 * j ==> bytes@[q]
                                    == sfx[q - pos]);
                        }
                    }
                }
                assert(!all_word_bytes(sfx, off + 1, off + 1 + 5 * n));
                assert(spec_decode_tail(sfx, id128, word@, created, off as int) is None);
                return None;
            },
        };
        let ghost pre = guesses.deep_view();
        guesses.push(w);
        proof {
            assert(bytes@.subrange(pos + off + 1 + 5 * j, pos + off + 6 + 5 * j) =~= sfx.subrange(
                off + 1 + 5 * j,
                off + 6 + 5 * j,
            ));
            assert(forall|t: int|
                0 <= t < pre.len() ==> #[trigger] guesses.deep_view()[t] == pre[t]);
            assert(guesses.deep_view()[j as int] == w@);
        }
        j = j + 1;
    }
    // The record ends with a newline.
    let nl = bytes[pos + off + 1 + 5 * n];
    assert(nl == sfx[k - 1]);
    if nl != 10 {
        proof {
            assert(48 <= sfx[off as int] <= 54);
            assert(all_word_bytes(sfx, off + 1, off + 1 + 5 * n));
            assert(spec_decode_tail(sfx, id128, word@, created, off as int) is None);
        }
        return None;
    }
    let g = Game { id: id128, word, guesses, created };
    let npos = pos + off + 1 + 5 * n + 1;
    proof {
        assert(48 <= sfx[off as int] <= 54);
        assert(sfx[off as int] - 48 == n);
        assert(all_word_bytes(sfx, off + 1, off + 1 + 5 * n));
        let gdec = Seq::new(
            n as nat,
            |t: int| spec_bytes_word(sfx.subrange(off + 1 + 5 * t, off + 6 + 5 * t)),
        );
        assert(g@.guesses =~= gdec);
        let m = GameModel { id: id128, word: word@, created, guesses: gdec };
        assert(spec_decode_tail(sfx, id128, word@, created, off as int) == Some((m, k)));
        assert(spec_decode_game(sfx, now) == Some((m, k)));
        assert(g@ == m);
        lemma_decode_game_wf(sfx, now, m, k);
    }
    Some((g, npos))
}

/// Decode a whole document back into its games. A document that
/// cannot be read reports `PersistenceFailure` rather than a partial
/// or made-up snapshot.
pub fn load(bytes: &Vec<u8>, now: u64) -> (r: Result<SaveData, GameError>)
    ensures
        match spec_decode_games(bytes@, now) {
            Some(ms) => {
                &&& r matches Ok(d) && d.games.deep_view() == ms
                &&& snapshot_wf(ms)
            },
            None => r == Err::<SaveData, GameError>(GameError::PersistenceFailure),
        },
{
    let len = bytes.len();
    let mut games: Vec<Game> = Vec::new();
    let mut pos: usize = 0;
    proof {
        assert(games.deep_view() =~= Seq::<GameModel>::empty());
        assert(bytes@.subrange(0, len as int) =~= bytes@);
        match spec_decode_games(bytes@, now) {
            Some(rest) => {
                assert(games.deep_view() + rest =~= rest);
            },
            None => {},
        }
    }
    while pos < len
        invariant
            len == bytes@.len(),
            pos <= len,
            snapshot_wf(games.deep_view()),
            spec_decode_games(bytes@, now) == (match spec_decode_games(
                bytes@.subrange(pos as int, len as int),
                now,
            ) {
                Some(rest) => Some(games.deep_view() + rest),
                None => None::<Seq<GameModel>>,
            }),
        decreases len - pos,
    {
        let ghost sfx = bytes@.subrange(pos as int, len as int);
        let (g, npos) = match parse_record(bytes, pos, now) {
            Some(x) => x,
            None => {
                assert(spec_decode_games(sfx, now) is None);
                return Err(GameError::PersistenceFailure);
            },
        };
        let ghost k = npos - pos as int;
        let ghost pre = games.deep_view();
        games.push(g);
        pos = npos;
        proof {
            assert(sfx.len() > 0);
            assert(1 <= k <= sfx.len());
            assert(sfx.subrange(k, sfx.len() as int) =~= bytes@.subrange(pos as int, len as int));
            assert(forall|t: int|
                0 <= t < pre.len() ==> #[trigger] games.deep_view()[t] == pre[t]);
            assert(games.deep_view()[pre.len() as int] == g@);
            match spec_decode_games(bytes@.subrange(pos as int, len as int), now) {
                Some(rest) => {
                    assert(spec_decode_games(sfx, now) == Some(seq![g@] + rest));
                    assert(pre + (seq![g@] + rest) =~= games.deep_view() + rest);
                },
                None => {
                    assert(spec_decode_games(sfx, now) is None);
                },
            }
        }
    }
    assert(bytes@.subrange(pos as int, len as int) =~= Seq::<u8>::empty());
    assert(spec_decode_games(Seq::<u8>::empty(), now) == Some(Seq::<GameModel>::empty()));
    assert(games.deep_view() + Seq::<GameModel>::empty() =~= games.deep_view());
    Ok(SaveData { games })
}


} // verus!
