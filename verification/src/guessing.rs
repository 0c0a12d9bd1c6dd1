//! A number-guessing game: the secret is drawn from 1 to 100, the player has
//! five attempts, and a running score of player against computer is kept
//! in a small text record `player,computer`.

use vstd::prelude::*;
use rand::Rng;
use crate::text::{
    chars_of, decimal, decimal_text, digits_only, is_white_space, lemma_decimal_digits,
    parse_u32_range, parse_u32_spec, trim, trim_bounds, trim_start,
};

verus! {

/// The number of guesses a player gets.
pub const ATTEMPTS: u32 = 5;

/// The smallest secret.
pub const LOWEST: u32 = 1;

/// The largest secret.
pub const HIGHEST: u32 = 100;

/// A number drawn uniformly from `low..=high` by
/// `rand::thread_rng().gen_range(low..=high)`. All that is stated is the
/// range, which `gen_range` documents for a non-empty range (it panics only
/// on an empty one, which `requires` leaves out); which number comes is left
/// to chance.
#[verifier::external_body]
fn draw_secret(low: u32, high: u32) -> (secret: u32)
    requires
        low <= high,
    ensures
        low <= secret <= high,
{
    rand::thread_rng().gen_range(low..=high)
}

/// Index of the first `sep` at or after `from`, or the length of `s`.
pub open spec fn find_sep(s: Seq<char>, sep: char, from: int) -> int
    decreases s.len() - from,
{
    if from < 0 || from >= s.len() || s[from] == sep {
        from
    } else {
        find_sep(s, sep, from + 1)
    }
}

/// The pieces of `s` between the separators `sep`, as `str::split` yields
/// them for a character pattern: there is always at least one piece, and
/// empty pieces are kept.
pub open spec fn split_fields(s: Seq<char>, sep: char) -> Seq<Seq<char>>
    decreases s.len(),
{
    let e = find_sep(s, sep, 0);
    if e >= s.len() {
        seq![s]
    } else {
        proof {
            lemma_find_sep(s, sep, 0);
        }
        seq![s.take(e)] + split_fields(s.skip(e + 1), sep)
    }
}

/// The separator search stops at or after `from`, on a separator or at the
/// end, with no separator before it.
pub proof fn lemma_find_sep(s: Seq<char>, sep: char, from: int)
    requires
        0 <= from <= s.len(),
    ensures
        from <= find_sep(s, sep, from) <= s.len(),
        find_sep(s, sep, from) < s.len() ==> s[find_sep(s, sep, from)] == sep,
        forall|k: int| from <= k < find_sep(s, sep, from) ==> s[k] != sep,
    decreases s.len() - from,
{
    if from < s.len() && s[from] != sep {
        lemma_find_sep(s, sep, from + 1);
    }
}

/// Searching a suffix finds the same separator, shifted.
proof fn lemma_find_sep_skip(s: Seq<char>, sep: char, k: int, from: int)
    requires
        0 <= k <= s.len(),
        0 <= from <= s.len() - k,
    ensures
        find_sep(s.skip(k), sep, from) == find_sep(s, sep, from + k) - k,
    decreases s.len() - k - from,
{
    if from < s.len() - k && s.skip(k)[from] != sep {
        lemma_find_sep_skip(s, sep, k, from + 1);
    }
}

/// The score a field of the record gives: the trimmed text parsed as a
/// `u32`, or 0 where it does not parse.
pub open spec fn field_score(field: Seq<char>) -> u32 {
    match parse_u32_spec(trim(field)) {
        Some(n) => n,
        None => 0,
    }
}

/// The scores a record holds: the first and second comma-separated fields,
/// a missing second field counting as `0`.
pub open spec fn read_scores(record: Seq<char>) -> (u32, u32) {
    let fields = split_fields(record, ',');
    (field_score(fields[0]), if fields.len() > 1 {
        field_score(fields[1])
    } else {
        0
    })
}

/// The record of two scores: `player,computer` in decimal.
pub open spec fn score_record(player: u32, computer: u32) -> Seq<char> {
    decimal(player as nat) + ","@ + decimal(computer as nat)
}

/// The first piece of `s`, and where the rest of the pieces begin.
proof fn lemma_first_field(s: Seq<char>, sep: char)
    ensures
        split_fields(s, sep).len() >= 1,
        split_fields(s, sep)[0] == s.take(find_sep(s, sep, 0)),
        find_sep(s, sep, 0) < s.len() ==> split_fields(s, sep).drop_first() == split_fields(
            s.skip(find_sep(s, sep, 0) + 1),
            sep,
        ),
{
    lemma_find_sep(s, sep, 0);
    let e = find_sep(s, sep, 0);
    if e >= s.len() {
        assert(s.take(e) =~= s);
    } else {
        assert((seq![s.take(e)] + split_fields(s.skip(e + 1), sep)).drop_first()
            =~= split_fields(s.skip(e + 1), sep));
    }
}

/// Read the two scores of a record, as `player,computer`.
pub fn parse_scores(record: &str) -> (scores: (u32, u32))
    ensures
        scores == read_scores(record@),
{
    let chars = chars_of(record);
    let ghost s = chars@;
    let mut e0: usize = 0;
    while e0 < chars.len() && chars[e0] != ','
        invariant
            e0 <= chars@.len(),
            find_sep(s, ',', e0 as int) == find_sep(s, ',', 0),
            s == chars@,
        decreases chars@.len() - e0,
    {
        e0 = e0 + 1;
    }
    proof {
        lemma_first_field(s, ',');
        assert(s.take(e0 as int) =~= s.subrange(0, e0 as int));
    }
    let (a, b) = trim_bounds(&chars, 0, e0);
    let player = match parse_u32_range(&chars, a, b) {
        Some(n) => n,
        None => 0,
    };
    if e0 == chars.len() {
        proof {
            assert(split_fields(s, ',').len() == 1);
        }
        return (player, 0);
    }
    let start = e0 + 1;
    let mut e1: usize = start;
    while e1 < chars.len() && chars[e1] != ','
        invariant
            start <= e1 <= chars@.len(),
            find_sep(s, ',', e1 as int) == find_sep(s, ',', start as int),
            s == chars@,
        decreases chars@.len() - e1,
    {
        e1 = e1 + 1;
    }
    proof {
        let rest = s.skip(start as int);
        lemma_find_sep_skip(s, ',', start as int, 0);
        lemma_first_field(rest, ',');
        assert(split_fields(s, ',')[1] == split_fields(rest, ',')[0]);
        assert(rest.take(e1 - start) =~= s.subrange(start as int, e1 as int));
    }
    let (c, d) = trim_bounds(&chars, start, e1);
    let computer = match parse_u32_range(&chars, c, d) {
        Some(n) => n,
        None => 0,
    };
    (player, computer)
}

/// Write the two scores as a record, `player,computer`.
pub fn format_scores(player: u32, computer: u32) -> (record: String)
    ensures
        record@ == score_record(player, computer),
{
    let mut record = decimal_text(player as usize);
    record.append(",");
    record.append(decimal_text(computer as usize).as_str());
    record
}

/// Digits hold no white space, so trimming leaves them as they are.
proof fn lemma_trim_digits(s: Seq<char>)
    requires
        digits_only(s),
        s.len() > 0,
    ensures
        trim(s) == s,
{
    assert(!is_white_space(s[0]));
    assert(trim_start(s) == s);
    assert(!is_white_space(s.last()));
}

/// Reading a written record gives back the scores that were written.
pub proof fn lemma_scores_round_trip(player: u32, computer: u32)
    ensures
        read_scores(score_record(player, computer)) == (player, computer),
{
    let p = decimal(player as nat);
    let c = decimal(computer as nat);
    let r = score_record(player, computer);
    lemma_decimal_digits(player as nat);
    lemma_decimal_digits(computer as nat);
    reveal_strlit(",");
    assert(forall|i: int| 0 <= i < p.len() ==> p[i] != ',');
    assert forall|i: int| 0 <= i < p.len() implies r[i] != ',' by {
        assert(r[i] == p[i]);
    }
    assert(r[p.len() as int] == ',');
    assert(find_sep(r, ',', 0) == p.len()) by {
        lemma_find_sep(r, ',', 0);
        if find_sep(r, ',', 0) < p.len() {
            assert(r[find_sep(r, ',', 0)] != ',');
        }
    }
    lemma_first_field(r, ',');
    assert(r.take(p.len() as int) =~= p);
    let rest = r.skip(p.len() + 1int);
    assert(rest =~= c);
    lemma_first_field(rest, ',');
    assert(find_sep(rest, ',', 0) == rest.len()) by {
        lemma_find_sep(rest, ',', 0);
        if find_sep(rest, ',', 0) < rest.len() {
            assert(rest[find_sep(rest, ',', 0)] != ',');
        }
    }
    assert(rest.take(rest.len() as int) =~= c);
    assert(split_fields(r, ',')[1] == c);
    lemma_trim_digits(p);
    lemma_trim_digits(c);
    assert(parse_u32_spec(p) == Some(player));
    assert(parse_u32_spec(c) == Some(computer));
}

/// The model of a round: the secret, the guesses left, the two scores, and
/// whether the round has ended.
pub struct GameState {
    pub secret: u32,
    pub attempts_left: u32,
    pub player: u32,
    pub computer: u32,
    pub over: bool,
}

/// What a turn of the game tells the player.
#[derive(PartialEq, Eq, Structural, Debug, Clone, Copy)]
pub enum Turn {
    /// No attempt is left: the round is lost and the secret is shown.
    OutOfAttempts,
    /// The input was not a number; no attempt is used.
    Invalid,
    /// The guess was below the secret; the number of attempts left follows.
    TooSmall(u32),
    /// The guess was above the secret; the number of attempts left follows.
    TooBig(u32),
    /// The guess was the secret: the round is won.
    Correct,
}

/// A state the game can be in: a secret in range and no more attempts than
/// a round starts with.
pub open spec fn valid_state(s: GameState) -> bool {
    &&& LOWEST <= s.secret <= HIGHEST
    &&& s.attempts_left <= ATTEMPTS
}

/// A guess (`None` where the input did not parse) played in state `s`.
pub open spec fn guess_turn(s: GameState, guess: Option<u32>) -> (GameState, Turn) {
    match guess {
        None => (s, Turn::Invalid),
        Some(g) => if g < s.secret {
            (GameState { attempts_left: (s.attempts_left - 1) as u32, ..s }, Turn::TooSmall(
                (s.attempts_left - 1) as u32,
            ))
        } else if g > s.secret {
            (GameState { attempts_left: (s.attempts_left - 1) as u32, ..s }, Turn::TooBig(
                (s.attempts_left - 1) as u32,
            ))
        } else {
            (GameState { player: (s.player + 1) as u32, over: true, ..s }, Turn::Correct)
        },
    }
}

/// The end of a round whose attempts are used up: the computer scores.
pub open spec fn give_up_turn(s: GameState) -> (GameState, Turn) {
    (GameState { computer: (s.computer + 1) as u32, over: true, ..s }, Turn::OutOfAttempts)
}

/// The number a line of input holds: the line without surrounding white
/// space, parsed as a `u32`; `None` where it is not one.
pub fn read_guess(line: &str) -> (guess: Option<u32>)
    ensures
        guess == parse_u32_spec(trim(line@)),
{
    let chars = chars_of(line);
    let (a, b) = trim_bounds(&chars, 0, chars.len());
    proof {
        assert(chars@.subrange(0, chars@.len() as int) =~= line@);
    }
    parse_u32_range(&chars, a, b)
}

/// One round of the game, with the running score.
pub struct Game {
    secret: u32,
    attempts_left: u32,
    player_score: u32,
    computer_score: u32,
    over: bool,
}

impl View for Game {
    type V = GameState;

    closed spec fn view(&self) -> GameState {
        GameState {
            secret: self.secret,
            attempts_left: self.attempts_left,
            player: self.player_score,
            computer: self.computer_score,
            over: self.over,
        }
    }
}

impl Game {
    /// A new round with a freshly drawn secret and the scores so far.
    pub fn new(player_score: u32, computer_score: u32) -> (game: Self)
        ensures
            valid_state(game@),
            game@.attempts_left == ATTEMPTS,
            game@.player == player_score,
            game@.computer == computer_score,
            !game@.over,
    {
        let secret = draw_secret(LOWEST, HIGHEST);
        Game::with_secret(secret, player_score, computer_score)
    }

    /// A new round with the given secret and the scores so far.
    pub fn with_secret(secret: u32, player_score: u32, computer_score: u32) -> (game: Self)
        requires
            LOWEST <= secret <= HIGHEST,
        ensures
            game@ == (GameState {
                secret,
                attempts_left: ATTEMPTS,
                player: player_score,
                computer: computer_score,
                over: false,
            }),
    {
        Game { secret, attempts_left: ATTEMPTS, player_score, computer_score, over: false }
    }

    /// The secret of this round.
    pub fn secret(&self) -> (secret: u32)
        ensures
            secret == self@.secret,
    {
        self.secret
    }

    /// The guesses left in this round.
    pub fn attempts_left(&self) -> (left: u32)
        ensures
            left == self@.attempts_left,
    {
        self.attempts_left
    }

    /// The player's score.
    pub fn player_score(&self) -> (score: u32)
        ensures
            score == self@.player,
    {
        self.player_score
    }

    /// The computer's score.
    pub fn computer_score(&self) -> (score: u32)
        ensures
            score == self@.computer,
    {
        self.computer_score
    }

    /// Whether the round has ended.
    pub fn is_over(&self) -> (over: bool)
        ensures
            over == self@.over,
    {
        self.over
    }

    /// Whether the guesses of this round are used up.
    pub fn out_of_attempts(&self) -> (out: bool)
        ensures
            out == (self@.attempts_left == 0),
    {
        self.attempts_left == 0
    }

    /// End a round whose guesses are used up: the computer scores a point.
    pub fn give_up(&mut self) -> (turn: Turn)
        requires
            valid_state(old(self)@),
            !old(self)@.over,
            old(self)@.attempts_left == 0,
            old(self)@.computer < u32::MAX,
        ensures
            valid_state(final(self)@),
            (final(self)@, turn) == give_up_turn(old(self)@),
    {
        self.computer_score = self.computer_score + 1;
        self.over = true;
        Turn::OutOfAttempts
    }

    /// Play one line of input as a guess: a line that does not parse as a
    /// number costs nothing; a wrong guess costs an attempt; the right one
    /// wins the round and the player scores a point.
    pub fn guess(&mut self, line: &str) -> (turn: Turn)
        requires
            valid_state(old(self)@),
            !old(self)@.over,
            old(self)@.attempts_left > 0,
            parse_u32_spec(trim(line@)) == Some(old(self)@.secret) ==> old(self)@.player < u32::MAX,
        ensures
            valid_state(final(self)@),
            (final(self)@, turn) == guess_turn(old(self)@, parse_u32_spec(trim(line@))),
    {
        match read_guess(line) {
            None => Turn::Invalid,
            Some(g) => {
                if g < self.secret {
                    self.attempts_left = self.attempts_left - 1;
                    Turn::TooSmall(self.attempts_left)
                } else if g > self.secret {
                    self.attempts_left = self.attempts_left - 1;
                    Turn::TooBig(self.attempts_left)
                } else {
                    self.player_score = self.player_score + 1;
                    self.over = true;
                    Turn::Correct
                }
            },
        }
    }
}

/// A turn keeps the state valid; an unreadable guess changes nothing; a
/// wrong guess uses exactly one attempt; a right guess ends the round; so a
/// round takes at most `ATTEMPTS` counted guesses.
pub proof fn lemma_guess_progress(s: GameState, guess: Option<u32>)
    requires
        valid_state(s),
        !s.over,
        s.attempts_left > 0,
        guess == Some(s.secret) ==> s.player < u32::MAX,
    ensures
        valid_state(guess_turn(s, guess).0),
        guess is None ==> guess_turn(s, guess).0 == s,
        guess is Some ==> guess_turn(s, guess).0.over || guess_turn(s, guess).0.attempts_left
            == s.attempts_left - 1,
        guess_turn(s, guess).0.secret == s.secret,
{
}

/// A finished round gives exactly one point, to the player or to the
/// computer, and never takes one away.
pub proof fn lemma_one_point_per_round(s: GameState, guess: Option<u32>)
    requires
        valid_state(s),
        !s.over,
        guess == Some(s.secret) ==> s.player < u32::MAX,
        s.computer < u32::MAX,
    ensures
        s.attempts_left > 0 && guess_turn(s, guess).0.over ==> guess_turn(s, guess).0.player
            + guess_turn(s, guess).0.computer == s.player + s.computer + 1,
        s.attempts_left > 0 && !guess_turn(s, guess).0.over ==> guess_turn(s, guess).0.player
            + guess_turn(s, guess).0.computer == s.player + s.computer,
        give_up_turn(s).0.over,
        give_up_turn(s).0.player + give_up_turn(s).0.computer == s.player + s.computer + 1,
{
}

/// A wrong guess tells on which side of the secret it lies: `TooSmall`
/// only for guesses below the secret and `TooBig` only for guesses above
/// it, each with the attempts then left; `Correct` only for the secret.
pub proof fn lemma_guess_answers(s: GameState, g: u32)
    requires
        valid_state(s),
        !s.over,
        s.attempts_left > 0,
    ensures
        guess_turn(s, Some(g)).1 is TooSmall <==> g < s.secret,
        guess_turn(s, Some(g)).1 is TooBig <==> g > s.secret,
        guess_turn(s, Some(g)).1 is Correct <==> g == s.secret,
        guess_turn(s, Some(g)).1 is TooSmall ==> guess_turn(s, Some(g)).1->TooSmall_0
            == guess_turn(s, Some(g)).0.attempts_left,
        guess_turn(s, Some(g)).1 is TooBig ==> guess_turn(s, Some(g)).1->TooBig_0
            == guess_turn(s, Some(g)).0.attempts_left,
{
}

/// Answers are consistent across guesses: any guess above one that was too
/// big is too big as well, and any guess below one that was too small is
/// too small as well.
pub proof fn lemma_guess_answers_consistent(s: GameState, g1: u32, g2: u32)
    requires
        valid_state(s),
        !s.over,
        s.attempts_left > 0,
    ensures
        guess_turn(s, Some(g1)).1 is TooBig && g1 <= g2 ==> guess_turn(s, Some(g2)).1 is TooBig,
        guess_turn(s, Some(g1)).1 is TooSmall && g2 <= g1 ==> guess_turn(s, Some(g2)).1 is TooSmall,
{
}

} // verus!
