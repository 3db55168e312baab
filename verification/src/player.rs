//! What a player has done over the rounds: wins, guesses per win, how
//! often each word was guessed, and the games themselves.

use vstd::prelude::*;
use vstd::string::*;
use crate::word::{letters, comes_before, lemma_order_total};
use crate::recommend::{ranks_before, is_arrangement, sort_order};
use crate::cli::Cli;
use crate::input::{Reply, plays_on};

verus! {

/// One round as it is kept: the secret and the guesses in order.
#[derive(Clone, Debug, PartialEq, Eq)]
pub struct Game {
    pub answer: String,
    pub guesses: Vec<String>,
}

/// What is kept between two runs of the program.
#[derive(Clone, Debug, PartialEq, Eq)]
pub struct ModeState {
    pub total_rounds: i32,
    pub games: Vec<Game>,
}

/// The record of a player.
#[derive(Clone, Debug, PartialEq, Eq)]
pub struct Player {
    /// Rounds won.
    pub win_rounds: i32,
    /// Rounds begun.
    pub total_rounds: i32,
    /// For each round won, the number of guesses it took.
    pub win_guess_times: Vec<i32>,
    /// Each word guessed so far, with the number of times it was guessed.
    pub hot_words: Vec<(String, i32)>,
    /// The rounds played, oldest first.
    pub games: Vec<Game>,
}

/// The position of the entry for a word in a tally, or the length of the
/// tally where the word has none.
pub open spec fn entry_index(hot: Seq<(String, i32)>, word: Seq<char>) -> int
    decreases hot.len(),
{
    if hot.len() == 0 || hot[0].0@ == word {
        0
    } else {
        1 + entry_index(hot.drop_first(), word)
    }
}

/// A tally after one more guess of a word: the count of its entry is one
/// higher, or it has a new entry, at the end, with the count 1.
pub open spec fn counted(hot: Seq<(String, i32)>, word: String) -> Seq<(String, i32)> {
    let i = entry_index(hot, word@);
    if 0 <= i < hot.len() {
        hot.update(i, (hot[i].0, (hot[i].1 + 1) as i32))
    } else {
        hot.push((word, 1i32))
    }
}

/// A tally after the first `n` of a list of guesses.
pub open spec fn counted_all(hot: Seq<(String, i32)>, words: Seq<String>, n: int) -> Seq<(String, i32)>
    decreases n,
{
    if n <= 0 {
        hot
    } else {
        counted(counted_all(hot, words, n - 1), words[n - 1])
    }
}

/// A tally after the guesses of the first `n` games.
pub open spec fn tallied(hot: Seq<(String, i32)>, games: Seq<Game>, n: int) -> Seq<(String, i32)>
    decreases n,
{
    if n <= 0 {
        hot
    } else {
        counted_all(tallied(hot, games, n - 1), games[n - 1].guesses@, games[n - 1].guesses@.len() as int)
    }
}

/// A game was won when its last guess is its secret.
pub open spec fn is_won(game: Game) -> bool {
    game.guesses@.len() > 0 && game.guesses@.last()@ == game.answer@
}

/// For each game won among the first `n`, the number of its guesses.
pub open spec fn win_times(games: Seq<Game>, n: int) -> Seq<i32>
    decreases n,
{
    if n <= 0 {
        Seq::empty()
    } else if is_won(games[n - 1]) {
        win_times(games, n - 1).push(games[n - 1].guesses@.len() as i32)
    } else {
        win_times(games, n - 1)
    }
}

/// The number of guesses in the first `n` games.
pub open spec fn guesses_in(games: Seq<Game>, n: int) -> int
    decreases n,
{
    if n <= 0 {
        0
    } else {
        guesses_in(games, n - 1) + games[n - 1].guesses@.len()
    }
}

/// Every count of the tally can grow by `n` and still be a count.
pub open spec fn has_room(hot: Seq<(String, i32)>, n: int) -> bool {
    &&& n <= i32::MAX
    &&& forall|i: int| 0 <= i < hot.len() ==> (#[trigger] hot[i]).1 + n <= i32::MAX
}

/// The sum of the first `n` numbers.
pub open spec fn sum_of(numbers: Seq<i32>, n: int) -> int
    decreases n,
{
    if n <= 0 {
        0
    } else {
        sum_of(numbers, n - 1) + numbers[n - 1]
    }
}

/// The order of the hot words: the higher count first, and among equal
/// counts the word that comes first in dictionary order.
pub open spec fn hotter(a: (String, i32), b: (String, i32)) -> bool {
    a.1 > b.1 || (a.1 == b.1 && !comes_before(letters(&b.0), letters(&a.0)))
}

proof fn lemma_counted_room(hot: Seq<(String, i32)>, word: String, n: int)
    requires
        n >= 1,
        has_room(hot, n),
    ensures
        has_room(counted(hot, word), n - 1),
{
    let i = entry_index(hot, word@);
    let after = counted(hot, word);
    assert forall|k: int| 0 <= k < after.len() implies (#[trigger] after[k]).1 + (n - 1) <= i32::MAX by {
        if 0 <= i < hot.len() {
            assert(hot[k].1 + n <= i32::MAX);
        } else if k < hot.len() {
            assert(hot[k].1 + n <= i32::MAX);
        }
    }
}

proof fn lemma_room_shrinks(hot: Seq<(String, i32)>, m: int, n: int)
    requires
        has_room(hot, m),
        n <= m,
    ensures
        has_room(hot, n),
{
    assert forall|i: int| 0 <= i < hot.len() implies (#[trigger] hot[i]).1 + n <= i32::MAX by {
        assert(hot[i].1 + m <= i32::MAX);
    }
}

impl Player {
    /// The record of a player who has not played.
    pub fn new() -> (player: Player)
        ensures
            player.win_rounds == 0,
            player.total_rounds == 0,
            player.win_guess_times@.len() == 0,
            player.hot_words@.len() == 0,
            player.games@.len() == 0,
    {
        Player {
            win_rounds: 0,
            total_rounds: 0,
            win_guess_times: Vec::new(),
            hot_words: Vec::new(),
            games: Vec::new(),
        }
    }

    /// Counts a round as begun.
    pub fn begin_round(&mut self)
        requires
            old(self).total_rounds < i32::MAX,
        ensures
            final(self).total_rounds == old(self).total_rounds + 1,
            final(self).win_rounds == old(self).win_rounds,
            final(self).win_guess_times == old(self).win_guess_times,
            final(self).hot_words == old(self).hot_words,
            final(self).games == old(self).games,
    {
        self.total_rounds += 1;
    }

    /// Keeps a round that has ended. A round won adds a win and the
    /// number of its guesses.
    pub fn end_round(&mut self, answer: String, guesses: Vec<String>, won: bool)
        requires
            won ==> old(self).win_rounds < i32::MAX && guesses@.len() <= i32::MAX,
        ensures
            final(self).games@ == old(self).games@.push(Game { answer, guesses }),
            final(self).win_rounds == if won {
                old(self).win_rounds + 1
            } else {
                old(self).win_rounds as int
            },
            final(self).win_guess_times@ == if won {
                old(self).win_guess_times@.push(guesses@.len() as i32)
            } else {
                old(self).win_guess_times@
            },
            final(self).total_rounds == old(self).total_rounds,
            final(self).hot_words == old(self).hot_words,
    {
        if won {
            self.win_rounds += 1;
            self.win_guess_times.push(guesses.len() as i32);
        }
        self.games.push(Game { answer, guesses });
    }

    /// Counts one more guess of a word.
    pub fn count_guess(&mut self, word: &String)
        requires
            has_room(old(self).hot_words@, 1),
        ensures
            final(self).hot_words@ == counted(old(self).hot_words@, *word),
            final(self).win_rounds == old(self).win_rounds,
            final(self).total_rounds == old(self).total_rounds,
            final(self).win_guess_times == old(self).win_guess_times,
            final(self).games == old(self).games,
    {
        let ghost hot = self.hot_words@;
        let mut index: usize = 0;
        assert(hot.skip(0) =~= hot);
        while index < self.hot_words.len()
            invariant
                index <= hot.len(),
                self.hot_words@ == hot,
                *self == *old(self),
                has_room(hot, 1),
                entry_index(hot, word@) == index + entry_index(hot.skip(index as int), word@),
            decreases hot.len() - index,
        {
            proof {
                assert(hot.skip(index as int).drop_first() =~= hot.skip(index + 1));
            }
            if self.hot_words[index].0 == *word {
                let count = self.hot_words[index].1;
                let entry = (self.hot_words[index].0.clone(), count + 1);
                self.hot_words[index] = entry;
                return ;
            }
            index += 1;
        }
        self.hot_words.push((word.clone(), 1));
    }

    /// Takes over what was kept of earlier runs: the number of rounds and
    /// the games. The wins and the guessed words of those games are added
    /// to the record.
    pub fn read_state_before(&mut self, state: ModeState)
        requires
            has_room(old(self).hot_words@, guesses_in(state.games@, state.games@.len() as int)),
            old(self).win_rounds >= 0,
            old(self).win_rounds + state.games@.len() <= i32::MAX,
        ensures
            final(self).total_rounds == state.total_rounds,
            final(self).games == state.games,
            final(self).hot_words@ == tallied(old(self).hot_words@, state.games@, state.games@.len() as int),
            final(self).win_guess_times@ == old(self).win_guess_times@ + win_times(
                state.games@,
                state.games@.len() as int,
            ),
            final(self).win_rounds == old(self).win_rounds + win_times(
                state.games@,
                state.games@.len() as int,
            ).len(),
    {
        self.total_rounds = state.total_rounds;
        self.games = state.games;
        let ghost games = self.games@;
        let ghost total = guesses_in(games, games.len() as int);
        proof {
            lemma_guesses_grow(games, 0, games.len() as int);
        }
        let mut index: usize = 0;
        while index < self.games.len()
            invariant
                index <= games.len(),
                self.games@ == games,
                self.total_rounds == state.total_rounds,
                self.games == state.games,
                total == guesses_in(games, games.len() as int),
                guesses_in(games, index as int) <= total,
                has_room(self.hot_words@, total - guesses_in(games, index as int)),
                self.hot_words@ == tallied(old(self).hot_words@, games, index as int),
                self.win_guess_times@ == old(self).win_guess_times@ + win_times(games, index as int),
                self.win_rounds == old(self).win_rounds + win_times(games, index as int).len(),
                win_times(games, index as int).len() <= index,
                old(self).win_rounds >= 0,
                old(self).win_rounds + games.len() <= i32::MAX,
            decreases games.len() - index,
        {
            let ghost before = self.hot_words@;
            let ghost left = total - guesses_in(games, index as int);
            proof {
                lemma_guesses_grow(games, index + 1, games.len() as int);
            }
            let mut i: usize = 0;
            while i < self.games[index].guesses.len()
                invariant
                    index < games.len(),
                    self.games@ == games,
                    self.total_rounds == state.total_rounds,
                    self.games == state.games,
                    i <= games[index as int].guesses@.len(),
                    games[index as int].guesses@.len() <= left,
                    has_room(self.hot_words@, left - i),
                    self.hot_words@ == counted_all(before, games[index as int].guesses@, i as int),
                    self.win_guess_times@ == old(self).win_guess_times@ + win_times(games, index as int),
                    self.win_rounds == old(self).win_rounds + win_times(games, index as int).len(),
                decreases games[index as int].guesses@.len() - i,
            {
                proof {
                    lemma_counted_room(self.hot_words@, games[index as int].guesses@[i as int], left - i);
                    lemma_room_shrinks(self.hot_words@, left - i, 1);
                }
                let guess = self.games[index].guesses[i].clone();
                self.count_guess(&guess);
                i += 1;
            }
            let count = self.games[index].guesses.len();
            assert(count <= left <= i32::MAX);
            if count > 0 {
                if self.games[index].answer == self.games[index].guesses[count - 1] {
                    self.win_rounds += 1;
                    self.win_guess_times.push(count as i32);
                }
            }
            proof {
                assert(self.win_guess_times@ =~= old(self).win_guess_times@ + win_times(games, index + 1));
            }
            index += 1;
        }
    }

    /// What is to be kept for the next run: the number of rounds and the
    /// games.
    pub fn write_state_after(&self) -> (state: ModeState)
        ensures
            state.total_rounds == self.total_rounds,
            state.games@.len() == self.games@.len(),
            forall|i: int|
                0 <= i < state.games@.len() ==> (#[trigger] state.games@[i]).answer == self.games@[i].answer
                    && state.games@[i].guesses@ == self.games@[i].guesses@,
    {
        let mut games: Vec<Game> = Vec::new();
        let mut index: usize = 0;
        while index < self.games.len()
            invariant
                index <= self.games@.len(),
                games@.len() == index,
                forall|i: int|
                    0 <= i < index ==> (#[trigger] games@[i]).answer == self.games@[i].answer && games@[i].guesses@
                        == self.games@[i].guesses@,
            decreases self.games@.len() - index,
        {
            let game = &self.games[index];
            let mut guesses: Vec<String> = Vec::new();
            let mut i: usize = 0;
            while i < game.guesses.len()
                invariant
                    i <= game.guesses@.len(),
                    guesses@ == game.guesses@.take(i as int),
                decreases game.guesses@.len() - i,
            {
                guesses.push(game.guesses[i].clone());
                proof {
                    assert(guesses@ =~= game.guesses@.take(i + 1));
                }
                i += 1;
            }
            proof {
                assert(game.guesses@.take(game.guesses@.len() as int) =~= game.guesses@);
            }
            games.push(Game { answer: game.answer.clone(), guesses });
            index += 1;
        }
        ModeState { total_rounds: self.total_rounds, games }
    }

    /// Decides whether another round follows: never when the options give
    /// the secret outright; else unless the player answers with a key
    /// other than `y` or `Y`.
    pub fn have_next_game(&self, cli: &Cli, reply: Reply) -> (again: bool)
        ensures
            again == plays_on(cli.word is Some, reply),
    {
        if cli.word.is_some() {
            return false;
        }
        match reply {
            Reply::Silence => true,
            Reply::Char(c) => c == 'y' || c == 'Y',
            Reply::OtherKey => false,
        }
    }

    /// The guesses that the rounds won took, all together.
    pub fn win_guess_total(&self) -> (total: i128)
        ensures
            total == sum_of(self.win_guess_times@, self.win_guess_times@.len() as int),
    {
        let mut total: i128 = 0;
        let mut index: usize = 0;
        while index < self.win_guess_times.len()
            invariant
                index <= self.win_guess_times@.len(),
                total == sum_of(self.win_guess_times@, index as int),
                -0x8000_0000 * index <= total <= 0x8000_0000 * index,
            decreases self.win_guess_times@.len() - index,
        {
            total = total + self.win_guess_times[index] as i128;
            index += 1;
        }
        total
    }

    /// The words guessed so far with their counts, the most guessed
    /// first, and among equal counts in dictionary order.
    pub fn get_sorted_hot_words(&self) -> (sorted: Vec<(String, i32)>)
        ensures
            sorted@.len() == self.hot_words@.len(),
            forall|p: int, q: int| 0 <= p < q < sorted@.len() ==> hotter(#[trigger] sorted@[p], #[trigger] sorted@[q]),
            forall|p: int| 0 <= p < sorted@.len() ==> self.hot_words@.contains(#[trigger] sorted@[p]),
            forall|i: int| 0 <= i < sorted@.len() ==> sorted@.contains(#[trigger] self.hot_words@[i]),
    {
        let mut words: Vec<String> = Vec::new();
        let mut counts: Vec<i64> = Vec::new();
        let mut index: usize = 0;
        while index < self.hot_words.len()
            invariant
                index <= self.hot_words@.len(),
                words@.len() == index,
                counts@.len() == index,
                forall|i: int| 0 <= i < index ==> #[trigger] words@[i] == self.hot_words@[i].0,
                forall|i: int| 0 <= i < index ==> #[trigger] counts@[i] == self.hot_words@[i].1,
            decreases self.hot_words@.len() - index,
        {
            words.push(self.hot_words[index].0.clone());
            counts.push(self.hot_words[index].1 as i64);
            index += 1;
        }
        let order = sort_order(&words, &counts);
        let mut sorted: Vec<(String, i32)> = Vec::new();
        let mut place: usize = 0;
        while place < order.len()
            invariant
                place <= order@.len(),
                sorted@.len() == place,
                words@.len() == self.hot_words@.len(),
                is_arrangement(order@, self.hot_words@.len() as int),
                forall|p: int| 0 <= p < place ==> #[trigger] sorted@[p] == self.hot_words@[order@[p] as int],
            decreases order@.len() - place,
        {
            let at = order[place];
            sorted.push((self.hot_words[at].0.clone(), self.hot_words[at].1));
            place += 1;
        }
        proof {
            assert forall|p: int, q: int| 0 <= p < q < sorted@.len() implies hotter(
                #[trigger] sorted@[p],
                #[trigger] sorted@[q],
            ) by {
                let a = order@[p] as int;
                let b = order@[q] as int;
                assert(ranks_before(words@, counts@, a, b));
                lemma_order_total(letters(&words@[a]), letters(&words@[b]));
            }
            assert forall|i: int| 0 <= i < sorted@.len() implies sorted@.contains(#[trigger] self.hot_words@[i]) by {
                let k = i as usize;
                assert(order@.contains(k));
                let p = choose|p: int| 0 <= p < order@.len() && order@[p] == k;
                assert(sorted@[p] == self.hot_words@[i]);
            }
        }
        sorted
    }
}

/// A longer run of games holds no fewer guesses.
proof fn lemma_guesses_grow(games: Seq<Game>, m: int, n: int)
    requires
        m <= n,
    ensures
        guesses_in(games, m) <= guesses_in(games, n),
    decreases n - m,
{
    if m < n {
        lemma_guesses_grow(games, m, n - 1);
    }
}

} // verus!
