//! The options of a game: what the command line gives, completed from a
//! configuration, and checked for contradictions.

use vstd::prelude::*;
use vstd::string::*;

verus! {

/// The options as given on the command line.
#[derive(Clone, Debug, PartialEq, Eq)]
pub struct Cli {
    /// The secret, where it is given outright.
    pub word: Option<String>,
    /// The secret is drawn from the shuffled list of final words.
    pub random: bool,
    /// Hard mode.
    pub difficult: bool,
    /// Statistics are shown after each round.
    pub stats: bool,
    /// The round to begin with, counted from 1.
    pub day: Option<i32>,
    /// The seed of the shuffle.
    pub seed: Option<u64>,
    /// The file of final words.
    pub final_set: Option<String>,
    /// The file of acceptable words.
    pub acceptable_set: Option<String>,
    /// The file that keeps the games played.
    pub state: Option<String>,
    /// The configuration file.
    pub config: Option<String>,
    /// How many next guesses to recommend.
    pub prompt: Option<i32>,
}

/// The options as a configuration file gives them.
#[derive(Clone, Debug, PartialEq, Eq)]
pub struct Config {
    pub word: Option<String>,
    pub random: Option<bool>,
    pub difficult: Option<bool>,
    pub stats: Option<bool>,
    pub day: Option<i32>,
    pub seed: Option<u64>,
    pub final_set: Option<String>,
    pub acceptable_set: Option<String>,
    pub state: Option<String>,
    pub prompt: Option<i32>,
}

/// Options that contradict each other.
#[derive(Clone, Copy, Debug, PartialEq, Eq, Structural)]
pub enum CliError {
    /// A secret is given together with a day or a seed.
    WordWithDayOrSeed,
    /// A secret is given in random mode.
    RandomWithWord,
    /// The day is below 1.
    DayBelowOne,
    /// A state file is given outside random mode.
    StateWithoutRandom,
}

/// The day to begin with where none is given.
pub const DEFAULT_DAY: i32 = 1;

/// The seed where none is given.
pub const DEFAULT_SEED: u64 = 42;

/// The first of two options that is given.
pub open spec fn first_given<T>(a: Option<T>, b: Option<T>) -> Option<T> {
    if a is Some {
        a
    } else {
        b
    }
}

/// The command line completed from a configuration: an option that the
/// command line leaves out is taken from the configuration.
pub open spec fn merged(cli: Cli, config: Config) -> Cli {
    Cli {
        word: first_given(cli.word, config.word),
        random: cli.random || config.random == Some(true),
        difficult: cli.difficult || config.difficult == Some(true),
        stats: cli.stats || config.stats == Some(true),
        day: first_given(cli.day, config.day),
        seed: first_given(cli.seed, config.seed),
        final_set: first_given(cli.final_set, config.final_set),
        acceptable_set: first_given(cli.acceptable_set, config.acceptable_set),
        state: first_given(cli.state, config.state),
        config: cli.config,
        prompt: first_given(cli.prompt, config.prompt),
    }
}

/// The options with the day and the seed filled in where they are missing.
pub open spec fn with_defaults(cli: Cli) -> Cli {
    Cli {
        day: first_given(cli.day, Some(DEFAULT_DAY)),
        seed: first_given(cli.seed, Some(DEFAULT_SEED)),
        ..cli
    }
}

/// The contradiction in a set of options, if there is one; the first of
/// them in the order of `CliError`.
pub open spec fn conflict(cli: Cli) -> Option<CliError> {
    if cli.word is Some && (cli.day is Some || cli.seed is Some) {
        Some(CliError::WordWithDayOrSeed)
    } else if cli.random && cli.word is Some {
        Some(CliError::RandomWithWord)
    } else if with_defaults(cli).day->0 < 1 {
        Some(CliError::DayBelowOne)
    } else {
        None
    }
}

fn first_text(a: &Option<String>, b: &Option<String>) -> (r: Option<String>)
    ensures
        r == first_given(*a, *b),
{
    match a {
        Some(text) => Some(text.clone()),
        None => match b {
            Some(text) => Some(text.clone()),
            None => None,
        },
    }
}

impl CliError {
    /// The error in words.
    pub fn message(&self) -> (text: String)
        ensures
            text@ == match *self {
                CliError::WordWithDayOrSeed => "In word mode, you con't use -d/--day or -s/--seed!"@,
                CliError::RandomWithWord => "Random mode and word mode can't exist at the same time!"@,
                CliError::DayBelowOne => "day less than 1"@,
                CliError::StateWithoutRandom => "--state/-S is only valid in random mode!"@,
            },
    {
        match self {
            CliError::WordWithDayOrSeed => String::from_str("In word mode, you con't use -d/--day or -s/--seed!"),
            CliError::RandomWithWord => String::from_str("Random mode and word mode can't exist at the same time!"),
            CliError::DayBelowOne => String::from_str("day less than 1"),
            CliError::StateWithoutRandom => String::from_str("--state/-S is only valid in random mode!"),
        }
    }
}

impl Cli {
    /// Completes the options from a configuration, where there is one, and
    /// checks the result for contradictions.
    pub fn mix_with_config(&mut self, config: &Option<Config>) -> (result: Result<(), CliError>)
        ensures
            ({
                let mixed = match *config {
                    Some(file) => merged(*old(self), file),
                    None => *old(self),
                };
                &&& result == match conflict(mixed) {
                    Some(e) => Err::<(), CliError>(e),
                    None => Ok(()),
                }
                &&& *final(self) == if conflict(mixed) == Some(CliError::WordWithDayOrSeed) {
                    mixed
                } else {
                    with_defaults(mixed)
                }
            }),
    {
        match config {
            Some(cli_config) => {
                self.word = first_text(&self.word, &cli_config.word);
                if !self.random {
                    if let Some(random) = cli_config.random {
                        self.random = random;
                    }
                }
                if !self.difficult {
                    if let Some(difficult) = cli_config.difficult {
                        self.difficult = difficult;
                    }
                }
                if !self.stats {
                    if let Some(stats) = cli_config.stats {
                        self.stats = stats;
                    }
                }
                if self.day.is_none() {
                    self.day = cli_config.day;
                }
                if self.seed.is_none() {
                    self.seed = cli_config.seed;
                }
                self.final_set = first_text(&self.final_set, &cli_config.final_set);
                self.acceptable_set = first_text(&self.acceptable_set, &cli_config.acceptable_set);
                self.state = first_text(&self.state, &cli_config.state);
                if self.prompt.is_none() {
                    self.prompt = cli_config.prompt;
                }
            },
            None => {},
        }
        self.check_conflict()
    }

    /// Checks the options for contradictions and fills in the day and the
    /// seed where they are missing. A secret given together with a day or
    /// a seed is refused before anything is filled in.
    pub fn check_conflict(&mut self) -> (result: Result<(), CliError>)
        ensures
            result == match conflict(*old(self)) {
                Some(e) => Err::<(), CliError>(e),
                None => Ok(()),
            },
            *final(self) == if conflict(*old(self)) == Some(CliError::WordWithDayOrSeed) {
                *old(self)
            } else {
                with_defaults(*old(self))
            },
    {
        if self.word.is_some() {
            if self.day.is_some() || self.seed.is_some() {
                return Err(CliError::WordWithDayOrSeed);
            }
        }
        if self.day.is_none() {
            self.day = Some(DEFAULT_DAY);
        }
        if self.seed.is_none() {
            self.seed = Some(DEFAULT_SEED);
        }
        if self.random {
            if self.word.is_some() {
                return Err(CliError::RandomWithWord);
            }
        }
        match self.day {
            Some(day) => {
                if day < 1 {
                    return Err(CliError::DayBelowOne);
                }
            },
            None => {},
        }
        Ok(())
    }

    /// The file that keeps the games played, if one is to be used. A state
    /// file outside random mode is refused.
    pub fn state_file(&self) -> (result: Result<Option<String>, CliError>)
        ensures
            result == if self.state is None {
                Ok::<Option<String>, CliError>(None)
            } else if !self.random {
                Err(CliError::StateWithoutRandom)
            } else {
                Ok(self.state)
            },
    {
        match &self.state {
            Some(file_path) => {
                if !self.random {
                    return Err(CliError::StateWithoutRandom);
                }
                Ok(Some(file_path.clone()))
            },
            None => Ok(None),
        }
    }
}

} // verus!
