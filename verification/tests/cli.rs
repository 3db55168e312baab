use wordle::cli::{Cli, CliError, Config};

fn w(s: &str) -> String {
    s.to_string()
}

fn bare() -> Cli {
    Cli {
        word: None,
        random: false,
        difficult: false,
        stats: false,
        day: None,
        seed: None,
        final_set: None,
        acceptable_set: None,
        state: None,
        config: None,
        prompt: None,
    }
}

fn empty_config() -> Config {
    Config {
        word: None,
        random: None,
        difficult: None,
        stats: None,
        day: None,
        seed: None,
        final_set: None,
        acceptable_set: None,
        state: None,
        prompt: None,
    }
}

#[test]
fn defaults_are_filled_in() {
    let mut cli = bare();
    assert_eq!(cli.check_conflict(), Ok(()));
    assert_eq!(cli.day, Some(1));
    assert_eq!(cli.seed, Some(42));
    let mut cli = bare();
    cli.day = Some(5);
    cli.seed = Some(9);
    cli.random = true;
    assert_eq!(cli.check_conflict(), Ok(()));
    assert_eq!(cli.day, Some(5));
    assert_eq!(cli.seed, Some(9));
}

#[test]
fn word_with_day_or_seed_is_refused_before_defaults() {
    let mut cli = bare();
    cli.word = Some(w("CRANE"));
    cli.day = Some(2);
    let before = cli.clone();
    assert_eq!(cli.check_conflict(), Err(CliError::WordWithDayOrSeed));
    assert_eq!(cli, before);
    let mut cli = bare();
    cli.word = Some(w("CRANE"));
    cli.seed = Some(2);
    assert_eq!(cli.check_conflict(), Err(CliError::WordWithDayOrSeed));
    assert_eq!(cli.day, None);
    // with random mode as well, this is still the fault reported
    cli.random = true;
    assert_eq!(cli.check_conflict(), Err(CliError::WordWithDayOrSeed));
}

#[test]
fn word_alone_is_fine() {
    let mut cli = bare();
    cli.word = Some(w("CRANE"));
    assert_eq!(cli.check_conflict(), Ok(()));
    assert_eq!(cli.day, Some(1));
    assert_eq!(cli.seed, Some(42));
}

#[test]
fn random_with_word_is_refused() {
    let mut cli = bare();
    cli.word = Some(w("CRANE"));
    cli.random = true;
    assert_eq!(cli.check_conflict(), Err(CliError::RandomWithWord));
    assert_eq!(cli.day, Some(1));
    assert_eq!(cli.seed, Some(42));
}

#[test]
fn day_below_one_is_refused() {
    let mut cli = bare();
    cli.day = Some(0);
    assert_eq!(cli.check_conflict(), Err(CliError::DayBelowOne));
    assert_eq!(cli.seed, Some(42));
    cli.day = Some(-4);
    assert_eq!(cli.check_conflict(), Err(CliError::DayBelowOne));
    cli.day = Some(1);
    assert_eq!(cli.check_conflict(), Ok(()));
}

#[test]
fn configuration_fills_what_the_command_line_leaves_out() {
    let mut cli = bare();
    cli.seed = Some(5);
    cli.stats = true;
    cli.final_set = Some(w("mine.txt"));
    cli.config = Some(w("config.json"));
    let config = Config {
        word: None,
        random: Some(true),
        difficult: Some(false),
        stats: Some(false),
        day: Some(3),
        seed: Some(99),
        final_set: Some(w("final.txt")),
        acceptable_set: Some(w("acceptable.txt")),
        state: Some(w("state.json")),
        prompt: Some(4),
    };
    assert_eq!(cli.mix_with_config(&Some(config)), Ok(()));
    assert!(cli.random);
    assert!(!cli.difficult);
    assert!(cli.stats);
    assert_eq!(cli.day, Some(3));
    assert_eq!(cli.seed, Some(5));
    assert_eq!(cli.final_set, Some(w("mine.txt")));
    assert_eq!(cli.acceptable_set, Some(w("acceptable.txt")));
    assert_eq!(cli.state, Some(w("state.json")));
    assert_eq!(cli.prompt, Some(4));
    assert_eq!(cli.word, None);
    assert_eq!(cli.config, Some(w("config.json")));
}

#[test]
fn conflicts_are_judged_after_the_merge() {
    let mut cli = bare();
    cli.day = Some(2);
    let mut config = empty_config();
    config.word = Some(w("CRANE"));
    assert_eq!(cli.mix_with_config(&Some(config)), Err(CliError::WordWithDayOrSeed));
    assert_eq!(cli.word, Some(w("CRANE")));
    assert_eq!(cli.seed, None);
    let mut cli = bare();
    cli.word = Some(w("SLATE"));
    let mut config = empty_config();
    config.word = Some(w("CRANE"));
    config.random = Some(true);
    assert_eq!(cli.mix_with_config(&Some(config)), Err(CliError::RandomWithWord));
    assert_eq!(cli.word, Some(w("SLATE")));
}

#[test]
fn without_a_configuration_only_the_check_runs() {
    let mut cli = bare();
    assert_eq!(cli.mix_with_config(&None), Ok(()));
    assert_eq!(cli.day, Some(1));
    assert_eq!(cli.seed, Some(42));
    let mut cli = bare();
    assert_eq!(cli.mix_with_config(&Some(empty_config())), Ok(()));
    assert!(!cli.random);
}

#[test]
fn state_file_wants_random_mode() {
    let mut cli = bare();
    assert_eq!(cli.state_file(), Ok(None));
    cli.state = Some(w("state.json"));
    assert_eq!(cli.state_file(), Err(CliError::StateWithoutRandom));
    cli.random = true;
    assert_eq!(cli.state_file(), Ok(Some(w("state.json"))));
}

#[test]
fn errors_in_words() {
    assert_eq!(CliError::WordWithDayOrSeed.message(), "In word mode, you con't use -d/--day or -s/--seed!");
    assert_eq!(CliError::RandomWithWord.message(), "Random mode and word mode can't exist at the same time!");
    assert_eq!(CliError::DayBelowOne.message(), "day less than 1");
    assert_eq!(CliError::StateWithoutRandom.message(), "--state/-S is only valid in random mode!");
}
