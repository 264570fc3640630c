use poetry_game::fixture::FIXTURE_SEED;
use poetry_game::word_bank::{select_words_with_rng, selection_seed, WordBank};
use rand::rngs::SmallRng;
use rand::SeedableRng;

fn test_word_bank() -> WordBank {
    let words = |prefix: &str, count: usize| -> Vec<String> {
        (0..count).map(|index| format!("{prefix}-{index}")).collect()
    };
    WordBank {
        nouns: words("noun", 12),
        verbs: words("verb", 12),
        adjectives: words("adjective", 10),
        adverbs: words("adverb", 8),
        pronouns: words("pronoun", 10),
        prepositions: words("preposition", 14),
        conjunctions: words("conjunction", 6),
        articles: words("article", 5),
    }
}

#[test]
fn same_seed_selects_identical_words() {
    let bank = test_word_bank();
    let first = select_words_with_rng(&bank, &mut SmallRng::seed_from_u64(42));
    let second = select_words_with_rng(&bank, &mut SmallRng::seed_from_u64(42));
    assert_eq!(first, second);
    assert_eq!(first.len(), 40);
}

#[test]
fn different_seeds_can_differ() {
    let bank = test_word_bank();
    let a = select_words_with_rng(&bank, &mut SmallRng::seed_from_u64(1));
    let b = select_words_with_rng(&bank, &mut SmallRng::seed_from_u64(2));
    assert_ne!(a, b);
}

#[test]
fn selection_draws_fixed_counts_without_repeats() {
    let bank = test_word_bank();
    let words = select_words_with_rng(&bank, &mut SmallRng::seed_from_u64(7));
    for (prefix, count) in [
        ("noun-", 6),
        ("verb-", 6),
        ("adjective-", 4),
        ("adverb-", 2),
        ("pronoun-", 6),
        ("preposition-", 10),
        ("conjunction-", 3),
        ("article-", 3),
    ] {
        let mut picked: Vec<&String> = words.iter().filter(|w| w.starts_with(prefix)).collect();
        assert_eq!(picked.len(), count);
        picked.sort();
        picked.dedup();
        assert_eq!(picked.len(), count);
    }
}

#[test]
fn small_categories_give_all_their_words() {
    let mut bank = test_word_bank();
    bank.articles = vec!["the".to_string()];
    bank.adverbs = vec![];
    let words = select_words_with_rng(&bank, &mut SmallRng::seed_from_u64(3));
    assert_eq!(words.len(), 40 - 2 - 2);
    assert_eq!(words.iter().filter(|w| *w == "the").count(), 1);
}

#[test]
fn seed_choice_follows_settings() {
    assert_eq!(selection_seed(Some("42"), false), Some(42));
    assert_eq!(selection_seed(Some("+7"), true), Some(7));
    assert_eq!(selection_seed(Some("abc"), true), Some(FIXTURE_SEED));
    assert_eq!(selection_seed(Some("-1"), false), None);
    assert_eq!(selection_seed(Some("18446744073709551616"), false), None);
    assert_eq!(selection_seed(None, true), Some(FIXTURE_SEED));
    assert_eq!(selection_seed(None, false), None);
}

#[test]
fn selection_is_shuffled_across_parts_of_speech() {
    let bank = test_word_bank();
    let words = select_words_with_rng(&bank, &mut SmallRng::seed_from_u64(42));
    // Drawn in part-of-speech order, the first six words would all be nouns.
    assert!(!words[..6].iter().all(|w| w.starts_with("noun-")));
}

#[test]
fn seed_parsing_agrees_with_std_parse() {
    for text in [
        "0",
        "007",
        "+0",
        "+",
        "",
        "-",
        "-0",
        "++1",
        "1+",
        " 1",
        "1 ",
        "12a",
        "٣",
        "18446744073709551615",
        "+18446744073709551615",
        "18446744073709551616",
        "99999999999999999999",
        "000000000000000000000018446744073709551615",
        "18446744073709551615x",
    ] {
        assert_eq!(selection_seed(Some(text), false), text.parse::<u64>().ok(), "{text:?}");
    }
    assert_eq!(selection_seed(Some("18446744073709551615"), false), Some(u64::MAX));
}
