use word_puzzle::word_picker::{unique_letters_per_word, Rule, WordPicker};
use word_puzzle::words::{all_puzzle_words, is_puzzle_word, letter_at, same_word, word_contains};

const WORDS: [&str; 16] = [
    "those", "troll", "weigh", "hotel", "lathe", "crane", "slate", "eerie", "mamma", "level",
    "about", "zebra", "queue", "fuzzy", "stone", "world",
];

fn drain(pool: &mut WordPicker) -> Vec<&'static str> {
    let mut out = Vec::new();
    while let Some(word) = pool.pick_best_word() {
        out.push(word);
    }
    out
}

fn sorted(mut words: Vec<&'static str>) -> Vec<&'static str> {
    words.sort();
    words
}

#[test]
fn distinct_letters_are_counted() {
    assert_eq!(unique_letters_per_word("those"), 5);
    assert_eq!(unique_letters_per_word("troll"), 4);
    assert_eq!(unique_letters_per_word("eerie"), 3);
    assert_eq!(unique_letters_per_word("mamma"), 2);
    assert_eq!(unique_letters_per_word("zzzzz"), 1);
    assert_eq!(unique_letters_per_word(""), 0);
    assert_eq!(unique_letters_per_word("abcdefghijklmnopqrstuvwxyzabc"), 26);
}

#[test]
fn word_helpers_answer() {
    assert!(word_contains("hotel", 't'));
    assert!(!word_contains("hotel", 'a'));
    assert!(!word_contains("", 'a'));
    assert!(letter_at("hotel", 'l', 4));
    assert!(!letter_at("hotel", 'l', 3));
    assert!(!letter_at("hotel", 'l', 5));
    assert!(same_word("hotel", "hotel"));
    assert!(!same_word("hotel", "hotels"));
    assert!(!same_word("hotel", "motel"));
}

#[test]
fn new_pool_holds_the_universe() {
    let mut pool = WordPicker::new(&WORDS);
    assert_eq!(pool.len(), 16);
    assert_eq!(sorted(drain(&mut pool)), sorted(WORDS.to_vec()));
    assert_eq!(pool.len(), 0);
}

#[test]
fn new_pool_keeps_duplicates() {
    let twice: [&str; 4] = ["those", "troll", "those", "troll"];
    let mut pool = WordPicker::new(&twice);
    assert_eq!(sorted(drain(&mut pool)), vec!["those", "those", "troll", "troll"]);
}

#[test]
fn best_words_come_out_by_falling_rank() {
    for _ in 0..20 {
        let mut pool = WordPicker::new(&WORDS);
        let ranks: Vec<usize> =
            drain(&mut pool).into_iter().map(unique_letters_per_word).collect();
        assert_eq!(ranks, vec![5, 5, 5, 5, 5, 5, 5, 5, 5, 5, 4, 4, 3, 3, 3, 2]);
    }
}

#[test]
fn pick_best_on_empty_pool_is_none() {
    let mut pool = WordPicker::new(&[]);
    assert_eq!(pool.pick_best_word(), None);
    assert_eq!(pool.len(), 0);
}

#[test]
fn pick_random_on_empty_pool_is_none() {
    let mut pool = WordPicker::new(&[]);
    assert_eq!(pool.pick_random(), None);
    assert_eq!(pool.len(), 0);
}

#[test]
fn pick_random_takes_one_word_out() {
    let mut pool = WordPicker::new(&WORDS);
    let mut taken = Vec::new();
    for left in (0..16).rev() {
        let word = pool.pick_random().unwrap();
        assert!(WORDS.contains(&word));
        taken.push(word);
        assert_eq!(pool.len(), left);
    }
    assert_eq!(pool.pick_random(), None);
    assert_eq!(sorted(taken), sorted(WORDS.to_vec()));
}

#[test]
fn pick_random_keeps_the_order_of_the_rest() {
    let mut pool = WordPicker::new(&WORDS);
    assert!(pool.pick_random().is_some());
    let ranks: Vec<usize> = drain(&mut pool).into_iter().map(unique_letters_per_word).collect();
    let mut falling = ranks.clone();
    falling.sort();
    falling.reverse();
    assert_eq!(ranks, falling);
    assert_eq!(ranks.len(), 15);
}

#[test]
fn pick_at_takes_the_word_at_the_index() {
    let mut pool = WordPicker::new(&["mamma", "eerie", "troll", "those"]);
    assert_eq!(pool.pick_at(4), None);
    assert_eq!(pool.len(), 4);
    assert_eq!(pool.pick_at(1), Some("eerie"));
    assert_eq!(pool.pick_at(0), Some("mamma"));
    assert_eq!(pool.pick_at(1), Some("those"));
    assert_eq!(pool.pick_at(0), Some("troll"));
    assert_eq!(pool.pick_at(0), None);
}

#[test]
fn remove_words_containing_drops_them() {
    let mut pool = WordPicker::new(&WORDS);
    pool.remove_words_containing('e');
    assert_eq!(pool.len(), 5);
    assert_eq!(sorted(drain(&mut pool)), vec!["about", "fuzzy", "mamma", "troll", "world"]);
}

#[test]
fn remove_words_not_containing_keeps_the_others() {
    let mut pool = WordPicker::new(&WORDS);
    pool.remove_words_not_containing('z');
    assert_eq!(pool.len(), 2);
    assert_eq!(sorted(drain(&mut pool)), vec!["fuzzy", "zebra"]);
}

#[test]
fn remove_words_without_letter_in_position_keeps_matches() {
    let mut pool = WordPicker::new(&WORDS);
    pool.remove_words_without_letter_in_position('t', 0);
    assert_eq!(sorted(drain(&mut pool)), vec!["those", "troll"]);
    let mut pool = WordPicker::new(&WORDS);
    pool.remove_words_without_letter_in_position('e', 4);
    assert_eq!(sorted(drain(&mut pool)), vec!["crane", "eerie", "lathe", "queue", "slate", "stone", "those"]);
}

#[test]
fn retain_follows_the_rule() {
    let mut pool = WordPicker::new(&WORDS);
    pool.retain(Rule::With('o'));
    pool.retain(Rule::Without('t'));
    pool.retain(Rule::At('l', 3));
    assert_eq!(drain(&mut pool), vec!["world"]);
    assert!(Rule::At('w', 0).keeps_word("world"));
    assert!(!Rule::At('w', 7).keeps_word("world"));
    assert!(Rule::Without('x').keeps_word("world"));
    assert!(!Rule::With('x').keeps_word("world"));
}

#[test]
fn eliminations_never_grow_the_pool() {
    for letter in 'a'..='z' {
        for position in 0..5 {
            let mut pool = WordPicker::new(&WORDS);
            pool.remove_words_without_letter_in_position(letter, position);
            let after_hit = pool.len();
            assert!(after_hit <= 16);
            pool.remove_words_not_containing(letter);
            assert_eq!(pool.len(), after_hit);
            pool.remove_words_containing(letter);
            assert_eq!(pool.len(), 0);
        }
    }
}

#[test]
fn eliminations_keep_the_order_of_rank() {
    let mut pool = WordPicker::new(&WORDS);
    pool.remove_words_not_containing('e');
    let ranks: Vec<usize> = drain(&mut pool).into_iter().map(unique_letters_per_word).collect();
    assert_eq!(ranks, vec![5, 5, 5, 5, 5, 5, 5, 5, 3, 3, 3]);
}

#[test]
fn puzzle_words_are_five_lowercase_letters() {
    assert!(is_puzzle_word("those"));
    assert!(is_puzzle_word("zzzzz"));
    assert!(!is_puzzle_word("Those"));
    assert!(!is_puzzle_word("thos"));
    assert!(!is_puzzle_word("thosee"));
    assert!(!is_puzzle_word("tho e"));
    assert!(!is_puzzle_word("th\u{f6}se"));
    assert!(!is_puzzle_word("th{se"));
    assert!(!is_puzzle_word("th`se"));
    assert!(all_puzzle_words(&WORDS));
    assert!(all_puzzle_words(&[]));
    assert!(!all_puzzle_words(&["those", "Troll"]));
}
