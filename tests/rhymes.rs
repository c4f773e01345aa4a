use doenamer::engine::{DoenamerConfig, LookupError, Rhymely};
use doenamer::game::Game;
use doenamer::lexicon::{CommonSet, Lexicon};
use doenamer::phonemes::blank_exec;

fn lines(ls: &[&str]) -> Vec<String> {
    ls.iter().map(|l| l.to_string()).collect()
}

fn animals() -> Lexicon {
    Lexicon::from_lines(&lines(&["CAT K AE1 T", "HAT HH AE1 T", "BAT B AE1 T", "DOG D AO1 G"]))
        .ok()
        .unwrap()
}

fn engine_with(lex: Lexicon, commons: &[&str], limit: Option<usize>, only_common: bool, fuzz: u64, homophones: bool) -> Rhymely {
    Rhymely::new(
        DoenamerConfig::new(limit, only_common, 0, fuzz, homophones),
        lex,
        CommonSet::from_lines(&lines(commons)),
    )
}

fn engine(fuzz: u64) -> Rhymely {
    engine_with(animals(), &["HAT", "THE"], None, false, fuzz, false)
}

#[test]
fn suffix_starts_at_first_stressed_token() {
    let e = engine(0);
    assert_eq!(e.phoneme_suffix("K AE1 T"), "AE1 T");
    assert_eq!(e.phoneme_suffix("R IH0 P EH1 R"), "IH0 P EH1 R");
}

#[test]
fn suffix_without_digit_is_whole_string() {
    let e = engine(0);
    assert_eq!(e.phoneme_suffix("K T"), "K T");
    assert_eq!(e.phoneme_suffix("K  T"), "K  T");
    assert_eq!(e.phoneme_suffix(""), "");
}

#[test]
fn suffix_rejoins_tokens_with_single_spaces() {
    let e = engine(0);
    assert_eq!(e.phoneme_suffix("K AE1  T"), "AE1 T");
    assert_eq!(e.phoneme_suffix("K\tAE1\tT"), "AE1 T");
    assert_eq!(e.phoneme_suffix("  K AE1 T  "), "AE1 T");
}

#[test]
fn suffix_is_idempotent() {
    let e = engine(0);
    for p in ["K AE1 T", "HH AH0 L OW1", "S T R", "AA1", "K AE1  T ", "B\tR AY1\tT"] {
        let once = e.phoneme_suffix(p);
        assert_eq!(e.phoneme_suffix(&once), once);
    }
}

#[test]
fn rhymes_follow_suffix_match() {
    let e = engine(0);
    assert!(e.rhymes("CAT", "HAT"));
    assert!(e.rhymes("HAT", "BAT"));
    assert!(!e.rhymes("CAT", "DOG"));
    assert!(!e.rhymes("DOG", "CAT"));
    assert!(!e.rhymes("CAT", "ZZZNOTAWORD"));
    assert!(!e.rhymes("ZZZNOTAWORD", "CAT"));
}

#[test]
fn every_word_rhymes_with_itself() {
    let e = engine(0);
    for w in e.wordlist() {
        assert!(e.rhymes(&w, &w));
    }
}

#[test]
fn distance_values() {
    let e = engine(0);
    assert_eq!(e.phoneme_distance("CAT", "BAT"), Ok(1));
    assert_eq!(e.phoneme_distance("CAT", "HAT"), Ok(2));
    assert_eq!(e.phoneme_distance("CAT", "DOG"), Ok(3));
}

#[test]
fn distance_is_symmetric() {
    let e = engine(0);
    let ws = e.wordlist();
    for a in &ws {
        for b in &ws {
            assert_eq!(e.phoneme_distance(a, b), e.phoneme_distance(b, a));
        }
    }
}

#[test]
fn distance_to_self_is_zero() {
    let e = engine(0);
    for w in e.wordlist() {
        assert_eq!(e.phoneme_distance(&w, &w), Ok(0));
    }
}

#[test]
fn distance_names_missing_operands() {
    let e = engine(0);
    assert_eq!(e.phoneme_distance("NOPE", "CAT"), Err(LookupError::First));
    assert_eq!(e.phoneme_distance("CAT", "NOPE"), Err(LookupError::Second));
    assert_eq!(e.phoneme_distance("NOPE", "NADA"), Err(LookupError::Both));
}

#[test]
fn unknown_word_is_reported() {
    let e = engine(0);
    match e.find_rhymes("ZZZNOTAWORD") {
        Err(err) => assert_eq!(err.word, "ZZZNOTAWORD"),
        Ok(_) => panic!("unknown word found"),
    }
}

#[test]
fn two_tiers_without_fuzz() {
    let e = engine(0);
    assert_eq!(e.find_rhymes("CAT").ok().unwrap(), vec!["BAT".to_string(), "HAT".to_string()]);
}

fn with_brat() -> Lexicon {
    Lexicon::from_lines(&lines(&["CAT K AE1 T", "BRAT B R AE1 T", "HAT HH AE1 T", "BAT B AE1 T", "DOG D AO1 G"]))
        .ok()
        .unwrap()
}

#[test]
fn fuzz_admits_next_tier() {
    let e0 = engine_with(with_brat(), &[], None, false, 0, false);
    assert_eq!(e0.phoneme_distance("CAT", "BRAT"), Ok(3));
    assert_eq!(e0.find_rhymes("CAT").ok().unwrap(), vec!["BAT".to_string(), "HAT".to_string()]);
    let e1 = engine_with(with_brat(), &[], None, false, 1, false);
    assert_eq!(
        e1.find_rhymes("CAT").ok().unwrap(),
        vec!["BAT".to_string(), "HAT".to_string(), "BRAT".to_string()]
    );
}

#[test]
fn cat_example_lexicon() {
    let e = engine(0);
    assert_eq!(e.phoneme_suffix("K AE1 T"), "AE1 T");
    let rs = e.find_rhymes("CAT").ok().unwrap();
    assert_eq!(rs.len(), 2);
    assert!(rs.contains(&"HAT".to_string()) && rs.contains(&"BAT".to_string()));
    assert!(!rs.contains(&"DOG".to_string()));
    assert!(e.rhymes("CAT", "HAT"));
    assert!(!e.rhymes("CAT", "DOG"));
}

#[test]
fn query_word_never_returned() {
    let e = engine(5);
    for w in e.wordlist() {
        let rs = e.find_rhymes(&w).ok().unwrap();
        assert!(!rs.contains(&w));
    }
}

#[test]
fn no_candidates_gives_empty_result() {
    let e = engine(3);
    assert!(e.find_rhymes("DOG").ok().unwrap().is_empty());
}

#[test]
fn homophones_excluded_by_default() {
    let lex = Lexicon::from_lines(&lines(&["CAT K AE1 T", "KAT K AE1 T", "BAT B AE1 T"])).ok().unwrap();
    let e = engine_with(lex, &[], None, false, 0, false);
    let rs = e.find_rhymes("CAT").ok().unwrap();
    assert_eq!(rs, vec!["BAT".to_string()]);
    for r in &rs {
        assert!(e.phoneme_distance("CAT", r).unwrap() > 0);
    }
}

#[test]
fn homophones_included_first_when_enabled() {
    let lex = Lexicon::from_lines(&lines(&["CAT K AE1 T", "KAT K AE1 T", "BRAT B R AE1 T", "BAT B AE1 T", "HAT HH AE1 T"]))
        .ok()
        .unwrap();
    let e = engine_with(lex, &[], None, false, 0, true);
    assert_eq!(
        e.find_rhymes("CAT").ok().unwrap(),
        vec!["KAT".to_string(), "BAT".to_string(), "HAT".to_string()]
    );
}

#[test]
fn common_only_keeps_common_words() {
    let e = engine_with(animals(), &["HAT", "THE"], None, true, 1, false);
    let rs = e.find_rhymes("CAT").ok().unwrap();
    assert_eq!(rs, vec!["HAT".to_string()]);
    let common = e.common();
    for r in &rs {
        assert!(common.contains(r));
    }
}

#[test]
fn limit_bounds_result() {
    let e = engine_with(animals(), &[], Some(1), false, 1, false);
    assert_eq!(e.find_rhymes("CAT").ok().unwrap(), vec!["BAT".to_string()]);
    let e0 = engine_with(animals(), &[], Some(0), false, 1, false);
    assert!(e0.find_rhymes("CAT").ok().unwrap().is_empty());
}

#[test]
fn equal_distances_keep_lexicon_order() {
    let lex = Lexicon::from_lines(&lines(&["CAT K AE1 T", "MAT M AE1 T", "BAT B AE1 T"])).ok().unwrap();
    let e = engine_with(lex, &[], None, false, 0, false);
    assert_eq!(e.find_rhymes("CAT").ok().unwrap(), vec!["MAT".to_string(), "BAT".to_string()]);
}

#[test]
fn suffix_matches_anywhere_in_phonemes() {
    let lex = Lexicon::from_lines(&lines(&["CAT K AE1 T", "CATS K AE1 T S", "DOG D AO1 G"])).ok().unwrap();
    let e = engine_with(lex, &[], None, false, 0, false);
    assert_eq!(e.find_rhymes("CAT").ok().unwrap(), vec!["CATS".to_string()]);
}

#[test]
fn wordlist_is_sorted() {
    let e = engine(0);
    assert_eq!(e.wordlist(), vec!["BAT", "CAT", "DOG", "HAT"]);
}

#[test]
fn common_is_sorted_and_unique() {
    let e = engine_with(animals(), &["THE", "AND", "THE", "A"], None, false, 0, false);
    assert_eq!(e.common(), vec!["A", "AND", "THE"]);
}

#[test]
fn load_normalizes_whitespace() {
    let lex = Lexicon::from_lines(&lines(&["CAT  K   AE1\tT  "])).ok().unwrap();
    let e = engine_with(lex, &[], None, false, 0, false);
    assert_eq!(e.find_phoneme("CAT"), Some("K AE1 T"));
    assert_eq!(e.find_phoneme("DOG"), None);
}

#[test]
fn load_keeps_first_pronunciation() {
    let lex = Lexicon::from_lines(&lines(&["READ R IY1 D", "READ R EH1 D"])).ok().unwrap();
    assert_eq!(lex.len(), 1);
    let e = engine_with(lex, &[], None, false, 0, false);
    assert_eq!(e.find_phoneme("READ"), Some("R IY1 D"));
}

#[test]
fn load_rejects_line_without_phonemes() {
    match Lexicon::from_lines(&lines(&["CAT K AE1 T", "DOG", "HAT HH AE1 T"])) {
        Err(e) => assert_eq!(e.line, 1),
        Ok(_) => panic!("malformed line accepted"),
    }
    assert!(Lexicon::from_lines(&lines(&[""])).is_err());
}

#[test]
fn config_keeps_its_fields() {
    let c = DoenamerConfig::new(Some(7), true, 2, 3, true);
    assert_eq!(c.limit, Some(7));
    assert!(c.only_common);
    assert_eq!(c.debug_level, 2);
    assert_eq!(c.fuzz, 3);
    assert!(c.homophones);
}

#[test]
fn game_guess_accepts_word() {
    let g = Game::new();
    assert!(g.guesses.is_empty());
    assert_eq!(g.guess("CAT"), Ok("CAT".to_string()));
}

#[test]
fn game_starts_with_common_word() {
    let commons = CommonSet::from_lines(&lines(&["THE", "AND"]));
    let mut g = Game::new();
    g.set_start_word(&commons);
    assert_eq!(g.guesses.len(), 1);
    assert!(g.guesses[0] == "THE" || g.guesses[0] == "AND");
    let one = CommonSet::from_lines(&lines(&["ONLY"]));
    g.set_start_word(&one);
    assert_eq!(g.guesses[1], "ONLY");
    g.push_start(&commons, 1);
    assert_eq!(g.guesses[2], "AND");
}

#[test]
fn load_with_repeat_among_others() {
    let lex = Lexicon::from_lines(&lines(&["A EY1", "B B IY1", "A AH0", "C S IY1"])).ok().unwrap();
    assert_eq!(lex.len(), 3);
    let e = engine_with(lex, &[], None, false, 0, false);
    assert_eq!(e.find_phoneme("A"), Some("EY1"));
    assert_eq!(e.wordlist(), vec!["A", "B", "C"]);
}

#[test]
fn blanks_are_unicode_white_space() {
    for u in 0u32..0x110000 {
        if let Some(c) = char::from_u32(u) {
            assert_eq!(blank_exec(c), c.is_whitespace(), "U+{:04X}", u);
        }
    }
}

#[test]
fn suffix_splits_on_any_white_space() {
    let e = engine(0);
    assert_eq!(e.phoneme_suffix("K\u{0C}AE1 T"), "AE1 T");
    assert_eq!(e.phoneme_suffix("K\u{0B}AE1\u{A0}T"), "AE1 T");
    assert_eq!(e.phoneme_suffix("K\u{3000}AE1\u{2003}\u{2028}T"), "AE1 T");
}

#[test]
fn load_splits_on_any_white_space() {
    let lex = Lexicon::from_lines(&lines(&["CAT\u{0C}K\u{A0}AE1\u{0B}T"])).ok().unwrap();
    let e = engine_with(lex, &[], None, false, 0, false);
    assert_eq!(e.find_phoneme("CAT"), Some("K AE1 T"));
}
