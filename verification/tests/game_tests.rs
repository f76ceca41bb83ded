use wordle::dict::Dict;
use wordle::game::{check, check_diffcult, max, min, update_keyboard, Help};
use wordle::record::{answer_of_day, day_order, parameters_conflict, Game, State};
use wordle::round::{GuessOutcome, Round};
use wordle::stats::Stats;
use wordle::text::{normalize_input, parse_word_list};

fn s(w: &str) -> String {
    w.to_string()
}

fn words(ws: &[&str]) -> Vec<String> {
    ws.iter().map(|w| w.to_string()).collect()
}

fn empty_dict() -> Dict {
    Dict {
        is_final: false,
        is_acceptable: false,
        FINAL: vec![],
        ACCEPTABLE: vec![],
        now_final: 0,
        now_acceptable: 0,
    }
}

fn builtin_acceptable() -> Vec<String> {
    words(&["crane", "crate", "grate", "slate", "trace"])
}

fn dict() -> Dict {
    let mut d = empty_dict();
    d.init(&words(&["crate", "slate"]), &builtin_acceptable());
    d
}

#[test]
fn min_and_max() {
    assert_eq!(min(3, 5), 3);
    assert_eq!(min(5, -3), -3);
    assert_eq!(max(3, 5), 5);
    assert_eq!(max(-1, -7), -1);
}

#[test]
fn dict_init_appends_lists() {
    let d = dict();
    assert_eq!(d.get_FINAL(), &words(&["crate", "slate"])[..]);
    assert_eq!(d.get_ACCEPTABLE_len(), 5);
    assert_eq!(d.get_FINAL_len(), 2);
    assert_eq!(d.get_ACCEPTABLE()[4], "trace");
    assert_eq!(d.now_final, 0);
}

#[test]
fn dict_check_moves_to_the_match() {
    let acc = builtin_acceptable();
    let mut now = 0;
    assert!(Dict::check(&s("grate"), &mut now, &acc));
    assert_eq!(now, 2);
    assert!(Dict::check(&s("grate"), &mut now, &acc));
    assert_eq!(now, 2);
    assert!(!Dict::check(&s("crane"), &mut now, &acc));
    assert_eq!(now, 5);
    let mut late = 9;
    assert!(!Dict::check(&s("crane"), &mut late, &acc));
    assert_eq!(late, 9);
}

#[test]
fn update_final_sorts_and_accepts() {
    let mut d = dict();
    assert!(d.update_final("Slate\n  crate \t", &builtin_acceptable()));
    assert!(d.is_final);
    assert_eq!(d.FINAL, words(&["crate", "slate"]));
    assert_eq!(d.now_final, 3);
}

#[test]
fn update_final_rejects_duplicates() {
    let mut d = dict();
    assert!(!d.update_final("crate\nCRATE", &builtin_acceptable()));
    assert_eq!(d.FINAL, words(&["crate", "crate"]));
}

#[test]
fn update_final_rejects_unknown_and_empty_lines() {
    let mut d = dict();
    assert!(!d.update_final("crate\nzzzzz", &builtin_acceptable()));
    let mut d2 = dict();
    assert!(!d2.update_final("crate\n", &builtin_acceptable()));
    assert_eq!(d2.FINAL, words(&["", "crate"]));
}

#[test]
fn update_acceptable_replaces_guess_list() {
    let mut d = dict();
    assert!(d.update_acceptable("trace\ncrane\ngrate", &builtin_acceptable()));
    assert!(d.is_acceptable);
    assert_eq!(d.ACCEPTABLE, words(&["crane", "grate", "trace"]));
    assert_eq!(d.FINAL, words(&["crate", "slate"]));
}

#[test]
fn check_guess_against_dictionary() {
    let d = dict();
    assert!(check(&s("SLATE"), &d));
    assert!(!check(&s("slate"), &d));
    assert!(!check(&s("ZZZZZ"), &d));
}

#[test]
fn hard_mode_rules() {
    let pre_delta = vec![1; 26];
    let mut delta = vec![1; 26];
    let pre_out = vec!['G', 'R', 'R', 'R', 'R'];
    assert!(check_diffcult(&pre_delta, &delta, &pre_out, &vec!['G', 'Y', 'R', 'R', 'R']));
    assert!(!check_diffcult(&pre_delta, &delta, &pre_out, &vec!['Y', 'G', 'R', 'R', 'R']));
    delta[3] = 2;
    assert!(!check_diffcult(&pre_delta, &delta, &pre_out, &vec!['G', 'G', 'G', 'G', 'G']));
}

#[test]
fn keyboard_keeps_the_strongest_colour() {
    let mut status = vec!['X'; 26];
    status[0] = 'G';
    status[4] = 'Y';
    // guess ABEEZ, colours R Y R G R
    let new_status = update_keyboard(&status, &s("ABEEZ"), &vec!['R', 'Y', 'R', 'G', 'R']);
    assert_eq!(new_status[0], 'G');
    assert_eq!(new_status[1], 'Y');
    assert_eq!(new_status[4], 'G');
    assert_eq!(new_status[25], 'R');
    assert_eq!(new_status[2], 'X');
}

#[test]
fn round_scores_and_wins() {
    let d = dict();
    let mut round = Round::new(&s("CRATE"));
    match round.submit(&s("SLATE"), &d, false) {
        GuessOutcome::Scored(out) => assert_eq!(out, vec!['R', 'R', 'G', 'G', 'G']),
        GuessOutcome::Invalid => panic!("SLATE should count"),
    }
    assert_eq!(round.count, 1);
    assert_eq!(round.status[('S' as u8 - b'A') as usize], 'R');
    assert_eq!(round.status[('A' as u8 - b'A') as usize], 'G');
    assert!(!round.success);
    assert!(matches!(round.submit(&s("ZZZZZ"), &d, false), GuessOutcome::Invalid));
    assert_eq!(round.count, 1);
    match round.submit(&s("CRATE"), &d, false) {
        GuessOutcome::Scored(out) => assert_eq!(out, vec!['G'; 5]),
        GuessOutcome::Invalid => panic!("CRATE should count"),
    }
    assert!(round.success);
    assert_eq!(round.count, 2);
    assert_eq!(round.words, words(&["SLATE", "CRATE"]));
}

#[test]
fn round_hard_mode_rejects_dropped_green() {
    let d = dict();
    let mut round = Round::new(&s("CRATE"));
    assert!(matches!(round.submit(&s("SLATE"), &d, true), GuessOutcome::Scored(_)));
    // CRANE turns the green T of SLATE grey
    assert!(matches!(round.submit(&s("CRANE"), &d, true), GuessOutcome::Invalid));
    assert_eq!(round.count, 1);
    // GRATE keeps the greens and uses every revealed letter
    assert!(matches!(round.submit(&s("GRATE"), &d, true), GuessOutcome::Scored(_)));
    assert_eq!(round.count, 2);
    // without hard mode CRANE counts
    let mut easy = Round::new(&s("CRATE"));
    assert!(matches!(easy.submit(&s("SLATE"), &d, false), GuessOutcome::Scored(_)));
    assert!(matches!(easy.submit(&s("CRANE"), &d, false), GuessOutcome::Scored(_)));
}

#[test]
fn game_help_keeps_candidates() {
    let mut help = Help { list: builtin_acceptable() };
    help.update(&vec!['R', 'R', 'G', 'G', 'G'], &s("SLATE"));
    assert_eq!(help.list, words(&["crate", "grate"]));
}

#[test]
fn stats_ranking() {
    let acc = words(&["apple", "berry", "cherry", "dates"]);
    let mut stats = Stats { count: vec![0; 4], list: vec![] };
    stats.update(&s("BERRY"), &acc);
    assert_eq!(stats.list, vec![1]);
    stats.update(&s("APPLE"), &acc);
    assert_eq!(stats.list, vec![0, 1]);
    stats.update(&s("BERRY"), &acc);
    assert_eq!(stats.list, vec![1, 0]);
    assert_eq!(stats.count, vec![1, 2, 0, 0]);
    assert_eq!(stats.top(), vec![(1, 2), (0, 1)]);
    assert_eq!(Stats::get_id(&s("DATES"), &acc), 3);
}

#[test]
fn stats_full_list_replaces_sixth() {
    let acc = words(&["aaaaa", "bbbbb", "ccccc", "ddddd", "eeeee", "fffff", "ggggg"]);
    let mut stats = Stats { count: vec![0; 7], list: vec![] };
    for w in ["AAAAA", "BBBBB", "CCCCC", "DDDDD", "EEEEE", "FFFFF", "GGGGG"] {
        stats.update(&s(w), &acc);
    }
    assert_eq!(stats.list, vec![0, 1, 2, 3, 4, 6]);
    stats.update(&s("GGGGG"), &acc);
    assert_eq!(stats.list, vec![6, 0, 1, 2, 3, 4]);
    assert_eq!(stats.top(), vec![(6, 2), (0, 1), (1, 1), (2, 1), (3, 1)]);
}

#[test]
fn parse_lists_and_input() {
    assert_eq!(parse_word_list("  Abc \nDEF\n"), words(&["abc", "def", ""]));
    assert_eq!(parse_word_list(""), words(&[""]));
    assert_eq!(normalize_input("  crane\r\n"), "CRANE");
    assert_eq!(normalize_input("\u{3000}help!"), "HELP!");
}

#[test]
fn daily_order_is_a_seeded_permutation() {
    let order = day_order(100, 42);
    let mut sorted = order.clone();
    sorted.sort();
    assert_eq!(sorted, (0..100).collect::<Vec<usize>>());
    assert_ne!(order, (0..100).collect::<Vec<usize>>());
    assert_eq!(order, day_order(100, 42));
}

#[test]
fn answer_of_day_picks_by_order() {
    let fin = words(&["crate", "slate", "trace"]);
    let order = vec![2, 0, 7];
    assert_eq!(answer_of_day(&order, &fin, 1), Some(s("trace")));
    assert_eq!(answer_of_day(&order, &fin, 2), Some(s("crate")));
    assert_eq!(answer_of_day(&order, &fin, 0), None);
    assert_eq!(answer_of_day(&order, &fin, 3), None);
    assert_eq!(answer_of_day(&order, &fin, 4), None);
}

#[test]
fn saved_state_results() {
    let state = State {
        total_rounds: 3,
        games: vec![
            Game { answer: s("CRATE"), guesses: words(&["SLATE", "CRATE"]) },
            Game { answer: s("APPLE"), guesses: words(&["CRANE"]) },
            Game { answer: s("TRACE"), guesses: words(&["TRACE"]) },
        ],
    };
    assert_eq!(state.results(), (2, 3));
}

#[test]
fn conflicting_parameters() {
    assert!(parameters_conflict(true, false, true, false));
    assert!(!parameters_conflict(true, false, false, false));
    assert!(!parameters_conflict(false, true, true, true));
}

#[test]
fn update_final_position_on_failure() {
    // missing word: the search runs to the end of the list
    let mut d = dict();
    assert!(!d.update_final("crate\nzzzzz", &builtin_acceptable()));
    assert_eq!(d.now_final, 5);
    // duplicates: the search does not move
    let mut d2 = dict();
    d2.now_final = 2;
    assert!(!d2.update_final("slate\nslate", &builtin_acceptable()));
    assert_eq!(d2.now_final, 2);
    // a search that starts past the end stays there
    let mut d3 = dict();
    d3.now_acceptable = 9;
    assert!(!d3.update_acceptable("crate", &builtin_acceptable()));
    assert_eq!(d3.now_acceptable, 9);
}

#[test]
fn successive_checks_over_sorted_lists() {
    let acc = builtin_acceptable();
    let ws = words(&["crate", "grate", "salty", "trace"]);
    let mut now = 0;
    let results: Vec<bool> = ws.iter().map(|w| Dict::check(w, &mut now, &acc)).collect();
    assert_eq!(results, vec![true, true, false, false]);
    assert_eq!(now, 5);
}

fn brute_force_top(count: &[i32]) -> Vec<usize> {
    let mut guessed: Vec<usize> = (0..count.len()).filter(|&x| count[x] > 0).collect();
    guessed.sort_by(|&a, &b| count[b].cmp(&count[a]).then(a.cmp(&b)));
    guessed
}

#[test]
fn stats_list_ranks_the_guessed_words() {
    let acc = words(&["aaaaa", "bbbbb", "ccccc", "ddddd", "eeeee", "fffff", "ggggg", "hhhhh"]);
    let mut stats = Stats { count: vec![0; 8], list: vec![] };
    let guesses = [0, 1, 2, 3, 4, 5, 5, 0, 6, 6, 6, 7, 2, 7, 7, 7, 1, 3, 3, 3, 4];
    let mut expected = vec![0; 8];
    for &g in guesses.iter() {
        stats.update(&acc[g].to_ascii_uppercase(), &acc);
        expected[g] += 1;
        assert_eq!(stats.count, expected);
        let best = brute_force_top(&expected);
        let shown = stats.list.len().min(5);
        assert_eq!(stats.list.len(), best.len().min(6));
        assert_eq!(stats.list[..shown], best[..shown]);
    }
}
