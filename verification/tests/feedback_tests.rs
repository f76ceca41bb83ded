use wordle::round::{GuessOutcome, Round};
use wordle::feedback::decode_pattern;
use wordle::solver::{pattern_counts, pattern_row, Help};
use wordle::candidates::is_consistent;

fn s(w: &str) -> String {
    w.to_string()
}

fn words(ws: &[&str]) -> Vec<String> {
    ws.iter().map(|w| w.to_string()).collect()
}

#[test]
fn calc_same_word_is_all_green() {
    assert_eq!(wordle::feedback::calc(&s("crane"), &s("crane")), 0);
}

#[test]
fn calc_greens_and_yellows() {
    // b, a yellow; b, e green; s grey: digits 1 1 0 0 2
    assert_eq!(wordle::feedback::calc(&s("abbey"), &s("babes")), 110);
}

#[test]
fn calc_repeated_letter_only_greens() {
    // the two l of the answer are both used by greens: digits 2 2 0 0 2
    assert_eq!(wordle::feedback::calc(&s("hello"), &s("lllll")), 218);
}

#[test]
fn calc_all_yellow() {
    assert_eq!(wordle::feedback::calc(&s("abcde"), &s("eabcd")), 121);
}

#[test]
fn calc_yellows_run_out_left_to_right() {
    // two unmatched e in the answer: the first two e of the guess are yellow, the third grey
    assert_eq!(wordle::feedback::calc(&s("speed"), &s("eerie")), 134);
}

#[test]
fn calc_all_grey() {
    assert_eq!(wordle::feedback::calc(&s("abcde"), &s("fghij")), 242);
}

#[test]
fn decode_pattern_digits() {
    assert_eq!(decode_pattern(110), vec!['Y', 'Y', 'G', 'G', 'R']);
    assert_eq!(decode_pattern(0), vec!['G'; 5]);
    assert_eq!(decode_pattern(242), vec!['R'; 5]);
}

#[test]
fn decode_pattern_of_calc() {
    let code = wordle::feedback::calc(&s("crate"), &s("slate"));
    assert_eq!(decode_pattern(code), vec!['R', 'R', 'G', 'G', 'G']);
}

#[test]
fn consistency_of_single_words() {
    let out = vec!['R', 'R', 'G', 'G', 'G'];
    assert!(is_consistent(&s("crate"), &out, &s("SLATE")));
    assert!(is_consistent(&s("grate"), &out, &s("slate")));
    assert!(!is_consistent(&s("slate"), &out, &s("slate")));
    assert!(!is_consistent(&s("trace"), &out, &s("slate")));
}

#[test]
fn consistency_counts_yellow_and_grey_copies() {
    // guess "eerie" against "speed": Y Y R R R; the answer needs exactly two e
    let out = vec!['Y', 'Y', 'R', 'R', 'R'];
    assert!(is_consistent(&s("speed"), &out, &s("eerie")));
    // only one e outside the greens
    assert!(!is_consistent(&s("spend"), &out, &s("eerie")));
    // three e: too many for a grey e
    assert!(!is_consistent(&s("geese"), &out, &s("eerie")));
}

#[test]
fn solver_help_keeps_matching_words_in_order() {
    let mut help = Help {
        list: words(&["crane", "crate", "trace", "slate", "grate"]),
        ans_list: words(&["crate", "grate", "slate"]),
    };
    help.update(&vec!['R', 'R', 'G', 'G', 'G'], &s("slate"));
    assert_eq!(help.list, words(&["crate", "grate"]));
    assert_eq!(help.ans_list, words(&["crate", "grate"]));
}

#[test]
fn solver_help_keeps_the_answer() {
    let mut help = Help {
        list: words(&["crane", "crate", "trace", "slate"]),
        ans_list: words(&["crane", "crate"]),
    };
    let code = wordle::feedback::calc(&s("crate"), &s("crane"));
    let out = decode_pattern(code);
    assert_eq!(out, vec!['G', 'G', 'G', 'R', 'G']);
    help.update(&out, &s("crane"));
    assert_eq!(help.list, words(&["crate"]));
    assert_eq!(help.ans_list, words(&["crate"]));
}

#[test]
fn pattern_counts_histogram() {
    let answers = words(&["crate", "grate", "crane", "crate"]);
    let count = pattern_counts(&s("crate"), &answers);
    assert_eq!(count.len(), 243);
    assert_eq!(count[0], 2);
    // grate: R G G G G = 2*81
    assert_eq!(count[162], 1);
    // crane: G G G R G = 6
    assert_eq!(count[6], 1);
    assert_eq!(count.iter().sum::<usize>(), 4);
}

#[test]
fn pattern_row_codes() {
    let answers = words(&["abbey", "hello", "crane"]);
    assert_eq!(pattern_row(&answers, &s("crane")).len(), 3);
    assert_eq!(pattern_row(&words(&["abbey", "abcde"]), &s("babes"))[0], 110);
    assert_eq!(pattern_row(&answers, &s("crane"))[2], 0);
}

#[test]
fn help_keeps_exactly_the_words_with_the_same_colours() {
    let list = words(&["crane", "crate", "trace", "slate", "grate", "react", "eerie", "speed", "spend", "geese"]);
    for answer in ["crate", "speed", "geese", "trace"] {
        for guess in ["eerie", "slate", "crane"] {
            let code = wordle::feedback::calc(&s(answer), &s(guess));
            let mut help = Help { list: list.clone(), ans_list: vec![] };
            help.update(&decode_pattern(code), &s(guess));
            let expected: Vec<String> = list
                .iter()
                .filter(|w| wordle::feedback::calc(w, &s(guess)) == code)
                .cloned()
                .collect();
            assert_eq!(help.list, expected);
            assert!(help.list.contains(&s(answer)));
        }
    }
}

#[test]
fn colours_do_not_depend_on_case() {
    let mut d = wordle::dict::Dict {
        is_final: false,
        is_acceptable: false,
        FINAL: vec![],
        ACCEPTABLE: vec![],
        now_final: 0,
        now_acceptable: 0,
    };
    d.init(&words(&["speed"]), &words(&["eerie", "speed"]));
    let mut round = Round::new(&s("SPEED"));
    match round.submit(&s("EERIE"), &d, false) {
        GuessOutcome::Scored(out) => {
            assert_eq!(out, decode_pattern(wordle::feedback::calc(&s("speed"), &s("eerie"))))
        }
        GuessOutcome::Invalid => panic!("EERIE should count"),
    }
}
