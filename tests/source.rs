use beam_kit::multi_test::{get_solution_names, MultiReferee, MultiTestConfig};
use beam_kit::referee::{InitInput, TurnInput};
use beam_kit::source::{is_space, parse_isize, parse_usize, Bytes, Chars, Isize1, ReadInput, Readable, Source, Usize1};
use std::cell::RefCell;

#[test]
fn tokens_are_split_on_white_space() {
    let mut s = Source::from_line("  12 ab\tc  ");
    assert!(!s.is_empty());
    assert_eq!(s.next_token().as_deref(), Some("12"));
    assert_eq!(s.next_token().as_deref(), Some("ab"));
    assert_eq!(s.next_token().as_deref(), Some("c"));
    assert!(s.is_empty());
    assert_eq!(s.next_token(), None);
    s.feed("x");
    assert_eq!(s.next_token().as_deref(), Some("x"));
    assert!(Source::new().is_empty());
}

#[test]
fn readers_convert_tokens() {
    let mut s = Source::from_line("héllo ab 1 -7 0 xyz");
    assert_eq!(Chars::read(&mut s), Some(vec!['h', 'é', 'l', 'l', 'o']));
    assert_eq!(Bytes::read(&mut s), Some(vec![b'a', b'b']));
    assert_eq!(Usize1::read(&mut s), Some(0));
    assert_eq!(Isize1::read(&mut s), Some(-8));
    assert_eq!(Usize1::read(&mut s), None);
    assert_eq!(Isize1::read(&mut s), None);
    assert_eq!(Chars::read(&mut s), None);
}

#[test]
fn decimal_parsing_matches_from_str() {
    for t in ["0", "+5", "42", "18446744073709551615", "18446744073709551616", "", "+", "-1", "1a", " 1"] {
        assert_eq!(parse_usize(t), t.parse::<usize>().ok(), "{t}");
    }
    for t in ["0", "-0", "+9", "-9223372036854775808", "9223372036854775807", "9223372036854775808", "-", "--1", "7-"] {
        assert_eq!(parse_isize(t), t.parse::<isize>().ok(), "{t}");
    }
    assert_eq!(Isize1::from_token("-9223372036854775808"), None);
    assert_eq!(Usize1::from_token("18446744073709551615"), Some(18446744073709551614));
}

#[test]
fn inputs_read_nothing() {
    let mut s = Source::from_line("1 2");
    assert_eq!(InitInput::read_from(&mut s), InitInput {});
    assert_eq!(TurnInput::read_from(&mut s), TurnInput {});
    assert_eq!(s.next_token().as_deref(), Some("1"));
    assert!(InitInput::description_keys().is_empty());
    assert!(InitInput {}.description_values().is_empty());
    assert_eq!(InitInput {}.describe(), "");
}

struct Recorder {
    seen: RefCell<Vec<(Vec<String>, usize, usize)>>,
}

impl MultiReferee for Recorder {
    fn run(&self, solution_names: &Vec<String>, players_per_game: usize, num_trial_per_solution: usize) {
        self.seen.borrow_mut().push((solution_names.clone(), players_per_game, num_trial_per_solution));
    }
}

#[test]
fn multi_test_settings_reach_the_referee() {
    assert_eq!(get_solution_names(), vec!["naive"]);
    let r = Recorder { seen: RefCell::new(vec![]) };
    MultiTestConfig::new(&r).run();
    MultiTestConfig::new(&r).solution_names(vec!["a".to_string(), "b".to_string()]).num_trial_per_solution(3).run();
    assert_eq!(
        *r.seen.borrow(),
        vec![(vec!["naive".to_string()], 2, 10), (vec!["a".to_string(), "b".to_string()], 2, 3)]
    );
}

impl MultiReferee for &Recorder {
    fn run(&self, solution_names: &Vec<String>, players_per_game: usize, num_trial_per_solution: usize) {
        (**self).run(solution_names, players_per_game, num_trial_per_solution)
    }
}

#[test]
fn white_space_matches_char_is_whitespace() {
    for u in 0..=0x10ffffu32 {
        if let Some(c) = char::from_u32(u) {
            assert_eq!(is_space(c), c.is_whitespace(), "{u:#x}");
        }
    }
}
