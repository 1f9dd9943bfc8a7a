use davar::{string_to_commands, commands_to_string, get_source_order, Clock, Command, Direction};
use davar::Direction::{E, SE, SW, W};
use davar::simulate::score_pop;

#[test]
fn string_to_commands_works() {
    assert_eq!(
        string_to_commands("pack"),
        vec![
            Command::Move(W),
            Command::Move(SW),
            Command::Move(E),
            Command::Rotate(Clock::Counter)
        ]
    );
    assert_eq!(
        string_to_commands("PACK"),
        vec![
            Command::Move(W),
            Command::Move(SW),
            Command::Move(E),
            Command::Rotate(Clock::Counter)
        ]
    );
    assert_eq!(
        string_to_commands("ei! "),
        vec![
            Command::Move(E),
            Command::Move(SW),
            Command::Move(W),
            Command::Move(SE)
        ]
    );
    assert_eq!(
        string_to_commands("Ei! "),
        vec![
            Command::Move(E),
            Command::Move(SW),
            Command::Move(W),
            Command::Move(SE)
        ]
    );
}

#[test]
fn encode_decode_round_trip() {
    let all = vec![
        Command::Move(W),
        Command::Move(E),
        Command::Move(SW),
        Command::Move(SE),
        Command::Rotate(Clock::Wise),
        Command::Rotate(Clock::Counter),
    ];
    let encoded = commands_to_string(all.clone());
    assert_eq!(encoded, "pbaldk");
    assert_eq!(string_to_commands(&encoded), all);
    for &c in &all {
        let one = commands_to_string(vec![c]);
        assert_eq!(one.chars().count(), 1);
        assert_eq!(one.chars().next().unwrap(), c.to_char());
        assert_eq!(string_to_commands(&one), vec![c]);
    }
}

#[test]
fn whitespace_is_skipped() {
    assert_eq!(
        string_to_commands("p\tb\na\rl"),
        vec![
            Command::Move(W),
            Command::Move(E),
            Command::Move(SW),
            Command::Move(SE)
        ]
    );
    assert_eq!(string_to_commands("\t\n\r"), vec![]);
}

#[test]
fn test_psuedorandom() {
    let seed = 17;
    let n = 10;
    let sources = get_source_order(seed, n);
    let correct_sources = [0, 24107, 16552, 12125, 9427, 13152, 21440, 3383, 6873, 16117];
    for i in 0..n as usize {
        assert_eq!(sources[i], correct_sources[i]);
    }
}

#[test]
fn phrase_bonus_counts_occurrences() {
    // "ei!" occurs twice: 2 * 3 * 2 + 300.
    let phrases = vec![String::from("ei!")];
    assert_eq!(score_pop("ei! ei!", &phrases), 312);
    // An absent phrase earns nothing.
    let other = vec![String::from("ia! ia!")];
    assert_eq!(score_pop("pbaldk", &other), 0);
    // Overlapping occurrences all count: "aa" in "aaa" occurs twice.
    let aa = vec![String::from("aa")];
    assert_eq!(score_pop("aaa", &aa), 2 * 2 * 2 + 300);
    // Several phrases add up.
    let both = vec![String::from("ei!"), String::from("aa")];
    assert_eq!(score_pop("aaei!", &both), (2 * 3 + 300) + (2 * 2 + 300));
}
