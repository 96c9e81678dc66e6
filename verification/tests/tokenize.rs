use snails_machine::string_to_tape;

fn to_vec_string(v: Vec<&str>) -> Vec<String> {
    v.iter().map(|s| s.to_string()).collect()
}

#[test]
fn test_string_to_tape() {
    let alphabet = to_vec_string(vec!["a", "b", "c", "d", "e"]);
    let tape = string_to_tape("abcde", &alphabet);

    assert!(tape.is_ok());
    assert_eq!(tape.unwrap(), to_vec_string(vec!["a", "b", "c", "d", "e"]));

    let alphabet = to_vec_string(vec!["a", "a'", "#a", "a''", "b", "c"]);
    let tape = string_to_tape("aaaabbbb#aa'a''", &alphabet);

    assert!(tape.is_ok());
    assert_eq!(
        tape.unwrap(),
        to_vec_string(vec![
            "a", "a", "a", "a", "b", "b", "b", "b", "#a", "a'", "a''"
        ])
    );

    let alphabet = to_vec_string(vec!["a", "a'", "#a", "a''", "b", "c"]);
    let tape = string_to_tape("ab#a'a''", &alphabet);

    assert!(tape.is_err());
}

#[test]
fn round_trip_over_tie_broken_alphabet() {
    // concatenating chosen symbols of the tie-broken family and tokenizing
    // reproduces exactly the chosen sequence
    let alphabet = to_vec_string(vec!["a", "a'", "a''", "#a"]);
    let chosen = vec!["a'", "a", "#a", "a''", "a"];
    let joined: String = chosen.concat();
    let tape = string_to_tape(&joined, &alphabet).unwrap();
    assert_eq!(tape, to_vec_string(chosen));
}

#[test]
fn empty_input_gives_empty_tape() {
    let alphabet = to_vec_string(vec!["0", "1"]);
    assert_eq!(string_to_tape("", &alphabet).unwrap(), Vec::<String>::new());
}

#[test]
fn longest_match_wins() {
    let alphabet = to_vec_string(vec!["a", "ab", "b"]);
    assert_eq!(
        string_to_tape("abab", &alphabet).unwrap(),
        to_vec_string(vec!["ab", "ab"])
    );
}

#[test]
fn invalid_symbol_reports_offending_text_and_alphabet() {
    // "x" starts no symbol: the shortest dead substring is "x" itself
    let alphabet = to_vec_string(vec!["ab", "b"]);
    let err = string_to_tape("bx", &alphabet).unwrap_err();
    assert_eq!(err.text, "x");
    assert_eq!(err.alphabet, alphabet);

    // "a" begins "ab" but "ax" begins nothing: the dead substring is "ax"
    let err = string_to_tape("ax", &alphabet).unwrap_err();
    assert_eq!(err.text, "ax");

    // input ending in the middle of a symbol reports everything left
    let err = string_to_tape("ba", &alphabet).unwrap_err();
    assert_eq!(err.text, "a");
}

#[test]
fn no_characters_dropped_on_failure() {
    // a failing position in the middle fails the whole call; nothing is
    // silently skipped
    let alphabet = to_vec_string(vec!["0", "1"]);
    assert!(string_to_tape("01x01", &alphabet).is_err());
}
