use repertoire::explore::{ChessMove, MoveSequence};
use repertoire::opening::{MoveNote, Opening, OpeningError, StudyCommand};
use repertoire::opening::{next_token_after, parse_study_command, validate_extension};
use repertoire::play::{MoveSelector, PlayCommand, PlayerColor, PlaySession, parse_play_command};

fn opening_with(entries: &[(&str, &str)]) -> Opening {
    let mut moves: Vec<(String, MoveNote)> = Vec::new();
    for (key, note) in entries {
        moves.push((String::from(*key), MoveNote { note: String::from(*note) }));
    }
    match Opening::load(
        String::from("Test Opening"),
        String::from("Tester"),
        String::from("For the drill engine"),
        0,
        moves,
    ) {
        Ok(o) => o,
        Err(_) => panic!("entries were distinct"),
    }
}

fn sequence_of(tokens: &[&str]) -> MoveSequence {
    let mut s = MoveSequence::new();
    for t in tokens {
        s.add_move(ChessMove(String::from(*t)));
    }
    s
}

fn children_tokens(o: &Opening, base: &str) -> Vec<String> {
    let mut v: Vec<String> = o.children_of(base).into_iter().map(|c| c.0).collect();
    v.sort();
    v
}

#[test]
fn empty_sequence_encodes_to_empty_key() {
    assert_eq!(MoveSequence::new().to_key(), "");
}

#[test]
fn to_key_joins_tokens_with_dashes() {
    assert_eq!(sequence_of(&["e4"]).to_key(), "e4");
    assert_eq!(sequence_of(&["e4", "c6", "d4"]).to_key(), "e4-c6-d4");
}

#[test]
fn lookup_of_empty_key_is_clean() {
    let o = opening_with(&[("e4", "king pawn")]);
    assert!(o.lookup("").is_none());
    let with_root = opening_with(&[("", "start"), ("e4", "king pawn")]);
    assert_eq!(with_root.lookup("").unwrap().note, "start");
}

#[test]
fn lookup_finds_exact_keys_only() {
    let o = opening_with(&[("e4", "king pawn"), ("e4-e5", "open game")]);
    assert_eq!(o.lookup("e4").unwrap().note, "king pawn");
    assert_eq!(o.lookup("e4-e5").unwrap().note, "open game");
    assert!(o.lookup("e4-").is_none());
    assert!(o.lookup("e4-e5-Nf3").is_none());
    assert!(o.lookup("E4").is_none());
}

#[test]
fn children_are_single_ply_only() {
    let o = opening_with(&[("e4", "a"), ("e4-e5", "b"), ("e4-e5-Nf3", "c")]);
    assert_eq!(children_tokens(&o, ""), vec![String::from("e4")]);
    assert_eq!(children_tokens(&o, "e4"), vec![String::from("e5")]);
    assert_eq!(children_tokens(&o, "e4-e5"), vec![String::from("Nf3")]);
    assert!(children_tokens(&o, "e4-e5-Nf3").is_empty());
    assert!(children_tokens(&o, "d4").is_empty());
}

#[test]
fn children_respect_token_boundaries() {
    let o = opening_with(&[("e4-e5", "b"), ("e4x-e5", "trap")]);
    assert_eq!(children_tokens(&o, "e4"), vec![String::from("e5")]);
    assert_eq!(children_tokens(&o, "e4x"), vec![String::from("e5")]);
    assert!(children_tokens(&o, "e4-e").is_empty());
}

#[test]
fn next_token_after_rejects_grandchildren() {
    assert_eq!(next_token_after("e4-e5", "e4"), Some(String::from("e5")));
    assert_eq!(next_token_after("e4-e5-Nf3", "e4"), None);
    assert_eq!(next_token_after("e4", ""), Some(String::from("e4")));
    assert_eq!(next_token_after("e4-e5", ""), None);
    assert_eq!(next_token_after("e4", "e4"), None);
    assert_eq!(next_token_after("d4-d5", "e4"), None);
}

#[test]
fn deviation_does_not_commit() {
    let o = opening_with(&[("e4", "king pawn"), ("e4-e5", "open game")]);
    let mut session = PlaySession::new(&o, PlayerColor::White);
    assert!(session.handle_player_move(ChessMove(String::from("e4"))).is_ok());
    assert_eq!(session.current_key(), "e4");

    let r = session.handle_player_move(ChessMove(String::from("d5")));
    assert!(r.is_err());
    assert_eq!(session.current_key(), "e4");
    assert_eq!(
        session.handle_explore(),
        "https://lichess.org/analysis/pgn/1.%20e4"
    );
}

#[test]
fn in_book_move_commits_and_returns_note() {
    let o = opening_with(&[("e4", "king pawn"), ("e4-e5", "open game")]);
    let mut session = PlaySession::new(&o, PlayerColor::White);
    assert!(session.handle_player_move(ChessMove(String::from("e4"))).is_ok());
    let note = session.handle_player_move(ChessMove(String::from("e5")));
    assert_eq!(note.ok().unwrap(), "open game");
    assert_eq!(session.current_key(), "e4-e5");
}

#[test]
fn exhausted_book_yields_no_automated_move() {
    let o = opening_with(&[("e4", "king pawn")]);
    let mut session = PlaySession::new(&o, PlayerColor::White);
    assert!(session.handle_player_move(ChessMove(String::from("e4"))).is_ok());
    assert!(session.make_computer_move().is_none());
    assert_eq!(session.current_key(), "e4");
}

#[test]
fn sole_continuation_is_always_played() {
    let o = opening_with(&[("e4", "king pawn")]);
    for _ in 0..50 {
        let mut session = PlaySession::new(&o, PlayerColor::Black);
        match session.make_computer_move() {
            Some((mv, note)) => {
                assert_eq!(mv.0, "e4");
                assert_eq!(note.unwrap(), "king pawn");
            }
            None => panic!("book has a continuation"),
        }
        assert_eq!(session.current_key(), "e4");
    }
}

#[test]
fn computer_reply_without_note_is_still_played() {
    let o = opening_with(&[("e4-e5", "open game")]);
    let mut session = PlaySession::new(&o, PlayerColor::White);
    // No single-token key exists, so from the start the book is empty.
    assert!(session.make_computer_move().is_none());
}

#[test]
fn selector_single_candidate_every_trial() {
    let candidates = vec![ChessMove(String::from("Nf3"))];
    for _ in 0..100 {
        let picked = MoveSelector::select(&candidates).unwrap();
        assert_eq!(picked.0, "Nf3");
    }
}

#[test]
fn selector_empty_gives_none() {
    let candidates: Vec<ChessMove> = Vec::new();
    assert!(MoveSelector::select(&candidates).is_none());
}

#[test]
fn selector_stays_in_range() {
    let candidates = vec![
        ChessMove(String::from("a3")),
        ChessMove(String::from("b3")),
        ChessMove(String::from("c3")),
    ];
    for _ in 0..100 {
        let picked = MoveSelector::select(&candidates).unwrap();
        assert!(candidates.iter().any(|c| c.0 == picked.0));
    }
}

#[test]
fn pgn_renders_numbered_pairs() {
    assert_eq!(sequence_of(&["e4", "e5", "Nf3"]).to_pgn(), "1. e4 e5 2. Nf3");
    assert_eq!(sequence_of(&["e4"]).to_pgn(), "1. e4");
    assert_eq!(sequence_of(&["e4", "e5"]).to_pgn(), "1. e4 e5");
    assert_eq!(MoveSequence::new().to_pgn(), "");
}

#[test]
fn pgn_move_numbers_reach_two_digits() {
    let tokens: Vec<String> = (0..21).map(|i| format!("m{}", i)).collect();
    let refs: Vec<&str> = tokens.iter().map(|t| t.as_str()).collect();
    let pgn = sequence_of(&refs).to_pgn();
    assert!(pgn.ends_with("11. m20"));
    assert!(pgn.contains("10. m18 m19"));
}

#[test]
fn lichess_url_percent_encodes_the_pgn() {
    let url = sequence_of(&["e4", "e5"]).to_lichess_url();
    assert_eq!(url, "https://lichess.org/analysis/pgn/1.%20e4%20e5");
}

#[test]
fn load_rejects_duplicate_keys() {
    let entries = vec![
        (String::from("e4"), MoveNote { note: String::from("a") }),
        (String::from("d4"), MoveNote { note: String::from("b") }),
        (String::from("e4"), MoveNote { note: String::from("c") }),
    ];
    match Opening::load(String::new(), String::new(), String::new(), 0, entries) {
        Err(OpeningError::DuplicateKey(k)) => assert_eq!(k, "e4"),
        _ => panic!("duplicate must be rejected"),
    }
}

#[test]
fn load_keeps_distinct_entries() {
    let o = opening_with(&[("e4", "a"), ("d4", "b")]);
    assert_eq!(o.name, "Test Opening");
    let mut keys = o.list_keys();
    keys.sort();
    assert_eq!(keys, vec![String::from("d4"), String::from("e4")]);
}

#[test]
fn new_opening_is_empty() {
    let o = Opening::new(
        String::from("Caro Kann"),
        String::from("Someone"),
        String::from("Solid"),
    );
    assert_eq!(o.name, "Caro Kann");
    assert_eq!(o.author, "Someone");
    assert!(o.moves.is_empty());
    assert!(o.list_keys().is_empty());
}

#[test]
fn extension_must_be_opening() {
    assert!(validate_extension(Some("opening")).is_ok());
    match validate_extension(Some("json")) {
        Err(OpeningError::InvalidExtension(s)) => assert_eq!(s, "json"),
        _ => panic!("wrong extension must be rejected"),
    }
    match validate_extension(None) {
        Err(OpeningError::InvalidExtension(s)) => assert_eq!(s, "none"),
        _ => panic!("missing extension must be rejected"),
    }
}

#[test]
fn study_commands_parse() {
    assert!(matches!(parse_study_command("list"), StudyCommand::List));
    assert!(matches!(parse_study_command("play"), StudyCommand::Play));
    assert!(matches!(parse_study_command("quit"), StudyCommand::Quit));
    match parse_study_command("show   e4-e5  ") {
        StudyCommand::Show(k) => assert_eq!(k, "e4-e5"),
        _ => panic!("show must parse"),
    }
    assert!(matches!(parse_study_command("halt"), StudyCommand::Unknown));
    assert!(matches!(parse_study_command("shower"), StudyCommand::Unknown));
}

#[test]
fn play_commands_parse() {
    assert!(matches!(parse_play_command("stop"), PlayCommand::Stop));
    assert!(matches!(parse_play_command("explore"), PlayCommand::Explore));
    match parse_play_command("move e4") {
        PlayCommand::Move(m) => assert_eq!(m.0, "e4"),
        _ => panic!("move must parse"),
    }
    assert!(matches!(parse_play_command("movee4"), PlayCommand::Unknown));
    assert!(matches!(parse_play_command(""), PlayCommand::Unknown));
}

#[test]
fn supersequence_respects_token_boundaries() {
    let o = opening_with(&[("e4", "a")]);
    let mut session = PlaySession::new(&o, PlayerColor::White);
    assert!(session.sequence_is_supersequence("e4"));
    assert!(!session.sequence_is_supersequence(""));
    assert!(session.handle_player_move(ChessMove(String::from("e4"))).is_ok());
    assert!(session.sequence_is_supersequence("e4-e5"));
    assert!(session.sequence_is_supersequence("e4-e5-Nf3"));
    assert!(!session.sequence_is_supersequence("e4"));
    assert!(!session.sequence_is_supersequence("e4x-e5"));
    assert!(!session.sequence_is_supersequence("d4-d5"));
}

#[test]
fn empty_token_child_is_reported_verbatim() {
    let o = opening_with(&[("e4-", "odd but stored")]);
    assert_eq!(children_tokens(&o, "e4"), vec![String::from("")]);
    assert!(children_tokens(&o, "").is_empty());
}

#[test]
fn load_accepts_no_entries() {
    let o = match Opening::load(String::new(), String::new(), String::new(), 7, Vec::new()) {
        Ok(o) => o,
        Err(_) => panic!("an empty study is well-formed"),
    };
    assert_eq!(o.date_modified, 7);
    assert!(o.list_keys().is_empty());
}
