use std::convert::Infallible;

use pgn_reader::reader::BufferedReader;
use pgn_reader::types::{Event, Nag, Outcome, RawTag, ReadError, SanToken};
use pgn_reader::visitor::Visitor;

struct Tally {
    tags: usize,
    sans: usize,
    nags: Vec<Nag>,
    outcomes: Vec<Outcome>,
    games: usize,
}

impl Tally {
    fn new() -> Tally {
        Tally { tags: 0, sans: 0, nags: Vec::new(), outcomes: Vec::new(), games: 0 }
    }
}

impl Visitor for Tally {
    type Output = ();
    type Error = Infallible;

    fn tag(&mut self, _key: &[u8], _value: &RawTag) -> Result<(), Self::Error> {
        self.tags += 1;
        Ok(())
    }

    fn san(&mut self, _san: &SanToken) -> Result<(), Self::Error> {
        self.sans += 1;
        Ok(())
    }

    fn nag(&mut self, nag: Nag) -> Result<(), Self::Error> {
        self.nags.push(nag);
        Ok(())
    }

    fn outcome(&mut self, outcome: Outcome) -> Result<(), Self::Error> {
        self.outcomes.push(outcome);
        Ok(())
    }

    fn end_game(&mut self) -> Self::Output {
        self.games += 1;
    }
}

#[test]
fn test_overlong_comment_is_unterminated() {
    let mut pgn = b"1. e4 {".to_vec();
    pgn.extend(std::iter::repeat(b'x').take(5000));
    pgn.extend_from_slice(b"} e5 *");
    let mut v = Tally::new();
    let mut reader = BufferedReader::new(pgn);
    assert_eq!(reader.read_game(&mut v), Err(ReadError::UnterminatedComment));
    assert_eq!(v.sans, 1);
    assert_eq!(v.games, 0);
    // recovery consumed through the closing brace; the rest reads as a game
    let mut v2 = Tally::new();
    reader.read_game(&mut v2).unwrap();
    assert_eq!(v2.sans, 1);
    assert_eq!(v2.outcomes, vec![Outcome::Unknown]);
    assert_eq!(v2.games, 1);
}

#[test]
fn test_overlong_tag_line_is_unterminated() {
    let mut pgn = b"[".to_vec();
    pgn.extend(std::iter::repeat(b'A').take(2000));
    pgn.extend_from_slice(b"]\n\n1. e4 *");
    let mut v = Tally::new();
    let mut reader = BufferedReader::new(pgn);
    assert_eq!(reader.read_game(&mut v), Err(ReadError::UnterminatedTag));
    assert_eq!(v.tags, 0);
    // recovery skipped the rest of the line; the next game still reads
    let mut v2 = Tally::new();
    reader.read_game(&mut v2).unwrap();
    assert_eq!(v2.games, 1);
}

#[test]
fn test_malformed_nag_dropped() {
    let mut v = Tally::new();
    let mut reader = BufferedReader::new(b"1. e4 $abc e5 *".to_vec());
    reader.read_game(&mut v).unwrap();
    assert_eq!(v.nags, Vec::<Nag>::new());
    assert_eq!(v.sans, 2);
}

#[test]
fn test_nag_too_large_dropped() {
    let mut v = Tally::new();
    let mut reader = BufferedReader::new(b"1. e4 $70000 e5 $65535 *".to_vec());
    reader.read_game(&mut v).unwrap();
    assert_eq!(v.nags, vec![Nag(65535)]);
}

#[test]
fn test_move_number_dot_run() {
    let mut v = Tally::new();
    let mut reader = BufferedReader::new(b"1..... e4 *".to_vec());
    reader.read_game(&mut v).unwrap();
    assert_eq!(v.sans, 1);
    assert_eq!(v.outcomes, vec![Outcome::Unknown]);
}

#[test]
fn test_escape_line_in_movetext() {
    let mut v = Tally::new();
    let mut reader = BufferedReader::new(b"1. e4\n% ignored to end of line\ne5 *".to_vec());
    reader.read_game(&mut v).unwrap();
    assert_eq!(v.sans, 2);
    assert_eq!(v.games, 1);
}

#[test]
fn test_event_order() {
    let mut reader = BufferedReader::new(b"[W \"x\"]\n\n1. e4 1-0\n".to_vec());
    let g = reader.read_game_events();
    assert!(g.present);
    assert_eq!(g.error, None);
    assert_eq!(g.events.len(), 6);
    assert!(matches!(g.events[0], Event::BeginTags));
    assert!(matches!(g.events[1], Event::Tag { .. }));
    assert!(matches!(g.events[2], Event::BeginMovetext));
    assert!(matches!(g.events[3], Event::San(_)));
    assert!(matches!(g.events[4], Event::Outcome(Outcome::WhiteWins)));
    assert!(matches!(g.events[5], Event::EndGame));
    let g2 = reader.read_game_events();
    assert!(!g2.present);
}
