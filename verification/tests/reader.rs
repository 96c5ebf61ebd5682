use std::convert::Infallible;

use pgn_reader::reader::BufferedReader;
use pgn_reader::types::{CastlingSide, Nag, Outcome, RawComment, RawTag, SanToken, Skip, Suffix};
use pgn_reader::visitor::Visitor;

#[derive(Default)]
struct GameCounter {
    count: usize,
}

impl Visitor for GameCounter {
    type Output = ();
    type Error = Infallible;

    fn end_game(&mut self) -> Self::Output {
        self.count += 1;
    }
}

#[test]
fn test_empty_game() {
    let mut counter = GameCounter::default();
    let mut reader = BufferedReader::new(b"  ".to_vec());
    reader.read_game(&mut counter).unwrap();
    assert_eq!(counter.count, 0);
}

#[test]
fn test_trailing_space() {
    let mut counter = GameCounter::default();
    let mut reader = BufferedReader::new(b"1. e4 1-0\n\n\n\n\n  \n".to_vec());
    reader.read_game(&mut counter).unwrap();
    assert_eq!(counter.count, 1);
    reader.read_game(&mut counter).unwrap();
    assert_eq!(counter.count, 1);
}

struct NagCollector {
    nags: Vec<Nag>,
}

impl Visitor for NagCollector {
    type Output = ();
    type Error = Infallible;

    fn nag(&mut self, nag: Nag) -> Result<(), Self::Error> {
        self.nags.push(nag);
        Ok(())
    }

    fn end_game(&mut self) -> Self::Output {}
}

#[test]
fn test_nag() {
    let mut collector = NagCollector { nags: Vec::new() };
    let mut reader = BufferedReader::new(b"1.f3! e5$71 2.g4?? Qh4#!?".to_vec());
    reader.read_game(&mut collector).unwrap();
    assert_eq!(
        collector.nags,
        vec![
            Nag::good_move(),
            Nag(71),
            Nag::blunder(),
            Nag::speculative_move()
        ]
    );
}

struct SanCollector {
    sans: Vec<SanToken>,
}

impl Visitor for SanCollector {
    type Output = ();
    type Error = Infallible;

    fn san(&mut self, san: &SanToken) -> Result<(), Self::Error> {
        self.sans.push(san.clone());
        Ok(())
    }

    fn end_game(&mut self) -> Self::Output {}
}

fn is_null(token: &SanToken) -> bool {
    match token {
        SanToken::Parsed { san, .. } => san.san == shakmaty::san::San::Null,
        SanToken::Castle { .. } => false,
    }
}

#[test]
fn test_null_moves() {
    let mut collector = SanCollector { sans: Vec::new() };
    let mut reader = BufferedReader::new(b"1. e4 -- 2. Nf3 -- 3. -- e5".to_vec());
    reader.read_game(&mut collector).unwrap();
    assert_eq!(collector.sans.len(), 6);
    assert!(!is_null(&collector.sans[0]));
    assert!(is_null(&collector.sans[1]));
    assert!(!is_null(&collector.sans[2]));
    assert!(is_null(&collector.sans[3]));
    assert!(is_null(&collector.sans[4]));
    assert!(!is_null(&collector.sans[5]));
}

#[test]
fn test_castling_with_suffix() {
    let mut collector = SanCollector { sans: Vec::new() };
    let mut reader = BufferedReader::new(b"1. O-O+ 2. 0-0-0#".to_vec());
    reader.read_game(&mut collector).unwrap();
    assert_eq!(collector.sans.len(), 2);
    match &collector.sans[0] {
        SanToken::Parsed { san, .. } => {
            assert_eq!(san.san, shakmaty::san::San::Castle(shakmaty::CastlingSide::KingSide));
            assert_eq!(san.suffix, Some(shakmaty::san::Suffix::Check));
        }
        other => panic!("expected a parsed castling move, got {:?}", other),
    }
    match &collector.sans[1] {
        SanToken::Castle { side, suffix } => {
            assert_eq!(*side, CastlingSide::QueenSide);
            assert_eq!(*suffix, Some(Suffix::Checkmate));
        }
        other => panic!("expected a zero-notation castling move, got {:?}", other),
    }
}

struct EverythingCollector {
    tags: Vec<(Vec<u8>, Vec<u8>)>,
    sans: Vec<SanToken>,
    comments: Vec<Vec<u8>>,
    outcomes: Vec<Outcome>,
    begin_variations: usize,
    end_variations: usize,
    games: usize,
}

impl EverythingCollector {
    fn new() -> EverythingCollector {
        EverythingCollector {
            tags: Vec::new(),
            sans: Vec::new(),
            comments: Vec::new(),
            outcomes: Vec::new(),
            begin_variations: 0,
            end_variations: 0,
            games: 0,
        }
    }
}

impl Visitor for EverythingCollector {
    type Output = ();
    type Error = Infallible;

    fn tag(&mut self, key: &[u8], value: &RawTag) -> Result<(), Self::Error> {
        self.tags.push((key.to_vec(), value.0.clone()));
        Ok(())
    }

    fn san(&mut self, san: &SanToken) -> Result<(), Self::Error> {
        self.sans.push(san.clone());
        Ok(())
    }

    fn comment(&mut self, comment: &RawComment) -> Result<(), Self::Error> {
        self.comments.push(comment.0.clone());
        Ok(())
    }

    fn begin_variation(&mut self) -> Result<Skip, Self::Error> {
        self.begin_variations += 1;
        Ok(Skip(false))
    }

    fn end_variation(&mut self) -> Result<(), Self::Error> {
        self.end_variations += 1;
        Ok(())
    }

    fn outcome(&mut self, outcome: Outcome) -> Result<(), Self::Error> {
        self.outcomes.push(outcome);
        Ok(())
    }

    fn end_game(&mut self) -> Self::Output {
        self.games += 1;
    }
}

#[test]
fn test_tag_with_escaped_quote() {
    let mut collector = EverythingCollector::new();
    let mut reader = BufferedReader::new(b"[Foo \"bar\\\"baz\"]\n\n1. e4 *".to_vec());
    reader.read_game(&mut collector).unwrap();
    assert_eq!(collector.tags.len(), 1);
    assert_eq!(collector.tags[0].0, b"Foo".to_vec());
    assert_eq!(collector.tags[0].1, b"bar\\\"baz".to_vec());
    assert_eq!(collector.sans.len(), 1);
    assert_eq!(collector.outcomes, vec![Outcome::Unknown]);
    assert_eq!(collector.games, 1);
}

#[test]
fn test_key_trailing_space_trimmed() {
    let mut collector = EverythingCollector::new();
    let mut reader = BufferedReader::new(b"[Event \"casual game\"]\n\n*".to_vec());
    reader.read_game(&mut collector).unwrap();
    assert_eq!(collector.tags.len(), 1);
    assert_eq!(collector.tags[0].0, b"Event".to_vec());
    assert_eq!(collector.tags[0].1, b"casual game".to_vec());
}

#[test]
fn test_outcomes() {
    let mut collector = EverythingCollector::new();
    let pgn = b"1. e4 1-0\n\n1. d4 0-1\n\n1. c4 1/2-1/2\n\n1. f4 *\n".to_vec();
    let mut reader = BufferedReader::new(pgn);
    reader.read_all(&mut collector).unwrap();
    assert_eq!(collector.games, 4);
    assert_eq!(
        collector.outcomes,
        vec![
            Outcome::WhiteWins,
            Outcome::BlackWins,
            Outcome::Draw,
            Outcome::Unknown
        ]
    );
}

#[test]
fn test_comment_and_variation() {
    let mut collector = EverythingCollector::new();
    let pgn = b"1. e4 {the king's pawn} (1. d4 d5) e5 *".to_vec();
    let mut reader = BufferedReader::new(pgn);
    reader.read_game(&mut collector).unwrap();
    assert_eq!(collector.comments, vec![b"the king's pawn".to_vec()]);
    assert_eq!(collector.begin_variations, 1);
    assert_eq!(collector.end_variations, 1);
    assert_eq!(collector.sans.len(), 4);
}

#[test]
fn test_unclosed_variation_is_balanced() {
    let mut collector = EverythingCollector::new();
    let mut reader = BufferedReader::new(b"1. e4 (1... c5 (2. Nf3".to_vec());
    reader.read_game(&mut collector).unwrap();
    assert_eq!(collector.begin_variations, 2);
    assert_eq!(collector.end_variations, 2);
    assert_eq!(collector.games, 1);
}

#[test]
fn test_unterminated_tag_error() {
    let mut collector = EverythingCollector::new();
    let mut reader = BufferedReader::new(b"[Event \"unclosed\n\n1. e4 *".to_vec());
    let res = reader.read_game(&mut collector);
    assert_eq!(res, Err(pgn_reader::types::ReadError::UnterminatedTag));
    // the emitted value runs up to the newline
    assert_eq!(collector.tags.len(), 1);
    assert_eq!(collector.tags[0].1, b"unclosed".to_vec());
    // the reader recovered: the next game can still be read
    let mut counter = GameCounter::default();
    reader.read_game(&mut counter).unwrap();
    assert_eq!(counter.count, 1);
}

#[test]
fn test_unterminated_comment_error() {
    let mut collector = EverythingCollector::new();
    let mut reader = BufferedReader::new(b"1. e4 {never closed".to_vec());
    let res = reader.read_game(&mut collector);
    assert_eq!(res, Err(pgn_reader::types::ReadError::UnterminatedComment));
    assert_eq!(collector.sans.len(), 1);
}

#[test]
fn test_rejected_san_dropped() {
    let mut collector = EverythingCollector::new();
    let mut reader = BufferedReader::new(b"1. Qx9 e4 *".to_vec());
    reader.read_game(&mut collector).unwrap();
    assert_eq!(collector.sans.len(), 1);
}

#[test]
fn test_bom_and_escape_lines() {
    let mut collector = EverythingCollector::new();
    let pgn = b"\xef\xbb\xbf% a comment line\n[White \"Anna\"]\n\n1. e4 *".to_vec();
    let mut reader = BufferedReader::new(pgn);
    reader.read_game(&mut collector).unwrap();
    assert_eq!(collector.tags.len(), 1);
    assert_eq!(collector.tags[0].0, b"White".to_vec());
    assert_eq!(collector.games, 1);
}

#[test]
fn test_has_more_and_skip_game() {
    let mut reader = BufferedReader::new(b"1. e4 *\n\n1. d4 *\n".to_vec());
    assert!(reader.has_more());
    assert_eq!(reader.skip_game(), Ok(true));
    assert!(reader.has_more());
    assert_eq!(reader.skip_game(), Ok(true));
    assert!(!reader.has_more());
    assert_eq!(reader.skip_game(), Ok(false));
}

#[test]
fn test_skip_movetext_on_request() {
    struct TagsOnly {
        tags: usize,
        sans: usize,
        games: usize,
    }
    impl Visitor for TagsOnly {
        type Output = ();
        type Error = Infallible;

        fn tag(&mut self, _key: &[u8], _value: &RawTag) -> Result<(), Self::Error> {
            self.tags += 1;
            Ok(())
        }

        fn begin_movetext(&mut self) -> Result<Skip, Self::Error> {
            Ok(Skip(true))
        }

        fn san(&mut self, _san: &SanToken) -> Result<(), Self::Error> {
            self.sans += 1;
            Ok(())
        }

        fn end_game(&mut self) -> Self::Output {
            self.games += 1;
        }
    }
    let mut v = TagsOnly { tags: 0, sans: 0, games: 0 };
    let mut reader = BufferedReader::new(b"[A \"b\"]\n\n1. e4 e5 *\n\n1. d4 *\n".to_vec());
    reader.read_all(&mut v).unwrap();
    assert_eq!(v.tags, 1);
    assert_eq!(v.sans, 0);
    assert_eq!(v.games, 2);
}

#[test]
fn test_skip_variation_contents() {
    struct SkipVariations {
        sans: usize,
        begins: usize,
        ends: usize,
    }
    impl Visitor for SkipVariations {
        type Output = ();
        type Error = Infallible;

        fn san(&mut self, _san: &SanToken) -> Result<(), Self::Error> {
            self.sans += 1;
            Ok(())
        }

        fn begin_variation(&mut self) -> Result<Skip, Self::Error> {
            self.begins += 1;
            Ok(Skip(true))
        }

        fn end_variation(&mut self) -> Result<(), Self::Error> {
            self.ends += 1;
            Ok(())
        }

        fn end_game(&mut self) -> Self::Output {}
    }
    let mut v = SkipVariations { sans: 0, begins: 0, ends: 0 };
    let mut reader = BufferedReader::new(b"1. e4 (1. d4 d5 (2. c4)) e5 *".to_vec());
    reader.read_game(&mut v).unwrap();
    // only the mainline moves arrive, but the skipped variation still
    // closes
    assert_eq!(v.sans, 2);
    assert_eq!(v.begins, 1);
    assert_eq!(v.ends, 1);
}

#[test]
fn test_into_iter() {
    let reader = BufferedReader::new(b"1. e4 *\n\n1. d4 *\n".to_vec());
    let mut iter = reader.into_iter(GameCounter::default());
    let mut seen = 0;
    while let Some(res) = iter.next() {
        res.unwrap().unwrap();
        seen += 1;
    }
    assert_eq!(seen, 2);
    let (_, counter) = iter.into_parts();
    assert_eq!(counter.count, 2);
}

#[test]
fn test_into_inner() {
    let mut reader = BufferedReader::new(b"1. e4 *\n\n1. d4 *\n".to_vec());
    assert_eq!(reader.skip_game(), Ok(true));
    let rest = reader.into_inner();
    assert_eq!(rest, b"1. d4 *\n".to_vec());
}

#[test]
fn test_restart_safe() {
    let pgn = b"[A \"b\"]\n\n1. e4 {x} (1. d4) e5 $3 1-0\n".to_vec();
    let mut r1 = BufferedReader::new(pgn.clone());
    let mut r2 = BufferedReader::new(pgn);
    let g1 = r1.read_game_events();
    let g2 = r2.read_game_events();
    assert_eq!(g1.present, g2.present);
    assert_eq!(g1.error, g2.error);
    assert_eq!(format!("{:?}", g1.events), format!("{:?}", g2.events));
}

#[test]
fn test_repeat_stream_parses_twice() {
    let one = b"[A \"b\"]\n\n1. e4 e5 1-0\n".to_vec();
    let mut twice = one.clone();
    twice.extend_from_slice(b"\n");
    twice.extend_from_slice(&one);
    let mut r1 = BufferedReader::new(one);
    let g1 = r1.read_game_events();
    let mut r2 = BufferedReader::new(twice);
    let first = r2.read_game_events();
    let second = r2.read_game_events();
    let third = r2.read_game_events();
    assert_eq!(format!("{:?}", first.events), format!("{:?}", g1.events));
    assert_eq!(format!("{:?}", second.events), format!("{:?}", g1.events));
    assert!(!third.present);
}

#[test]
fn test_game_count_long_stream() {
    let mut pgn = Vec::new();
    for _ in 0..25 {
        pgn.extend_from_slice(b"[E \"v\"]\n\n1. e4 e5 2. Nf3 Nc6 1-0\n\n");
    }
    let mut counter = GameCounter::default();
    let mut reader = BufferedReader::new(pgn);
    reader.read_all(&mut counter).unwrap();
    assert_eq!(counter.count, 25);
}

#[test]
fn test_semicolon_comment_skipped() {
    let mut collector = EverythingCollector::new();
    let mut reader = BufferedReader::new(b"1. e4 ; a line comment\ne5 *".to_vec());
    reader.read_game(&mut collector).unwrap();
    assert_eq!(collector.sans.len(), 2);
    assert_eq!(collector.comments.len(), 0);
    assert_eq!(collector.outcomes, vec![Outcome::Unknown]);
}

#[test]
fn test_visitor_error_stops_delivery() {
    struct Fussy {
        sans: usize,
    }
    impl Visitor for Fussy {
        type Output = ();
        type Error = String;

        fn san(&mut self, _san: &SanToken) -> Result<(), Self::Error> {
            self.sans += 1;
            if self.sans == 2 {
                Err("enough".to_string())
            } else {
                Ok(())
            }
        }

        fn end_game(&mut self) -> Self::Output {}
    }
    let mut v = Fussy { sans: 0 };
    let mut reader = BufferedReader::new(b"1. e4 e5 2. Nf3 Nc6 *".to_vec());
    let res = reader.read_game(&mut v).unwrap();
    assert_eq!(res, Some(Err("enough".to_string())));
    assert_eq!(v.sans, 2);
    // the rest of the rejected game is left unconsumed: reading on resumes
    // inside it
    let mut rest = EverythingCollector::new();
    reader.read_game(&mut rest).unwrap();
    assert_eq!(rest.sans.len(), 2);
    assert_eq!(rest.outcomes, vec![Outcome::Unknown]);
    assert_eq!(rest.games, 1);
}

#[test]
fn test_read_all_continues_after_rejection() {
    struct RejectsEveryMove {
        rejected: usize,
        games_finished: usize,
    }
    impl Visitor for RejectsEveryMove {
        type Output = ();
        type Error = ();

        fn san(&mut self, _san: &SanToken) -> Result<(), Self::Error> {
            self.rejected += 1;
            Err(())
        }

        fn end_game(&mut self) -> Self::Output {
            self.games_finished += 1;
        }
    }
    let mut v = RejectsEveryMove { rejected: 0, games_finished: 0 };
    let mut reader = BufferedReader::new(b"1. e4 e5 *

1. d4 d5 *
".to_vec());
    // read_all advances game by game: a rejection cancels that one game's
    // remaining events and nothing else
    reader.read_all(&mut v).unwrap();
    assert_eq!(v.rejected, 2);
    assert_eq!(v.games_finished, 0);
    assert_eq!(reader.into_inner(), Vec::<u8>::new());
}

#[test]
fn test_read_all_stops_at_first_framing_error() {
    let mut counter = GameCounter::default();
    let mut reader = BufferedReader::new(b"1. e4 *

1. d4 {bad

1. c4 *
".to_vec());
    let res = reader.read_all(&mut counter);
    assert_eq!(res, Err(pgn_reader::types::ReadError::UnterminatedComment));
    // the first game was read whole before the error
    assert_eq!(counter.count, 1);
}
