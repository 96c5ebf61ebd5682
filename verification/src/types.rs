//! Value types handed to a visitor: tags, comments, annotation glyphs,
//! outcomes and SAN tokens, together with their mathematical views.

use vstd::prelude::*;

verus! {

/// A numeric annotation glyph, the `$n` tokens of movetext, as well as the
/// punctuation forms `!`, `?`, `!!`, `??`, `!?` and `?!`.
#[derive(Clone, Copy, PartialEq, Eq, Structural, Debug)]
pub struct Nag(pub u16);

impl Nag {
    /// `!`
    pub fn good_move() -> (r: Nag)
        ensures
            r == Nag(1u16),
    {
        Nag(1)
    }

    /// `?`
    pub fn mistake() -> (r: Nag)
        ensures
            r == Nag(2u16),
    {
        Nag(2)
    }

    /// `!!`
    pub fn brilliant_move() -> (r: Nag)
        ensures
            r == Nag(3u16),
    {
        Nag(3)
    }

    /// `??`
    pub fn blunder() -> (r: Nag)
        ensures
            r == Nag(4u16),
    {
        Nag(4)
    }

    /// `!?`
    pub fn speculative_move() -> (r: Nag)
        ensures
            r == Nag(5u16),
    {
        Nag(5)
    }

    /// `?!`
    pub fn dubious_move() -> (r: Nag)
        ensures
            r == Nag(6u16),
    {
        Nag(6)
    }
}

/// A tag value as it appeared between the quotes of a tag pair, with
/// backslash escapes left untouched.
#[derive(Clone, Debug)]
pub struct RawTag(pub Vec<u8>);

impl View for RawTag {
    type V = Seq<u8>;

    open spec fn view(&self) -> Seq<u8> {
        self.0@
    }
}

/// The bytes between `{` and `}` of a brace comment, untrimmed.
#[derive(Clone, Debug)]
pub struct RawComment(pub Vec<u8>);

impl View for RawComment {
    type V = Seq<u8>;

    open spec fn view(&self) -> Seq<u8> {
        self.0@
    }
}

/// Returned by a visitor from `begin_movetext` and `begin_variation` to ask
/// the reader not to deliver the events of that section.
#[derive(Clone, Copy, PartialEq, Eq, Structural, Debug)]
pub struct Skip(pub bool);

/// The result token that ends a game's movetext.
#[derive(Clone, Copy, PartialEq, Eq, Structural, Debug)]
pub enum Outcome {
    /// `1-0`
    WhiteWins,
    /// `0-1`
    BlackWins,
    /// `1/2-1/2`
    Draw,
    /// `*`
    Unknown,
}

/// The side of a zero-notation castling token.
#[derive(Clone, Copy, PartialEq, Eq, Structural, Debug)]
pub enum CastlingSide {
    /// `0-0`
    KingSide,
    /// `0-0-0`
    QueenSide,
}

/// A check or checkmate suffix on a move token.
#[derive(Clone, Copy, PartialEq, Eq, Structural, Debug)]
pub enum Suffix {
    /// `+`
    Check,
    /// `#`
    Checkmate,
}

/// A SAN token of movetext.  Parsing proper SAN is delegated to `shakmaty`;
/// the additional `Castle` variant covers the zero-notation castling tokens
/// `0-0` and `0-0-0`, which SAN itself does not admit.
#[derive(Clone, Debug)]
pub enum SanToken {
    /// A zero-notation castling token with its optional suffix.
    Castle { side: CastlingSide, suffix: Option<Suffix> },
    /// A token accepted by `shakmaty`'s SAN parser, together with the raw
    /// bytes it was parsed from.
    Parsed { raw: Vec<u8>, san: shakmaty::san::SanPlus },
}

/// The mathematical view of a SAN token: a parsed token is abstracted by the
/// bytes it was read from, which determine the parse.
pub enum SanView {
    Castle { side: CastlingSide, suffix: Option<Suffix> },
    Parsed(Seq<u8>),
}

impl View for SanToken {
    type V = SanView;

    open spec fn view(&self) -> SanView {
        match self {
            SanToken::Castle { side, suffix } => SanView::Castle { side: *side, suffix: *suffix },
            SanToken::Parsed { raw, san } => SanView::Parsed(raw@),
        }
    }
}

/// An irrecoverable framing error.  The reader still advances past the bad
/// construct, so a later game of the same stream can be read.
#[derive(Clone, Copy, PartialEq, Eq, Structural, Debug)]
pub enum ReadError {
    /// A tag line with no closing quote or bracket within the tag-line bound.
    UnterminatedTag,
    /// A brace comment with no `}` within the comment bound.
    UnterminatedComment,
}

/// One parse event of a game, in source order.
#[derive(Clone, Debug)]
pub enum Event {
    /// The start of a game's tag-pair section; exactly one per game.
    BeginTags,
    /// One tag pair `[key "value"]`.
    Tag { key: Vec<u8>, value: RawTag },
    /// The end of the tag-pair section; exactly one per game.
    BeginMovetext,
    /// A SAN token.
    San(SanToken),
    /// A numeric annotation glyph.
    Nag(Nag),
    /// A brace comment.
    Comment(RawComment),
    /// An opening `(`.  Always matched by a later `EndVariation`.
    BeginVariation,
    /// A closing `)`, or the closing of a variation left open at the end of
    /// the game.
    EndVariation,
    /// A result token.
    Outcome(Outcome),
    /// The end of the game; exactly one per game, always last.
    EndGame,
}

/// The mathematical view of an [`Event`].
pub enum EventView {
    BeginTags,
    Tag(Seq<u8>, Seq<u8>),
    BeginMovetext,
    San(SanView),
    Nag(u16),
    Comment(Seq<u8>),
    BeginVariation,
    EndVariation,
    Outcome(Outcome),
    EndGame,
}

impl View for Event {
    type V = EventView;

    open spec fn view(&self) -> EventView {
        match self {
            Event::BeginTags => EventView::BeginTags,
            Event::Tag { key, value } => EventView::Tag(key@, value@),
            Event::BeginMovetext => EventView::BeginMovetext,
            Event::San(s) => EventView::San(s@),
            Event::Nag(n) => EventView::Nag(n.0),
            Event::Comment(c) => EventView::Comment(c@),
            Event::BeginVariation => EventView::BeginVariation,
            Event::EndVariation => EventView::EndVariation,
            Event::Outcome(o) => EventView::Outcome(*o),
            Event::EndGame => EventView::EndGame,
        }
    }
}

/// The views of a sequence of events.
pub open spec fn views(s: Seq<Event>) -> Seq<EventView> {
    s.map_values(|e: Event| e@)
}

pub proof fn lemma_views_len(s: Seq<Event>)
    ensures
        views(s).len() == s.len(),
{
}

pub proof fn lemma_views_push(s: Seq<Event>, e: Event)
    ensures
        views(s.push(e)) == views(s).push(e@),
{
    assert(views(s.push(e)) =~= views(s).push(e@));
}

} // verus!
