//! The callback interface through which a reader reports the events of a
//! game.
//!
//! Every method has a do-nothing default, so a concrete visitor overrides
//! only what it needs.  Byte slices handed to `tag` are owned copies inside
//! the values, so a visitor may keep them.

use vstd::prelude::*;

use crate::types::{Nag, Outcome, RawComment, RawTag, SanToken, Skip};

verus! {

/// A caller-supplied object receiving parse events.
///
/// Within one game the visitor does not reject, the reader calls exactly
/// one `begin_tags`, then any number of `tag`s, then exactly one
/// `begin_movetext`, then movetext events, then exactly one `end_game`;
/// `begin_variation` and `end_variation` come in balanced pairs.
pub trait Visitor {
    /// What `end_game` hands back for one finished game.
    type Output;

    /// How the visitor rejects a game; an error stops the reading of the
    /// game, and the rest of the game is left unconsumed.
    type Error;

    /// The tag-pair section of a game begins.
    fn begin_tags(&mut self) -> Result<(), Self::Error> {
        Ok(())
    }

    /// One tag pair.
    fn tag(&mut self, _key: &[u8], _value: &RawTag) -> Result<(), Self::Error> {
        Ok(())
    }

    /// The movetext section begins; `Skip(true)` asks the reader not to
    /// deliver the section's events.
    fn begin_movetext(&mut self) -> Result<Skip, Self::Error> {
        Ok(Skip(false))
    }

    /// A SAN token.
    fn san(&mut self, _san: &SanToken) -> Result<(), Self::Error> {
        Ok(())
    }

    /// A numeric annotation glyph.
    fn nag(&mut self, _nag: Nag) -> Result<(), Self::Error> {
        Ok(())
    }

    /// A brace comment.
    fn comment(&mut self, _comment: &RawComment) -> Result<(), Self::Error> {
        Ok(())
    }

    /// A variation opens; `Skip(true)` asks the reader not to deliver its
    /// contents.  The matching `end_variation` is still delivered.
    fn begin_variation(&mut self) -> Result<Skip, Self::Error> {
        Ok(Skip(false))
    }

    /// A variation closes.
    fn end_variation(&mut self) -> Result<(), Self::Error> {
        Ok(())
    }

    /// A result token.
    fn outcome(&mut self, _outcome: Outcome) -> Result<(), Self::Error> {
        Ok(())
    }

    /// The game is over; called exactly once per accepted game.
    fn end_game(&mut self) -> Self::Output;
}

/// The visitor that ignores everything and asks to skip all movetext.
pub struct SkipVisitor;

impl Visitor for SkipVisitor {
    type Output = ();

    type Error = ();

    fn begin_movetext(&mut self) -> Result<Skip, Self::Error> {
        Ok(Skip(true))
    }

    fn end_game(&mut self) -> () {
    }
}

} // verus!
