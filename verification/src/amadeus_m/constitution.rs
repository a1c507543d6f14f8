//! The context patterns that the grammar's constitutional rules match, and
//! what a rule's class action does to a sampled token.
use vstd::prelude::*;
use crate::amadeus_m::token7::{Token7, spec_token, class_of};

verus! {

/// A context: the class of the previous token, the class of the current
/// one and a mask over the previous token's feature bits, each optional.
#[derive(Clone, Copy, Debug, PartialEq, Eq, Structural)]
pub struct ContextPattern {
    pub prev_pos: Option<u8>,
    pub curr_pos: Option<u8>,
    pub prev_bits_mask: Option<u128>,
}

impl ContextPattern {
    /// Whether the context fits: each given class is equal, and the mask,
    /// if given, shares a bit with the previous token's bits.
    pub open spec fn matches_spec(self, prev_pos: u8, curr_pos: u8, prev_bits: u128) -> bool {
        &&& (self.prev_pos matches Some(pp) ==> pp == prev_pos)
        &&& (self.curr_pos matches Some(cp) ==> cp == curr_pos)
        &&& (self.prev_bits_mask matches Some(pb) ==> prev_bits & pb != 0)
    }

    pub fn matches(&self, prev_pos: u8, curr_pos: u8, prev_bits: u128) -> (b: bool)
        ensures
            b == self.matches_spec(prev_pos, curr_pos, prev_bits),
    {
        if let Some(pp) = self.prev_pos {
            if pp != prev_pos {
                return false;
            }
        }
        if let Some(cp) = self.curr_pos {
            if cp != curr_pos {
                return false;
            }
        }
        if let Some(pb) = self.prev_bits_mask {
            if (prev_bits & pb) == 0 {
                return false;
            }
        }
        true
    }
}


/// A rule's action on the class of the next token.
#[derive(Clone, Copy, Debug, PartialEq, Eq, Structural)]
pub enum PosAction {
    /// The token takes this class.
    Force(u8),
    /// A token of this class takes class 1 instead (class 0 when the
    /// blocked class is not 0).
    Block(u8),
}

/// The token rebuilt with class `c`: same root and style, the morphology's
/// class bits replaced, every other field cleared.
pub open spec fn with_class(t: Token7, c: u8) -> Token7 {
    Token7 { style: t.style, ..spec_token(t.lex, (t.morph & !7u16) | (c as u16)) }
}

/// The token after a rule's action.
pub open spec fn apply_spec(t: Token7, a: PosAction) -> Token7 {
    match a {
        PosAction::Force(p) => with_class(t, p),
        PosAction::Block(p) => if class_of(t.morph) == p {
            with_class(t, if p == 0 { 1 } else { 0 })
        } else {
            t
        },
    }
}

/// Applies a rule's action to a sampled token (see `apply_spec`).
pub fn apply_pos_action(t: Token7, a: PosAction) -> (r: Token7)
    ensures
        r == apply_spec(t, a),
{
    match a {
        PosAction::Force(p) => Token7::new(t.lex, (t.morph & !7u16) | (p as u16)).with_style(t.style),
        PosAction::Block(p) => {
            if t.morph_class() == p {
                let new_pos: u8 = if p == 0 { 1 } else { 0 };
                Token7::new(t.lex, (t.morph & !7u16) | (new_pos as u16)).with_style(t.style)
            } else {
                t
            }
        },
    }
}

} // verus!
