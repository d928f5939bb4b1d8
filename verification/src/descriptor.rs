//! Type descriptors: what the recogniser of Haskell C-FFI types makes of one
//! type of a signature.

use hs_bindgen_traits::HsType;
use crate::text::{lemma_trim_is_a_cut, to_chars, trim, trimmed};
use vstd::prelude::*;

verus! {

/// One Haskell type, held as the text by which Haskell names it.
#[derive(Debug, Clone, PartialEq, Eq)]
pub struct TypeDescriptor {
    pub text: String,
}

impl View for TypeDescriptor {
    type V = Seq<char>;

    open spec fn view(&self) -> Seq<char> {
        self.text@
    }
}

/// What the recogniser makes of the text of one type: the name that Haskell
/// gives the type, or the message with which the text is refused.
pub uninterp spec fn type_token_outcome(token: Seq<char>) -> Result<Seq<char>, Seq<char>>;

/// An outcome of the recogniser over sequences of characters.
pub open spec fn outcome_view(outcome: Result<TypeDescriptor, String>) -> Result<
    Seq<char>,
    Seq<char>,
> {
    match outcome {
        Ok(descriptor) => Ok(descriptor@),
        Err(message) => Err(message@),
    }
}

/// What each outcome of `outcomes` holds.
pub open spec fn outcome_views(outcomes: Seq<Result<TypeDescriptor, String>>) -> Seq<
    Result<Seq<char>, Seq<char>>,
> {
    Seq::new(outcomes.len(), |i: int| outcome_view(outcomes[i]))
}

/// What each descriptor of `types` holds.
pub open spec fn type_texts(types: Seq<TypeDescriptor>) -> Seq<Seq<char>> {
    Seq::new(types.len(), |i: int| types[i]@)
}

/// `c` takes one byte in UTF-8.
pub open spec fn narrow(c: char) -> bool {
    (c as u32) < 0x80
}

/// The recogniser cuts `token` between characters only.
///
/// It trims the text and cuts it behind its first byte; where that byte is
/// `(` and the last is `)`, it goes on with what stands between them. Else
/// it cuts a text of two bytes or more behind the second, and goes on behind
/// `IO`; else it cuts a text of three bytes or more behind the third, and
/// goes on behind `Ptr`. A cut is behind a character where every character
/// before it takes one byte.
pub open spec fn readable(token: Seq<char>) -> bool
    decreases token.len(),
    via readable_decreases
{
    let t = trim(token);
    if t.len() == 0 {
        true
    } else if !narrow(t[0]) {
        false
    } else if t[0] == '(' {
        if t.len() >= 2 && t.last() == ')' {
            readable(t.subrange(1, t.len() - 1))
        } else {
            true
        }
    } else if t.len() < 2 {
        true
    } else if !narrow(t[1]) {
        false
    } else if t[0] == 'I' && t[1] == 'O' {
        readable(t.subrange(2, t.len() as int))
    } else if t.len() < 3 {
        true
    } else if !narrow(t[2]) {
        false
    } else if t[0] == 'P' && t[1] == 't' && t[2] == 'r' {
        readable(t.subrange(3, t.len() as int))
    } else {
        true
    }
}

#[via_fn]
proof fn readable_decreases(token: Seq<char>) {
    lemma_trim_is_a_cut(token);
}

/// Whether `c` takes one byte in UTF-8.
pub fn is_narrow(c: char) -> (b: bool)
    ensures
        b == narrow(c),
{
    let n: u32 = c as u32;
    n < 0x80
}

/// Whether the recogniser cuts `token` between characters only.
pub fn can_read(token: &str) -> (b: bool)
    ensures
        b == readable(token@),
{
    let mut rest: &str = token;
    loop
        invariant
            readable(token@) == readable(rest@),
        decreases rest@.len(),
    {
        let t: &str = trimmed(rest);
        let chars: Vec<char> = to_chars(t);
        let n: usize = chars.len();
        proof {
            lemma_trim_is_a_cut(rest@);
        }
        if n == 0 {
            return true;
        }
        if !is_narrow(chars[0]) {
            return false;
        }
        if chars[0] == '(' {
            if n >= 2 && chars[n - 1] == ')' {
                rest = t.substring_char(1, n - 1);
            } else {
                return true;
            }
        } else if n < 2 {
            return true;
        } else if !is_narrow(chars[1]) {
            return false;
        } else if chars[0] == 'I' && chars[1] == 'O' {
            rest = t.substring_char(2, n);
        } else if n < 3 {
            return true;
        } else if !is_narrow(chars[2]) {
            return false;
        } else if chars[0] == 'P' && chars[1] == 't' && chars[2] == 'r' {
            rest = t.substring_char(3, n);
        } else {
            return true;
        }
    }
}

/// Hands `token` to `<HsType as FromStr>::from_str` of `hs-bindgen-traits`,
/// and keeps of the type that comes back the text that its `Display` writes,
/// and of an error the message that its `Display` writes.
///
/// Believed, not proved: that the outcome depends on the characters of
/// `token` alone, which is what giving it the name [`type_token_outcome`]
/// says. `from_str` cuts its argument at fixed byte offsets, which fails
/// inside a character of more than one byte: [`readable`] leaves those
/// texts out.
#[verifier::external_body]
fn recognize(token: &str) -> (outcome: Result<TypeDescriptor, String>)
    requires
        readable(token@),
    ensures
        outcome_view(outcome) == type_token_outcome(token@),
{
    match token.parse::<HsType>() {
        Ok(ty) => Ok(TypeDescriptor { text: ty.to_string() }),
        Err(error) => Err(error.to_string()),
    }
}

/// What the recogniser makes of `token`, unless it would have to cut
/// `token` inside a character: then it is not asked, and the result is `None`.
pub fn recognize_token(token: &str) -> (res: Option<Result<TypeDescriptor, String>>)
    ensures
        readable(token@) <==> res is Some,
        res matches Some(outcome) ==> outcome_view(outcome) == type_token_outcome(token@),
{
    if can_read(token) {
        Some(recognize(token))
    } else {
        None
    }
}

} // verus!
