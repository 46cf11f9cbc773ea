//! Keys of sound classes: a single uppercase ASCII letter such as `C` or `V`.

use vstd::prelude::*;

verus! {

/// Whether a character can name a sound class.
pub open spec fn is_class_letter(c: char) -> bool {
    'A' <= c <= 'Z'
}

/// The key of a sound class: one uppercase ASCII letter.
#[derive(PartialEq, Eq, Structural, Clone, Copy, Debug, Hash)]
pub struct SoundClassKey {
    pub letter: char,
}

impl SoundClassKey {
    /// Whether the key is well formed.
    pub open spec fn wf(self) -> bool {
        is_class_letter(self.letter)
    }

    /// The key for a letter, if it can name a class.
    pub fn from_char(c: char) -> (r: Option<SoundClassKey>)
        ensures
            r is Some <==> is_class_letter(c),
            r matches Some(k) ==> k.letter == c,
    {
        if 'A' <= c && c <= 'Z' {
            Some(SoundClassKey { letter: c })
        } else {
            None
        }
    }

    /// Parses a key: the text must be exactly one uppercase ASCII letter.
    pub fn parse(s: &str) -> (r: Result<SoundClassKey, String>)
        ensures
            r is Ok <==> (s@.len() == 1 && is_class_letter(s@[0])),
            r matches Ok(k) ==> s@ == seq![k.letter],
    {
        let cs = crate::text::chars_of(s);
        if cs.len() == 1 {
            match SoundClassKey::from_char(cs[0]) {
                Some(k) => {
                    return Ok(k);
                },
                None => {},
            }
        }
        Err(crate::text::concat2("Invalid sound class key: ", s))
    }

    /// The key's text: its letter.
    pub fn to_text(&self) -> (r: String)
        ensures
            r@ == seq![self.letter],
    {
        crate::text::char_string(self.letter)
    }
}

} // verus!
