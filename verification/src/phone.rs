//! Phones: the language-neutral atoms every other module reads.
//!
//! A language set supplies [`Phone`] values carrying a broad [`Class`]; the
//! syllable, weight, meter, and sonance layers above are written against the
//! class alone, so a new language costs a symbol table and nothing else.

use vstd::prelude::*;

verus! {

/// Broad phonological class.
///
/// Only the sonority ordering is load-bearing: syllabification reads it to find
/// legal onsets, and weight reads whether a phone is a vowel.
#[derive(Clone, Copy, PartialEq, Eq, Debug, Structural)]
pub enum Class {
    Vowel,
    Glide,
    Liquid,
    Nasal,
    Fricative,
    Affricate,
    Stop,
}

impl Class {
    /// Position on the sonority hierarchy; higher is more sonorous.
    pub open spec fn spec_sonority(self) -> u8 {
        match self {
            Class::Vowel => 6,
            Class::Glide => 5,
            Class::Liquid => 4,
            Class::Nasal => 3,
            Class::Fricative => 2,
            Class::Affricate => 1,
            Class::Stop => 0,
        }
    }

    /// Position on the sonority hierarchy; higher is more sonorous.
    #[verifier::when_used_as_spec(spec_sonority)]
    pub fn sonority(self) -> (r: u8)
        ensures
            r == self.spec_sonority(),
    {
        match self {
            Class::Vowel => 6,
            Class::Glide => 5,
            Class::Liquid => 4,
            Class::Nasal => 3,
            Class::Fricative => 2,
            Class::Affricate => 1,
            Class::Stop => 0,
        }
    }

    pub open spec fn spec_is_vowel(self) -> bool {
        self is Vowel
    }

    #[verifier::when_used_as_spec(spec_is_vowel)]
    pub fn is_vowel(self) -> (r: bool)
        ensures
            r == (self is Vowel),
    {
        match self {
            Class::Vowel => true,
            _ => false,
        }
    }
}

/// Lexical stress on a syllable's nucleus.
///
/// `Unmarked` means the language does not mark stress, which is different from
/// [`Stress::Unstressed`]: a mora-timed or quantitative reading wants the
/// former, an English lexicon supplies the latter.
#[derive(Clone, Copy, PartialEq, Eq, Debug, Structural)]
pub enum Stress {
    Unmarked,
    Unstressed,
    Secondary,
    Primary,
}

impl Default for Stress {
    fn default() -> (s: Self)
        ensures
            s == Stress::Unmarked,
    {
        Stress::Unmarked
    }
}

impl Stress {
    pub open spec fn spec_is_prominent(self) -> bool {
        self is Primary || self is Secondary
    }

    /// Primary and secondary stress are prominent; unstressed and unmarked are not.
    #[verifier::when_used_as_spec(spec_is_prominent)]
    pub fn is_prominent(self) -> (r: bool)
        ensures
            r == (self is Primary || self is Secondary),
    {
        match self {
            Stress::Primary | Stress::Secondary => true,
            _ => false,
        }
    }
}

/// One phone in a pronunciation.
///
/// `id` is opaque and belongs to whichever symbol table produced it; comparing
/// phones across two different tables is meaningless.
#[derive(Clone, Copy, PartialEq, Eq, Debug, Structural)]
pub struct Phone {
    pub id: u16,
    pub class: Class,
    /// Long or diphthongal: intrinsically bimoraic under most weight rules.
    pub long: bool,
    pub stress: Stress,
}

impl Phone {
    /// A short phone with unmarked stress.
    pub fn new(id: u16, class: Class) -> (p: Self)
        ensures
            p == (Phone { id, class, long: false, stress: Stress::Unmarked }),
    {
        Phone { id, class, long: false, stress: Stress::Unmarked }
    }

    /// The same phone with its length set to `long`.
    pub fn with_long(self, long: bool) -> (p: Self)
        ensures
            p == (Phone { long, ..self }),
    {
        Phone { long, ..self }
    }

    /// The same phone with its stress set to `stress`.
    pub fn with_stress(self, stress: Stress) -> (p: Self)
        ensures
            p == (Phone { stress, ..self }),
    {
        Phone { stress, ..self }
    }

    pub open spec fn spec_is_vowel(self) -> bool {
        self.class is Vowel
    }

    #[verifier::when_used_as_spec(spec_is_vowel)]
    pub fn is_vowel(self) -> (r: bool)
        ensures
            r == (self.class is Vowel),
    {
        self.class.is_vowel()
    }
}

/// The sonority hierarchy is a strict order from vowel down to stop, and
/// only vowels sit at its top.
pub proof fn lemma_sonority_order(a: Class, b: Class)
    ensures
        a.spec_sonority() == b.spec_sonority() <==> a == b,
        a.spec_sonority() <= Class::Vowel.spec_sonority(),
        a.spec_sonority() == Class::Vowel.spec_sonority() <==> a.spec_is_vowel(),
{
}

} // verus!
