//! English: the ARPAbet phone set, and parsing for CMUdict-shaped input.
//!
//! This is the only English-specific module in the crate, and it is a table.
//! Everything above it (syllables, weight, meter, sonance) is language-neutral,
//! so a second language costs another table and nothing more.
//!
//! No lexicon ships here. Pronunciations are data, often large and separately
//! licensed; this module parses the format CMUdict publishes and leaves the
//! storage to the consumer.

use vstd::prelude::*;

use crate::phone::{Class, Phone, Stress};
use crate::syllable::SyllableRule;
use crate::weight::WeightRule;

verus! {

/// Syllabification parameters for English.
pub fn syllable_rule() -> (r: SyllableRule)
    ensures
        r == (SyllableRule { max_onset: 3, sibilant_stop_onset: true }),
{
    SyllableRule::english()
}

/// English stress is weight-sensitive, so the classical reading applies.
pub fn weight_rule() -> (r: WeightRule)
    ensures
        r == (WeightRule { long_nucleus_morae: 2, coda_moraic: true, max_coda_morae: 1 }),
{
    WeightRule::classical()
}

/// Entries in the ARPAbet table.
pub const ARPABET_LEN: usize = 39;

/// The symbol of entry `id` of the ARPAbet table, or nothing past its end.
pub open spec fn arpabet_symbol(id: int) -> Seq<char> {
    if id == 0 {
        seq!['A', 'A']
    } else if id == 1 {
        seq!['A', 'E']
    } else if id == 2 {
        seq!['A', 'H']
    } else if id == 3 {
        seq!['A', 'O']
    } else if id == 4 {
        seq!['A', 'W']
    } else if id == 5 {
        seq!['A', 'Y']
    } else if id == 6 {
        seq!['B']
    } else if id == 7 {
        seq!['C', 'H']
    } else if id == 8 {
        seq!['D']
    } else if id == 9 {
        seq!['D', 'H']
    } else if id == 10 {
        seq!['E', 'H']
    } else if id == 11 {
        seq!['E', 'R']
    } else if id == 12 {
        seq!['E', 'Y']
    } else if id == 13 {
        seq!['F']
    } else if id == 14 {
        seq!['G']
    } else if id == 15 {
        seq!['H', 'H']
    } else if id == 16 {
        seq!['I', 'H']
    } else if id == 17 {
        seq!['I', 'Y']
    } else if id == 18 {
        seq!['J', 'H']
    } else if id == 19 {
        seq!['K']
    } else if id == 20 {
        seq!['L']
    } else if id == 21 {
        seq!['M']
    } else if id == 22 {
        seq!['N']
    } else if id == 23 {
        seq!['N', 'G']
    } else if id == 24 {
        seq!['O', 'W']
    } else if id == 25 {
        seq!['O', 'Y']
    } else if id == 26 {
        seq!['P']
    } else if id == 27 {
        seq!['R']
    } else if id == 28 {
        seq!['S']
    } else if id == 29 {
        seq!['S', 'H']
    } else if id == 30 {
        seq!['T']
    } else if id == 31 {
        seq!['T', 'H']
    } else if id == 32 {
        seq!['U', 'H']
    } else if id == 33 {
        seq!['U', 'W']
    } else if id == 34 {
        seq!['V']
    } else if id == 35 {
        seq!['W']
    } else if id == 36 {
        seq!['Y']
    } else if id == 37 {
        seq!['Z']
    } else if id == 38 {
        seq!['Z', 'H']
    } else {
        Seq::empty()
    }
}

/// The class of entry `id` of the ARPAbet table.
pub open spec fn arpabet_class(id: int) -> Class {
    if id == 0 {
        Class::Vowel
    } else if id == 1 {
        Class::Vowel
    } else if id == 2 {
        Class::Vowel
    } else if id == 3 {
        Class::Vowel
    } else if id == 4 {
        Class::Vowel
    } else if id == 5 {
        Class::Vowel
    } else if id == 6 {
        Class::Stop
    } else if id == 7 {
        Class::Affricate
    } else if id == 8 {
        Class::Stop
    } else if id == 9 {
        Class::Fricative
    } else if id == 10 {
        Class::Vowel
    } else if id == 11 {
        Class::Vowel
    } else if id == 12 {
        Class::Vowel
    } else if id == 13 {
        Class::Fricative
    } else if id == 14 {
        Class::Stop
    } else if id == 15 {
        Class::Fricative
    } else if id == 16 {
        Class::Vowel
    } else if id == 17 {
        Class::Vowel
    } else if id == 18 {
        Class::Affricate
    } else if id == 19 {
        Class::Stop
    } else if id == 20 {
        Class::Liquid
    } else if id == 21 {
        Class::Nasal
    } else if id == 22 {
        Class::Nasal
    } else if id == 23 {
        Class::Nasal
    } else if id == 24 {
        Class::Vowel
    } else if id == 25 {
        Class::Vowel
    } else if id == 26 {
        Class::Stop
    } else if id == 27 {
        Class::Liquid
    } else if id == 28 {
        Class::Fricative
    } else if id == 29 {
        Class::Fricative
    } else if id == 30 {
        Class::Stop
    } else if id == 31 {
        Class::Fricative
    } else if id == 32 {
        Class::Vowel
    } else if id == 33 {
        Class::Vowel
    } else if id == 34 {
        Class::Fricative
    } else if id == 35 {
        Class::Glide
    } else if id == 36 {
        Class::Glide
    } else if id == 37 {
        Class::Fricative
    } else if id == 38 {
        Class::Fricative
    } else {
        Class::Stop
    }
}

/// Whether entry `id` of the ARPAbet table is long or diphthongal.
pub open spec fn arpabet_long(id: int) -> bool {
    id == 0 || id == 3 || id == 4 || id == 5 || id == 11 || id == 12 || id == 17 || id == 24 || id == 25 || id == 33
}

/// Entry `id` of the ARPAbet phone set: symbol, class, and whether the phone
/// is long or diphthongal (and so intrinsically bimoraic). A phone's `id` is
/// its index in this table, which has `ARPABET_LEN` entries.
pub fn arpabet(id: usize) -> (r: Option<(&'static str, Class, bool)>)
    ensures
        r is Some <==> id < ARPABET_LEN,
        r matches Some(e) ==> {
            &&& e.0@ == arpabet_symbol(id as int)
            &&& e.1 == arpabet_class(id as int)
            &&& e.2 == arpabet_long(id as int)
        },
{
    match id {
        0 => {
            proof {
                reveal_strlit("AA");
            }
            Some(("AA", Class::Vowel, true))
        },
        1 => {
            proof {
                reveal_strlit("AE");
            }
            Some(("AE", Class::Vowel, false))
        },
        2 => {
            proof {
                reveal_strlit("AH");
            }
            Some(("AH", Class::Vowel, false))
        },
        3 => {
            proof {
                reveal_strlit("AO");
            }
            Some(("AO", Class::Vowel, true))
        },
        4 => {
            proof {
                reveal_strlit("AW");
            }
            Some(("AW", Class::Vowel, true))
        },
        5 => {
            proof {
                reveal_strlit("AY");
            }
            Some(("AY", Class::Vowel, true))
        },
        6 => {
            proof {
                reveal_strlit("B");
            }
            Some(("B", Class::Stop, false))
        },
        7 => {
            proof {
                reveal_strlit("CH");
            }
            Some(("CH", Class::Affricate, false))
        },
        8 => {
            proof {
                reveal_strlit("D");
            }
            Some(("D", Class::Stop, false))
        },
        9 => {
            proof {
                reveal_strlit("DH");
            }
            Some(("DH", Class::Fricative, false))
        },
        10 => {
            proof {
                reveal_strlit("EH");
            }
            Some(("EH", Class::Vowel, false))
        },
        11 => {
            proof {
                reveal_strlit("ER");
            }
            Some(("ER", Class::Vowel, true))
        },
        12 => {
            proof {
                reveal_strlit("EY");
            }
            Some(("EY", Class::Vowel, true))
        },
        13 => {
            proof {
                reveal_strlit("F");
            }
            Some(("F", Class::Fricative, false))
        },
        14 => {
            proof {
                reveal_strlit("G");
            }
            Some(("G", Class::Stop, false))
        },
        15 => {
            proof {
                reveal_strlit("HH");
            }
            Some(("HH", Class::Fricative, false))
        },
        16 => {
            proof {
                reveal_strlit("IH");
            }
            Some(("IH", Class::Vowel, false))
        },
        17 => {
            proof {
                reveal_strlit("IY");
            }
            Some(("IY", Class::Vowel, true))
        },
        18 => {
            proof {
                reveal_strlit("JH");
            }
            Some(("JH", Class::Affricate, false))
        },
        19 => {
            proof {
                reveal_strlit("K");
            }
            Some(("K", Class::Stop, false))
        },
        20 => {
            proof {
                reveal_strlit("L");
            }
            Some(("L", Class::Liquid, false))
        },
        21 => {
            proof {
                reveal_strlit("M");
            }
            Some(("M", Class::Nasal, false))
        },
        22 => {
            proof {
                reveal_strlit("N");
            }
            Some(("N", Class::Nasal, false))
        },
        23 => {
            proof {
                reveal_strlit("NG");
            }
            Some(("NG", Class::Nasal, false))
        },
        24 => {
            proof {
                reveal_strlit("OW");
            }
            Some(("OW", Class::Vowel, true))
        },
        25 => {
            proof {
                reveal_strlit("OY");
            }
            Some(("OY", Class::Vowel, true))
        },
        26 => {
            proof {
                reveal_strlit("P");
            }
            Some(("P", Class::Stop, false))
        },
        27 => {
            proof {
                reveal_strlit("R");
            }
            Some(("R", Class::Liquid, false))
        },
        28 => {
            proof {
                reveal_strlit("S");
            }
            Some(("S", Class::Fricative, false))
        },
        29 => {
            proof {
                reveal_strlit("SH");
            }
            Some(("SH", Class::Fricative, false))
        },
        30 => {
            proof {
                reveal_strlit("T");
            }
            Some(("T", Class::Stop, false))
        },
        31 => {
            proof {
                reveal_strlit("TH");
            }
            Some(("TH", Class::Fricative, false))
        },
        32 => {
            proof {
                reveal_strlit("UH");
            }
            Some(("UH", Class::Vowel, false))
        },
        33 => {
            proof {
                reveal_strlit("UW");
            }
            Some(("UW", Class::Vowel, true))
        },
        34 => {
            proof {
                reveal_strlit("V");
            }
            Some(("V", Class::Fricative, false))
        },
        35 => {
            proof {
                reveal_strlit("W");
            }
            Some(("W", Class::Glide, false))
        },
        36 => {
            proof {
                reveal_strlit("Y");
            }
            Some(("Y", Class::Glide, false))
        },
        37 => {
            proof {
                reveal_strlit("Z");
            }
            Some(("Z", Class::Fricative, false))
        },
        38 => {
            proof {
                reveal_strlit("ZH");
            }
            Some(("ZH", Class::Fricative, false))
        },
        _ => None,
    }
}

/// The symbol for a phone id, if the id is in the table.
pub fn symbol(id: u16) -> (r: Option<&'static str>)
    ensures
        r is Some <==> id < ARPABET_LEN,
        r matches Some(s) ==> s@ == arpabet_symbol(id as int),
{
    match arpabet(id as usize) {
        Some(e) => Some(e.0),
        None => None,
    }
}

/// The characters of `s`.
fn chars_of(s: &str) -> (r: Vec<char>)
    ensures
        r@ == s@,
{
    let mut r: Vec<char> = Vec::new();
    for c in it: s.chars()
        invariant
            r@ == it.seq().take(it.index() as int),
    {
        r.push(c);
    }
    r
}

/// The Unicode `White_Space` property, the one `char::is_whitespace` reads
/// and by which `str::split_whitespace` and `str::trim` cut.
pub open spec fn is_white_space(c: char) -> bool {
    let u = c as u32;
    ||| 0x9 <= u <= 0xd
    ||| u == 0x20
    ||| u == 0x85
    ||| u == 0xa0
    ||| u == 0x1680
    ||| 0x2000 <= u <= 0x200a
    ||| u == 0x2028
    ||| u == 0x2029
    ||| u == 0x202f
    ||| u == 0x205f
    ||| u == 0x3000
}

fn white_space(c: char) -> (r: bool)
    ensures
        r == is_white_space(c),
{
    let u = c as u32;
    (0x9 <= u && u <= 0xd) || u == 0x20 || u == 0x85 || u == 0xa0 || u == 0x1680 || (0x2000
        <= u && u <= 0x200a) || u == 0x2028 || u == 0x2029 || u == 0x202f || u == 0x205f || u
        == 0x3000
}

/// A character's code with ASCII upper-case letters folded to lower case.
pub open spec fn ascii_folded(c: char) -> u32 {
    let u = c as u32;
    if 0x41 <= u <= 0x5a {
        (u + 32) as u32
    } else {
        u
    }
}

fn ascii_fold(c: char) -> (r: u32)
    ensures
        r == ascii_folded(c),
{
    let u = c as u32;
    if 0x41 <= u && u <= 0x5a {
        u + 32
    } else {
        u
    }
}

/// `a` and `b` are the same text up to the case of ASCII letters, as
/// `str::eq_ignore_ascii_case` compares them.
pub open spec fn same_ignoring_ascii_case(a: Seq<char>, b: Seq<char>) -> bool {
    a.len() == b.len() && forall|i: int| 0 <= i < a.len() ==> ascii_folded(a[i]) == ascii_folded(b[i])
}

/// The first table entry from `id` on whose symbol is `base` up to ASCII case.
pub open spec fn lookup_from(base: Seq<char>, id: int) -> Option<int>
    decreases ARPABET_LEN - id,
{
    if id < 0 || id >= ARPABET_LEN {
        None
    } else if same_ignoring_ascii_case(base, arpabet_symbol(id)) {
        Some(id)
    } else {
        lookup_from(base, id + 1)
    }
}

/// The first table entry whose symbol is `base` up to ASCII case.
pub open spec fn lookup_symbol(base: Seq<char>) -> Option<int> {
    lookup_from(base, 0)
}

/// A trailing stress digit: `0` unstressed, `1` primary, `2` secondary.
pub open spec fn has_stress_digit(s: Seq<char>) -> bool {
    s.len() > 0 && (s.last() == '0' || s.last() == '1' || s.last() == '2')
}

/// The stress a symbol marks with its trailing digit, or unmarked.
pub open spec fn marked_stress(s: Seq<char>) -> Stress {
    if !has_stress_digit(s) {
        Stress::Unmarked
    } else if s.last() == '0' {
        Stress::Unstressed
    } else if s.last() == '1' {
        Stress::Primary
    } else {
        Stress::Secondary
    }
}

/// The phone one ARPAbet symbol names: the table entry of its base (the
/// symbol without a trailing stress digit, compared up to ASCII case), with
/// the entry's class and length and the stress the digit marks.
pub open spec fn spec_phone(s: Seq<char>) -> Option<Phone> {
    let base = if has_stress_digit(s) {
        s.drop_last()
    } else {
        s
    };
    match lookup_symbol(base) {
        Some(id) => Some(
            Phone {
                id: id as u16,
                class: arpabet_class(id),
                long: arpabet_long(id),
                stress: marked_stress(s),
            },
        ),
        None => None,
    }
}

/// Is `cs[lo..hi]` the symbol `sym` up to ASCII case?
fn matches_symbol(cs: &[char], lo: usize, hi: usize, sym: &str) -> (r: bool)
    requires
        lo <= hi <= cs@.len(),
    ensures
        r == same_ignoring_ascii_case(cs@.subrange(lo as int, hi as int), sym@),
{
    let ghost base = cs@.subrange(lo as int, hi as int);
    let n = sym.unicode_len();
    if n != hi - lo {
        return false;
    }
    let mut k: usize = 0;
    while k < n
        invariant
            base == cs@.subrange(lo as int, hi as int),
            lo <= hi <= cs@.len(),
            n == sym@.len(),
            n == hi - lo,
            k <= n,
            forall|i: int| 0 <= i < k ==> ascii_folded(base[i]) == ascii_folded(sym@[i]),
        decreases n - k,
    {
        if ascii_fold(cs[lo + k]) != ascii_fold(sym.get_char(k)) {
            assert(base[k as int] == cs@[lo + k]);
            return false;
        }
        k = k + 1;
    }
    true
}

/// The id of the table entry named by `cs[lo..hi]`.
fn lookup(cs: &[char], lo: usize, hi: usize) -> (r: Option<usize>)
    requires
        lo <= hi <= cs@.len(),
    ensures
        r matches Some(id) ==> id < ARPABET_LEN && lookup_symbol(cs@.subrange(lo as int, hi as int))
            == Some(id as int),
        r is None ==> lookup_symbol(cs@.subrange(lo as int, hi as int)) is None,
{
    let ghost base = cs@.subrange(lo as int, hi as int);
    let mut id: usize = 0;
    while id < ARPABET_LEN
        invariant
            base == cs@.subrange(lo as int, hi as int),
            lo <= hi <= cs@.len(),
            id <= ARPABET_LEN,
            lookup_symbol(base) == lookup_from(base, id as int),
        decreases ARPABET_LEN - id,
    {
        let entry = arpabet(id);
        let sym = match entry {
            Some(e) => e.0,
            None => "",
        };
        if matches_symbol(cs, lo, hi, sym) {
            return Some(id);
        }
        id = id + 1;
    }
    None
}

/// The phone `cs[lo..hi]` names.
fn phone_of_chars(cs: &[char], lo: usize, hi: usize) -> (r: Option<Phone>)
    requires
        lo <= hi <= cs@.len(),
    ensures
        r == spec_phone(cs@.subrange(lo as int, hi as int)),
{
    let ghost s = cs@.subrange(lo as int, hi as int);
    let mut base_hi = hi;
    let mut stress = Stress::Unmarked;
    if hi > lo {
        let last = cs[hi - 1];
        assert(s.last() == last);
        if last == '0' {
            base_hi = hi - 1;
            stress = Stress::Unstressed;
        } else if last == '1' {
            base_hi = hi - 1;
            stress = Stress::Primary;
        } else if last == '2' {
            base_hi = hi - 1;
            stress = Stress::Secondary;
        }
    }
    assert(cs@.subrange(lo as int, base_hi as int) == (if has_stress_digit(s) {
        s.drop_last()
    } else {
        s
    }));
    assert(stress == marked_stress(s));
    match lookup(cs, lo, base_hi) {
        Some(id) => match arpabet(id) {
            Some(e) => Some(Phone { id: id as u16, class: e.1, long: e.2, stress }),
            None => None,
        },
        None => None,
    }
}

/// Parse one ARPAbet symbol, with or without a trailing stress digit.
///
/// `"AE1"` is a primary-stressed vowel, `"AE0"` unstressed, `"T"` a consonant.
pub fn phone(symbol: &str) -> (r: Option<Phone>)
    ensures
        r == spec_phone(symbol@),
{
    let cs = chars_of(symbol);
    assert(cs@.subrange(0, cs@.len() as int) =~= symbol@);
    phone_of_chars(cs.as_slice(), 0, cs.len())
}

/// The words of `s`: its maximal runs of characters without white space, in
/// order, as `str::split_whitespace` yields them.
pub open spec fn words(s: Seq<char>) -> Seq<Seq<char>>
    decreases s.len(),
{
    if s.len() == 0 {
        Seq::empty()
    } else {
        let w = words(s.drop_last());
        let c = s.last();
        if is_white_space(c) {
            w
        } else if s.len() >= 2 && !is_white_space(s[s.len() - 2]) {
            w.drop_last().push(w.last().push(c))
        } else {
            w.push(seq![c])
        }
    }
}

proof fn lemma_words_space(s: Seq<char>, i: int)
    requires
        0 <= i < s.len(),
        is_white_space(s[i]),
    ensures
        words(s.take(i + 1)) == words(s.take(i)),
{
    assert(s.take(i + 1).drop_last() =~= s.take(i));
}

proof fn lemma_words_run(s: Seq<char>, start: int, k: int)
    requires
        0 <= start <= k < s.len(),
        start == 0 || is_white_space(s[start - 1]),
        forall|j: int| start <= j <= k ==> !is_white_space(#[trigger] s[j]),
    ensures
        words(s.take(k + 1)) == words(s.take(start)).push(s.subrange(start, k + 1)),
    decreases k - start,
{
    assert(s.take(k + 1).drop_last() =~= s.take(k));
    if k == start {
        assert(s.subrange(start, k + 1) =~= seq![s[k]]);
        if start > 0 {
            assert(s.take(k + 1)[k - 1] == s[start - 1]);
        }
    } else {
        lemma_words_run(s, start, k - 1);
        assert(s.take(k + 1)[k - 1] == s[k - 1]);
        assert(s.subrange(start, k).push(s[k]) =~= s.subrange(start, k + 1));
        assert(words(s.take(k)).drop_last() =~= words(s.take(start)));
    }
}

/// Where each word of `cs` starts and ends.
fn word_spans(cs: &[char]) -> (r: Vec<(usize, usize)>)
    ensures
        r@.len() == words(cs@).len(),
        forall|k: int|
            0 <= k < r@.len() ==> {
                &&& (#[trigger] r@[k]).0 <= r@[k].1 <= cs@.len()
                &&& cs@.subrange(r@[k].0 as int, r@[k].1 as int) == words(cs@)[k]
            },
{
    let n = cs.len();
    let mut spans: Vec<(usize, usize)> = Vec::new();
    let mut i: usize = 0;
    while i < n
        invariant
            n == cs@.len(),
            i <= n,
            i == 0 || i == n || is_white_space(cs@[i - 1]) || is_white_space(cs@[i as int]),
            spans@.len() == words(cs@.take(i as int)).len(),
            forall|k: int|
                0 <= k < spans@.len() ==> {
                    &&& (#[trigger] spans@[k]).0 <= spans@[k].1 <= i
                    &&& cs@.subrange(spans@[k].0 as int, spans@[k].1 as int) == words(
                        cs@.take(i as int),
                    )[k]
                },
        decreases n - i,
    {
        if white_space(cs[i]) {
            proof {
                lemma_words_space(cs@, i as int);
            }
            i = i + 1;
        } else {
            let start = i;
            let ghost before = words(cs@.take(start as int));
            while i < n && !white_space(cs[i])
                invariant
                    n == cs@.len(),
                    start <= i <= n,
                    start < n,
                    !is_white_space(cs@[start as int]),
                    start == 0 || is_white_space(cs@[start - 1]),
                    before == words(cs@.take(start as int)),
                    forall|j: int| start <= j < i ==> !is_white_space(#[trigger] cs@[j]),
                    i > start ==> words(cs@.take(i as int)) == before.push(
                        cs@.subrange(start as int, i as int),
                    ),
                decreases n - i,
            {
                proof {
                    lemma_words_run(cs@, start as int, i as int);
                }
                i = i + 1;
            }
            assert(i > start);
            spans.push((start, i));
            assert forall|k: int| 0 <= k < spans@.len() implies {
                &&& (#[trigger] spans@[k]).0 <= spans@[k].1 <= i
                &&& cs@.subrange(spans@[k].0 as int, spans@[k].1 as int) == words(
                    cs@.take(i as int),
                )[k]
            } by {
                if k < spans@.len() - 1 {
                    assert(words(cs@.take(i as int))[k] == before[k]);
                }
            }
        }
    }
    assert(cs@.take(n as int) =~= cs@);
    spans
}

/// How many of the leading words of `ws` name phones before the first that
/// does not.
pub open spec fn leading_phones(ws: Seq<Seq<char>>) -> nat
    decreases ws.len(),
{
    if ws.len() == 0 || spec_phone(ws[0]) is None {
        0
    } else {
        1 + leading_phones(ws.drop_first())
    }
}

/// The phones the first `n` words of `ws` name.
pub open spec fn phones_of(ws: Seq<Seq<char>>, n: int) -> Seq<Phone> {
    Seq::new(n as nat, |j: int| spec_phone(ws[j])->0)
}

proof fn lemma_leading_phones(ws: Seq<Seq<char>>, k: int)
    requires
        0 <= k <= ws.len(),
        forall|j: int| 0 <= j < k ==> spec_phone(#[trigger] ws[j]) is Some,
        k == ws.len() || spec_phone(ws[k]) is None,
    ensures
        leading_phones(ws) == k,
    decreases k,
{
    if k > 0 {
        let rest = ws.drop_first();
        assert forall|j: int| 0 <= j < k - 1 implies spec_phone(#[trigger] rest[j]) is Some by {
            assert(rest[j] == ws[j + 1]);
        }
        if k < ws.len() {
            assert(rest[k - 1] == ws[k]);
        }
        lemma_leading_phones(rest, k - 1);
        assert(spec_phone(ws[0]) is Some);
    }
}

proof fn lemma_leading_phones_at_least(ws: Seq<Seq<char>>, n: int)
    requires
        0 <= n <= ws.len(),
        forall|j: int| 0 <= j < n ==> spec_phone(#[trigger] ws[j]) is Some,
    ensures
        leading_phones(ws) >= n,
    decreases n,
{
    if n > 0 {
        let rest = ws.drop_first();
        assert forall|j: int| 0 <= j < n - 1 implies spec_phone(#[trigger] rest[j]) is Some by {
            assert(rest[j] == ws[j + 1]);
        }
        lemma_leading_phones_at_least(rest, n - 1);
        assert(spec_phone(ws[0]) is Some);
    }
}

proof fn lemma_leading_phones_bound(ws: Seq<Seq<char>>)
    ensures
        leading_phones(ws) <= ws.len(),
        forall|j: int| 0 <= j < leading_phones(ws) ==> spec_phone(#[trigger] ws[j]) is Some,
    decreases ws.len(),
{
    if ws.len() > 0 && spec_phone(ws[0]) is Some {
        let rest = ws.drop_first();
        lemma_leading_phones_bound(rest);
        assert forall|j: int| 0 <= j < leading_phones(ws) implies spec_phone(
            #[trigger] ws[j],
        ) is Some by {
            if j > 0 {
                assert(ws[j] == rest[j - 1]);
            }
        }
    }
}

/// Parse a whitespace-separated pronunciation into `out`.
///
/// Returns the number of phones written; `None` if a symbol is unrecognized or
/// `out` is too short, having written the phones of the words before the one
/// that failed or did not fit.
pub fn pronounce_into(pronunciation: &str, out: &mut [Phone]) -> (r: Option<usize>)
    ensures
        ({
            let ws = words(pronunciation@);
            let k = leading_phones(ws);
            let m: int = if k <= old(out)@.len() {
                k as int
            } else {
                old(out)@.len() as int
            };
            &&& r is Some <==> (k == ws.len() && ws.len() <= old(out)@.len())
            &&& r matches Some(n) ==> n == ws.len() && final(out)@ == phones_of(ws, n as int)
                + old(out)@.skip(n as int)
            &&& r is None ==> final(out)@ == phones_of(ws, m) + old(out)@.skip(m)
        }),
{
    let ghost ws = words(pronunciation@);
    let ghost init = out@;
    let cs = chars_of(pronunciation);
    let spans = word_spans(cs.as_slice());
    proof {
        lemma_leading_phones_bound(ws);
    }
    let mut n: usize = 0;
    while n < spans.len()
        invariant
            init == old(out)@,
            ws == words(pronunciation@),
            cs@ == pronunciation@,
            spans@.len() == ws.len(),
            forall|k: int|
                0 <= k < spans@.len() ==> {
                    &&& (#[trigger] spans@[k]).0 <= spans@[k].1 <= cs@.len()
                    &&& cs@.subrange(spans@[k].0 as int, spans@[k].1 as int) == ws[k]
                },
            n <= spans@.len(),
            n <= out@.len(),
            out@.len() == init.len(),
            forall|j: int| 0 <= j < n ==> spec_phone(#[trigger] ws[j]) is Some,
            out@ == phones_of(ws, n as int) + init.skip(n as int),
        decreases spans.len() - n,
    {
        if n >= out.len() {
            proof {
                lemma_leading_phones_at_least(ws, n as int);
            }
            return None;
        }
        let span = spans[n];
        match phone_of_chars(cs.as_slice(), span.0, span.1) {
            Some(p) => {
                out[n] = p;
                proof {
                    assert(out@ =~= phones_of(ws, n + 1) + init.skip(n + 1));
                }
            },
            None => {
                proof {
                    lemma_leading_phones(ws, n as int);
                }
                return None;
            },
        }
        n = n + 1;
    }
    proof {
        lemma_leading_phones(ws, n as int);
    }
    Some(n)
}

/// Parse a whitespace-separated pronunciation, e.g. `"K AE1 T"`: the phones
/// its words name, or `None` if any word names none.
pub fn pronounce(pronunciation: &str) -> (r: Option<Vec<Phone>>)
    ensures
        ({
            let ws = words(pronunciation@);
            &&& r is Some <==> leading_phones(ws) == ws.len()
            &&& r matches Some(v) ==> v@ == phones_of(ws, ws.len() as int)
        }),
{
    let ghost ws = words(pronunciation@);
    let cs = chars_of(pronunciation);
    let spans = word_spans(cs.as_slice());
    proof {
        lemma_leading_phones_bound(ws);
    }
    let mut v: Vec<Phone> = Vec::new();
    let mut n: usize = 0;
    while n < spans.len()
        invariant
            ws == words(pronunciation@),
            cs@ == pronunciation@,
            spans@.len() == ws.len(),
            forall|k: int|
                0 <= k < spans@.len() ==> {
                    &&& (#[trigger] spans@[k]).0 <= spans@[k].1 <= cs@.len()
                    &&& cs@.subrange(spans@[k].0 as int, spans@[k].1 as int) == ws[k]
                },
            n <= spans@.len(),
            forall|j: int| 0 <= j < n ==> spec_phone(#[trigger] ws[j]) is Some,
            v@ == phones_of(ws, n as int),
        decreases spans.len() - n,
    {
        let span = spans[n];
        match phone_of_chars(cs.as_slice(), span.0, span.1) {
            Some(p) => {
                v.push(p);
                proof {
                    assert(v@ =~= phones_of(ws, n + 1));
                }
            },
            None => {
                proof {
                    lemma_leading_phones(ws, n as int);
                }
                return None;
            },
        }
        n = n + 1;
    }
    proof {
        lemma_leading_phones(ws, n as int);
    }
    Some(v)
}

/// The length of the first `e` characters of `s` once trailing white space
/// is cut, as `str::trim_end` cuts it.
pub open spec fn trimmed_len(s: Seq<char>, e: int) -> int
    decreases e,
{
    if 0 < e <= s.len() && is_white_space(s[e - 1]) {
        trimmed_len(s, e - 1)
    } else {
        e
    }
}

/// The first position from `i` on where two spaces stand side by side.
pub open spec fn find_double_space(t: Seq<char>, i: int) -> Option<int>
    decreases t.len() - i,
{
    if i < 0 || i + 1 >= t.len() {
        None
    } else if t[i] == ' ' && t[i + 1] == ' ' {
        Some(i)
    } else {
        find_double_space(t, i + 1)
    }
}

/// The first position from `i` on where `c` stands.
pub open spec fn find_char(t: Seq<char>, c: char, i: int) -> Option<int>
    decreases t.len() - i,
{
    if i < 0 || i >= t.len() {
        None
    } else if t[i] == c {
        Some(i)
    } else {
        find_char(t, c, i + 1)
    }
}

/// The first position from `i` on that is not white space, or the end.
pub open spec fn skip_space(t: Seq<char>, i: int) -> int
    decreases t.len() - i,
{
    if 0 <= i < t.len() && is_white_space(t[i]) {
        skip_space(t, i + 1)
    } else {
        i
    }
}

/// A word without its variant marker: `READ(2)` is `READ`.
pub open spec fn strip_variant(word: Seq<char>) -> Seq<char> {
    match find_char(word, '(', 0) {
        Some(i) => if word.len() > 0 && word.last() == ')' {
            word.take(i)
        } else {
            word
        },
        None => word,
    }
}

/// One CMUdict line split into its word and pronunciation. The line is cut
/// of trailing white space; blank lines and `;;;` comments have no entry. The
/// word ends at the first double space, or failing one at the first space,
/// and loses a variant marker; the pronunciation is the rest without its
/// leading white space. A line without a space, an empty word, or an empty
/// pronunciation has no entry.
pub open spec fn spec_cmudict_entry(line: Seq<char>) -> Option<(Seq<char>, Seq<char>)> {
    let t = line.take(trimmed_len(line, line.len() as int));
    if t.len() == 0 || (t.len() >= 3 && t[0] == ';' && t[1] == ';' && t[2] == ';') {
        None
    } else {
        let split = match find_double_space(t, 0) {
            Some(j) => Some(j),
            None => find_char(t, ' ', 0),
        };
        match split {
            None => None,
            Some(j) => {
                let word = t.take(j);
                let pronunciation = t.subrange(skip_space(t, j), t.len() as int);
                if word.len() == 0 || pronunciation.len() == 0 {
                    None
                } else {
                    Some((strip_variant(word), pronunciation))
                }
            },
        }
    }
}

fn trimmed_end(cs: &[char]) -> (e: usize)
    ensures
        e == trimmed_len(cs@, cs@.len() as int),
        e <= cs@.len(),
{
    let mut e = cs.len();
    while e > 0 && white_space(cs[e - 1])
        invariant
            e <= cs@.len(),
            trimmed_len(cs@, cs@.len() as int) == trimmed_len(cs@, e as int),
        decreases e,
    {
        e = e - 1;
    }
    e
}

fn find_double_space_in(t: &[char]) -> (r: Option<usize>)
    ensures
        match r {
            Some(j) => find_double_space(t@, 0) == Some(j as int) && j + 1 < t@.len(),
            None => find_double_space(t@, 0) is None,
        },
{
    let mut i: usize = 0;
    while i < t.len() && t.len() - i > 1
        invariant
            i <= t@.len(),
            find_double_space(t@, 0) == find_double_space(t@, i as int),
        decreases t.len() - i,
    {
        if t[i] == ' ' && t[i + 1] == ' ' {
            return Some(i);
        }
        i = i + 1;
    }
    None
}

fn find_char_in(t: &[char], c: char) -> (r: Option<usize>)
    ensures
        match r {
            Some(j) => find_char(t@, c, 0) == Some(j as int) && j < t@.len(),
            None => find_char(t@, c, 0) is None,
        },
{
    let mut i: usize = 0;
    while i < t.len()
        invariant
            i <= t@.len(),
            find_char(t@, c, 0) == find_char(t@, c, i as int),
        decreases t.len() - i,
    {
        if t[i] == c {
            return Some(i);
        }
        i = i + 1;
    }
    None
}

fn skip_space_in(t: &[char], from: usize) -> (r: usize)
    requires
        from <= t@.len(),
    ensures
        r == skip_space(t@, from as int),
        from <= r <= t@.len(),
{
    let mut i = from;
    while i < t.len() && white_space(t[i])
        invariant
            from <= i <= t@.len(),
            skip_space(t@, from as int) == skip_space(t@, i as int),
        decreases t.len() - i,
    {
        i = i + 1;
    }
    i
}

/// Split one CMUdict line into its word and its pronunciation.
///
/// Comment lines (`;;;`) and blanks yield `None`. A variant marker is stripped,
/// so `"READ(2)  R EH1 D"` gives `("READ", "R EH1 D")`.
pub fn cmudict_entry(line: &str) -> (r: Option<(&str, &str)>)
    ensures
        r is None <==> spec_cmudict_entry(line@) is None,
        r matches Some(p) ==> spec_cmudict_entry(line@) == Some((p.0@, p.1@)),
{
    let cs = chars_of(line);
    let e = trimmed_end(cs.as_slice());
    let t = &cs.as_slice()[0..e];
    assert(t@ =~= line@.take(trimmed_len(line@, line@.len() as int)));
    if e == 0 || (e >= 3 && t[0] == ';' && t[1] == ';' && t[2] == ';') {
        return None;
    }
    let split = match find_double_space_in(t) {
        Some(j) => Some(j),
        None => find_char_in(t, ' '),
    };
    let j = match split {
        Some(j) => j,
        None => {
            return None;
        },
    };
    let q = skip_space_in(t, j);
    if j == 0 || q == e {
        return None;
    }
    let word = &t[0..j];
    let word_end = match find_char_in(word, '(') {
        Some(i) => if t[j - 1] == ')' {
            i
        } else {
            j
        },
        None => j,
    };
    proof {
        assert(word@ =~= t@.take(j as int));
        assert(strip_variant(word@) =~= t@.take(word_end as int));
        assert(t@.subrange(q as int, e as int) =~= line@.subrange(q as int, e as int));
        assert(t@.take(word_end as int) =~= line@.subrange(0, word_end as int));
    }
    let w = line.substring_char(0, word_end);
    let p = line.substring_char(q, e);
    Some((w, p))
}

/// A number that names a symbol of one or two characters up to ASCII case.
pub open spec fn symbol_code(s: Seq<char>) -> int {
    ascii_folded(s[0]) * 256 + if s.len() == 2 {
        ascii_folded(s[1]) as int
    } else {
        0
    }
}

/// The entry whose symbol folds to `code`, the inverse of `symbol_code` on the table.
pub open spec fn entry_of_code(code: int) -> int {
    if code == 24929 {
        0
    } else if code == 24933 {
        1
    } else if code == 24936 {
        2
    } else if code == 24943 {
        3
    } else if code == 24951 {
        4
    } else if code == 24953 {
        5
    } else if code == 25088 {
        6
    } else if code == 25448 {
        7
    } else if code == 25600 {
        8
    } else if code == 25704 {
        9
    } else if code == 25960 {
        10
    } else if code == 25970 {
        11
    } else if code == 25977 {
        12
    } else if code == 26112 {
        13
    } else if code == 26368 {
        14
    } else if code == 26728 {
        15
    } else if code == 26984 {
        16
    } else if code == 27001 {
        17
    } else if code == 27240 {
        18
    } else if code == 27392 {
        19
    } else if code == 27648 {
        20
    } else if code == 27904 {
        21
    } else if code == 28160 {
        22
    } else if code == 28263 {
        23
    } else if code == 28535 {
        24
    } else if code == 28537 {
        25
    } else if code == 28672 {
        26
    } else if code == 29184 {
        27
    } else if code == 29440 {
        28
    } else if code == 29544 {
        29
    } else if code == 29696 {
        30
    } else if code == 29800 {
        31
    } else if code == 30056 {
        32
    } else if code == 30071 {
        33
    } else if code == 30208 {
        34
    } else if code == 30464 {
        35
    } else if code == 30976 {
        36
    } else if code == 31232 {
        37
    } else if code == 31336 {
        38
    } else {
        -1
    }
}

proof fn lemma_symbol_codes(id: int)
    requires
        0 <= id < ARPABET_LEN,
    ensures
        1 <= arpabet_symbol(id).len() <= 2,
        entry_of_code(symbol_code(arpabet_symbol(id))) == id,
        forall|i: int|
            0 <= i < arpabet_symbol(id).len() ==> ascii_folded(#[trigger] arpabet_symbol(id)[i])
                < 256,
{
}

proof fn lemma_lookup_finds(base: Seq<char>, from: int, id: int)
    requires
        0 <= from <= id < ARPABET_LEN,
        same_ignoring_ascii_case(base, arpabet_symbol(id)),
        forall|k: int| from <= k < id ==> !same_ignoring_ascii_case(base, #[trigger] arpabet_symbol(k)),
    ensures
        lookup_from(base, from) == Some(id),
    decreases id - from,
{
    if from < id {
        lemma_lookup_finds(base, from + 1, id);
    }
}

/// The table reads back: any text that is the symbol of an entry up to ASCII
/// case names that entry, so `phone` gives the entry's id, class, and length,
/// with the stress its digit marks (unmarked without one), and `symbol` of
/// that id gives the symbol back.
pub proof fn lemma_table_round_trips(id: int, text: Seq<char>)
    requires
        0 <= id < ARPABET_LEN,
        same_ignoring_ascii_case(text, arpabet_symbol(id)),
    ensures
        lookup_symbol(text) == Some(id),
        spec_phone(text) == Some(
            Phone {
                id: id as u16,
                class: arpabet_class(id),
                long: arpabet_long(id),
                stress: Stress::Unmarked,
            },
        ),
        forall|d: char|
            d == '0' || d == '1' || d == '2' ==> #[trigger] spec_phone(text.push(d)) == Some(
                Phone {
                    id: id as u16,
                    class: arpabet_class(id),
                    long: arpabet_long(id),
                    stress: marked_stress(text.push(d)),
                },
            ),
{
    lemma_symbol_codes(id);
    assert forall|k: int| 0 <= k < id implies !same_ignoring_ascii_case(
        text,
        #[trigger] arpabet_symbol(k),
    ) by {
        lemma_symbol_codes(k);
        if same_ignoring_ascii_case(text, arpabet_symbol(k)) {
            let a = arpabet_symbol(k);
            let b = arpabet_symbol(id);
            assert(a.len() == b.len());
            assert(ascii_folded(a[0]) == ascii_folded(b[0]));
            if a.len() == 2 {
                assert(ascii_folded(a[1]) == ascii_folded(b[1]));
            }
            assert(symbol_code(a) == symbol_code(b));
        }
    }
    lemma_lookup_finds(text, 0, id);
    let last = text.last();
    assert(!has_stress_digit(text)) by {
        let i = text.len() - 1;
        assert(ascii_folded(text[i]) == ascii_folded(arpabet_symbol(id)[i]));
    }
    assert forall|d: char| d == '0' || d == '1' || d == '2' implies #[trigger] spec_phone(
        text.push(d),
    ) == Some(
        Phone {
            id: id as u16,
            class: arpabet_class(id),
            long: arpabet_long(id),
            stress: marked_stress(text.push(d)),
        },
    ) by {
        assert(text.push(d).drop_last() =~= text);
    }
}

} // verus!
