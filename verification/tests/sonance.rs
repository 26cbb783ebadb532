use mora::phone::{Class, Phone, Stress};
use mora::sonance::{
    agreeing_tail_len, is_alliterative, is_assonant, is_consonant, is_perfect_rhyme,
    is_slant_rhyme, relations, rhyme_start, rhyme_tail, Relations,
};
use mora::syllable::{syllabify, Syllable, SyllableRule};

const K: u16 = 1;
const AE: u16 = 2;
const T: u16 = 3;
const B: u16 = 4;
const M: u16 = 5;
const IY: u16 = 6;

fn stop(id: u16) -> Phone {
    Phone::new(id, Class::Stop)
}
fn nasal(id: u16) -> Phone {
    Phone::new(id, Class::Nasal)
}
fn vowel(id: u16) -> Phone {
    Phone::new(id, Class::Vowel).with_stress(Stress::Primary)
}

fn word(phones: &[Phone]) -> Vec<Syllable> {
    syllabify(phones, SyllableRule::english())
}

#[test]
fn cat_and_bat_rhyme() {
    let cat = [stop(K), vowel(AE), stop(T)];
    let bat = [stop(B), vowel(AE), stop(T)];
    let (sc, sb) = (word(&cat), word(&bat));
    assert!(is_perfect_rhyme((&cat, &sc), (&bat, &sb)));
}

#[test]
fn a_word_does_not_rhyme_with_itself() {
    let cat = [stop(K), vowel(AE), stop(T)];
    let s = word(&cat);
    assert!(!is_perfect_rhyme((&cat, &s), (&cat, &s)));
}

#[test]
fn cat_and_cab_are_slant_not_perfect() {
    let cat = [stop(K), vowel(AE), stop(T)];
    let cab = [stop(K), vowel(AE), stop(B)];
    let (sc, sb) = (word(&cat), word(&cab));
    assert!(!is_perfect_rhyme((&cat, &sc), (&cab, &sb)));
    assert!(is_slant_rhyme((&cat, &sc), (&cab, &sb)), "same vowel, different coda");
    assert!(is_assonant((&cat, &sc), (&cab, &sb)));
}

#[test]
fn cat_and_kit_alliterate_without_rhyming() {
    let cat = [stop(K), vowel(AE), stop(T)];
    let kit = [stop(K), vowel(IY), stop(T)];
    let (sc, sk) = (word(&cat), word(&kit));
    assert!(is_alliterative((&cat, &sc), (&kit, &sk)));
    assert!(!is_perfect_rhyme((&cat, &sc), (&kit, &sk)));
    assert!(is_consonant(&cat, &kit), "same consonant frame, different vowel");
    assert!(is_slant_rhyme((&cat, &sc), (&kit, &sk)));
}

#[test]
fn different_words_share_nothing() {
    let cat = [stop(K), vowel(AE), stop(T)];
    let mee = [nasal(M), vowel(IY)];
    let (sc, sm) = (word(&cat), word(&mee));
    assert!(!relations((&cat, &sc), (&mee, &sm)).any());
}

#[test]
fn agreement_rises_with_a_longer_shared_tail() {
    let cat = [stop(K), vowel(AE), stop(T)];
    let bat = [stop(B), vowel(AE), stop(T)];
    let kit = [stop(K), vowel(IY), stop(T)];
    let share = |a: &[Phone], b: &[Phone]| -> f32 {
        let n = a.len().min(b.len());
        if n == 0 { 0.0 } else { agreeing_tail_len(a, b) as f32 / a.len().max(b.len()) as f32 }
    };
    assert!(share(&cat, &bat) > share(&cat, &kit));
    assert_eq!(agreeing_tail_len(&cat, &bat), 2);
    assert_eq!(agreeing_tail_len(&cat, &kit), 1);
}

#[test]
fn an_empty_pronunciation_rhymes_with_nothing() {
    let cat = [stop(K), vowel(AE), stop(T)];
    let s = word(&cat);
    assert!(!is_perfect_rhyme((&cat, &s), (&[], &[])));
    assert_eq!(agreeing_tail_len(&cat, &[]), 0);
}

#[test]
fn the_rhyme_starts_at_the_last_primary_stress() {
    // "banana"-like: primary stress on the middle vowel.
    let w = [
        stop(B),
        Phone::new(AE, Class::Vowel).with_stress(Stress::Unstressed),
        nasal(M),
        vowel(AE),
        nasal(M),
        Phone::new(AE, Class::Vowel).with_stress(Stress::Unstressed),
    ];
    let s = word(&w);
    assert_eq!(rhyme_start(&w, &s), Some(3));
    assert_eq!(rhyme_tail(&w, &s), &w[3..]);
    // Without any primary stress the last syllable anchors the rhyme.
    let flat = [stop(B), Phone::new(AE, Class::Vowel), nasal(M), Phone::new(IY, Class::Vowel)];
    let sf = word(&flat);
    assert_eq!(rhyme_start(&flat, &sf), Some(3));
    assert_eq!(rhyme_start(&flat, &[]), None);
    assert!(rhyme_tail(&flat, &[]).is_empty());
}

#[test]
fn relations_do_not_depend_on_order() {
    let cat = [stop(K), vowel(AE), stop(T)];
    let cab = [stop(K), vowel(AE), stop(B)];
    let (sc, sb) = (word(&cat), word(&cab));
    assert_eq!(is_slant_rhyme((&cat, &sc), (&cab, &sb)), is_slant_rhyme((&cab, &sb), (&cat, &sc)));
    assert_eq!(is_assonant((&cat, &sc), (&cab, &sb)), is_assonant((&cab, &sb), (&cat, &sc)));
    assert_eq!(is_consonant(&cat, &cab), is_consonant(&cab, &cat));
    assert!(!is_consonant(&cat, &cab));
}

#[test]
fn a_word_opening_on_its_vowel_alliterates_with_nothing() {
    let at = [vowel(AE), stop(T)];
    let s = word(&at);
    assert!(!is_alliterative((&at, &s), (&at, &s)));
    let bat = [stop(B), vowel(AE), stop(T)];
    let sb = word(&bat);
    assert!(is_alliterative((&bat, &sb), (&bat, &sb)));
}

#[test]
fn vowels_alone_have_no_consonance() {
    let a = [vowel(AE)];
    let b = [vowel(IY)];
    assert!(!is_consonant(&a, &b));
    assert!(!is_consonant(&a, &a));
}

#[test]
fn slant_rhyme_reads_every_vowel_of_the_tails() {
    // Same consonants, different second vowel: a slant rhyme.
    let a = [vowel(AE), stop(T), Phone::new(IY, Class::Vowel)];
    let b = [vowel(AE), stop(T), Phone::new(M, Class::Vowel)];
    let (sa, sb) = (word(&a), word(&b));
    assert_eq!(rhyme_start(&a, &sa), Some(0));
    assert!(is_slant_rhyme((&a, &sa), (&b, &sb)));
    assert!(!is_perfect_rhyme((&a, &sa), (&b, &sb)));
    // Same vowels, different consonants: also slant.
    let c = [vowel(AE), stop(B), Phone::new(IY, Class::Vowel)];
    let sc = word(&c);
    assert!(is_slant_rhyme((&a, &sa), (&c, &sc)));
}

#[test]
fn relations_gather_every_relation() {
    let cat = [stop(K), vowel(AE), stop(T)];
    let kit = [stop(K), vowel(IY), stop(T)];
    let mee = [nasal(M), vowel(IY)];
    let (sc, sk, sm) = (word(&cat), word(&kit), word(&mee));
    let r = relations((&cat, &sc), (&kit, &sk));
    assert_eq!(
        r,
        Relations {
            perfect_rhyme: false,
            slant_rhyme: true,
            assonance: false,
            consonance: true,
            alliteration: true,
        }
    );
    assert!(r.any());
    assert!(!relations((&cat, &sc), (&mee, &sm)).any());
}

#[test]
fn assonance_needs_both_rhyme_starts() {
    // A rhyme start at the very end of one pronunciation is never read when
    // the other has no syllables.
    let cat = [stop(K), vowel(AE), stop(T)];
    let odd = [Syllable { start: 0, nucleus: 3, end: 3 }];
    assert!(!is_assonant((&cat, &odd), (&[], &[])));
    let r = relations((&cat, &odd), (&[], &[]));
    assert!(!r.any());
}
