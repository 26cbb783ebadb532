use mora::phone::{Class, Phone};
use mora::syllable::{is_legal_onset, syllabify, syllabify_into, Syllable, SyllableRule};

fn c(id: u16, class: Class) -> Phone {
    Phone::new(id, class)
}
fn v(id: u16) -> Phone {
    Phone::new(id, Class::Vowel)
}

#[test]
fn single_syllable_takes_everything() {
    // "cat": stop, vowel, stop
    let w = [c(1, Class::Stop), v(2), c(3, Class::Stop)];
    let s = syllabify(&w, SyllableRule::english());
    assert_eq!(s.len(), 1);
    assert_eq!(s[0], Syllable { start: 0, nucleus: 1, end: 3 });
    assert!(s[0].is_closed());
}

#[test]
fn onset_maximization_moves_a_single_consonant_rightward() {
    let w = [v(1), c(2, Class::Stop), v(3)];
    let s = syllabify(&w, SyllableRule::english());
    assert_eq!(s.len(), 2);
    assert_eq!(s[0].coda_len(), 0);
    assert_eq!(s[1].onset_len(), 1);
}

#[test]
fn falling_sonority_cluster_splits_across_the_boundary() {
    let w = [v(1), c(2, Class::Nasal), c(3, Class::Stop), v(4)];
    let s = syllabify(&w, SyllableRule::english());
    assert_eq!(s.len(), 2);
    assert_eq!(s[0].coda_len(), 1, "nasal closes the first syllable");
    assert_eq!(s[1].onset_len(), 1, "stop opens the second");
}

#[test]
fn a_rising_cluster_joins_the_onset_even_where_a_language_forbids_it() {
    let w = [v(1), c(2, Class::Stop), c(3, Class::Nasal), v(4)];
    let s = syllabify(&w, SyllableRule::english());
    assert_eq!(s[1].onset_len(), 2);
    assert_eq!(s[0].coda_len(), 0);
}

#[test]
fn rising_sonority_cluster_stays_whole_in_the_onset() {
    let w = [v(1), c(2, Class::Stop), c(3, Class::Liquid), v(4)];
    let s = syllabify(&w, SyllableRule::english());
    assert_eq!(s[0].coda_len(), 0);
    assert_eq!(s[1].onset_len(), 2);
}

#[test]
fn sibilant_licence_is_a_language_parameter() {
    let cluster = [c(1, Class::Fricative), c(2, Class::Stop), c(3, Class::Liquid)];
    assert!(is_legal_onset(&cluster, SyllableRule::english()));
    assert!(!is_legal_onset(&cluster, SyllableRule { max_onset: 3, sibilant_stop_onset: false }));
}

#[test]
fn a_pronunciation_without_vowels_has_no_syllables() {
    let w = [c(1, Class::Stop), c(2, Class::Fricative)];
    assert!(syllabify(&w, SyllableRule::english()).is_empty());
}

#[test]
fn into_form_reports_an_undersized_buffer() {
    let w = [v(1), c(2, Class::Stop), v(3)];
    let mut out = [Syllable { start: 0, nucleus: 0, end: 0 }; 1];
    assert!(syllabify_into(&w, SyllableRule::english(), &mut out).is_none());
}

#[test]
fn into_form_fills_a_large_buffer_and_leaves_the_rest() {
    let w = [c(1, Class::Stop), v(2), c(3, Class::Nasal), c(4, Class::Stop), v(5), c(6, Class::Stop)];
    let spare = Syllable { start: 9, nucleus: 9, end: 9 };
    let mut out = [spare; 4];
    assert_eq!(syllabify_into(&w, SyllableRule::english(), &mut out), Some(2));
    assert_eq!(out[0], Syllable { start: 0, nucleus: 1, end: 3 });
    assert_eq!(out[1], Syllable { start: 3, nucleus: 4, end: 6 });
    assert_eq!(out[2], spare);
    assert_eq!(out[3], spare);
}

#[test]
fn an_undersized_buffer_holds_bare_nuclei() {
    let w = [c(1, Class::Stop), v(2), c(3, Class::Stop), v(4), v(5)];
    let mut out = [Syllable { start: 7, nucleus: 7, end: 7 }; 2];
    assert_eq!(syllabify_into(&w, SyllableRule::english(), &mut out), None);
    assert_eq!(out[0], Syllable { start: 1, nucleus: 1, end: 2 });
    assert_eq!(out[1], Syllable { start: 3, nucleus: 3, end: 4 });
}

#[test]
fn the_sibilant_licence_moves_s_stop_liquid_into_the_onset() {
    // V s t r V: English keeps "str" together in the second onset.
    let w = [v(1), c(2, Class::Fricative), c(3, Class::Stop), c(4, Class::Liquid), v(5)];
    let s = syllabify(&w, SyllableRule::english());
    assert_eq!(s[1].onset_len(), 3);
    assert_eq!(s[0].coda_len(), 0);
    // Strictly, only the rising "tr" fits.
    let s = syllabify(&w, SyllableRule::strict());
    assert_eq!(s[1].onset_len(), 2);
    assert_eq!(s[0].coda_len(), 1);
    // One consonant per onset.
    let s = syllabify(&w, SyllableRule::simple());
    assert_eq!(s[1].onset_len(), 1);
    assert_eq!(s[0].coda_len(), 2);
}

#[test]
fn syllables_tile_the_pronunciation() {
    let w = [c(1, Class::Nasal), v(2), c(3, Class::Liquid), c(4, Class::Stop), v(5), v(6), c(7, Class::Stop)];
    let s = syllabify(&w, SyllableRule::english());
    assert_eq!(s.len(), 3);
    assert_eq!(s[0].start, 0);
    assert_eq!(s[2].end, w.len());
    for k in 0..s.len() - 1 {
        assert_eq!(s[k].end, s[k + 1].start);
    }
    assert_eq!(s[1], Syllable { start: 3, nucleus: 4, end: 5 });
    assert_eq!(s[2], Syllable { start: 5, nucleus: 5, end: 7 });
}

#[test]
fn syllable_ranges_and_lengths() {
    let s = Syllable { start: 2, nucleus: 4, end: 7 };
    assert_eq!(s.onset(), 2..4);
    assert_eq!(s.coda(), 5..7);
    assert_eq!(s.onset_len(), 2);
    assert_eq!(s.coda_len(), 2);
    assert!(s.is_closed());
    assert!(!Syllable { start: 0, nucleus: 0, end: 1 }.is_closed());
}

#[test]
fn legal_onsets_respect_the_length_cap() {
    let one = [c(1, Class::Stop)];
    assert!(is_legal_onset(&one, SyllableRule::simple()));
    assert!(is_legal_onset(&[], SyllableRule { max_onset: 0, sibilant_stop_onset: false }));
    assert!(!is_legal_onset(&one, SyllableRule { max_onset: 0, sibilant_stop_onset: false }));
    let two = [c(1, Class::Stop), c(2, Class::Liquid)];
    assert!(!is_legal_onset(&two, SyllableRule::simple()));
    assert!(is_legal_onset(&two, SyllableRule::strict()));
    let flat = [c(1, Class::Stop), c(2, Class::Stop)];
    assert!(!is_legal_onset(&flat, SyllableRule::english()));
    assert_eq!(SyllableRule::default(), SyllableRule::strict());
}

#[test]
fn only_a_fricative_before_a_stop_is_licensed() {
    let ffl = [c(1, Class::Fricative), c(2, Class::Fricative), c(3, Class::Liquid)];
    assert!(!is_legal_onset(&ffl, SyllableRule::english()));
    let fal = [c(1, Class::Fricative), c(2, Class::Affricate), c(3, Class::Liquid)];
    assert!(!is_legal_onset(&fal, SyllableRule::english()));
    let fs = [c(1, Class::Fricative), c(2, Class::Stop)];
    assert!(is_legal_onset(&fs, SyllableRule::english()));
    assert!(!is_legal_onset(&fs, SyllableRule::strict()));
    // Without the licence the fricative closes the preceding syllable.
    let w = [v(1), c(2, Class::Fricative), c(3, Class::Fricative), c(4, Class::Liquid), v(5)];
    let s = syllabify(&w, SyllableRule::english());
    assert_eq!(s[1].onset_len(), 2);
    assert_eq!(s[0].coda_len(), 1);
}
