use mora::phone::{Class, Phone};
use mora::syllable::{syllabify, Syllable, SyllableRule};
use mora::weight::{morae, penultimate_stress, total_morae, weight, Weight, WeightRule};

fn c(id: u16, class: Class) -> Phone {
    Phone::new(id, class)
}
fn v(id: u16) -> Phone {
    Phone::new(id, Class::Vowel)
}
fn long(id: u16) -> Phone {
    Phone::new(id, Class::Vowel).with_long(true)
}

#[test]
fn open_short_syllable_is_light() {
    let w = [c(1, Class::Stop), v(2)];
    let s = syllabify(&w, SyllableRule::english());
    assert_eq!(weight(&w, &s[0], WeightRule::classical()), Weight::Light);
    assert_eq!(morae(&w, &s[0], WeightRule::classical()), 1);
}

#[test]
fn a_long_nucleus_is_heavy_on_its_own() {
    let w = [c(1, Class::Stop), long(2)];
    let s = syllabify(&w, SyllableRule::english());
    assert_eq!(weight(&w, &s[0], WeightRule::classical()), Weight::Heavy);
}

#[test]
fn a_closed_syllable_is_heavy_only_where_codas_count() {
    let w = [c(1, Class::Stop), v(2), c(3, Class::Nasal)];
    let s = syllabify(&w, SyllableRule::english());
    assert_eq!(weight(&w, &s[0], WeightRule::classical()), Weight::Heavy);
    assert_eq!(
        weight(&w, &s[0], WeightRule::syllabic()),
        Weight::Light,
        "a syllable-timed reading ignores the coda"
    );
}

#[test]
fn latin_rule_prefers_a_heavy_penult() {
    let heavy_penult = [
        c(1, Class::Stop),
        v(2),
        c(3, Class::Stop),
        v(4),
        c(5, Class::Nasal),
        c(6, Class::Stop),
        v(7),
    ];
    let s = syllabify(&heavy_penult, SyllableRule::english());
    assert_eq!(s.len(), 3);
    assert_eq!(penultimate_stress(&heavy_penult, &s, WeightRule::classical()), Some(1));
}

#[test]
fn latin_rule_retreats_to_the_antepenult_when_the_penult_is_light() {
    let light_penult = [
        c(1, Class::Stop),
        v(2),
        c(3, Class::Stop),
        v(4),
        c(5, Class::Stop),
        v(6),
    ];
    let s = syllabify(&light_penult, SyllableRule::english());
    assert_eq!(s.len(), 3);
    assert_eq!(penultimate_stress(&light_penult, &s, WeightRule::classical()), Some(0));
}

#[test]
fn moraic_rule_counts_a_coda_nasal_as_its_own_mora() {
    let w = [c(1, Class::Nasal), v(2), c(3, Class::Nasal)];
    let s = syllabify(&w, SyllableRule::simple());
    assert_eq!(total_morae(&w, &s, WeightRule::moraic()), 2);
    assert_eq!(total_morae(&w, &s, WeightRule::syllabic()), 1);
}

#[test]
fn weight_classes_follow_the_mora_count() {
    assert_eq!(Weight::from_morae(0), Weight::Light);
    assert_eq!(Weight::from_morae(1), Weight::Light);
    assert_eq!(Weight::from_morae(2), Weight::Heavy);
    assert_eq!(Weight::from_morae(3), Weight::Superheavy);
    assert_eq!(Weight::from_morae(255), Weight::Superheavy);
    assert!(Weight::Light < Weight::Heavy && Weight::Heavy < Weight::Superheavy);
}

#[test]
fn a_missing_nucleus_has_no_morae() {
    let w = [v(1)];
    let s = Syllable { start: 0, nucleus: 5, end: 3 };
    assert_eq!(morae(&w, &s, WeightRule::classical()), 0);
    assert_eq!(weight(&w, &s, WeightRule::classical()), Weight::Light);
}

#[test]
fn coda_morae_are_capped_and_the_sum_saturates() {
    let w = [long(1), c(2, Class::Stop), c(3, Class::Stop), c(4, Class::Stop)];
    let s = Syllable { start: 0, nucleus: 0, end: 4 };
    assert_eq!(morae(&w, &s, WeightRule::classical()), 3);
    assert_eq!(morae(&w, &s, WeightRule::moraic()), 4);
    let greedy = WeightRule { long_nucleus_morae: 250, coda_moraic: true, max_coda_morae: 200 };
    assert_eq!(morae(&w, &s, greedy), 253);
    let huge = WeightRule { long_nucleus_morae: 254, coda_moraic: true, max_coda_morae: 200 };
    assert_eq!(morae(&w, &s, huge), 255);
    assert_eq!(WeightRule::default(), WeightRule::classical());
}

#[test]
fn short_words_stress_the_first_syllable() {
    let w = [v(1), c(2, Class::Stop), v(3)];
    let s = syllabify(&w, SyllableRule::english());
    assert_eq!(penultimate_stress(&w, &s, WeightRule::classical()), Some(0));
    assert_eq!(penultimate_stress(&w, &s[..1], WeightRule::classical()), Some(0));
    assert_eq!(penultimate_stress(&w, &[], WeightRule::classical()), None);
}

#[test]
fn the_syllabic_reading_counts_one_mora_per_syllable() {
    let w = [long(1), c(2, Class::Nasal), c(3, Class::Stop), long(4), c(5, Class::Stop)];
    let s = syllabify(&w, SyllableRule::english());
    assert_eq!(total_morae(&w, &s, WeightRule::syllabic()), s.len() as u32);
    assert_eq!(total_morae(&w, &s, WeightRule::classical()), 6);
}
