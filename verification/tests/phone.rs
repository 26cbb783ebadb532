use mora::phone::{Class, Phone, Stress};

#[test]
fn sonority_is_ordered_vowel_down_to_stop() {
    assert!(Class::Vowel.sonority() > Class::Glide.sonority());
    assert!(Class::Glide.sonority() > Class::Liquid.sonority());
    assert!(Class::Liquid.sonority() > Class::Nasal.sonority());
    assert!(Class::Nasal.sonority() > Class::Fricative.sonority());
    assert!(Class::Fricative.sonority() > Class::Stop.sonority());
}

#[test]
fn unmarked_stress_is_not_prominent() {
    assert!(!Stress::Unmarked.is_prominent());
    assert!(!Stress::Unstressed.is_prominent());
    assert!(Stress::Secondary.is_prominent());
    assert!(Stress::Primary.is_prominent());
}

#[test]
fn sonority_values_run_from_six_to_zero() {
    assert_eq!(Class::Vowel.sonority(), 6);
    assert_eq!(Class::Glide.sonority(), 5);
    assert_eq!(Class::Liquid.sonority(), 4);
    assert_eq!(Class::Nasal.sonority(), 3);
    assert_eq!(Class::Fricative.sonority(), 2);
    assert_eq!(Class::Affricate.sonority(), 1);
    assert_eq!(Class::Stop.sonority(), 0);
}

#[test]
fn only_vowels_are_vowels() {
    assert!(Class::Vowel.is_vowel());
    assert!(!Class::Glide.is_vowel());
    assert!(!Class::Stop.is_vowel());
    assert!(Phone::new(1, Class::Vowel).is_vowel());
    assert!(!Phone::new(1, Class::Nasal).is_vowel());
}

#[test]
fn builders_set_one_field_each() {
    let p = Phone::new(7, Class::Vowel);
    assert_eq!(p, Phone { id: 7, class: Class::Vowel, long: false, stress: Stress::Unmarked });
    let q = p.with_long(true).with_stress(Stress::Primary);
    assert_eq!(q, Phone { id: 7, class: Class::Vowel, long: true, stress: Stress::Primary });
    assert_eq!(q.with_long(false), Phone { long: false, ..q });
    assert_eq!(Stress::default(), Stress::Unmarked);
}
