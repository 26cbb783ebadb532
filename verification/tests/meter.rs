use mora::meter::{beats, beats_into, scan, scan_best, Beat, Foot, Meter, Mode, Scansion};
use mora::phone::{Class, Phone, Stress};
use mora::syllable::{syllabify, Syllable, SyllableRule};
use mora::weight::WeightRule;

use Beat::{Strong as S, Weak as W};

/// Share of compared positions that matched, from 0.0 to 1.0.
fn fit(s: &Scansion) -> f32 {
    if s.compared == 0 { 0.0 } else { s.matches as f32 / s.compared as f32 }
}

#[test]
fn iambic_pentameter_scans_regular() {
    let line = [W, S, W, S, W, S, W, S, W, S];
    let s = scan(&line, Meter::new(Foot::Iamb, 5));
    assert!(s.is_regular());
    assert_eq!(fit(&s), 1.0);
}

#[test]
fn a_trochaic_first_foot_is_a_substitution_not_a_different_meter() {
    let line = [S, W, W, S, W, S, W, S, W, S];
    let best = scan_best(&line, &Foot::COMMON).unwrap();
    assert_eq!(best.meter.foot, Foot::Iamb);
    assert_eq!(best.meter.feet, 5);
    assert!(fit(&best) > 0.7, "fit was {}", fit(&best));
    assert!(!best.is_regular());
}

#[test]
fn dactylic_hexameter_scans_regular() {
    let mut line = [W; 18];
    for i in (0..18).step_by(3) {
        line[i] = S;
    }
    let s = scan(&line, Meter::new(Foot::Dactyl, 6));
    assert!(s.is_regular());
}

#[test]
fn a_catalectic_line_reports_its_missing_syllable() {
    let line = [S, W, S, W, S, W, S];
    let s = scan(&line, Meter::new(Foot::Trochee, 4));
    assert_eq!(s.overrun, -1);
    assert_eq!(s.matches, s.compared);
}

#[test]
fn the_two_modes_read_the_same_syllables_differently() {
    let w = [
        Phone::new(1, Class::Stop),
        Phone::new(2, Class::Vowel).with_stress(Stress::Primary),
        Phone::new(3, Class::Stop),
        Phone::new(4, Class::Vowel).with_long(true).with_stress(Stress::Unstressed),
    ];
    let s = syllabify(&w, SyllableRule::english());
    assert_eq!(s.len(), 2);

    let accentual = beats(&w, &s, Mode::Accentual, WeightRule::classical());
    let quantitative = beats(&w, &s, Mode::Quantitative, WeightRule::classical());
    assert_eq!(accentual, [S, W]);
    assert_eq!(quantitative, [W, S]);
}

#[test]
fn scanning_an_empty_line_yields_nothing() {
    assert!(
        scan_best(&[], &Foot::COMMON).is_none()
            || scan_best(&[], &Foot::COMMON).unwrap().compared == 0
    );
}

#[test]
fn feet_have_their_patterns() {
    assert_eq!(Foot::Iamb.pattern(), &[W, S]);
    assert_eq!(Foot::Trochee.pattern(), &[S, W]);
    assert_eq!(Foot::Spondee.pattern(), &[S, S]);
    assert_eq!(Foot::Pyrrhic.pattern(), &[W, W]);
    assert_eq!(Foot::Dactyl.pattern(), &[S, W, W]);
    assert_eq!(Foot::Anapest.pattern(), &[W, W, S]);
    assert_eq!(Foot::Amphibrach.pattern(), &[W, S, W]);
    assert_eq!(Foot::Cretic.pattern(), &[S, W, S]);
    assert_eq!(Foot::Iamb.positions(), 2);
    assert_eq!(Foot::Cretic.positions(), 3);
}

#[test]
fn a_meter_wraps_through_its_foot() {
    let m = Meter::new(Foot::Anapest, 4);
    assert_eq!(m, Meter { foot: Foot::Anapest, feet: 4 });
    assert_eq!(m.positions(), 12);
    assert_eq!(m.beat_at(0), W);
    assert_eq!(m.beat_at(2), S);
    assert_eq!(m.beat_at(5), S);
    assert_eq!(m.beat_at(13), W);
    assert_eq!(m.beat_at(14), S);
}

#[test]
fn a_long_line_reports_its_extra_syllables() {
    let line = [W, S, W, S, W];
    let s = scan(&line, Meter::new(Foot::Iamb, 2));
    assert_eq!(s, Scansion { meter: Meter::new(Foot::Iamb, 2), matches: 4, compared: 4, overrun: 1 });
    assert!(!s.is_regular());
}

#[test]
fn an_empty_meter_compares_nothing_and_is_not_regular() {
    let s = scan(&[], Meter::new(Foot::Iamb, 0));
    assert_eq!(s.compared, 0);
    assert_eq!(s.overrun, 0);
    assert!(!s.is_regular());
}

#[test]
fn the_empty_line_keeps_the_first_foot_tried() {
    let best = scan_best(&[], &Foot::COMMON).unwrap();
    assert_eq!(best.meter, Meter::new(Foot::Iamb, 1));
    assert_eq!(best.compared, 0);
    assert_eq!(best.overrun, -2);
    assert!(scan_best(&[S, W], &[]).is_none());
}

#[test]
fn a_catalectic_line_finds_its_foot_and_ties_keep_the_first_count() {
    // Trochees fit every position whether the line is read as three feet
    // running one long or four falling one short; the earlier reading stays.
    let line = [S, W, S, W, S, W, S];
    let best = scan_best(&line, &Foot::COMMON).unwrap();
    assert_eq!(best.meter, Meter::new(Foot::Trochee, 3));
    assert_eq!(best.matches, 6);
    assert_eq!(best.compared, 6);
    assert_eq!(best.overrun, 1);
}

#[test]
fn dactyls_win_a_dactylic_line() {
    let line = [S, W, W, S, W, W, S, W, W];
    let best = scan_best(&line, &Foot::COMMON).unwrap();
    assert_eq!(best.meter, Meter::new(Foot::Dactyl, 3));
    assert!(best.is_regular());
}

#[test]
fn the_into_form_writes_beats_or_reports_a_short_buffer() {
    let w = [
        Phone::new(1, Class::Vowel).with_stress(Stress::Secondary),
        Phone::new(2, Class::Vowel),
        Phone::new(3, Class::Vowel).with_stress(Stress::Primary),
    ];
    let s = syllabify(&w, SyllableRule::english());
    let mut out = [S; 4];
    assert_eq!(beats_into(&w, &s, Mode::Accentual, WeightRule::classical(), &mut out), Some(3));
    assert_eq!(out, [S, W, S, S]);
    let mut short = [W; 2];
    assert_eq!(beats_into(&w, &s, Mode::Accentual, WeightRule::classical(), &mut short), None);
    assert_eq!(short, [W, W]);
}

#[test]
fn a_meter_longer_than_isize_reads_its_length_wrapped() {
    // Iamb * (usize::MAX / 2) positions is usize::MAX - 1, which as an isize is -2.
    let s = scan(&[W, S], Meter::new(Foot::Iamb, usize::MAX / 2));
    assert_eq!(s.compared, 2);
    assert_eq!(s.matches, 2);
    assert_eq!(s.overrun, 4);
    assert!(!s.is_regular());
}

#[test]
fn a_short_buffer_is_refused_before_any_syllable_is_read() {
    // The syllable's nucleus is present and its end lies before it, so a
    // quantitative reading could not count its coda; it is never read.
    let w = [Phone::new(1, Class::Vowel)];
    let odd = [Syllable { start: 0, nucleus: 0, end: 0 }];
    let mut out: [Beat; 0] = [];
    assert_eq!(beats_into(&w, &odd, Mode::Quantitative, WeightRule::classical(), &mut out), None);
}
