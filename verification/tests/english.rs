use mora::english::{
    arpabet, cmudict_entry, phone, pronounce, pronounce_into, symbol, syllable_rule, weight_rule,
    ARPABET_LEN,
};
use mora::meter::{beats, scan_best, Foot, Mode};
use mora::phone::{Class, Phone, Stress};
use mora::sonance::is_perfect_rhyme;
use mora::syllable::syllabify;
use mora::weight::{total_morae, weight, Weight, WeightRule};

#[test]
fn stress_digits_parse_and_the_table_round_trips() {
    let p = phone("AE1").unwrap();
    assert_eq!(p.stress, Stress::Primary);
    assert_eq!(p.class, Class::Vowel);
    assert_eq!(symbol(p.id), Some("AE"));
    assert!(!p.long);

    assert_eq!(phone("IY0").unwrap().stress, Stress::Unstressed);
    assert!(phone("IY0").unwrap().long, "IY is a long vowel");
    assert_eq!(phone("T").unwrap().stress, Stress::Unmarked);
    assert!(phone("QQ").is_none());
}

#[test]
fn cmudict_lines_split_and_variants_are_stripped() {
    assert_eq!(cmudict_entry("CAT  K AE1 T"), Some(("CAT", "K AE1 T")));
    assert_eq!(cmudict_entry("READ(2)  R EH1 D"), Some(("READ", "R EH1 D")));
    assert_eq!(cmudict_entry(";;; comment"), None);
    assert_eq!(cmudict_entry(""), None);
}

#[test]
fn syllabifies_a_real_word() {
    let w = pronounce("P OW1 AH0 T R IY0").unwrap();
    let s = syllabify(&w, syllable_rule());
    assert_eq!(s.len(), 3, "three vowels, three syllables");
    assert_eq!(s[2].onset_len(), 2);
    assert_eq!(s[1].coda_len(), 0);
}

#[test]
fn weight_reads_a_long_vowel_and_a_closed_syllable() {
    let w = pronounce("B IY1 T").unwrap();
    let s = syllabify(&w, syllable_rule());
    assert_eq!(weight(&w, &s[0], weight_rule()), Weight::Superheavy);

    let w2 = pronounce("B IH1 T").unwrap();
    let s2 = syllabify(&w2, syllable_rule());
    assert_eq!(weight(&w2, &s2[0], weight_rule()), Weight::Heavy);
}

#[test]
fn haiku_counts_morae_not_syllables() {
    let w = pronounce("T OW1 K IY0 OW0").unwrap();
    let s = syllabify(&w, syllable_rule());
    assert_eq!(s.len(), 3);
    assert!(total_morae(&w, &s, WeightRule::moraic()) > s.len() as u32);
}

#[test]
fn rhyme_holds_across_real_pronunciations() {
    let cat = pronounce("K AE1 T").unwrap();
    let hat = pronounce("HH AE1 T").unwrap();
    let dog = pronounce("D AO1 G").unwrap();
    let (sc, sh, sd) = (
        syllabify(&cat, syllable_rule()),
        syllabify(&hat, syllable_rule()),
        syllabify(&dog, syllable_rule()),
    );
    assert!(is_perfect_rhyme((&cat, &sc), (&hat, &sh)));
    assert!(!is_perfect_rhyme((&cat, &sc), (&dog, &sd)));
}

#[test]
fn an_iambic_phrase_scans_as_iambic() {
    let phrase = pronounce("DH AH0 K AE1 T IH0 Z HH IY1 R").unwrap();
    let s = syllabify(&phrase, syllable_rule());
    let b = beats(&phrase, &s, Mode::Accentual, weight_rule());
    let scansion = scan_best(&b, &Foot::COMMON).unwrap();
    assert_eq!(scansion.meter.foot, Foot::Iamb);
    assert!(scansion.is_regular(), "beats were {b:?}");
}

#[test]
fn the_into_form_needs_no_allocator() {
    let mut buf = [Phone::new(0, Class::Stop); 8];
    let n = pronounce_into("K AE1 T", &mut buf).unwrap();
    assert_eq!(n, 3);
    assert!(pronounce_into("K AE1 T", &mut buf[..2]).is_none());
}

#[test]
fn every_symbol_reads_back_in_any_case_and_with_any_stress() {
    for id in 0..ARPABET_LEN {
        let (sym, class, long) = arpabet(id).unwrap();
        assert_eq!(symbol(id as u16), Some(sym));
        let p = phone(sym).unwrap();
        assert_eq!(p, Phone { id: id as u16, class, long, stress: Stress::Unmarked });
        let lower = sym.to_lowercase();
        assert_eq!(phone(&lower), Some(p));
        assert_eq!(phone(&format!("{sym}2")).unwrap().stress, Stress::Secondary);
    }
    assert!(arpabet(ARPABET_LEN).is_none());
    assert!(symbol(ARPABET_LEN as u16).is_none());
    assert_eq!(arpabet(0), Some(("AA", Class::Vowel, true)));
    assert_eq!(arpabet(38), Some(("ZH", Class::Fricative, false)));
}

#[test]
fn symbols_must_match_whole() {
    assert!(phone("").is_none());
    assert!(phone("1").is_none());
    assert!(phone("AE3").is_none());
    assert!(phone("AEE").is_none());
    assert!(phone("A").is_none());
    assert_eq!(phone("ae1").unwrap(), phone("AE1").unwrap());
    assert!(phone("ÄE").is_none());
}

#[test]
fn pronunciations_split_on_any_white_space() {
    let p = pronounce("  K\tAE1\u{3000}T \n").unwrap();
    assert_eq!(p, pronounce("K AE1 T").unwrap());
    assert_eq!(p.len(), 3);
    assert_eq!(pronounce(""), Some(vec![]));
    assert_eq!(pronounce("   "), Some(vec![]));
    assert!(pronounce("K XX T").is_none());
}

#[test]
fn the_into_form_writes_what_it_parsed_before_failing() {
    let filler = Phone::new(99, Class::Glide);
    let mut buf = [filler; 4];
    assert_eq!(pronounce_into("K AE1 XX T", &mut buf), None);
    assert_eq!(buf[0], phone("K").unwrap());
    assert_eq!(buf[1], phone("AE1").unwrap());
    assert_eq!(buf[2], filler);

    let mut buf = [filler; 4];
    assert_eq!(pronounce_into("K AE1 T", &mut buf), Some(3));
    assert_eq!(&buf[..3], &pronounce("K AE1 T").unwrap()[..]);
    assert_eq!(buf[3], filler);
}

#[test]
fn cmudict_edge_lines() {
    assert_eq!(cmudict_entry("   "), None);
    assert_eq!(cmudict_entry("CAT"), None);
    assert_eq!(cmudict_entry("CAT   "), None);
    assert_eq!(cmudict_entry(" K AE1 T"), None);
    assert_eq!(cmudict_entry("A AH0"), Some(("A", "AH0")));
    assert_eq!(cmudict_entry("A.B  EY1 B IY1\n"), Some(("A.B", "EY1 B IY1")));
    assert_eq!(cmudict_entry("(PAREN)  P"), Some(("", "P")));
    assert_eq!(cmudict_entry("F(2)X  F"), Some(("F(2)X", "F")));
    assert_eq!(cmudict_entry(";;;"), None);
    assert_eq!(cmudict_entry(";; X  Y"), Some((";; X", "Y")));
}
