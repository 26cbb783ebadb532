//! Sonance: sound kinship between two pronunciations.
//!
//! Named for the stem the phenomena share: as-sonance, con-sonance,
//! dis-sonance, re-sonance. Every relation here is a comparison of phone
//! sequences against a shared symbol table, so any language that supplies
//! phones gets all of them at once.

use vstd::prelude::*;

use crate::phone::{Phone, Stress};
use crate::syllable::Syllable;

verus! {

/// The syllable's nucleus is present and carries primary stress.
pub open spec fn primary_at(phones: Seq<Phone>, s: Syllable) -> bool {
    s.nucleus < phones.len() && phones[s.nucleus as int].stress == Stress::Primary
}

/// The index of the last syllable whose nucleus carries primary stress.
pub open spec fn last_primary(phones: Seq<Phone>, syllables: Seq<Syllable>) -> Option<int>
    decreases syllables.len(),
{
    if syllables.len() == 0 {
        None
    } else if primary_at(phones, syllables.last()) {
        Some(syllables.len() - 1)
    } else {
        last_primary(phones, syllables.drop_last())
    }
}

/// Where a rhyme begins: the nucleus of the last syllable carrying primary
/// stress, falling back to the last syllable; nothing for no syllables.
pub open spec fn spec_rhyme_start(phones: Seq<Phone>, syllables: Seq<Syllable>) -> Option<usize> {
    if syllables.len() == 0 {
        None
    } else {
        let anchor = match last_primary(phones, syllables) {
            Some(k) => k,
            None => syllables.len() - 1,
        };
        Some(syllables[anchor].nucleus)
    }
}

/// The rhyme start, where there is one, lies within the pronunciation or at
/// its end, so the tail from it can be taken.
pub open spec fn tail_readable(phones: Seq<Phone>, syllables: Seq<Syllable>) -> bool {
    spec_rhyme_start(phones, syllables) matches Some(i) ==> i <= phones.len()
}

/// The rhyme tail: nucleus onward from the rhyme start, or nothing.
pub open spec fn spec_rhyme_tail(phones: Seq<Phone>, syllables: Seq<Syllable>) -> Seq<Phone> {
    match spec_rhyme_start(phones, syllables) {
        Some(i) => phones.subrange(i as int, phones.len() as int),
        None => Seq::empty(),
    }
}

/// The ids of a phone sequence.
pub open spec fn ids(t: Seq<Phone>) -> Seq<u16> {
    t.map_values(|p: Phone| p.id)
}

/// The phones of a sequence that are vowels (`vowel`) or consonants (`!vowel`),
/// in order.
pub open spec fn phones_where(t: Seq<Phone>, vowel: bool) -> Seq<Phone>
    decreases t.len(),
{
    if t.len() == 0 {
        Seq::empty()
    } else {
        let rest = phones_where(t.drop_last(), vowel);
        if t.last().spec_is_vowel() == vowel {
            rest.push(t.last())
        } else {
            rest
        }
    }
}

/// The consonants of a phone sequence, in order.
pub open spec fn consonants(t: Seq<Phone>) -> Seq<Phone> {
    phones_where(t, false)
}

/// The vowels of a phone sequence, in order.
pub open spec fn vowels(t: Seq<Phone>) -> Seq<Phone> {
    phones_where(t, true)
}

/// The two sequences have the same, non-empty consonant frame.
pub open spec fn consonants_agree(a: Seq<Phone>, b: Seq<Phone>) -> bool {
    ids(consonants(a)).len() > 0 && ids(consonants(a)) == ids(consonants(b))
}

/// The two sequences have the same, non-empty sequence of vowels.
pub open spec fn vowels_agree(a: Seq<Phone>, b: Seq<Phone>) -> bool {
    ids(vowels(a)).len() > 0 && ids(vowels(a)) == ids(vowels(b))
}

/// The id of the phone just before the rhyme start, if any.
pub open spec fn pre_rhyme_id(phones: Seq<Phone>, syllables: Seq<Syllable>) -> Option<u16> {
    match spec_rhyme_start(phones, syllables) {
        Some(i) => if i == 0 {
            None
        } else {
            Some(phones[i - 1].id)
        },
        None => None,
    }
}

/// A perfect rhyme: identical ids from the rhyme start to the end, not empty,
/// with a different phone (or none) just before.
pub open spec fn spec_is_perfect_rhyme(
    pa: Seq<Phone>,
    sa: Seq<Syllable>,
    pb: Seq<Phone>,
    sb: Seq<Syllable>,
) -> bool {
    let ta = spec_rhyme_tail(pa, sa);
    let tb = spec_rhyme_tail(pb, sb);
    &&& ta.len() > 0
    &&& ids(ta) == ids(tb)
    &&& pre_rhyme_id(pa, sa) != pre_rhyme_id(pb, sb)
}

/// A slant rhyme: two non-empty tails, not identical, that agree on their
/// consonants or on their vowels, but not on both.
pub open spec fn spec_is_slant_rhyme(
    pa: Seq<Phone>,
    sa: Seq<Syllable>,
    pb: Seq<Phone>,
    sb: Seq<Syllable>,
) -> bool {
    let ta = spec_rhyme_tail(pa, sa);
    let tb = spec_rhyme_tail(pb, sb);
    &&& ta.len() > 0
    &&& tb.len() > 0
    &&& ids(ta) != ids(tb)
    &&& consonants_agree(ta, tb) != vowels_agree(ta, tb)
}

/// The rhyme start, where there is one, is a phone of the pronunciation.
pub open spec fn start_readable(phones: Seq<Phone>, syllables: Seq<Syllable>) -> bool {
    spec_rhyme_start(phones, syllables) matches Some(i) ==> i < phones.len()
}

/// Where both pronunciations have a rhyme start, each is one of its phones,
/// so the two can be compared.
pub open spec fn assonance_readable(
    pa: Seq<Phone>,
    sa: Seq<Syllable>,
    pb: Seq<Phone>,
    sb: Seq<Syllable>,
) -> bool {
    spec_rhyme_start(pa, sa) is Some && spec_rhyme_start(pb, sb) is Some ==> start_readable(pa, sa)
        && start_readable(pb, sb)
}

/// Assonance: both have a rhyme start and the phones there share an id.
pub open spec fn spec_is_assonant(
    pa: Seq<Phone>,
    sa: Seq<Syllable>,
    pb: Seq<Phone>,
    sb: Seq<Syllable>,
) -> bool {
    match (spec_rhyme_start(pa, sa), spec_rhyme_start(pb, sb)) {
        (Some(i), Some(j)) => pa[i as int].id == pb[j as int].id,
        _ => false,
    }
}

/// The id of the first phone of the first syllable's onset, if it has one.
pub open spec fn first_onset_id(phones: Seq<Phone>, syllables: Seq<Syllable>) -> Option<u16> {
    if syllables.len() == 0 {
        None
    } else if syllables[0].nucleus - syllables[0].start == 0 {
        None
    } else {
        Some(phones[syllables[0].start as int].id)
    }
}

/// `is_alliterative` can read the first syllable's onset.
pub open spec fn onset_readable(phones: Seq<Phone>, syllables: Seq<Syllable>) -> bool {
    syllables.len() > 0 ==> {
        &&& syllables[0].start <= syllables[0].nucleus
        &&& syllables[0].start < syllables[0].nucleus ==> syllables[0].start < phones.len()
    }
}

/// Alliteration: both first onsets exist and begin with the same phone.
pub open spec fn spec_is_alliterative(
    pa: Seq<Phone>,
    sa: Seq<Syllable>,
    pb: Seq<Phone>,
    sb: Seq<Syllable>,
) -> bool {
    match (first_onset_id(pa, sa), first_onset_id(pb, sb)) {
        (Some(x), Some(y)) => x == y,
        _ => false,
    }
}

/// The last `k` phones of `a` and of `b` share their ids, position by
/// position from the end.
pub open spec fn tails_agree(a: Seq<Phone>, b: Seq<Phone>, k: int) -> bool {
    forall|j: int| 0 <= j < k ==> #[trigger] a[a.len() - 1 - j].id == b[b.len() - 1 - j].id
}

/// Where a rhyme begins: the nucleus of the last syllable carrying primary
/// stress, falling back to the last syllable.
pub fn rhyme_start(phones: &[Phone], syllables: &[Syllable]) -> (r: Option<usize>)
    ensures
        r == spec_rhyme_start(phones@, syllables@),
{
    if syllables.len() == 0 {
        return None;
    }
    let mut k: usize = syllables.len();
    assert(syllables@.take(k as int) =~= syllables@);
    while k > 0
        invariant
            k <= syllables@.len(),
            syllables@.len() > 0,
            last_primary(phones@, syllables@) == last_primary(
                phones@,
                syllables@.take(k as int),
            ),
        decreases k,
    {
        let s = syllables[k - 1];
        assert(syllables@.take(k as int).drop_last() =~= syllables@.take(k - 1));
        if s.nucleus < phones.len() && phones[s.nucleus].stress == Stress::Primary {
            return Some(s.nucleus);
        }
        k = k - 1;
    }
    assert(syllables@.take(0) =~= Seq::<Syllable>::empty());
    Some(syllables[syllables.len() - 1].nucleus)
}

/// The rhyme tail: nucleus onward from [`rhyme_start`].
pub fn rhyme_tail<'a>(phones: &'a [Phone], syllables: &[Syllable]) -> (r: &'a [Phone])
    requires
        tail_readable(phones@, syllables@),
    ensures
        r@ == spec_rhyme_tail(phones@, syllables@),
{
    match rhyme_start(phones, syllables) {
        Some(i) => &phones[i..phones.len()],
        None => &[],
    }
}

fn ids_equal(a: &[Phone], b: &[Phone]) -> (r: bool)
    ensures
        r == (ids(a@) == ids(b@)),
{
    if a.len() != b.len() {
        assert(ids(a@).len() != ids(b@).len());
        return false;
    }
    let mut i: usize = 0;
    while i < a.len()
        invariant
            a@.len() == b@.len(),
            i <= a@.len(),
            forall|j: int| 0 <= j < i ==> a@[j].id == b@[j].id,
        decreases a.len() - i,
    {
        if a[i].id != b[i].id {
            assert(ids(a@)[i as int] != ids(b@)[i as int]);
            return false;
        }
        i = i + 1;
    }
    assert(ids(a@) =~= ids(b@));
    true
}

/// The ids of the vowels (`vowel`) or consonants (`!vowel`) of `t`, in order.
fn ids_where(t: &[Phone], vowel: bool) -> (r: Vec<u16>)
    ensures
        r@ == ids(phones_where(t@, vowel)),
{
    let mut r: Vec<u16> = Vec::new();
    let mut i: usize = 0;
    while i < t.len()
        invariant
            i <= t@.len(),
            r@ == ids(phones_where(t@.take(i as int), vowel)),
        decreases t.len() - i,
    {
        assert(t@.take(i + 1).drop_last() =~= t@.take(i as int));
        if t[i].is_vowel() == vowel {
            r.push(t[i].id);
        }
        i = i + 1;
        assert(r@ =~= ids(phones_where(t@.take(i as int), vowel)));
    }
    assert(t@.take(i as int) =~= t@);
    r
}

/// The vowels (`vowel`) or consonants (`!vowel`) of `a` and `b` are the same,
/// non-empty sequence of ids.
fn frames_agree(a: &[Phone], b: &[Phone], vowel: bool) -> (r: bool)
    ensures
        r == (ids(phones_where(a@, vowel)).len() > 0 && ids(phones_where(a@, vowel)) == ids(
            phones_where(b@, vowel),
        )),
{
    let ca = ids_where(a, vowel);
    let cb = ids_where(b, vowel);
    if ca.len() == 0 || ca.len() != cb.len() {
        return false;
    }
    let mut i: usize = 0;
    while i < ca.len()
        invariant
            ca@ == ids(phones_where(a@, vowel)),
            cb@ == ids(phones_where(b@, vowel)),
            ca@.len() == cb@.len(),
            i <= ca@.len(),
            forall|j: int| 0 <= j < i ==> ca@[j] == cb@[j],
        decreases ca.len() - i,
    {
        if ca[i] != cb[i] {
            assert(ca@[i as int] != cb@[i as int]);
            return false;
        }
        i = i + 1;
    }
    assert(ca@ =~= cb@);
    true
}

fn pre_rhyme(phones: &[Phone], syllables: &[Syllable]) -> (r: Option<u16>)
    requires
        tail_readable(phones@, syllables@),
    ensures
        r == pre_rhyme_id(phones@, syllables@),
{
    match rhyme_start(phones, syllables) {
        Some(i) => if i == 0 {
            None
        } else {
            Some(phones[i - 1].id)
        },
        None => None,
    }
}

/// A perfect rhyme: identical from the stressed nucleus to the end, with
/// different consonants before it.
///
/// The differing-onset requirement is what separates a rhyme from a repetition;
/// without it every word rhymes with itself.
pub fn is_perfect_rhyme(a: (&[Phone], &[Syllable]), b: (&[Phone], &[Syllable])) -> (r: bool)
    requires
        tail_readable(a.0@, a.1@),
        tail_readable(b.0@, b.1@),
    ensures
        r == spec_is_perfect_rhyme(a.0@, a.1@, b.0@, b.1@),
{
    let ta = rhyme_tail(a.0, a.1);
    let tb = rhyme_tail(b.0, b.1);
    if ta.len() == 0 || !ids_equal(ta, tb) {
        return false;
    }
    pre_rhyme(a.0, a.1) != pre_rhyme(b.0, b.1)
}

/// A slant rhyme: the tails agree on their consonants but not their vowels, or
/// on their vowels but not their consonants.
pub fn is_slant_rhyme(a: (&[Phone], &[Syllable]), b: (&[Phone], &[Syllable])) -> (r: bool)
    requires
        tail_readable(a.0@, a.1@),
        tail_readable(b.0@, b.1@),
    ensures
        r == spec_is_slant_rhyme(a.0@, a.1@, b.0@, b.1@),
{
    let ta = rhyme_tail(a.0, a.1);
    let tb = rhyme_tail(b.0, b.1);
    if ta.len() == 0 || tb.len() == 0 || ids_equal(ta, tb) {
        return false;
    }
    let consonants_match = frames_agree(ta, tb, false);
    let vowels_match = frames_agree(ta, tb, true);
    consonants_match != vowels_match
}

/// Assonance: the stressed nuclei agree.
pub fn is_assonant(a: (&[Phone], &[Syllable]), b: (&[Phone], &[Syllable])) -> (r: bool)
    requires
        assonance_readable(a.0@, a.1@, b.0@, b.1@),
    ensures
        r == spec_is_assonant(a.0@, a.1@, b.0@, b.1@),
{
    match (rhyme_start(a.0, a.1), rhyme_start(b.0, b.1)) {
        (Some(i), Some(j)) => a.0[i].id == b.0[j].id,
        _ => false,
    }
}

/// Consonance: the consonant sequences agree, whatever the vowels do.
pub fn is_consonant(a: &[Phone], b: &[Phone]) -> (r: bool)
    ensures
        r == consonants_agree(a@, b@),
{
    frames_agree(a, b, false)
}

fn first_onset(phones: &[Phone], syllables: &[Syllable]) -> (r: Option<u16>)
    requires
        onset_readable(phones@, syllables@),
    ensures
        r == first_onset_id(phones@, syllables@),
{
    if syllables.len() == 0 {
        return None;
    }
    let syllable = syllables[0];
    if syllable.onset_len() == 0 {
        None
    } else {
        Some(phones[syllable.start].id)
    }
}

/// Alliteration: the first onsets agree.
///
/// A word beginning with its nucleus has no onset and alliterates with nothing,
/// which is the conservative reading.
pub fn is_alliterative(a: (&[Phone], &[Syllable]), b: (&[Phone], &[Syllable])) -> (r: bool)
    requires
        onset_readable(a.0@, a.1@),
        onset_readable(b.0@, b.1@),
    ensures
        r == spec_is_alliterative(a.0@, a.1@, b.0@, b.1@),
{
    match (first_onset(a.0, a.1), first_onset(b.0, b.1)) {
        (Some(x), Some(y)) => x == y,
        _ => false,
    }
}

/// How many phones agree from the end backward: the largest `k`, at most the
/// shorter length, for which the last `k` phones of both share their ids.
///
/// The count that the share of agreement is measured from.
pub fn agreeing_tail_len(a: &[Phone], b: &[Phone]) -> (r: usize)
    ensures
        r <= a@.len(),
        r <= b@.len(),
        tails_agree(a@, b@, r as int),
        r < a@.len() && r < b@.len() ==> a@[a@.len() - 1 - r].id != b@[b@.len() - 1 - r].id,
{
    let n = if a.len() <= b.len() {
        a.len()
    } else {
        b.len()
    };
    let mut k: usize = 0;
    while k < n
        invariant
            n <= a@.len(),
            n <= b@.len(),
            n == a@.len() || n == b@.len(),
            k <= n,
            tails_agree(a@, b@, k as int),
        decreases n - k,
    {
        if a[a.len() - 1 - k].id != b[b.len() - 1 - k].id {
            return k;
        }
        k = k + 1;
    }
    k
}

/// Every named relation between two pronunciations.
#[derive(Clone, Copy, PartialEq, Eq, Debug, Structural)]
pub struct Relations {
    pub perfect_rhyme: bool,
    pub slant_rhyme: bool,
    pub assonance: bool,
    pub consonance: bool,
    pub alliteration: bool,
}

impl Relations {
    /// True when the two share any named relation.
    pub fn any(&self) -> (r: bool)
        ensures
            r == (self.perfect_rhyme || self.slant_rhyme || self.assonance || self.consonance
                || self.alliteration),
    {
        self.perfect_rhyme || self.slant_rhyme || self.assonance || self.consonance
            || self.alliteration
    }
}

/// Every relation can be read for the pair: each rhyme tail can be taken,
/// the rhyme starts can be compared, and each first onset can be read.
pub open spec fn relations_readable(
    pa: Seq<Phone>,
    sa: Seq<Syllable>,
    pb: Seq<Phone>,
    sb: Seq<Syllable>,
) -> bool {
    &&& tail_readable(pa, sa)
    &&& tail_readable(pb, sb)
    &&& assonance_readable(pa, sa, pb, sb)
    &&& onset_readable(pa, sa)
    &&& onset_readable(pb, sb)
}

/// Compare two pronunciations across every named relation.
pub fn relations(a: (&[Phone], &[Syllable]), b: (&[Phone], &[Syllable])) -> (r: Relations)
    requires
        relations_readable(a.0@, a.1@, b.0@, b.1@),
    ensures
        r == (Relations {
            perfect_rhyme: spec_is_perfect_rhyme(a.0@, a.1@, b.0@, b.1@),
            slant_rhyme: spec_is_slant_rhyme(a.0@, a.1@, b.0@, b.1@),
            assonance: spec_is_assonant(a.0@, a.1@, b.0@, b.1@),
            consonance: consonants_agree(a.0@, b.0@),
            alliteration: spec_is_alliterative(a.0@, a.1@, b.0@, b.1@),
        }),
{
    Relations {
        perfect_rhyme: is_perfect_rhyme(a, b),
        slant_rhyme: is_slant_rhyme(a, b),
        assonance: is_assonant(a, b),
        consonance: is_consonant(a.0, b.0),
        alliteration: is_alliterative(a, b),
    }
}

/// No pronunciation is a perfect rhyme of itself: the differing-onset
/// requirement separates a rhyme from a repetition.
pub proof fn lemma_no_perfect_self_rhyme(phones: Seq<Phone>, syllables: Seq<Syllable>)
    ensures
        !spec_is_perfect_rhyme(phones, syllables, phones, syllables),
{
}

/// Every relation is symmetric: it does not matter which pronunciation is
/// named first.
pub proof fn lemma_relations_symmetric(
    pa: Seq<Phone>,
    sa: Seq<Syllable>,
    pb: Seq<Phone>,
    sb: Seq<Syllable>,
)
    ensures
        spec_is_perfect_rhyme(pa, sa, pb, sb) == spec_is_perfect_rhyme(pb, sb, pa, sa),
        spec_is_slant_rhyme(pa, sa, pb, sb) == spec_is_slant_rhyme(pb, sb, pa, sa),
        spec_is_assonant(pa, sa, pb, sb) == spec_is_assonant(pb, sb, pa, sa),
        consonants_agree(pa, pb) == consonants_agree(pb, pa),
        spec_is_alliterative(pa, sa, pb, sb) == spec_is_alliterative(pb, sb, pa, sa),
{
    let ta = spec_rhyme_tail(pa, sa);
    let tb = spec_rhyme_tail(pb, sb);
    assert(ids(ta).len() == ta.len());
    assert(ids(tb).len() == tb.len());
    assert(consonants_agree(ta, tb) == consonants_agree(tb, ta));
    assert(vowels_agree(ta, tb) == vowels_agree(tb, ta));
}

/// A perfect rhyme is never a slant rhyme, and its stressed nuclei always
/// agree, so it is also assonant.
pub proof fn lemma_perfect_rhyme_is_assonant_not_slant(
    pa: Seq<Phone>,
    sa: Seq<Syllable>,
    pb: Seq<Phone>,
    sb: Seq<Syllable>,
)
    requires
        tail_readable(pa, sa),
        tail_readable(pb, sb),
        spec_is_perfect_rhyme(pa, sa, pb, sb),
    ensures
        !spec_is_slant_rhyme(pa, sa, pb, sb),
        spec_is_assonant(pa, sa, pb, sb),
{
    let ta = spec_rhyme_tail(pa, sa);
    let tb = spec_rhyme_tail(pb, sb);
    let i = spec_rhyme_start(pa, sa)->0 as int;
    let j = spec_rhyme_start(pb, sb)->0 as int;
    assert(ids(ta)[0] == ta[0].id);
    assert(ids(ta).len() == ta.len());
    assert(ids(tb).len() == tb.len());
    assert(ids(tb)[0] == tb[0].id);
    assert(ta[0] == pa[i]);
    assert(tb[0] == pb[j]);
}

proof fn lemma_last_primary(phones: Seq<Phone>, syllables: Seq<Syllable>)
    ensures
        last_primary(phones, syllables) matches Some(k) ==> {
            &&& 0 <= k < syllables.len()
            &&& primary_at(phones, syllables[k])
            &&& forall|j: int| k < j < syllables.len() ==> !primary_at(phones, #[trigger] syllables[j])
        },
        last_primary(phones, syllables) is None ==> forall|j: int|
            0 <= j < syllables.len() ==> !primary_at(phones, #[trigger] syllables[j]),
    decreases syllables.len(),
{
    if syllables.len() > 0 {
        let p = syllables.drop_last();
        let n = syllables.len() - 1;
        lemma_last_primary(phones, p);
        if !primary_at(phones, syllables[n]) {
            match last_primary(phones, p) {
                Some(k) => {
                    assert(p[k] == syllables[k]);
                    assert forall|j: int| k < j < syllables.len() implies !primary_at(
                        phones,
                        #[trigger] syllables[j],
                    ) by {
                        if j < n {
                            assert(p[j] == syllables[j]);
                        }
                    }
                },
                None => {
                    assert forall|j: int| 0 <= j < syllables.len() implies !primary_at(
                        phones,
                        #[trigger] syllables[j],
                    ) by {
                        if j < n {
                            assert(p[j] == syllables[j]);
                        }
                    }
                },
            }
        }
    }
}

/// The rhyme starts at the nucleus of the last syllable whose nucleus carries
/// primary stress (secondary stress never anchors it); only when no nucleus
/// does, at the nucleus of the last syllable; and nowhere without syllables.
pub proof fn lemma_rhyme_start_is_last_primary(phones: Seq<Phone>, syllables: Seq<Syllable>)
    ensures
        syllables.len() == 0 ==> spec_rhyme_start(phones, syllables) is None,
        (exists|k: int|
            0 <= k < syllables.len() && (#[trigger] syllables[k]).nucleus < phones.len()
                && phones[syllables[k].nucleus as int].stress == Stress::Primary) ==> exists|k: int|
            {
                &&& 0 <= k < syllables.len()
                &&& spec_rhyme_start(phones, syllables) == Some(
                    (#[trigger] syllables[k]).nucleus,
                )
                &&& syllables[k].nucleus < phones.len()
                &&& phones[syllables[k].nucleus as int].stress == Stress::Primary
                &&& forall|j: int|
                    k < j < syllables.len() ==> !((#[trigger] syllables[j]).nucleus < phones.len()
                        && phones[syllables[j].nucleus as int].stress == Stress::Primary)
            },
        syllables.len() > 0 && (forall|k: int|
            0 <= k < syllables.len() ==> !((#[trigger] syllables[k]).nucleus < phones.len()
                && phones[syllables[k].nucleus as int].stress == Stress::Primary))
            ==> spec_rhyme_start(phones, syllables) == Some(syllables[syllables.len() - 1].nucleus),
{
    lemma_last_primary(phones, syllables);
    if syllables.len() > 0 {
        match last_primary(phones, syllables) {
            Some(k) => {
                assert(syllables[k].nucleus < phones.len());
            },
            None => {
                if exists|k: int|
                    0 <= k < syllables.len() && (#[trigger] syllables[k]).nucleus < phones.len()
                        && phones[syllables[k].nucleus as int].stress == Stress::Primary {
                    let k = choose|k: int|
                        0 <= k < syllables.len() && (#[trigger] syllables[k]).nucleus
                            < phones.len() && phones[syllables[k].nucleus as int].stress
                            == Stress::Primary;
                    assert(primary_at(phones, syllables[k]));
                }
            },
        }
    }
}

/// Two pronunciations alliterate exactly when both have a first syllable with
/// a non-empty onset, and the first phones of those onsets (the phones at the
/// first syllables' starts) share their id.
pub proof fn lemma_alliteration_reads_first_onset_phone(
    pa: Seq<Phone>,
    sa: Seq<Syllable>,
    pb: Seq<Phone>,
    sb: Seq<Syllable>,
)
    requires
        onset_readable(pa, sa),
        onset_readable(pb, sb),
    ensures
        spec_is_alliterative(pa, sa, pb, sb) <==> {
            &&& sa.len() > 0
            &&& sb.len() > 0
            &&& sa[0].start < sa[0].nucleus
            &&& sb[0].start < sb[0].nucleus
            &&& pa[sa[0].start as int].id == pb[sb[0].start as int].id
        },
{
}

} // verus!
