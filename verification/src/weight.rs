//! Weight: the mora, and what a language counts as one.
//!
//! Stress-timed, syllable-timed, and mora-timed languages differ in what they
//! *do* with weight, not in what weight is, so one counter parameterized by
//! [`WeightRule`] serves all three.

use vstd::prelude::*;

use crate::phone::Phone;
use crate::syllable::Syllable;

verus! {

/// Traditional weight classes, derived from a mora count.
#[derive(Clone, Copy, PartialEq, Eq, PartialOrd, Ord, Debug, Structural)]
pub enum Weight {
    /// One mora: an open syllable with a short nucleus.
    Light,
    /// Two morae: a long nucleus, or a closed syllable where codas count.
    Heavy,
    /// Three or more.
    Superheavy,
}

impl Weight {
    /// The weight class of a count of morae.
    pub open spec fn spec_from_morae(morae: u8) -> Weight {
        if morae <= 1 {
            Weight::Light
        } else if morae == 2 {
            Weight::Heavy
        } else {
            Weight::Superheavy
        }
    }

    /// The weight class of a count of morae: at most one is light, two is
    /// heavy, three or more superheavy.
    pub fn from_morae(morae: u8) -> (w: Self)
        ensures
            w == Weight::spec_from_morae(morae),
    {
        match morae {
            0 | 1 => Weight::Light,
            2 => Weight::Heavy,
            _ => Weight::Superheavy,
        }
    }

    /// Heavy or superheavy: at least as heavy as [`Weight::Heavy`].
    pub open spec fn spec_is_heavy(self) -> bool {
        !(self is Light)
    }
}

/// What a language counts as a mora.
#[derive(Clone, Copy, PartialEq, Eq, Debug, Structural)]
pub struct WeightRule {
    /// Morae contributed by a long or diphthongal nucleus.
    pub long_nucleus_morae: u8,
    /// Whether a coda consonant contributes a mora.
    pub coda_moraic: bool,
    /// Cap on morae counted from the coda, so a heavy cluster does not run
    /// away.
    pub max_coda_morae: u8,
}

impl WeightRule {
    /// Weight-sensitive: long nuclei and closed syllables are both heavy.
    /// The reading English stress and Latin quantity both want.
    pub fn classical() -> (r: Self)
        ensures
            r == (WeightRule { long_nucleus_morae: 2, coda_moraic: true, max_coda_morae: 1 }),
    {
        WeightRule { long_nucleus_morae: 2, coda_moraic: true, max_coda_morae: 1 }
    }

    /// Japanese: a coda consonant (moraic nasal, first half of a geminate) is
    /// its own mora, which is why the language is called mora-timed.
    pub fn moraic() -> (r: Self)
        ensures
            r == (WeightRule { long_nucleus_morae: 2, coda_moraic: true, max_coda_morae: 2 }),
    {
        WeightRule { long_nucleus_morae: 2, coda_moraic: true, max_coda_morae: 2 }
    }

    /// Weight-insensitive: every syllable counts one, the reading a
    /// syllable-timed language wants.
    pub fn syllabic() -> (r: Self)
        ensures
            r == (WeightRule { long_nucleus_morae: 1, coda_moraic: false, max_coda_morae: 0 }),
    {
        WeightRule { long_nucleus_morae: 1, coda_moraic: false, max_coda_morae: 0 }
    }
}

impl Default for WeightRule {
    fn default() -> (r: Self)
        ensures
            r == (WeightRule { long_nucleus_morae: 2, coda_moraic: true, max_coda_morae: 1 }),
    {
        Self::classical()
    }
}

/// `morae` can read `syllable` without arithmetic underflow: where the
/// nucleus is present and codas count, the syllable ends after its nucleus.
pub open spec fn morae_readable(phones: Seq<Phone>, syllable: Syllable, rule: WeightRule) -> bool {
    syllable.nucleus < phones.len() && rule.coda_moraic ==> syllable.nucleus < syllable.end
}

/// The morae of one syllable: none without a nucleus; one for a short nucleus
/// or `rule.long_nucleus_morae` for a long one; and, where codas count, one per
/// coda phone up to `rule.max_coda_morae`, the total saturating at 255.
pub open spec fn spec_morae(phones: Seq<Phone>, syllable: Syllable, rule: WeightRule) -> u8 {
    if syllable.nucleus >= phones.len() {
        0
    } else {
        let base: int = if phones[syllable.nucleus as int].long {
            rule.long_nucleus_morae as int
        } else {
            1
        };
        if rule.coda_moraic {
            let coda_len: int = syllable.end - syllable.nucleus - 1;
            let coda: int = if coda_len <= rule.max_coda_morae {
                coda_len
            } else {
                rule.max_coda_morae as int
            };
            if base + coda <= 255 {
                (base + coda) as u8
            } else {
                255
            }
        } else {
            base as u8
        }
    }
}

/// Count the morae in one syllable.
pub fn morae(phones: &[Phone], syllable: &Syllable, rule: WeightRule) -> (r: u8)
    requires
        morae_readable(phones@, *syllable, rule),
    ensures
        r == spec_morae(phones@, *syllable, rule),
{
    if syllable.nucleus >= phones.len() {
        return 0;
    }
    let nucleus = phones[syllable.nucleus];
    let mut n: u8 = if nucleus.long {
        rule.long_nucleus_morae
    } else {
        1
    };
    if rule.coda_moraic {
        let coda_len = syllable.coda_len();
        let cap = rule.max_coda_morae as usize;
        let coda: u8 = if coda_len <= cap {
            coda_len as u8
        } else {
            rule.max_coda_morae
        };
        n = n.saturating_add(coda);
    }
    n
}

/// Weight of one syllable.
pub fn weight(phones: &[Phone], syllable: &Syllable, rule: WeightRule) -> (w: Weight)
    requires
        morae_readable(phones@, *syllable, rule),
    ensures
        w == Weight::spec_from_morae(spec_morae(phones@, *syllable, rule)),
{
    Weight::from_morae(morae(phones, syllable, rule))
}

/// The morae of all of `syllables`, summed.
pub open spec fn spec_total_morae(
    phones: Seq<Phone>,
    syllables: Seq<Syllable>,
    rule: WeightRule,
) -> int
    decreases syllables.len(),
{
    if syllables.len() == 0 {
        0
    } else {
        spec_total_morae(phones, syllables.drop_last(), rule) + spec_morae(
            phones,
            syllables.last(),
            rule,
        )
    }
}

/// A prefix of the syllables never carries more morae than the whole.
pub proof fn lemma_total_morae_prefix(
    phones: Seq<Phone>,
    syllables: Seq<Syllable>,
    rule: WeightRule,
    i: int,
)
    requires
        0 <= i <= syllables.len(),
    ensures
        0 <= spec_total_morae(phones, syllables.take(i), rule) <= spec_total_morae(
            phones,
            syllables,
            rule,
        ),
    decreases syllables.len() - i,
{
    if i < syllables.len() {
        lemma_total_morae_prefix(phones, syllables, rule, i + 1);
        assert(syllables.take(i + 1).drop_last() =~= syllables.take(i));
    } else {
        assert(syllables.take(i) =~= syllables);
    }
    lemma_total_morae_nonneg(phones, syllables.take(i), rule);
}

proof fn lemma_total_morae_nonneg(phones: Seq<Phone>, syllables: Seq<Syllable>, rule: WeightRule)
    ensures
        spec_total_morae(phones, syllables, rule) >= 0,
    decreases syllables.len(),
{
    if syllables.len() > 0 {
        lemma_total_morae_nonneg(phones, syllables.drop_last(), rule);
    }
}

/// Total morae across a pronunciation.
///
/// This is the count a haiku is written against: Japanese counts morae here,
/// not syllables.
pub fn total_morae(phones: &[Phone], syllables: &[Syllable], rule: WeightRule) -> (r: u32)
    requires
        forall|k: int|
            0 <= k < syllables@.len() ==> morae_readable(phones@, #[trigger] syllables@[k], rule),
        spec_total_morae(phones@, syllables@, rule) <= u32::MAX,
    ensures
        r == spec_total_morae(phones@, syllables@, rule),
{
    let mut sum: u32 = 0;
    let mut i: usize = 0;
    while i < syllables.len()
        invariant
            i <= syllables@.len(),
            sum == spec_total_morae(phones@, syllables@.take(i as int), rule),
            forall|k: int|
                0 <= k < syllables@.len() ==> morae_readable(
                    phones@,
                    #[trigger] syllables@[k],
                    rule,
                ),
            spec_total_morae(phones@, syllables@, rule) <= u32::MAX,
        decreases syllables.len() - i,
    {
        let m = morae(phones, &syllables[i], rule);
        proof {
            assert(syllables@.take(i + 1).drop_last() =~= syllables@.take(i as int));
            lemma_total_morae_prefix(phones@, syllables@, rule, i + 1);
        }
        sum = sum + m as u32;
        i = i + 1;
    }
    assert(syllables@.take(i as int) =~= syllables@);
    sum
}

/// Where the Latin stress rule puts the stress.
pub open spec fn spec_penultimate_stress(
    phones: Seq<Phone>,
    syllables: Seq<Syllable>,
    rule: WeightRule,
) -> Option<usize> {
    let n = syllables.len();
    if n == 0 {
        None
    } else if n <= 2 {
        Some(0)
    } else if Weight::spec_from_morae(spec_morae(phones, syllables[n - 2], rule)).spec_is_heavy() {
        Some((n - 2) as usize)
    } else {
        Some((n - 3) as usize)
    }
}

/// The Latin stress rule, as the proof that weight sits beneath stress.
///
/// Stress falls on the penult when the penult is heavy, otherwise on the
/// antepenult; words of one or two syllables stress the first. Returns the
/// index of the stressed syllable, or `None` for an empty word.
pub fn penultimate_stress(phones: &[Phone], syllables: &[Syllable], rule: WeightRule) -> (r:
    Option<usize>)
    requires
        syllables@.len() >= 3 ==> morae_readable(
            phones@,
            syllables@[syllables@.len() - 2],
            rule,
        ),
    ensures
        r == spec_penultimate_stress(phones@, syllables@, rule),
{
    let n = syllables.len();
    if n == 0 {
        None
    } else if n <= 2 {
        Some(0)
    } else {
        let penult = n - 2;
        match weight(phones, &syllables[penult], rule) {
            Weight::Light => Some(n - 3),
            _ => Some(penult),
        }
    }
}

/// The classical rule makes a syllable heavy exactly when its nucleus is long
/// or it has a coda.
pub proof fn lemma_classical_weight(phones: Seq<Phone>, syllable: Syllable)
    requires
        syllable.nucleus < phones.len(),
        syllable.nucleus < syllable.end,
    ensures
        ({
            let rule = WeightRule { long_nucleus_morae: 2, coda_moraic: true, max_coda_morae: 1 };
            Weight::spec_from_morae(spec_morae(phones, syllable, rule)).spec_is_heavy() <==> (
            phones[syllable.nucleus as int].long || syllable.end - syllable.nucleus - 1 > 0)
        }),
{
}

/// Under the syllabic rule every syllable with a nucleus counts exactly one
/// mora, whatever its length or coda, so the total is the syllable count.
pub proof fn lemma_syllabic_counts_syllables(
    phones: Seq<Phone>,
    syllables: Seq<Syllable>,
)
    requires
        forall|k: int| 0 <= k < syllables.len() ==> (#[trigger] syllables[k]).nucleus < phones.len(),
    ensures
        ({
            let rule = WeightRule { long_nucleus_morae: 1, coda_moraic: false, max_coda_morae: 0 };
            &&& forall|k: int|
                0 <= k < syllables.len() ==> spec_morae(phones, #[trigger] syllables[k], rule) == 1
            &&& spec_total_morae(phones, syllables, rule) == syllables.len()
        }),
    decreases syllables.len(),
{
    if syllables.len() > 0 {
        let p = syllables.drop_last();
        assert forall|k: int| 0 <= k < p.len() implies (#[trigger] p[k]).nucleus < phones.len() by {
            assert(p[k] == syllables[k]);
        }
        lemma_syllabic_counts_syllables(phones, p);
    }
}

/// The Latin rule over the syllables' morae: no stress without syllables,
/// the first syllable of a word of one or two, and otherwise the penult when
/// it counts at least two morae (heavy or superheavy), else the antepenult.
pub proof fn lemma_penultimate_stress_reads_morae(
    phones: Seq<Phone>,
    syllables: Seq<Syllable>,
    rule: WeightRule,
)
    requires
        syllables.len() <= usize::MAX,
    ensures
        ({
            let n = syllables.len();
            let r = spec_penultimate_stress(phones, syllables, rule);
            &&& n == 0 ==> r is None
            &&& 1 <= n <= 2 ==> r == Some(0usize)
            &&& n >= 3 ==> (r == Some((n - 2) as usize) <==> spec_morae(
                phones,
                syllables[n - 2],
                rule,
            ) >= 2)
            &&& n >= 3 ==> (r == Some((n - 3) as usize) <==> spec_morae(
                phones,
                syllables[n - 2],
                rule,
            ) < 2)
        }),
{
}

} // verus!
