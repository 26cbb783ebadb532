//! Syllabification: one algorithm, parameterized per language.
//!
//! Nuclei are the vowels; the consonants between two nuclei are divided by
//! onset maximization constrained by the sonority hierarchy. What varies
//! between languages is [`SyllableRule`], not the procedure.

use vstd::prelude::*;

use crate::phone::{Class, Phone};

verus! {

/// A syllable, addressed by index into the pronunciation it came from.
///
/// Onset is `start..nucleus`, the nucleus is the single phone at `nucleus`, and
/// the coda is `nucleus + 1..end`.
#[derive(Clone, Copy, PartialEq, Eq, Debug, Structural)]
pub struct Syllable {
    pub start: usize,
    pub nucleus: usize,
    pub end: usize,
}

impl Syllable {
    /// The onset positions, `start..nucleus`.
    pub fn onset(&self) -> (r: core::ops::Range<usize>)
        ensures
            r.start == self.start,
            r.end == self.nucleus,
    {
        self.start..self.nucleus
    }

    /// The coda positions, `nucleus + 1..end`.
    pub fn coda(&self) -> (r: core::ops::Range<usize>)
        requires
            self.nucleus < usize::MAX,
        ensures
            r.start == self.nucleus + 1,
            r.end == self.end,
    {
        self.nucleus + 1..self.end
    }

    /// Number of phones in the onset.
    pub fn onset_len(&self) -> (r: usize)
        requires
            self.start <= self.nucleus,
        ensures
            r == self.nucleus - self.start,
    {
        self.nucleus - self.start
    }

    /// Number of phones in the coda.
    pub fn coda_len(&self) -> (r: usize)
        requires
            self.nucleus < self.end,
        ensures
            r == self.end - self.nucleus - 1,
    {
        self.end - self.nucleus - 1
    }

    /// True when the syllable ends in a consonant.
    pub fn is_closed(&self) -> (r: bool)
        requires
            self.nucleus < self.end,
        ensures
            r == (self.end - self.nucleus - 1 > 0),
    {
        self.coda_len() > 0
    }
}

/// The per-language parameters of syllabification.
#[derive(Clone, Copy, PartialEq, Eq, Debug, Structural)]
pub struct SyllableRule {
    /// Longest consonant cluster allowed in an onset.
    pub max_onset: usize,
    /// Permit a sibilant fricative before a stop in an onset, which violates
    /// the sonority rise. English `str-`, `sp-`, `sk-` need this.
    pub sibilant_stop_onset: bool,
}

impl SyllableRule {
    /// English: onsets of up to three consonants, with the sibilant licence.
    pub fn english() -> (r: Self)
        ensures
            r == (SyllableRule { max_onset: 3, sibilant_stop_onset: true }),
    {
        SyllableRule { max_onset: 3, sibilant_stop_onset: true }
    }

    /// Strict rising sonority, no sibilant licence: the conservative default
    /// for a language whose clusters have not been described yet.
    pub fn strict() -> (r: Self)
        ensures
            r == (SyllableRule { max_onset: 2, sibilant_stop_onset: false }),
    {
        SyllableRule { max_onset: 2, sibilant_stop_onset: false }
    }

    /// One consonant per onset, the safe reading for languages with simple
    /// syllable structure.
    pub fn simple() -> (r: Self)
        ensures
            r == (SyllableRule { max_onset: 1, sibilant_stop_onset: false }),
    {
        SyllableRule { max_onset: 1, sibilant_stop_onset: false }
    }
}

impl Default for SyllableRule {
    fn default() -> (r: Self)
        ensures
            r == (SyllableRule { max_onset: 2, sibilant_stop_onset: false }),
    {
        Self::strict()
    }
}

/// Sonority rises from position `i` to position `i + 1` of `c`.
pub open spec fn rises_at(c: Seq<Phone>, i: int) -> bool {
    c[i].class.spec_sonority() < c[i + 1].class.spec_sonority()
}

/// Sonority rises strictly at every step of `c` from position `from` on.
pub open spec fn rises_from(c: Seq<Phone>, from: int) -> bool {
    forall|i: int| from <= i && i + 1 < c.len() ==> #[trigger] rises_at(c, i)
}

/// Where the rising-sonority requirement starts in a cluster of two or more:
/// past a leading fricative (the class of the sibilants) directly before a
/// stop, when the rule licenses it.
pub open spec fn onset_rise_start(c: Seq<Phone>, rule: SyllableRule) -> int {
    if rule.sibilant_stop_onset && c[0].class == Class::Fricative && c[1].class == Class::Stop {
        1
    } else {
        0
    }
}

/// A legal onset under `rule`: no longer than `rule.max_onset`, and rising
/// strictly in sonority toward the nucleus, the licensed sibilant excepted.
pub open spec fn legal_onset(c: Seq<Phone>, rule: SyllableRule) -> bool {
    &&& c.len() <= rule.max_onset
    &&& (c.len() < 2 || rises_from(c, onset_rise_start(c, rule)))
}

/// The longest `t` in `1..=bound` whose last `t` phones of `cluster` form a legal
/// onset, or 0 when there is none.
pub open spec fn longest_onset_upto(cluster: Seq<Phone>, rule: SyllableRule, bound: nat) -> nat
    decreases bound,
{
    if bound == 0 {
        0
    } else if legal_onset(cluster.subrange(cluster.len() - bound, cluster.len() as int), rule) {
        bound
    } else {
        longest_onset_upto(cluster, rule, (bound - 1) as nat)
    }
}

/// How many phones at the end of the consonant cluster between two nuclei
/// go to the following syllable's onset.
pub open spec fn onset_take(cluster: Seq<Phone>, rule: SyllableRule) -> nat {
    longest_onset_upto(
        cluster,
        rule,
        if cluster.len() <= rule.max_onset { cluster.len() } else { rule.max_onset as nat },
    )
}

/// The positions of the vowels of `phones`, in order.
pub open spec fn nuclei(phones: Seq<Phone>) -> Seq<int>
    decreases phones.len(),
{
    if phones.len() == 0 {
        Seq::empty()
    } else {
        let rest = nuclei(phones.drop_last());
        if phones.last().spec_is_vowel() {
            rest.push(phones.len() - 1)
        } else {
            rest
        }
    }
}

/// Where the syllable of the nucleus at `left` ends and that of the nucleus
/// at `right` begins.
pub open spec fn boundary(phones: Seq<Phone>, rule: SyllableRule, left: int, right: int) -> int {
    right - onset_take(phones.subrange(left + 1, right), rule)
}

/// The syllables of `phones` under `rule`: one per vowel, the first taking
/// everything before it, the last everything after it, and each consonant
/// cluster between two vowels split by onset maximization.
pub open spec fn syllables(phones: Seq<Phone>, rule: SyllableRule) -> Seq<Syllable> {
    let v = nuclei(phones);
    Seq::new(
        v.len(),
        |k: int|
            Syllable {
                start: (if k == 0 {
                    0
                } else {
                    boundary(phones, rule, v[k - 1], v[k])
                }) as usize,
                nucleus: v[k] as usize,
                end: (if k == v.len() - 1 {
                    phones.len() as int
                } else {
                    boundary(phones, rule, v[k], v[k + 1])
                }) as usize,
            },
    )
}

/// The syllable that pass one of the algorithm writes for the vowel at `i`.
pub open spec fn bare_nucleus(i: int) -> Syllable {
    Syllable { start: i as usize, nucleus: i as usize, end: (i + 1) as usize }
}

/// The vowel positions are in range, strictly increasing, vowels, and every
/// vowel is among them.
pub proof fn lemma_nuclei(phones: Seq<Phone>)
    ensures
        nuclei(phones).len() <= phones.len(),
        forall|k: int|
            0 <= k < nuclei(phones).len() ==> 0 <= #[trigger] nuclei(phones)[k] < phones.len(),
        forall|k: int|
            0 <= k < nuclei(phones).len() ==> (#[trigger] phones[nuclei(phones)[k]]).spec_is_vowel(),
        forall|k: int, m: int|
            0 <= k < m < nuclei(phones).len() ==> #[trigger] nuclei(phones)[k]
                < #[trigger] nuclei(phones)[m],
        forall|j: int|
            0 <= j < phones.len() && (#[trigger] phones[j]).spec_is_vowel() ==> exists|k: int|
                0 <= k < nuclei(phones).len() && #[trigger] nuclei(phones)[k] == j,
    decreases phones.len(),
{
    if phones.len() > 0 {
        let p = phones.drop_last();
        lemma_nuclei(p);
        assert forall|j: int|
            0 <= j < phones.len() && (#[trigger] phones[j]).spec_is_vowel() implies exists|k: int|
                0 <= k < nuclei(phones).len() && #[trigger] nuclei(phones)[k] == j by {
            if j < phones.len() - 1 {
                assert(p[j] == phones[j]);
                let k = choose|k: int| 0 <= k < nuclei(p).len() && #[trigger] nuclei(p)[k] == j;
                assert(nuclei(phones)[k] == j);
            } else {
                assert(nuclei(phones)[nuclei(phones).len() - 1] == j);
            }
        }
        assert forall|k: int| 0 <= k < nuclei(phones).len() implies (#[trigger] phones[nuclei(
            phones,
        )[k]]).spec_is_vowel() by {
            if k < nuclei(p).len() {
                assert(nuclei(phones)[k] == nuclei(p)[k]);
                assert(p[nuclei(p)[k]] == phones[nuclei(p)[k]]);
            }
        }
    }
}

/// Extending a prefix by one phone extends its vowel positions by that phone
/// when it is a vowel.
pub proof fn lemma_nuclei_step(phones: Seq<Phone>, i: int)
    requires
        0 <= i < phones.len(),
    ensures
        nuclei(phones.take(i + 1)) == (if phones[i].spec_is_vowel() {
            nuclei(phones.take(i)).push(i)
        } else {
            nuclei(phones.take(i))
        }),
{
    assert(phones.take(i + 1).drop_last() =~= phones.take(i));
}

/// Is `cluster` a legal onset under `rule`?
///
/// Legal means sonority rises strictly toward the nucleus, with the optional
/// sibilant-plus-stop licence applied to the first phone only.
pub fn is_legal_onset(cluster: &[Phone], rule: SyllableRule) -> (r: bool)
    ensures
        r == legal_onset(cluster@, rule),
{
    if cluster.len() > rule.max_onset {
        return false;
    }
    if cluster.len() < 2 {
        return true;
    }
    let mut from: usize = 0;
    if rule.sibilant_stop_onset && cluster[0].class == Class::Fricative && cluster[1].class
        == Class::Stop {
        from = 1;
    }
    assert(from == onset_rise_start(cluster@, rule));
    let mut i: usize = from;
    while i + 1 < cluster.len()
        invariant
            from == onset_rise_start(cluster@, rule),
            2 <= cluster@.len() <= rule.max_onset,
            from <= i,
            i < cluster@.len(),
            forall|j: int| from <= j < i ==> #[trigger] rises_at(cluster@, j),
        decreases cluster.len() - i,
    {
        if cluster[i].class.sonority() >= cluster[i + 1].class.sonority() {
            assert(!rises_at(cluster@, i as int));
            assert(!rises_from(cluster@, from as int));
            return false;
        }
        assert(rises_at(cluster@, i as int));
        i = i + 1;
    }
    true
}

/// The longest legal onset at the end of `cluster`, as `onset_take` defines it.
fn longest_legal_onset(cluster: &[Phone], rule: SyllableRule) -> (r: usize)
    ensures
        r == onset_take(cluster@, rule),
{
    let bound: usize = if cluster.len() <= rule.max_onset {
        cluster.len()
    } else {
        rule.max_onset
    };
    let mut take: usize = bound;
    while take >= 1
        invariant
            take <= bound <= cluster@.len(),
            onset_take(cluster@, rule) == longest_onset_upto(cluster@, rule, take as nat),
        decreases take,
    {
        let suffix = &cluster[cluster.len() - take..cluster.len()];
        if is_legal_onset(suffix, rule) {
            return take;
        }
        take = take - 1;
    }
    0
}

/// Divide `phones` into syllables, writing them into `out`.
///
/// Returns the number of syllables written, or `None` if `out` is too short.
/// A pronunciation with no vowel yields zero syllables.
pub fn syllabify_into(phones: &[Phone], rule: SyllableRule, out: &mut [Syllable]) -> (r: Option<
    usize,
>)
    ensures
        r is Some <==> nuclei(phones@).len() <= old(out)@.len(),
        r matches Some(n) ==> {
            &&& n == nuclei(phones@).len()
            &&& final(out)@ == syllables(phones@, rule) + old(out)@.skip(n as int)
        },
        r is None ==> final(out)@ == Seq::new(
            old(out)@.len(),
            |k: int| bare_nucleus(nuclei(phones@)[k]),
        ),
{
    let ghost ph = phones@;
    let ghost v = nuclei(ph);
    let ghost init = out@;
    proof {
        lemma_nuclei(ph);
    }
    let mut count: usize = 0;
    let mut i: usize = 0;
    // Pass 1: every vowel is a nucleus.
    while i < phones.len()
        invariant
            ph == phones@,
            v == nuclei(ph),
            init == old(out)@,
            i <= ph.len(),
            count == nuclei(ph.take(i as int)).len(),
            count <= out@.len(),
            out@.len() == init.len(),
            forall|k: int|
                0 <= k < count ==> #[trigger] out@[k] == bare_nucleus(nuclei(ph.take(i as int))[k]),
            forall|k: int| count <= k < out@.len() ==> #[trigger] out@[k] == init[k],
        decreases ph.len() - i,
    {
        proof {
            lemma_nuclei_step(ph, i as int);
        }
        if phones[i].is_vowel() {
            if count >= out.len() {
                proof {
                    lemma_nuclei_prefix(ph, i as int);
                    lemma_nuclei_prefix(ph, (i + 1) as int);
                    assert(out@ =~= Seq::new(init.len(), |k: int| bare_nucleus(v[k])));
                }
                return None;
            }
            out[count] = Syllable { start: i, nucleus: i, end: i + 1 };
            count = count + 1;
        }
        i = i + 1;
    }
    assert(ph.take(ph.len() as int) =~= ph);
    if count == 0 {
        assert(syllables(ph, rule) =~= Seq::<Syllable>::empty());
        assert(out@ =~= syllables(ph, rule) + init.skip(0));
        return Some(0);
    }
    // Pass 2: everything before the first nucleus is its onset; everything
    // after the last is its coda.

    out[0].start = 0;
    out[count - 1].end = phones.len();
    // Pass 3: divide each intervening cluster by onset maximization.
    let mut i: usize = 0;
    while i < count - 1
        invariant
            ph == phones@,
            v == nuclei(ph),
            init == old(out)@,
            0 < count <= out@.len(),
            count == v.len(),
            out@.len() == init.len(),
            i < count,
            forall|k: int| 0 <= k < v.len() ==> 0 <= #[trigger] v[k] < ph.len(),
            forall|k: int, m: int| 0 <= k < m < v.len() ==> #[trigger] v[k] < #[trigger] v[m],
            forall|k: int| 0 <= k < i ==> #[trigger] out@[k] == syllables(ph, rule)[k],
            forall|k: int|
                i <= k < count ==> {
                    &&& (#[trigger] out@[k]).nucleus == v[k]
                    &&& out@[k].start == (if k == i {
                        syllables(ph, rule)[k].start as int
                    } else {
                        v[k]
                    })
                    &&& out@[k].end == (if k == count - 1 {
                        ph.len() as int
                    } else {
                        v[k] + 1
                    })
                },
            forall|k: int| count <= k < out@.len() ==> #[trigger] out@[k] == init[k],
        decreases count - i,
    {
        let left = out[i].nucleus;
        let right = out[i + 1].nucleus;
        assert(v[i as int] < v[i + 1]);
        let cluster = &phones[left + 1..right];
        let onset_len = longest_legal_onset(cluster, rule);
        proof {
            lemma_onset_take_bounded(cluster@, rule);
        }
        let split = right - onset_len;
        assert(split == boundary(ph, rule, v[i as int], v[i + 1]));
        out[i].end = split;
        out[i + 1].start = split;
        i = i + 1;
    }
    assert(out@ =~= syllables(ph, rule) + init.skip(count as int));
    Some(count)
}

/// The vowel positions of a prefix are a prefix of the vowel positions.
pub proof fn lemma_nuclei_prefix(phones: Seq<Phone>, i: int)
    requires
        0 <= i <= phones.len(),
    ensures
        nuclei(phones.take(i)).len() <= nuclei(phones).len(),
        forall|k: int|
            0 <= k < nuclei(phones.take(i)).len() ==> #[trigger] nuclei(phones.take(i))[k]
                == nuclei(phones)[k],
    decreases phones.len() - i,
{
    if i < phones.len() {
        lemma_nuclei_prefix(phones, i + 1);
        lemma_nuclei_step(phones, i);
        assert forall|k: int| 0 <= k < nuclei(phones.take(i)).len() implies #[trigger] nuclei(
            phones.take(i),
        )[k] == nuclei(phones)[k] by {
            assert(nuclei(phones.take(i))[k] == nuclei(phones.take(i + 1))[k]);
        }
    } else {
        assert(phones.take(i) =~= phones);
    }
}

/// The onset taken never exceeds the cluster.
pub proof fn lemma_onset_take_bounded(cluster: Seq<Phone>, rule: SyllableRule)
    ensures
        onset_take(cluster, rule) <= cluster.len(),
        onset_take(cluster, rule) <= rule.max_onset,
{
    let bound: nat = if cluster.len() <= rule.max_onset {
        cluster.len()
    } else {
        rule.max_onset as nat
    };
    lemma_longest_onset_upto_bounded(cluster, rule, bound);
}

proof fn lemma_longest_onset_upto_bounded(cluster: Seq<Phone>, rule: SyllableRule, bound: nat)
    ensures
        longest_onset_upto(cluster, rule, bound) <= bound,
    decreases bound,
{
    if bound > 0 {
        lemma_longest_onset_upto_bounded(cluster, rule, (bound - 1) as nat);
    }
}

proof fn lemma_longest_onset_upto_spec(cluster: Seq<Phone>, rule: SyllableRule, bound: nat)
    requires
        bound <= cluster.len(),
    ensures
        longest_onset_upto(cluster, rule, bound) <= bound,
        legal_onset(
            cluster.subrange(
                cluster.len() - longest_onset_upto(cluster, rule, bound),
                cluster.len() as int,
            ),
            rule,
        ),
        forall|t: int|
            longest_onset_upto(cluster, rule, bound) < t <= bound ==> !legal_onset(
                #[trigger] cluster.subrange(cluster.len() - t, cluster.len() as int),
                rule,
            ),
    decreases bound,
{
    if bound > 0 {
        lemma_longest_onset_upto_spec(cluster, rule, (bound - 1) as nat);
    } else {
        assert(cluster.subrange(cluster.len() as int, cluster.len() as int).len() == 0);
    }
}

/// The `k`-th syllable holds its nucleus between its start and end, and ends
/// where the next one starts.
proof fn lemma_syllable_at(phones: Seq<Phone>, rule: SyllableRule, k: int)
    requires
        phones.len() <= usize::MAX,
        0 <= k < nuclei(phones).len(),
    ensures
        syllables(phones, rule)[k].start <= syllables(phones, rule)[k].nucleus
            < syllables(phones, rule)[k].end <= phones.len(),
        syllables(phones, rule)[k].nucleus == nuclei(phones)[k],
        k == 0 ==> syllables(phones, rule)[k].start == 0,
        k == nuclei(phones).len() - 1 ==> syllables(phones, rule)[k].end == phones.len(),
        k > 0 ==> syllables(phones, rule)[k].start > nuclei(phones)[k - 1],
        k < nuclei(phones).len() - 1 ==> {
            &&& syllables(phones, rule)[k].end == syllables(phones, rule)[k + 1].start
            &&& syllables(phones, rule)[k].end <= nuclei(phones)[k + 1]
        },
{
    let v = nuclei(phones);
    lemma_nuclei(phones);
    if k > 0 {
        lemma_onset_take_bounded(phones.subrange(v[k - 1] + 1, v[k]), rule);
        assert(v[k - 1] < v[k]);
    }
    if k < v.len() - 1 {
        lemma_onset_take_bounded(phones.subrange(v[k] + 1, v[k + 1]), rule);
        assert(v[k] < v[k + 1]);
    }
}

/// Syllabification tiles the pronunciation: one syllable per vowel, none
/// without a vowel; the first starts at the first phone and the last ends at
/// the last; each begins where the one before it ends; and each holds exactly
/// one vowel, its nucleus, with its onset before and its coda after it.
pub proof fn lemma_syllables_tile(phones: Seq<Phone>, rule: SyllableRule)
    requires
        phones.len() <= usize::MAX,
    ensures
        ({
            let s = syllables(phones, rule);
            &&& s.len() == nuclei(phones).len()
            &&& s.len() == 0 <==> forall|j: int|
                0 <= j < phones.len() ==> !(#[trigger] phones[j]).spec_is_vowel()
            &&& s.len() > 0 ==> s[0].start == 0 && s[s.len() - 1].end == phones.len()
            &&& forall|k: int| 0 <= k < s.len() - 1 ==> #[trigger] s[k].end == s[k + 1].start
            &&& forall|k: int|
                0 <= k < s.len() ==> #[trigger] s[k].start <= s[k].nucleus < s[k].end
                    <= phones.len()
            &&& forall|k: int|
                0 <= k < s.len() ==> (#[trigger] phones[s[k].nucleus as int]).spec_is_vowel()
            &&& forall|k: int, j: int|
                #![trigger s[k], phones[j]]
                0 <= k < s.len() && s[k].start <= j < s[k].end && j != s[k].nucleus
                    ==> !phones[j].spec_is_vowel()
        }),
{
    let s = syllables(phones, rule);
    let v = nuclei(phones);
    lemma_nuclei(phones);
    assert forall|k: int| 0 <= k < s.len() - 1 implies #[trigger] s[k].end == s[k + 1].start by {
        lemma_syllable_at(phones, rule, k);
    }
    assert forall|k: int| 0 <= k < s.len() implies #[trigger] s[k].start <= s[k].nucleus
        < s[k].end <= phones.len() by {
        lemma_syllable_at(phones, rule, k);
    }
    assert forall|k: int| 0 <= k < s.len() implies (#[trigger] phones[s[
        k].nucleus as int]).spec_is_vowel() by {
        lemma_syllable_at(phones, rule, k);
    }
    assert forall|k: int, j: int|
        #![trigger s[k], phones[j]]
        0 <= k < s.len() && s[k].start <= j < s[k].end && j != s[k].nucleus
            implies !phones[j].spec_is_vowel() by {
        lemma_syllable_at(phones, rule, k);
        if phones[j].spec_is_vowel() {
            let m = choose|m: int| 0 <= m < v.len() && #[trigger] v[m] == j;
            if m < k {
                lemma_syllable_at(phones, rule, k - 1);
                assert(v[m] <= v[k - 1]);
            } else if m > k {
                assert(v[k + 1] <= v[m]);
            }
        }
    }
    if s.len() == 0 {
        assert forall|j: int| 0 <= j < phones.len() implies !(
        #[trigger] phones[j]).spec_is_vowel() by {
            if phones[j].spec_is_vowel() {
                let m = choose|m: int| 0 <= m < v.len() && #[trigger] v[m] == j;
            }
        }
    } else {
        lemma_syllable_at(phones, rule, 0);
        lemma_syllable_at(phones, rule, s.len() - 1);
        assert(phones[v[0]].spec_is_vowel());
    }
}

/// The onset of the `k`-th syllable, `k >= 1`, is legal and maximal.
proof fn lemma_onset_at(phones: Seq<Phone>, rule: SyllableRule, k: int)
    requires
        phones.len() <= usize::MAX,
        1 <= k < nuclei(phones).len(),
    ensures
        legal_onset(
            phones.subrange(
                syllables(phones, rule)[k].start as int,
                syllables(phones, rule)[k].nucleus as int,
            ),
            rule,
        ),
        forall|t: int|
            syllables(phones, rule)[k].nucleus - syllables(phones, rule)[k].start < t
                <= syllables(phones, rule)[k].nucleus - syllables(phones, rule)[k - 1].nucleus - 1
                ==> !legal_onset(
                #[trigger] phones.subrange(
                    syllables(phones, rule)[k].nucleus - t,
                    syllables(phones, rule)[k].nucleus as int,
                ),
                rule,
            ),
{
    let v = nuclei(phones);
    lemma_nuclei(phones);
    let l = v[k - 1];
    let r = v[k];
    assert(l < r);
    let cluster = phones.subrange(l + 1, r);
    let bound: nat = if cluster.len() <= rule.max_onset {
        cluster.len()
    } else {
        rule.max_onset as nat
    };
    lemma_longest_onset_upto_spec(cluster, rule, bound);
    let take = onset_take(cluster, rule);
    let sk = syllables(phones, rule)[k];
    assert(sk.start == r - take);
    assert(sk.nucleus == r);
    assert(syllables(phones, rule)[k - 1].nucleus == l);
    assert(phones.subrange(sk.start as int, sk.nucleus as int) =~= cluster.subrange(
        cluster.len() - take,
        cluster.len() as int,
    ));
    assert forall|t: int| sk.nucleus - sk.start < t <= r - l - 1 implies !legal_onset(
        #[trigger] phones.subrange(sk.nucleus - t, sk.nucleus as int),
        rule,
    ) by {
        assert(phones.subrange(r - t, r) =~= cluster.subrange(
            cluster.len() - t,
            cluster.len() as int,
        ));
    }
}

/// Onset maximization: every syllable after the first opens with a legal
/// onset, and no longer legal onset fits between it and the preceding nucleus.
pub proof fn lemma_onsets_maximal(phones: Seq<Phone>, rule: SyllableRule)
    requires
        phones.len() <= usize::MAX,
    ensures
        ({
            let s = syllables(phones, rule);
            forall|k: int|
                1 <= k < s.len() ==> {
                    &&& legal_onset(
                        phones.subrange(s[k].start as int, s[k].nucleus as int),
                        rule,
                    )
                    &&& forall|t: int|
                        s[k].nucleus - s[k].start < t <= s[k].nucleus - s[k - 1].nucleus - 1
                            ==> !legal_onset(
                            #[trigger] phones.subrange(s[k].nucleus - t, s[k].nucleus as int),
                            rule,
                        )
                }
        }),
{
    let s = syllables(phones, rule);
    assert forall|k: int| 1 <= k < s.len() implies {
        &&& legal_onset(phones.subrange(s[k].start as int, s[k].nucleus as int), rule)
        &&& forall|t: int|
            s[k].nucleus - s[k].start < t <= s[k].nucleus - s[k - 1].nucleus - 1 ==> !legal_onset(
                #[trigger] phones.subrange(s[k].nucleus - t, s[k].nucleus as int),
                rule,
            )
    } by {
        lemma_onset_at(phones, rule, k);
    }
}

/// Divide `phones` into syllables.
pub fn syllabify(phones: &[Phone], rule: SyllableRule) -> (r: Vec<Syllable>)
    ensures
        r@ == syllables(phones@, rule),
{
    proof {
        lemma_nuclei(phones@);
    }
    let mut out = vec![Syllable { start: 0, nucleus: 0, end: 0 }; phones.len()];
    let n = match syllabify_into(phones, rule, out.as_mut_slice()) {
        Some(n) => n,
        None => 0,
    };
    out.truncate(n);
    assert(out@ =~= syllables(phones@, rule));
    out
}

} // verus!
