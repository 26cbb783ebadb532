//! Meter: feet, lines, and scansion.
//!
//! Accentual meter (English iambic pentameter) and quantitative meter (Latin
//! dactylic hexameter) are the same matcher reading a different feature of the
//! same syllables. [`Mode`] chooses which, and that is the whole difference.

use vstd::prelude::*;

use crate::phone::{Phone, Stress};
use crate::syllable::Syllable;
use crate::weight::{Weight, WeightRule, morae_readable, spec_morae, weight};

verus! {

/// One position in a metrical pattern.
#[derive(Clone, Copy, PartialEq, Eq, Debug, Structural)]
pub enum Beat {
    Strong,
    Weak,
}

/// Which property of a syllable carries the beat.
#[derive(Clone, Copy, PartialEq, Eq, Debug, Structural)]
pub enum Mode {
    /// Stress carries it: the Germanic and English reading.
    Accentual,
    /// Weight carries it: the Greek and Latin reading.
    Quantitative,
}

/// The beat a syllable carries under `mode`: under accentual reading a
/// prominent (primary or secondary) stress on a present nucleus, under
/// quantitative reading a heavy or superheavy weight.
pub open spec fn beat_of(phones: Seq<Phone>, s: Syllable, mode: Mode, rule: WeightRule) -> Beat {
    match mode {
        Mode::Accentual => {
            if s.nucleus < phones.len() && phones[s.nucleus as int].stress.spec_is_prominent() {
                Beat::Strong
            } else {
                Beat::Weak
            }
        },
        Mode::Quantitative => {
            if Weight::spec_from_morae(spec_morae(phones, s, rule)).spec_is_heavy() {
                Beat::Strong
            } else {
                Beat::Weak
            }
        },
    }
}

/// The beats of all of `syllables`, in order.
pub open spec fn beat_seq(
    phones: Seq<Phone>,
    syllables: Seq<Syllable>,
    mode: Mode,
    rule: WeightRule,
) -> Seq<Beat> {
    Seq::new(syllables.len(), |k: int| beat_of(phones, syllables[k], mode, rule))
}

/// Every syllable can be read under `mode`: a quantitative reading counts
/// morae, which needs each syllable to be readable by `morae`.
pub open spec fn beats_readable(
    phones: Seq<Phone>,
    syllables: Seq<Syllable>,
    mode: Mode,
    rule: WeightRule,
) -> bool {
    mode is Quantitative ==> forall|k: int|
        0 <= k < syllables.len() ==> morae_readable(phones, #[trigger] syllables[k], rule)
}

fn beat_of_syllable(phones: &[Phone], s: &Syllable, mode: Mode, rule: WeightRule) -> (b: Beat)
    requires
        mode is Quantitative ==> morae_readable(phones@, *s, rule),
    ensures
        b == beat_of(phones@, *s, mode, rule),
{
    match mode {
        Mode::Accentual => {
            if s.nucleus < phones.len() && phones[s.nucleus].stress.is_prominent() {
                Beat::Strong
            } else {
                Beat::Weak
            }
        },
        Mode::Quantitative => {
            match weight(phones, s, rule) {
                Weight::Light => Beat::Weak,
                _ => Beat::Strong,
            }
        },
    }
}

/// Read the beat of every syllable under `mode`, writing them into `out`.
///
/// Returns the number of beats written, or `None` (writing nothing) if `out`
/// is shorter than `syllables`.
pub fn beats_into(
    phones: &[Phone],
    syllables: &[Syllable],
    mode: Mode,
    rule: WeightRule,
    out: &mut [Beat],
) -> (r: Option<usize>)
    requires
        old(out)@.len() >= syllables@.len() ==> beats_readable(phones@, syllables@, mode, rule),
    ensures
        r is None <==> old(out)@.len() < syllables@.len(),
        r is None ==> final(out)@ == old(out)@,
        r matches Some(n) ==> {
            &&& n == syllables@.len()
            &&& final(out)@ == beat_seq(phones@, syllables@, mode, rule) + old(out)@.skip(
                n as int,
            )
        },
{
    if out.len() < syllables.len() {
        return None;
    }
    let ghost init = out@;
    let mut i: usize = 0;
    while i < syllables.len()
        invariant
            init == old(out)@,
            i <= syllables@.len() <= out@.len(),
            out@.len() == init.len(),
            beats_readable(phones@, syllables@, mode, rule),
            forall|k: int|
                0 <= k < i ==> #[trigger] out@[k] == beat_of(phones@, syllables@[k], mode, rule),
            forall|k: int| i <= k < out@.len() ==> #[trigger] out@[k] == init[k],
        decreases syllables.len() - i,
    {
        let b = beat_of_syllable(phones, &syllables[i], mode, rule);
        out[i] = b;
        i = i + 1;
    }
    assert(out@ =~= beat_seq(phones@, syllables@, mode, rule) + init.skip(
        syllables@.len() as int,
    ));
    Some(syllables.len())
}

/// Read the beat of every syllable under `mode`.
pub fn beats(phones: &[Phone], syllables: &[Syllable], mode: Mode, rule: WeightRule) -> (r: Vec<
    Beat,
>)
    requires
        beats_readable(phones@, syllables@, mode, rule),
    ensures
        r@ == beat_seq(phones@, syllables@, mode, rule),
{
    let mut out = vec![Beat::Weak; syllables.len()];
    let _ = beats_into(phones, syllables, mode, rule, out.as_mut_slice());
    assert(out@ =~= beat_seq(phones@, syllables@, mode, rule));
    out
}

/// A metrical foot.
#[derive(Clone, Copy, PartialEq, Eq, Debug, Structural)]
pub enum Foot {
    Iamb,
    Trochee,
    Spondee,
    Pyrrhic,
    Dactyl,
    Anapest,
    Amphibrach,
    Cretic,
}

impl Foot {
    /// The beats this foot expects.
    pub open spec fn spec_pattern(self) -> Seq<Beat> {
        match self {
            Foot::Iamb => seq![Beat::Weak, Beat::Strong],
            Foot::Trochee => seq![Beat::Strong, Beat::Weak],
            Foot::Spondee => seq![Beat::Strong, Beat::Strong],
            Foot::Pyrrhic => seq![Beat::Weak, Beat::Weak],
            Foot::Dactyl => seq![Beat::Strong, Beat::Weak, Beat::Weak],
            Foot::Anapest => seq![Beat::Weak, Beat::Weak, Beat::Strong],
            Foot::Amphibrach => seq![Beat::Weak, Beat::Strong, Beat::Weak],
            Foot::Cretic => seq![Beat::Strong, Beat::Weak, Beat::Strong],
        }
    }

    /// The beats this foot expects.
    pub fn pattern(self) -> (r: &'static [Beat])
        ensures
            r@ == self.spec_pattern(),
    {
        match self {
            Foot::Iamb => &[Beat::Weak, Beat::Strong],
            Foot::Trochee => &[Beat::Strong, Beat::Weak],
            Foot::Spondee => &[Beat::Strong, Beat::Strong],
            Foot::Pyrrhic => &[Beat::Weak, Beat::Weak],
            Foot::Dactyl => &[Beat::Strong, Beat::Weak, Beat::Weak],
            Foot::Anapest => &[Beat::Weak, Beat::Weak, Beat::Strong],
            Foot::Amphibrach => &[Beat::Weak, Beat::Strong, Beat::Weak],
            Foot::Cretic => &[Beat::Strong, Beat::Weak, Beat::Strong],
        }
    }

    /// Syllable positions in this foot.
    pub open spec fn spec_positions(self) -> nat {
        self.spec_pattern().len()
    }

    /// Syllable positions in this foot: two for the disyllabic feet, three
    /// for the trisyllabic ones.
    pub fn positions(self) -> (r: usize)
        ensures
            r == self.spec_positions(),
            2 <= r <= 3,
    {
        self.pattern().len()
    }

    /// The feet worth trying when nothing is known about a line.
    pub const COMMON: [Foot; 4] = [Foot::Iamb, Foot::Trochee, Foot::Dactyl, Foot::Anapest];
}

/// A line's metrical shape: a foot repeated a number of times.
#[derive(Clone, Copy, PartialEq, Eq, Debug, Structural)]
pub struct Meter {
    pub foot: Foot,
    pub feet: usize,
}

impl Meter {
    pub fn new(foot: Foot, feet: usize) -> (m: Self)
        ensures
            m == (Meter { foot, feet }),
    {
        Meter { foot, feet }
    }

    /// Beats in a full line of this meter.
    pub open spec fn spec_positions(&self) -> int {
        self.foot.spec_positions() * self.feet
    }

    /// Beats in a full line of this meter.
    pub fn positions(&self) -> (r: usize)
        requires
            self.spec_positions() <= usize::MAX,
        ensures
            r == self.spec_positions(),
    {
        self.foot.positions() * self.feet
    }

    /// The expected beat at `position`, wrapping through the foot.
    pub open spec fn spec_beat_at(&self, position: int) -> Beat {
        self.foot.spec_pattern()[position % (self.foot.spec_positions() as int)]
    }

    /// The expected beat at `position`, wrapping through the foot.
    pub fn beat_at(&self, position: usize) -> (b: Beat)
        ensures
            b == self.spec_beat_at(position as int),
    {
        let pattern = self.foot.pattern();
        pattern[position % pattern.len()]
    }
}

/// The result of matching beats against a meter.
#[derive(Clone, Copy, PartialEq, Eq, Debug, Structural)]
pub struct Scansion {
    pub meter: Meter,
    /// Positions that matched the expected pattern.
    pub matches: usize,
    /// Positions read, which is the shorter of the line and the meter.
    pub compared: usize,
    /// Syllables past the end of the meter, or missing from it. Positive means
    /// the line ran long, negative means it fell short.
    pub overrun: isize,
}

impl Scansion {
    /// A line matching its meter at every position, with no syllables spare.
    pub fn is_regular(&self) -> (r: bool)
        ensures
            r == (self.matches == self.compared && self.overrun == 0 && self.compared > 0),
    {
        self.matches == self.compared && self.overrun == 0 && self.compared > 0
    }
}

/// How many of the first `upto` beats match the meter's expected beat.
pub open spec fn count_matches(beats: Seq<Beat>, meter: Meter, upto: int) -> int
    decreases upto,
{
    if upto <= 0 {
        0
    } else {
        count_matches(beats, meter, upto - 1) + if beats[upto - 1] == meter.spec_beat_at(
            upto - 1,
        ) {
            1int
        } else {
            0int
        }
    }
}

proof fn lemma_count_matches_bounded(beats: Seq<Beat>, meter: Meter, upto: int)
    requires
        upto >= 0,
    ensures
        0 <= count_matches(beats, meter, upto) <= upto,
    decreases upto,
{
    if upto > 0 {
        lemma_count_matches_bounded(beats, meter, upto - 1);
    }
}

/// The scansion of `beats` against `meter`: positions compared are the
/// shorter of the line and the meter, matches count the compared positions
/// whose beat is the one the meter expects, and the overrun is the line's
/// length less the meter's, the meter's length read as an `isize`.
pub open spec fn spec_scan(beats: Seq<Beat>, meter: Meter) -> Scansion {
    let positions = meter.spec_positions();
    let compared = if beats.len() <= positions {
        beats.len() as int
    } else {
        positions
    };
    Scansion {
        meter,
        matches: count_matches(beats, meter, compared) as usize,
        compared: compared as usize,
        overrun: (beats.len() - as_isize(positions)) as isize,
    }
}

/// A count read as an `isize`: itself up to `isize::MAX`, wrapped below zero
/// past it.
pub open spec fn as_isize(count: int) -> int {
    if count <= isize::MAX {
        count
    } else {
        count - usize::MAX - 1
    }
}

/// `scan` can read `beats` against `meter`: the meter's length fits a
/// `usize`, and the line's length less the meter's read as an `isize` does
/// not overflow.
pub open spec fn scannable(beats: Seq<Beat>, meter: Meter) -> bool {
    &&& beats.len() <= isize::MAX
    &&& meter.spec_positions() <= usize::MAX
    &&& beats.len() - as_isize(meter.spec_positions()) <= isize::MAX
}

/// Match `beats` against one meter.
pub fn scan(beats: &[Beat], meter: Meter) -> (s: Scansion)
    requires
        scannable(beats@, meter),
    ensures
        s == spec_scan(beats@, meter),
        s.matches <= s.compared,
{
    let positions = meter.positions();
    let compared = if beats.len() <= positions {
        beats.len()
    } else {
        positions
    };
    let mut matches: usize = 0;
    let mut i: usize = 0;
    while i < compared
        invariant
            compared <= beats@.len(),
            i <= compared,
            matches == count_matches(beats@, meter, i as int),
        decreases compared - i,
    {
        proof {
            lemma_count_matches_bounded(beats@, meter, i as int);
        }
        if beats[i] == meter.beat_at(i) {
            matches = matches + 1;
        }
        i = i + 1;
    }
    proof {
        lemma_count_matches_bounded(beats@, meter, compared as int);
    }
    let overrun: isize = if positions <= isize::MAX as usize {
        beats.len() as isize - positions as isize
    } else {
        // The meter's length read as an `isize` wraps below zero.
        (beats.len() + (usize::MAX - positions) + 1) as isize
    };
    Scansion { meter, matches, compared, overrun }
}

/// The numerator of a scansion's fit: its matches, or zero when nothing was
/// compared.
pub open spec fn fit_num(s: Scansion) -> int {
    if s.compared == 0 {
        0
    } else {
        s.matches as int
    }
}

/// The denominator of a scansion's fit: its compared positions, or one when
/// nothing was compared.
pub open spec fn fit_den(s: Scansion) -> int {
    if s.compared == 0 {
        1
    } else {
        s.compared as int
    }
}

/// The distance of a line from its meter's length, whichever way it runs.
pub open spec fn overrun_abs(s: Scansion) -> int {
    if s.overrun < 0 {
        -(s.overrun as int)
    } else {
        s.overrun as int
    }
}

/// `s` ranks above `b`: a strictly higher share of matching positions, or an
/// equal share and a line closer to whole feet.
pub open spec fn fits_better(s: Scansion, b: Scansion) -> bool {
    ||| fit_num(s) * fit_den(b) > fit_num(b) * fit_den(s)
    ||| (fit_num(s) * fit_den(b) == fit_num(b) * fit_den(s) && overrun_abs(s) < overrun_abs(b))
}

/// The feet counts `scan_best` tries for `foot` over a line of `len` beats:
/// the line rounded down to whole feet, and rounded up (at least one).
pub open spec fn count_down(len: int, foot: Foot) -> int {
    len / (foot.spec_positions() as int)
}

pub open spec fn count_up(len: int, foot: Foot) -> int {
    let c = (len + foot.spec_positions() - 1) / (foot.spec_positions() as int);
    if c > 1 {
        c
    } else {
        1
    }
}

/// A feet count that `scan_best` tries for `foot`.
pub open spec fn is_candidate(len: int, foot: Foot, count: int) -> bool {
    count > 0 && (count == count_down(len, foot) || count == count_up(len, foot))
}

/// Keep the better of the best so far and a new scansion; on a tie the
/// earlier one stays.
pub open spec fn keep_better(best: Option<Scansion>, s: Scansion) -> Option<Scansion> {
    match best {
        None => Some(s),
        Some(b) => if fits_better(s, b) {
            Some(s)
        } else {
            Some(b)
        },
    }
}

/// The best after trying both candidate counts of `foot`, the rounded-down one
/// first.
pub open spec fn try_foot(beats: Seq<Beat>, best: Option<Scansion>, foot: Foot) -> Option<
    Scansion,
> {
    let down = count_down(beats.len() as int, foot);
    let up = count_up(beats.len() as int, foot);
    let after_down = if down == 0 {
        best
    } else {
        keep_better(best, spec_scan(beats, Meter { foot, feet: down as usize }))
    };
    keep_better(after_down, spec_scan(beats, Meter { foot, feet: up as usize }))
}

/// The best scansion over the feet tried in order.
pub open spec fn spec_scan_best(beats: Seq<Beat>, feet: Seq<Foot>) -> Option<Scansion>
    decreases feet.len(),
{
    if feet.len() == 0 {
        None
    } else {
        try_foot(beats, spec_scan_best(beats, feet.drop_last()), feet.last())
    }
}

fn fits_better_exec(s: &Scansion, b: &Scansion) -> (r: bool)
    ensures
        r == fits_better(*s, *b),
{
    let sn: u128 = if s.compared == 0 {
        0
    } else {
        s.matches as u128
    };
    let sd: u128 = if s.compared == 0 {
        1
    } else {
        s.compared as u128
    };
    let bn: u128 = if b.compared == 0 {
        0
    } else {
        b.matches as u128
    };
    let bd: u128 = if b.compared == 0 {
        1
    } else {
        b.compared as u128
    };
    assert(sn * bd <= u64::MAX * u64::MAX) by (nonlinear_arith)
        requires
            sn <= u64::MAX,
            bd <= u64::MAX,
    ;
    assert(bn * sd <= u64::MAX * u64::MAX) by (nonlinear_arith)
        requires
            bn <= u64::MAX,
            sd <= u64::MAX,
    ;
    let left = sn * bd;
    let right = bn * sd;
    let sa: u128 = if s.overrun < 0 {
        (-(s.overrun as i128)) as u128
    } else {
        s.overrun as u128
    };
    let ba: u128 = if b.overrun < 0 {
        (-(b.overrun as i128)) as u128
    } else {
        b.overrun as u128
    };
    left > right || (left == right && sa < ba)
}

fn keep_better_exec(best: Option<Scansion>, s: Scansion) -> (r: Option<Scansion>)
    ensures
        r == keep_better(best, s),
{
    match best {
        None => Some(s),
        Some(b) => if fits_better_exec(&s, &b) {
            Some(s)
        } else {
            Some(b)
        },
    }
}

proof fn lemma_count_up_fits(len: int, p: int)
    requires
        0 <= len,
        2 <= p <= 3,
    ensures
        p * ((len + p - 1) / p) <= len + p - 1,
        p * (len / p) <= len,
{
    assert(p * ((len + p - 1) / p) <= len + p - 1) by (nonlinear_arith)
        requires
            0 <= len,
            2 <= p,
    ;
    assert(p * (len / p) <= len) by (nonlinear_arith)
        requires
            0 <= len,
            2 <= p,
    ;
}

/// Try every whole-line meter that `feet` can form over `beats` and keep the
/// best fit.
///
/// Each foot is tried with the line rounded down and up to whole feet, so a
/// catalectic line still finds its meter. Candidates rank by the share of
/// compared positions that match, then by the smaller overrun; on a tie the
/// earlier candidate stays.
pub fn scan_best(beats: &[Beat], feet: &[Foot]) -> (r: Option<Scansion>)
    requires
        beats@.len() + 3 <= isize::MAX,
    ensures
        r == spec_scan_best(beats@, feet@),
{
    let mut best: Option<Scansion> = None;
    let mut i: usize = 0;
    while i < feet.len()
        invariant
            i <= feet@.len(),
            beats@.len() + 3 <= isize::MAX,
            best == spec_scan_best(beats@, feet@.take(i as int)),
        decreases feet.len() - i,
    {
        let foot = feet[i];
        let p = foot.positions();
        let len = beats.len();
        let down = len / p;
        let up_raw = (len + p - 1) / p;
        let up = if up_raw > 1 {
            up_raw
        } else {
            1
        };
        proof {
            lemma_count_up_fits(len as int, p as int);
            assert(feet@.take(i + 1).drop_last() =~= feet@.take(i as int));
            assert(feet@.take(i + 1).last() == foot);
        }
        if down != 0 {
            let s = scan(beats, Meter::new(foot, down));
            best = keep_better_exec(best, s);
        }
        assert((p as int) * (up as int) <= len + 3) by {
            if up_raw <= 1 {
                assert(up == 1);
                assert((p as int) * (up as int) == p as int);
            } else {
                assert(up == up_raw);
                assert(up_raw as int == (len as int + p as int - 1) / (p as int));
                assert((p as int) * (up as int) <= len + p - 1);
            }
        }
        let s = scan(beats, Meter::new(foot, up));
        best = keep_better_exec(best, s);
        i = i + 1;
    }
    assert(feet@.take(i as int) =~= feet@);
    best
}

proof fn lemma_count_matches_all(beats: Seq<Beat>, meter: Meter, upto: int)
    requires
        0 <= upto,
    ensures
        count_matches(beats, meter, upto) == upto <==> forall|i: int|
            0 <= i < upto ==> #[trigger] beats[i] == meter.spec_beat_at(i),
    decreases upto,
{
    if upto > 0 {
        lemma_count_matches_all(beats, meter, upto - 1);
        lemma_count_matches_bounded(beats, meter, upto - 1);
        if count_matches(beats, meter, upto) == upto {
            assert forall|i: int| 0 <= i < upto implies #[trigger] beats[i] == meter.spec_beat_at(
                i,
            ) by {
                if i < upto - 1 {
                }
            }
        }
    }
}

/// A line is regular against a meter exactly when it is as long as the
/// meter, not empty, and carries at every position the beat the meter
/// expects there.
pub proof fn lemma_regular_iff_exact(beats: Seq<Beat>, meter: Meter)
    requires
        scannable(beats, meter),
    ensures
        ({
            let s = spec_scan(beats, meter);
            (s.matches == s.compared && s.overrun == 0 && s.compared > 0) <==> {
                &&& beats.len() == meter.spec_positions()
                &&& beats.len() > 0
                &&& forall|i: int| 0 <= i < beats.len() ==> #[trigger] beats[i] == meter.spec_beat_at(i)
            }
        }),
{
    let positions = meter.spec_positions();
    let (p, f) = (meter.foot.spec_positions() as int, meter.feet as int);
    assert(p * f >= 0) by (nonlinear_arith)
        requires
            p >= 0,
            f >= 0,
    ;
    let compared: int = if beats.len() <= positions {
        beats.len() as int
    } else {
        positions
    };
    lemma_count_matches_bounded(beats, meter, compared);
    lemma_count_matches_all(beats, meter, compared);
}

/// The expected beat repeats with the foot: one foot further on, the meter
/// expects the same beat.
pub proof fn lemma_beat_at_periodic(meter: Meter, position: int)
    requires
        position >= 0,
    ensures
        meter.spec_beat_at(position + meter.foot.spec_positions()) == meter.spec_beat_at(position),
{
    let p = meter.foot.spec_positions() as int;
    assert(p > 0);
    assert((position + p) % p == position % p) by (nonlinear_arith)
        requires
            p > 0,
            position >= 0,
    ;
}

proof fn lemma_fits_better_transitive(x: Scansion, y: Scansion, z: Scansion)
    requires
        fits_better(x, y),
        fits_better(y, z),
    ensures
        fits_better(x, z),
{
    let (nx, dx) = (fit_num(x), fit_den(x));
    let (ny, dy) = (fit_num(y), fit_den(y));
    let (nz, dz) = (fit_num(z), fit_den(z));
    assert(nx >= 0 && ny >= 0 && nz >= 0 && dx > 0 && dy > 0 && dz > 0);
    assert(nx * dy >= ny * dx && ny * dz >= nz * dy ==> nx * dz >= nz * dx) by (nonlinear_arith)
        requires
            dx > 0,
            dy > 0,
            dz > 0,
    ;
    assert(nx * dy > ny * dx && ny * dz >= nz * dy ==> nx * dz > nz * dx) by (nonlinear_arith)
        requires
            dx > 0,
            dy > 0,
            dz > 0,
    ;
    assert(nx * dy >= ny * dx && ny * dz > nz * dy ==> nx * dz > nz * dx) by (nonlinear_arith)
        requires
            dx > 0,
            dy > 0,
            dz > 0,
    ;
}

/// The scansions `scan_best` tries for `foot` over `beats`.
pub open spec fn candidate_scan(beats: Seq<Beat>, foot: Foot, count: int) -> Scansion {
    spec_scan(beats, Meter { foot, feet: count as usize })
}

/// The scansion just offered is never ranked above the one kept.
proof fn lemma_keep_better_offered(best: Option<Scansion>, s: Scansion)
    ensures
        keep_better(best, s) matches Some(r) && !fits_better(s, r),
{
    lemma_fits_better_irreflexive(s);
}

proof fn lemma_keep_better_unbeaten(best: Option<Scansion>, s: Scansion, x: Scansion)
    requires
        best matches Some(b) && !fits_better(x, b),
    ensures
        keep_better(best, s) matches Some(r) && !fits_better(x, r),
{
    let b = best->0;
    if fits_better(s, b) && fits_better(x, s) {
        lemma_fits_better_transitive(x, s, b);
    }
}

/// The best scansion is one of the candidates tried, and no candidate tried
/// ranks above it; there is none only when no foot was offered.
pub proof fn lemma_scan_best_is_best(beats: Seq<Beat>, feet: Seq<Foot>)
    ensures
        spec_scan_best(beats, feet) is None <==> feet.len() == 0,
        spec_scan_best(beats, feet) matches Some(b) ==> exists|i: int, c: int|
            0 <= i < feet.len() && is_candidate(beats.len() as int, feet[i], c) && b
                == #[trigger] candidate_scan(beats, feet[i], c),
        spec_scan_best(beats, feet) matches Some(b) ==> forall|i: int, c: int|
            0 <= i < feet.len() && is_candidate(beats.len() as int, feet[i], c) ==> !fits_better(
                #[trigger] candidate_scan(beats, feet[i], c),
                b,
            ),
    decreases feet.len(),
{
    if feet.len() > 0 {
        let prev = feet.drop_last();
        lemma_scan_best_is_best(beats, prev);
        let best0 = spec_scan_best(beats, prev);
        let foot = feet.last();
        let len = beats.len() as int;
        let down = count_down(len, foot);
        let up = count_up(len, foot);
        let s_down = candidate_scan(beats, foot, down);
        let s_up = candidate_scan(beats, foot, up);
        let after_down = if down == 0 {
            best0
        } else {
            keep_better(best0, s_down)
        };
        let r = spec_scan_best(beats, feet);
        assert(r == keep_better(after_down, s_up));
        let rb = r->0;
        // The best is one of the candidates.
        if rb == s_up {
            assert(is_candidate(len, feet[feet.len() - 1], up));
            assert(rb == candidate_scan(beats, feet[feet.len() - 1], up));
        } else if down != 0 && rb == s_down {
            assert(is_candidate(len, feet[feet.len() - 1], down));
            assert(rb == candidate_scan(beats, feet[feet.len() - 1], down));
        } else {
            let b0 = best0->0;
            assert(rb == b0);
            let (i, c) = choose|i: int, c: int|
                0 <= i < prev.len() && is_candidate(len, prev[i], c) && b0
                    == #[trigger] candidate_scan(beats, prev[i], c);
            assert(prev[i] == feet[i]);
            assert(rb == candidate_scan(beats, feet[i], c));
        }
        // No candidate ranks above it.
        assert forall|i: int, c: int|
            0 <= i < feet.len() && is_candidate(len, feet[i], c) implies !fits_better(
            #[trigger] candidate_scan(beats, feet[i], c),
            rb,
        ) by {
            let x = candidate_scan(beats, feet[i], c);
            if i < feet.len() - 1 {
                assert(prev[i] == feet[i]);
                assert(!fits_better(candidate_scan(beats, prev[i], c), best0->0));
                if down != 0 {
                    lemma_keep_better_unbeaten(best0, s_down, x);
                }
                lemma_keep_better_unbeaten(after_down, s_up, x);
            } else {
                lemma_fits_better_irreflexive(x);
                if c == down {
                    lemma_keep_better_offered(best0, s_down);
                    lemma_keep_better_unbeaten(after_down, s_up, x);
                } else {
                    assert(c == up);
                    lemma_keep_better_offered(after_down, s_up);
                }
            }
        }
    }
}

proof fn lemma_fits_better_irreflexive(x: Scansion)
    ensures
        !fits_better(x, x),
{
}

/// The best scansion has the highest share of matching positions among the
/// candidates tried, and among those with the same share the smallest
/// overrun either way. Shares are `matches / compared`, zero when nothing was
/// compared, compared here by cross-multiplying.
pub proof fn lemma_scan_best_share_then_overrun(beats: Seq<Beat>, feet: Seq<Foot>)
    ensures
        spec_scan_best(beats, feet) matches Some(r) ==> forall|i: int, c: int|
            0 <= i < feet.len() && is_candidate(beats.len() as int, feet[i], c) ==> {
                let x = #[trigger] candidate_scan(beats, feet[i], c);
                let xm: int = if x.compared == 0 {
                    0
                } else {
                    x.matches as int
                };
                let xc: int = if x.compared == 0 {
                    1
                } else {
                    x.compared as int
                };
                let rm: int = if r.compared == 0 {
                    0
                } else {
                    r.matches as int
                };
                let rc: int = if r.compared == 0 {
                    1
                } else {
                    r.compared as int
                };
                let x_off: int = if x.overrun < 0 {
                    -(x.overrun as int)
                } else {
                    x.overrun as int
                };
                let r_off: int = if r.overrun < 0 {
                    -(r.overrun as int)
                } else {
                    r.overrun as int
                };
                &&& xm * rc <= rm * xc
                &&& xm * rc == rm * xc ==> r_off <= x_off
            },
{
    lemma_scan_best_is_best(beats, feet);
}

/// Under an accentual reading a syllable's beat is strong exactly when its
/// nucleus is present and carries primary or secondary stress; under a
/// quantitative reading exactly when it counts at least two morae (heavy or
/// superheavy).
pub proof fn lemma_beats_read_stress_or_weight(
    phones: Seq<Phone>,
    syllables: Seq<Syllable>,
    mode: Mode,
    rule: WeightRule,
)
    ensures
        beat_seq(phones, syllables, mode, rule).len() == syllables.len(),
        forall|k: int|
            0 <= k < syllables.len() ==> (#[trigger] beat_seq(phones, syllables, mode, rule)[k]
                == Beat::Strong <==> match mode {
                Mode::Accentual => syllables[k].nucleus < phones.len() && (phones[syllables[
                    k].nucleus as int].stress == Stress::Primary
                    || phones[syllables[k].nucleus as int].stress == Stress::Secondary),
                Mode::Quantitative => spec_morae(phones, syllables[k], rule) >= 2,
            }),
{
}

} // verus!
