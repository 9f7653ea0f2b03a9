//! Patterns: which instrument plays on which step of a measure, and how loud.

use crate::bits::{bits_get, bits_len, bits_of, bits_or, bits_push, bits_with_capacity, Bits};
use crate::error::{Error, Failure};
use crate::number::{
    float_prefix, in_unit_interval, lemma_magnitude_increases, lemma_magnitude_of_one,
    lemma_unit_interval, magnitude, read_float, unit, NEGATIVE_ZERO, ONE,
};
use crate::table::{apart, lemma_apart_push, lemma_table, table};
use crate::text::{
    lemma_run, lines_of, run, same_bytes, scan, split_lines, views, Class,
};
use vstd::prelude::*;
use vstd::slice::slice_to_vec;

verus! {

/// The number of steps in a measure.
pub const STEPS_PER_MEASURE: usize = 16;

/// The number of beats in a measure.
pub const BEATS_PER_MEASURE: usize = 4;

/// Indicates a *play* step: `x`.
pub const STEP_PLAY: u8 = 0x78;

/// Indicates a *silent* step: `-`.
pub const STEP_SILENT: u8 = 0x2d;

/// The beat separator in a step sequence: `|`.
pub const SEPARATOR: u8 = 0x7c;

/// Represents a track's instrument name.
#[derive(Debug, PartialEq, Eq, Hash)]
pub struct Instrument(Vec<u8>);

impl View for Instrument {
    type V = Seq<u8>;

    closed spec fn view(&self) -> Seq<u8> {
        self.0@
    }
}

impl Instrument {
    /// Makes the instrument of the given name.
    pub fn new(name: &[u8]) -> (instrument: Instrument)
        ensures
            instrument@ == name@,
    {
        Instrument(slice_to_vec(name))
    }

    /// Returns the instrument's name.
    pub fn name(&self) -> (name: &[u8])
        ensures
            name@ == self@,
    {
        self.0.as_slice()
    }

    /// Gives up the instrument for its name.
    pub fn into_name(self) -> (name: Vec<u8>)
        ensures
            name@ == self@,
    {
        self.0
    }

    /// Tells whether two instruments have the same name.
    pub fn is(&self, other: &Instrument) -> (same: bool)
        ensures
            same == (self@ == other@),
    {
        same_bytes(self.0.as_slice(), other.0.as_slice())
    }
}

/// The step sequence of a track: for each of the sixteen steps of a measure,
/// whether the track's sample is triggered on it.
#[derive(Debug, PartialEq)]
pub struct Steps(Bits);

/// A sequence of silent steps, one measure long.
pub open spec fn silence() -> Seq<bool> {
    Seq::new(STEPS_PER_MEASURE as nat, |i: int| false)
}

/// The stepwise union of two sequences: a step plays where it plays in
/// either. The result is as long as `a`.
pub open spec fn union_of(a: Seq<bool>, b: Seq<bool>) -> Seq<bool> {
    Seq::new(a.len(), |i: int| a[i] || (i < b.len() && b[i]))
}

/// The number of silent steps at the end of a sequence.
pub open spec fn trailing_silent(s: Seq<bool>) -> nat
    decreases s.len(),
{
    if s.len() == 0 || s.last() {
        0
    } else {
        1 + trailing_silent(s.drop_last())
    }
}

/// The union of two sequences of one length is the same either way round.
pub proof fn lemma_union_commutes(a: Seq<bool>, b: Seq<bool>)
    requires
        a.len() == b.len(),
    ensures
        union_of(a, b) == union_of(b, a),
{
    assert(union_of(a, b) =~= union_of(b, a));
}

/// The union of a sequence with itself is the sequence.
pub proof fn lemma_union_idempotent(a: Seq<bool>)
    ensures
        union_of(a, a) == a,
{
    assert(union_of(a, a) =~= a);
}

/// The union of three sequences is the same however they are grouped.
pub proof fn lemma_union_associates(a: Seq<bool>, b: Seq<bool>, c: Seq<bool>)
    requires
        a.len() == b.len(),
    ensures
        union_of(union_of(a, b), c) == union_of(a, union_of(b, c)),
{
    assert(union_of(union_of(a, b), c) =~= union_of(a, union_of(b, c)));
}

/// Silence is the unit of the union.
pub proof fn lemma_union_with_silence(a: Seq<bool>)
    requires
        a.len() == STEPS_PER_MEASURE,
    ensures
        union_of(a, silence()) == a,
        union_of(silence(), a) == a,
{
    assert(union_of(a, silence()) =~= a);
    assert(union_of(silence(), a) =~= a);
}

/// The trailing silence of a sequence is the one number `n` such that the
/// last `n` steps are silent and the step before them, if any, plays.
pub proof fn lemma_trailing_silent(s: Seq<bool>)
    ensures
        trailing_silent(s) <= s.len(),
        forall|i: int| s.len() - trailing_silent(s) <= i < s.len() ==> !s[i],
        trailing_silent(s) < s.len() ==> s[s.len() - trailing_silent(s) - 1],
    decreases s.len(),
{
    if s.len() > 0 && !s.last() {
        let before = s.drop_last();
        lemma_trailing_silent(before);
        assert forall|i: int| s.len() - trailing_silent(s) <= i < s.len() implies !s[i] by {
            if i < before.len() {
                assert(s[i] == before[i]);
            }
        }
        if trailing_silent(s) < s.len() {
            assert(s[s.len() - trailing_silent(s) - 1] == before[before.len() - trailing_silent(
                before,
            ) - 1]);
        }
    }
}

/// The trailing silence of a measure in which no step plays is the whole
/// measure.
pub proof fn lemma_trailing_silent_of_silence()
    ensures
        trailing_silent(silence()) == STEPS_PER_MEASURE,
{
    lemma_trailing_silent(silence());
}

/// A sequence in which no step plays is silent to its whole length.
pub proof fn lemma_trailing_silent_all_silent(s: Seq<bool>)
    requires
        forall|i: int| 0 <= i < s.len() ==> !s[i],
    ensures
        trailing_silent(s) == s.len(),
{
    lemma_trailing_silent(s);
}

/// A sequence whose last step plays has no trailing silence.
pub proof fn lemma_trailing_silent_last_plays(s: Seq<bool>)
    requires
        s.len() > 0,
        s.last(),
    ensures
        trailing_silent(s) == 0,
{
}

impl View for Steps {
    type V = Seq<bool>;

    closed spec fn view(&self) -> Seq<bool> {
        bits_of(self.0)
    }
}

impl Steps {
    #[verifier::type_invariant]
    spec fn one_measure(&self) -> bool {
        bits_of(self.0).len() == STEPS_PER_MEASURE
    }

    /// Returns a sequence of sixteen silent steps.
    pub fn zeros() -> (steps: Steps)
        ensures
            steps@ == silence(),
            steps@.len() == STEPS_PER_MEASURE,
    {
        let mut bits = bits_with_capacity(STEPS_PER_MEASURE);
        let mut n: usize = 0;
        while n < STEPS_PER_MEASURE
            invariant
                n <= STEPS_PER_MEASURE,
                bits_of(bits) == Seq::new(n as nat, |i: int| false),
            decreases STEPS_PER_MEASURE - n,
        {
            bits_push(&mut bits, false);
            n += 1;
        }
        Steps(bits)
    }

    /// Returns the sequence of the given steps, if they are sixteen.
    pub fn from_bools(steps: &[bool]) -> (made: Option<Steps>)
        ensures
            made is Some <==> steps@.len() == STEPS_PER_MEASURE,
            made matches Some(made) ==> made@ == steps@,
    {
        if steps.len() != STEPS_PER_MEASURE {
            return None;
        }
        let mut bits = bits_with_capacity(STEPS_PER_MEASURE);
        let mut n: usize = 0;
        assert(steps@.take(0) =~= Seq::<bool>::empty());
        while n < STEPS_PER_MEASURE
            invariant
                n <= STEPS_PER_MEASURE,
                steps@.len() == STEPS_PER_MEASURE,
                bits_of(bits) == steps@.take(n as int),
            decreases STEPS_PER_MEASURE - n,
        {
            bits_push(&mut bits, steps[n]);
            assert(steps@.take(n + 1) =~= steps@.take(n as int).push(steps@[n as int]));
            n += 1;
        }
        assert(steps@.take(n as int) =~= steps@);
        Some(Steps(bits))
    }

    /// Performs an in-place stepwise union of this sequence and the one given.
    pub fn union(&mut self, other: &Steps)
        ensures
            final(self)@ == union_of(old(self)@, other@),
            final(self)@.len() == STEPS_PER_MEASURE,
    {
        proof {
            use_type_invariant(&*self);
            use_type_invariant(other);
        }
        self.0 = bits_or(&self.0, &other.0);
    }

    /// Returns the steps in order, `true` for a step that plays.
    pub fn iter(&self) -> (steps: Vec<bool>)
        ensures
            steps@ == self@,
            steps@.len() == STEPS_PER_MEASURE,
    {
        proof {
            use_type_invariant(self);
        }
        let mut steps: Vec<bool> = Vec::with_capacity(STEPS_PER_MEASURE);
        let mut n: usize = 0;
        while n < STEPS_PER_MEASURE
            invariant
                n <= STEPS_PER_MEASURE,
                bits_of(self.0).len() == STEPS_PER_MEASURE,
                steps@ == bits_of(self.0).take(n as int),
            decreases STEPS_PER_MEASURE - n,
        {
            steps.push(bits_get(&self.0, n));
            n += 1;
        }
        steps
    }

    /// Returns the number of silent steps at the end of this sequence:
    /// sixteen if no step plays.
    pub fn trailing_silent_steps(&self) -> (n: usize)
        ensures
            n == trailing_silent(self@),
            n <= STEPS_PER_MEASURE,
    {
        proof {
            use_type_invariant(self);
        }
        let mut n: usize = 0;
        assert(bits_of(self.0).take(STEPS_PER_MEASURE as int) =~= bits_of(self.0));
        while n < STEPS_PER_MEASURE && !bits_get(&self.0, STEPS_PER_MEASURE - 1 - n)
            invariant
                n <= STEPS_PER_MEASURE,
                bits_of(self.0).len() == STEPS_PER_MEASURE,
                trailing_silent(bits_of(self.0)) == n + trailing_silent(
                    bits_of(self.0).take(STEPS_PER_MEASURE - n),
                ),
            decreases STEPS_PER_MEASURE - n,
        {
            assert(bits_of(self.0).take(STEPS_PER_MEASURE - n).drop_last() =~= bits_of(
                self.0,
            ).take(STEPS_PER_MEASURE - n - 1));
            n += 1;
        }
        n
    }
}

/// Represents a track's amplitude in the range of [0,1] inclusive, held by
/// the single-precision encoding of the number.
#[derive(Debug)]
pub struct Amplitude(u32);

impl View for Amplitude {
    type V = nat;

    /// The amplitude as a multiple of 2^-149: from 0 to [`unit`].
    closed spec fn view(&self) -> nat {
        magnitude(self.0)
    }
}

impl Amplitude {
    #[verifier::type_invariant]
    spec fn in_range(&self) -> bool {
        self.0 <= ONE
    }

    /// Returns the amplitude with the given encoding, if it stands for a
    /// number in the range of [0,1] inclusive.
    pub fn from_bits(bits: u32) -> (amplitude: Option<Amplitude>)
        ensures
            amplitude is Some <==> in_unit_interval(bits),
            amplitude matches Some(a) ==> a@ == magnitude(bits),
    {
        proof {
            lemma_unit_interval(bits);
        }
        if bits <= ONE {
            Some(Amplitude(bits))
        } else if bits == NEGATIVE_ZERO {
            Some(Amplitude(0))
        } else {
            None
        }
    }

    /// Returns an amplitude of the maximum value.
    pub fn max() -> (amplitude: Amplitude)
        ensures
            amplitude@ == unit(),
    {
        proof {
            lemma_magnitude_of_one();
        }
        Amplitude(ONE)
    }

    /// Compares the amplitude to another and returns the minimum.
    pub fn min(&self, other: &Amplitude) -> (amplitude: Amplitude)
        ensures
            amplitude@ == if self@ <= other@ {
                self@
            } else {
                other@
            },
    {
        proof {
            use_type_invariant(self);
            use_type_invariant(other);
            lemma_magnitude_of_one();
            if self.0 < other.0 {
                lemma_magnitude_increases(self.0, other.0);
            } else if other.0 < self.0 {
                lemma_magnitude_increases(other.0, self.0);
            }
        }
        if self.0 <= other.0 {
            Amplitude(self.0)
        } else {
            Amplitude(other.0)
        }
    }

    /// Returns the encoding of the amplitude's value.
    pub fn value(&self) -> (bits: u32)
        ensures
            magnitude(bits) == self@,
            bits <= ONE,
            self@ <= unit(),
    {
        proof {
            use_type_invariant(self);
            lemma_magnitude_of_one();
            if self.0 < ONE {
                lemma_magnitude_increases(self.0, ONE);
            }
        }
        self.0
    }

    /// Returns the amplitude given, or the maximum value where none is.
    pub fn defaulting(o: Option<Amplitude>) -> (amplitude: Amplitude)
        ensures
            amplitude@ == match o {
                Some(a) => a@,
                None => unit(),
            },
    {
        match o {
            Some(a) => a,
            None => Amplitude::max(),
        }
    }
}

/// A type that represents a track in a pattern file.
pub type Track = (Instrument, Steps, Amplitude);

/// What an instrument plays: its steps, and its amplitude as a multiple of
/// 2^-149.
pub struct Part {
    pub steps: Seq<bool>,
    pub amplitude: nat,
}

/// Whether steps and amplitude are those of one measure and of the range
/// of [0,1]: sixteen steps, and an amplitude of the unit at most.
pub open spec fn is_part(part: Part) -> bool {
    part.steps.len() == STEPS_PER_MEASURE && part.amplitude <= unit()
}

/// What a track is: the name of its instrument, and what it plays.
pub struct TrackModel {
    pub name: Seq<u8>,
    pub part: Part,
}

/// What is left of `s` after the blanks that it begins with.
pub open spec fn after_blanks(s: Seq<u8>) -> Seq<u8> {
    s.skip(run(s, Class::Blank) as int)
}

/// The instrument that `s` begins with, a run of bytes that are neither
/// spaces nor tabs, and what follows it; nothing where `s` begins with no
/// such byte.
pub open spec fn instrument_field(s: Seq<u8>) -> Option<(Seq<u8>, Seq<u8>)> {
    let n = run(s, Class::Name) as int;
    if n > 0 {
        Some((s.skip(n), s.take(n)))
    } else {
        None
    }
}

/// The steps that a block of step characters stands for: a step that plays
/// for each `x`, a silent one for each `-`, none for any other byte.
pub open spec fn decode_steps(block: Seq<u8>) -> Seq<bool>
    decreases block.len(),
{
    if block.len() == 0 {
        Seq::empty()
    } else if block.last() == STEP_PLAY {
        decode_steps(block.drop_last()).push(true)
    } else if block.last() == STEP_SILENT {
        decode_steps(block.drop_last()).push(false)
    } else {
        decode_steps(block.drop_last())
    }
}

/// The step sequence that `s` begins with, and what follows it. The block
/// is the run of step characters and separators at the start of `s`; there
/// is no step sequence unless the block holds exactly sixteen steps.
pub open spec fn steps_field(s: Seq<u8>) -> Option<(Seq<u8>, Seq<bool>)> {
    let n = run(s, Class::Step) as int;
    if decode_steps(s.take(n)).len() == STEPS_PER_MEASURE {
        Some((s.skip(n), decode_steps(s.take(n))))
    } else {
        None
    }
}

/// The amplitude field of `s`, given what was read as a number at the start
/// of `s`. Where no number was read, the field is absent and nothing of `s`
/// is used. A number outside the range of [0,1] is no amplitude.
pub open spec fn amplitude_of(s: Seq<u8>, number: Option<(Seq<u8>, u32)>) -> Option<
    (Seq<u8>, Option<nat>),
> {
    match number {
        None => Some((s, None)),
        Some((rest, bits)) => if in_unit_interval(bits) {
            Some((rest, Some(magnitude(bits))))
        } else {
            None
        },
    }
}

/// The amplitude field that `s` begins with, if any, and what follows it.
/// Nothing is read as a number where `s` is empty.
pub open spec fn amplitude_field(s: Seq<u8>) -> Option<(Seq<u8>, Option<nat>)> {
    if s.len() == 0 {
        Some((s, None))
    } else {
        amplitude_of(s, float_prefix(s))
    }
}

/// The track that a line of a pattern stands for: an instrument, a step
/// sequence and an amplitude, which may be left out and is then the maximum.
/// Blanks may stand before each of them and at the end of the line, and
/// nothing else.
pub open spec fn track_of(line: Seq<u8>) -> Option<TrackModel> {
    match instrument_field(after_blanks(line)) {
        None => None,
        Some((s, name)) => match steps_field(after_blanks(s)) {
            None => None,
            Some((s, steps)) => match amplitude_field(after_blanks(s)) {
                None => None,
                Some((s, amplitude)) => if after_blanks(s).len() == 0 {
                    Some(
                        TrackModel {
                            name,
                            part: Part {
                                steps,
                                amplitude: match amplitude {
                                    Some(a) => a,
                                    None => unit(),
                                },
                            },
                        },
                    )
                } else {
                    None
                },
            },
        },
    }
}

/// The name of the instrument that a line of a pattern lists.
pub open spec fn listed(line: Seq<u8>) -> Seq<u8>
    recommends
        track_of(line) is Some,
{
    track_of(line).unwrap().name
}

/// A track has sixteen steps and an amplitude in the range of [0,1].
pub proof fn lemma_track_of_is_part(line: Seq<u8>)
    ensures
        track_of(line) matches Some(track) ==> is_part(track.part),
{
    if track_of(line) is Some {
        let track = track_of(line).unwrap();
        lemma_magnitude_of_one();
        if track.part.amplitude != unit() {
            let (after_name, name) = instrument_field(after_blanks(line)).unwrap();
            let (after_steps, steps) = steps_field(after_blanks(after_name)).unwrap();
            let end = after_blanks(after_steps);
            let (rest, bits) = float_prefix(end).unwrap();
            assert(in_unit_interval(bits));
            assert(track.part.amplitude == magnitude(bits));
        }
    }
}

/// What is left after blanks begins with no blank.
pub proof fn lemma_after_blanks(s: Seq<u8>)
    ensures
        after_blanks(after_blanks(s)) == after_blanks(s),
{
    lemma_run(s, Class::Blank);
    let rest = after_blanks(s);
    if rest.len() > 0 {
        assert(rest[0] == s[run(s, Class::Blank) as int]);
    }
    assert(rest.skip(0) =~= rest);
}

/// How the end of a line decides on a track, once an instrument and a step
/// sequence were found on it. Where nothing but blanks follows the steps,
/// the track plays at full volume. Where something follows that is not
/// read as a number, or as a number outside the range of [0,1], the line
/// is no track. Where a number in the range was read, the line is a track
/// only if blanks alone follow the number, and then the number is the
/// track's amplitude.
pub proof fn lemma_track_amplitude(
    line: Seq<u8>,
    name: Seq<u8>,
    after_name: Seq<u8>,
    steps: Seq<bool>,
    after_steps: Seq<u8>,
)
    requires
        instrument_field(after_blanks(line)) == Some((after_name, name)),
        steps_field(after_blanks(after_name)) == Some((after_steps, steps)),
    ensures
        ({
            let end = after_blanks(after_steps);
            let full = TrackModel { name, part: Part { steps, amplitude: unit() } };
            &&& end.len() == 0 ==> track_of(line) == Some(full)
            &&& end.len() > 0 ==> match float_prefix(end) {
                None => track_of(line) is None,
                Some((rest, bits)) => track_of(line) == if in_unit_interval(bits) && after_blanks(
                    rest,
                ).len() == 0 {
                    Some((TrackModel { name, part: Part { steps, amplitude: magnitude(bits) } }))
                } else {
                    None
                },
            }
        }),
{
    let end = after_blanks(after_steps);
    lemma_after_blanks(after_steps);
    if end.len() == 0 {
        assert(after_blanks(end) =~= end);
    }
}

/// A block holds at least as many steps as any part that it begins with.
proof fn lemma_decode_steps_grows(block: Seq<u8>, n: int)
    requires
        0 <= n <= block.len(),
    ensures
        decode_steps(block.take(n)).len() <= decode_steps(block).len(),
    decreases block.len() - n,
{
    if n < block.len() {
        assert(block.take(n + 1).drop_last() =~= block.take(n));
        lemma_decode_steps_grows(block, n + 1);
    } else {
        assert(block.take(n) =~= block);
    }
}

/// Skips the blanks that `s` begins with.
pub fn skip_blanks(s: &[u8]) -> (rest: &[u8])
    ensures
        rest@ == after_blanks(s@),
{
    let n = scan(s, Class::Blank);
    s.split_at(n).1
}

/// Parses the instrument from a track line.
pub fn parse_instrument(s: &[u8]) -> (field: Option<(&[u8], &[u8])>)
    ensures
        match field {
            Some((rest, name)) => instrument_field(s@) == Some((rest@, name@)),
            None => instrument_field(s@) is None,
        },
{
    let n = scan(s, Class::Name);
    if n == 0 {
        None
    } else {
        let (name, rest) = s.split_at(n);
        Some((rest, name))
    }
}

/// Parses the steps from a track line.
pub fn parse_steps(s: &[u8]) -> (field: Option<(&[u8], Steps)>)
    ensures
        match field {
            Some((rest, steps)) => steps_field(s@) == Some((rest@, steps@)),
            None => steps_field(s@) is None,
        },
        field matches Some((_, steps)) ==> steps@.len() == STEPS_PER_MEASURE,
{
    let n = scan(s, Class::Step);
    let (block, rest) = s.split_at(n);
    let mut bits = bits_with_capacity(STEPS_PER_MEASURE);
    let mut i: usize = 0;
    while i < n
        invariant
            i <= n,
            n == run(s@, Class::Step),
            n == block@.len(),
            block@ == s@.take(n as int),
            bits_of(bits) == decode_steps(block@.take(i as int)),
            bits_of(bits).len() <= STEPS_PER_MEASURE,
        decreases n - i,
    {
        let byte = block[i];
        assert(block@.take(i + 1).drop_last() =~= block@.take(i as int));
        if byte == STEP_PLAY || byte == STEP_SILENT {
            if bits_len(&bits) == STEPS_PER_MEASURE {
                proof {
                    assert(block@.take(i + 1).last() == byte);
                    assert(decode_steps(block@.take(i + 1)).len() == STEPS_PER_MEASURE + 1);
                    lemma_decode_steps_grows(block@, i + 1);
                }
                return None;
            }
            bits_push(&mut bits, byte == STEP_PLAY);
        }
        i += 1;
    }
    assert(block@.take(n as int) =~= block@);
    if bits_len(&bits) == STEPS_PER_MEASURE {
        Some((rest, Steps(bits)))
    } else {
        None
    }
}

/// Makes the amplitude field of `s` of what was read as a number at the
/// start of `s`.
pub fn amplitude_read<'a>(s: &'a [u8], number: Option<(&'a [u8], u32)>) -> (field: Option<
    (&'a [u8], Option<Amplitude>),
>)
    ensures
        amplitude_view(field) == amplitude_of(
            s@,
            match number {
                Some((rest, bits)) => Some((rest@, bits)),
                None => None,
            },
        ),
{
    match number {
        None => Some((s, None)),
        Some((rest, bits)) => match Amplitude::from_bits(bits) {
            Some(amplitude) => Some((rest, Some(amplitude))),
            None => None,
        },
    }
}

/// What a parsed amplitude field holds.
pub open spec fn amplitude_view(field: Option<(&[u8], Option<Amplitude>)>) -> Option<
    (Seq<u8>, Option<nat>),
> {
    match field {
        Some((rest, Some(amplitude))) => Some((rest@, Some(amplitude@))),
        Some((rest, None)) => Some((rest@, None)),
        None => None,
    }
}

/// Parses the amplitude from a track line.
pub fn parse_amplitude(s: &[u8]) -> (field: Option<(&[u8], Option<Amplitude>)>)
    ensures
        amplitude_view(field) == amplitude_field(s@),
{
    if s.len() == 0 {
        Some((s, None))
    } else {
        amplitude_read(s, read_float(s))
    }
}

/// What a parsed track holds.
pub open spec fn track_view(track: Track) -> TrackModel {
    TrackModel { name: track.0@, part: Part { steps: track.1@, amplitude: track.2@ } }
}

/// Parses a track from a single line of a pattern file. What is left of
/// the line after a track is empty.
pub fn parse_track(s: &[u8]) -> (parsed: Option<(&[u8], Track)>)
    ensures
        match parsed {
            Some((rest, track)) => track_of(s@) == Some(track_view(track)) && rest@.len() == 0,
            None => track_of(s@) is None,
        },
{
    let s = skip_blanks(s);
    let (s, instrument) = match parse_instrument(s) {
        Some(field) => field,
        None => return None,
    };
    let s = skip_blanks(s);
    let (s, steps) = match parse_steps(s) {
        Some(field) => field,
        None => return None,
    };
    let s = skip_blanks(s);
    let (s, amplitude) = match parse_amplitude(s) {
        Some(field) => field,
        None => return None,
    };
    let s = skip_blanks(s);
    if s.len() != 0 {
        return None;
    }
    Some((s, (Instrument::new(instrument), steps, Amplitude::defaulting(amplitude))))
}

/// What a pattern holds: for the name of each of its instruments, what the
/// instrument plays.
pub type PatternModel = Map<Seq<u8>, Part>;

/// The pattern that the lines of a pattern file stand for. Each line is a
/// track. The first line that is no track fails the whole, and so does the
/// first line whose instrument an earlier line has listed.
pub open spec fn pattern_of(lines: Seq<Seq<u8>>) -> Result<PatternModel, Failure>
    decreases lines.len(),
{
    if lines.len() == 0 {
        Ok(Map::empty())
    } else {
        match pattern_of(lines.drop_last()) {
            Err(failure) => Err(failure),
            Ok(pattern) => match track_of(lines.last()) {
                None => Err(Failure::Parse(lines.last())),
                Some(track) => if pattern.contains_key(track.name) {
                    Err(Failure::DuplicatePattern(lines.last()))
                } else {
                    Ok(pattern.insert(track.name, track.part))
                },
            },
        }
    }
}

/// A failure among the first lines of a file is the failure of the file.
pub proof fn lemma_pattern_of_fails(lines: Seq<Seq<u8>>, n: int)
    requires
        0 <= n <= lines.len(),
        pattern_of(lines.take(n)) is Err,
    ensures
        pattern_of(lines) == pattern_of(lines.take(n)),
    decreases lines.len() - n,
{
    if n < lines.len() {
        assert(lines.take(n + 1).drop_last() =~= lines.take(n));
        lemma_pattern_of_fails(lines, n + 1);
    } else {
        assert(lines.take(n) =~= lines);
    }
}

/// Whether each of the lines is a track and no two of them list the same
/// instrument.
pub open spec fn tracks_apart(lines: Seq<Seq<u8>>) -> bool {
    &&& forall|i: int| 0 <= i < lines.len() ==> (#[trigger] track_of(lines[i])) is Some
    &&& forall|i: int, j: int|
        0 <= i < j < lines.len() ==> #[trigger] listed(lines[i]) != #[trigger] listed(lines[j])
}

/// A file makes a pattern if and only if each of its lines is a track and
/// no two of them list the same instrument. The pattern then holds what
/// each line's instrument plays under the instrument's name, and nothing
/// else.
pub proof fn lemma_pattern_of(lines: Seq<Seq<u8>>)
    ensures
        pattern_of(lines) is Ok <==> tracks_apart(lines),
        pattern_of(lines) matches Ok(pattern) ==> {
            &&& forall|i: int|
                0 <= i < lines.len() ==> {
                    &&& pattern.contains_key(#[trigger] listed(lines[i]))
                    &&& pattern[listed(lines[i])] == track_of(lines[i]).unwrap().part
                }
            &&& forall|name: Seq<u8>| #[trigger]
                pattern.contains_key(name) ==> exists|i: int|
                    0 <= i < lines.len() && #[trigger] listed(lines[i]) == name
        },
    decreases lines.len(),
{
    if lines.len() > 0 {
        let before = lines.drop_last();
        let n = lines.len() - 1;
        lemma_pattern_of(before);
        assert forall|i: int| 0 <= i < n implies lines[i] == before[i] by {}
        match pattern_of(before) {
            Err(_) => {
                if tracks_apart(lines) {
                    assert forall|i: int| 0 <= i < before.len() implies (#[trigger] track_of(
                        before[i],
                    )) is Some by {
                        assert(track_of(lines[i]) is Some);
                    }
                    assert forall|i: int, j: int| 0 <= i < j < before.len() implies #[trigger] listed(
                        before[i],
                    ) != #[trigger] listed(before[j]) by {
                        assert(listed(lines[i]) != listed(lines[j]));
                    }
                }
            },
            Ok(pattern) => {
                assert forall|i: int| 0 <= i < n implies (#[trigger] track_of(lines[i])) is Some by {
                    assert(track_of(before[i]) is Some);
                }
                match track_of(lines.last()) {
                    None => {
                        assert(track_of(lines[n]) is None);
                    },
                    Some(track) => {
                        assert(listed(lines[n]) == track.name);
                        if pattern.contains_key(track.name) {
                            let i = choose|i: int|
                                0 <= i < before.len() && #[trigger] listed(before[i]) == track.name;
                            assert(listed(lines[i]) == listed(lines[n]));
                        } else {
                            let whole = pattern.insert(track.name, track.part);
                            assert forall|i: int, j: int|
                                0 <= i < j < lines.len() implies #[trigger] listed(lines[i])
                                != #[trigger] listed(lines[j]) by {
                                assert(pattern.contains_key(listed(before[i])));
                                if j < n {
                                    assert(listed(before[i]) != listed(before[j]));
                                }
                            }
                            assert forall|i: int| 0 <= i < lines.len() implies {
                                &&& whole.contains_key(#[trigger] listed(lines[i]))
                                &&& whole[listed(lines[i])] == track_of(lines[i]).unwrap().part
                            } by {
                                if i < n {
                                    assert(pattern.contains_key(listed(before[i])));
                                }
                            }
                            assert forall|key: Seq<u8>| #[trigger]
                                whole.contains_key(key) implies exists|i: int|
                                0 <= i < lines.len() && #[trigger] listed(lines[i]) == key by {
                                if key == track.name {
                                    assert(listed(lines[n]) == key);
                                } else {
                                    let i = choose|i: int|
                                        0 <= i < before.len() && #[trigger] listed(before[i])
                                            == key;
                                    assert(listed(lines[i]) == key);
                                }
                            }
                        }
                    },
                }
            },
        }
    }
}

/// Every instrument of a pattern has sixteen steps and an amplitude in the
/// range of [0,1].
pub proof fn lemma_pattern_of_parts(lines: Seq<Seq<u8>>)
    ensures
        pattern_of(lines) matches Ok(pattern) ==> forall|name: Seq<u8>| #[trigger]
            pattern.contains_key(name) ==> is_part(pattern[name]),
{
    lemma_pattern_of(lines);
    if let Ok(pattern) = pattern_of(lines) {
        assert forall|name: Seq<u8>| #[trigger] pattern.contains_key(name) implies is_part(
            pattern[name],
        ) by {
            let i = choose|i: int| 0 <= i < lines.len() && #[trigger] listed(lines[i]) == name;
            lemma_track_of_is_part(lines[i]);
        }
    }
}

/// Two lines that list the same instrument are no pattern, whatever their
/// steps and amplitudes: the second one is the duplicate.
pub proof fn lemma_duplicate_track(first: Seq<u8>, second: Seq<u8>)
    requires
        track_of(first) is Some,
        track_of(second) is Some,
        listed(first) == listed(second),
    ensures
        pattern_of(seq![first, second]) == Err::<PatternModel, Failure>(
            Failure::DuplicatePattern(second),
        ),
{
    let lines = seq![first, second];
    assert(lines.drop_last() =~= seq![first]);
    assert(seq![first].drop_last() =~= Seq::<Seq<u8>>::empty());
    assert(pattern_of(Seq::<Seq<u8>>::empty()) == Ok::<PatternModel, Failure>(Map::empty()));
    assert(pattern_of(seq![first]) == Ok::<PatternModel, Failure>(
        Map::<Seq<u8>, Part>::empty().insert(listed(first), track_of(first).unwrap().part),
    ));
}

/// An instrument of a pattern and what it plays.
pub type Entry = (Instrument, (Steps, Amplitude));

/// Represents the contents of a pattern file.
///
/// Each line of a pattern file represents a track. There is no limit to the
/// number of tracks in a pattern. A track contains an instrument name, a
/// 16-step sequence, and an optional amplitude. The instrument name is an
/// identifier and can only appear once per pattern. Each sequence represents
/// a single measure in 4/4 time divided into 16th note steps (`x` for *play*
/// and `-` for *silent*). A track may optionally include an amplitude in the
/// range of [0,1] inclusive. By default, a track plays at full volume.
///
/// # Example
///
/// This is an example of a pattern file's contents for a standard 8th note
/// groove with the hi-hat track played at half volume.
///
/// ```text
/// hi-hat |x-x-|x-x-|x-x-|x-x-| 0.5
/// snare  |----|x---|----|x---|
/// kick   |x---|----|x---|----|
/// ```
#[derive(Debug)]
pub struct Pattern(Vec<Entry>);

/// What a pair of steps and amplitude holds.
pub open spec fn part_view(part: (Steps, Amplitude)) -> Part {
    Part { steps: part.0@, amplitude: part.1@ }
}

/// The names of the instruments of the entries, in order.
pub open spec fn entry_names(entries: Seq<Entry>) -> Seq<Seq<u8>> {
    Seq::new(entries.len(), |i: int| entries[i].0@)
}

/// What the instruments of the entries play, in order.
pub open spec fn entry_parts(entries: Seq<Entry>) -> Seq<Part> {
    Seq::new(entries.len(), |i: int| part_view(entries[i].1))
}

/// The pattern that the entries hold: what each instrument plays, under
/// the instrument's name.
pub open spec fn entries_view(entries: Seq<Entry>) -> PatternModel {
    table(entry_names(entries), entry_parts(entries))
}

/// What a result of parsing a pattern file holds.
pub open spec fn pattern_view(parsed: Result<Pattern, Error>) -> Result<PatternModel, Failure> {
    match parsed {
        Ok(pattern) => Ok(pattern@),
        Err(error) => Err(error@),
    }
}

/// Looks for the entry of an instrument.
fn position(entries: &Vec<Entry>, instrument: &Instrument) -> (found: Option<usize>)
    ensures
        match found {
            Some(n) => n < entries@.len() && entry_names(entries@)[n as int] == instrument@,
            None => !entry_names(entries@).contains(instrument@),
        },
{
    let mut n: usize = 0;
    while n < entries.len()
        invariant
            n <= entries@.len(),
            forall|i: int| 0 <= i < n ==> entry_names(entries@)[i] != instrument@,
        decreases entries@.len() - n,
    {
        if entries[n].0.is(instrument) {
            return Some(n);
        }
        n += 1;
    }
    None
}

impl View for Pattern {
    type V = PatternModel;

    closed spec fn view(&self) -> PatternModel {
        entries_view(self.0@)
    }
}

impl Pattern {
    #[verifier::type_invariant]
    spec fn one_track_each(&self) -> bool {
        apart(entry_names(self.0@))
    }

    /// Parses a pattern file located at the path given, whose contents are
    /// handed in, or nothing where there is no file at the path. Each line
    /// of the contents is a track; an empty line is none.
    pub fn parse(path: &[u8], contents: Option<&[u8]>) -> (parsed: Result<Pattern, Error>)
        ensures
            pattern_view(parsed) == match contents {
                Some(text) => pattern_of(lines_of(text@)),
                None => Err(Failure::FileDoesNotExist(path@)),
            },
    {
        let text = match contents {
            Some(text) => text,
            None => return Err(Error::FileDoesNotExistError(slice_to_vec(path))),
        };
        let lines = split_lines(text);
        let ghost all = lines_of(text@);
        let mut entries: Vec<Entry> = Vec::new();
        let mut n: usize = 0;
        assert(all.take(0) =~= Seq::<Seq<u8>>::empty());
        while n < lines.len()
            invariant
                n <= lines@.len(),
                contents == Some(text),
                all == lines_of(text@),
                views(lines@) == all,
                pattern_of(all.take(n as int)) == Ok::<PatternModel, Failure>(
                    entries_view(entries@),
                ),
                apart(entry_names(entries@)),
            decreases lines@.len() - n,
        {
            let line = lines[n];
            proof {
                assert(all.take(n + 1).drop_last() =~= all.take(n as int));
                assert(all.take(n + 1).last() == line@);
                lemma_table(entry_names(entries@), entry_parts(entries@));
            }
            let (instrument, steps, amplitude) = match parse_track(line) {
                Some((_, track)) => track,
                None => {
                    proof {
                        lemma_pattern_of_fails(all, n + 1);
                    }
                    return Err(Error::ParseError(slice_to_vec(line)));
                },
            };
            if position(&entries, &instrument).is_some() {
                proof {
                    lemma_pattern_of_fails(all, n + 1);
                }
                return Err(Error::DuplicatePatternError(slice_to_vec(line)));
            }
            let ghost before = entries@;
            let ghost name = instrument@;
            entries.push((instrument, (steps, amplitude)));
            proof {
                assert(entry_names(entries@) =~= entry_names(before).push(name));
                assert(entry_names(entries@).drop_last() =~= entry_names(before));
                assert(entry_parts(entries@).drop_last() =~= entry_parts(before));
                lemma_apart_push(entry_names(before), name);
            }
            n += 1;
        }
        assert(all.take(n as int) =~= all);
        Ok(Pattern(entries))
    }

    /// Returns the step sequence and amplitude associated with the
    /// instrument given.
    pub fn get(&self, i: &Instrument) -> (part: Option<&(Steps, Amplitude)>)
        ensures
            match part {
                Some(part) => self@.contains_key(i@) && self@[i@] == part_view(*part),
                None => !self@.contains_key(i@),
            },
    {
        proof {
            use_type_invariant(self);
            lemma_table(entry_names(self.0@), entry_parts(self.0@));
        }
        match position(&self.0, i) {
            Some(n) => Some(&self.0[n].1),
            None => None,
        }
    }

    /// Returns the tracks of the pattern: each instrument once, and with
    /// it what it plays.
    pub fn into_iter(self) -> (entries: Vec<Entry>)
        ensures
            entries_view(entries@) == self@,
            apart(entry_names(entries@)),
    {
        proof {
            use_type_invariant(&self);
        }
        self.0
    }
}

} // verus!
