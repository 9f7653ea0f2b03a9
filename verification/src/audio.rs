//! Binding a pattern to sample files, and the timing of playback.

use crate::instrumentation::{
    entries_view, entry_names, entry_samples, is_bound, names, sounds, Entry, Instrumentation,
    InstrumentationModel, SampleFile,
};
use crate::number::unit;
use crate::pattern::{
    is_part, part_view, silence, trailing_silent, union_of, Amplitude, Instrument, Part, Pattern,
    PatternModel, Steps, BEATS_PER_MEASURE, STEPS_PER_MEASURE,
};
use crate::table::{apart, lemma_table, table};
use vstd::prelude::*;

verus! {

/// Represents the playback tempo (beats per minute).
#[derive(Debug, PartialEq, Eq, Hash)]
pub struct Tempo(pub u16);

impl From<u16> for Tempo {
    #[inline]
    fn from(v: u16) -> (tempo: Tempo) {
        Tempo(v)
    }
}

impl vstd::std_specs::convert::FromSpecImpl<u16> for Tempo {
    open spec fn obeys_from_spec() -> bool {
        true
    }

    open spec fn from_spec(v: u16) -> Tempo {
        Tempo(v)
    }
}

/// A type that represents the fully bound and reduced tracks of a pattern:
/// each sample file with what it plays.
pub type Tracks = Vec<(SampleFile, (Steps, Amplitude))>;

/// The paths of the sample files of some tracks.
pub open spec fn track_files(tracks: Seq<(SampleFile, (Steps, Amplitude))>) -> Seq<Seq<u8>> {
    Seq::new(tracks.len(), |i: int| tracks[i].0@)
}

/// What each of some tracks plays.
pub open spec fn track_parts(tracks: Seq<(SampleFile, (Steps, Amplitude))>) -> Seq<Part> {
    Seq::new(tracks.len(), |i: int| part_view(tracks[i].1))
}

/// What some tracks hold: for the path of each sample file, what the file
/// plays.
pub open spec fn tracks_view(tracks: Seq<(SampleFile, (Steps, Amplitude))>) -> Map<Seq<u8>, Part> {
    table(track_files(tracks), track_parts(tracks))
}

/// The names of the given instruments, in order.
spec fn name_list(instruments: Seq<Instrument>) -> Seq<Seq<u8>> {
    Seq::new(instruments.len(), |i: int| instruments[i]@)
}

/// The names of the instruments of the given entries, in order.
spec fn all_names(entries: Seq<Entry>) -> Seq<Seq<u8>>
    decreases entries.len(),
{
    if entries.len() == 0 {
        Seq::empty()
    } else {
        all_names(entries.drop_last()) + name_list(entries.last().1@)
    }
}

/// Whether an instrument of a pattern plays on a step.
pub open spec fn hit(pattern: PatternModel, instrument: Seq<u8>, step: int) -> bool {
    &&& pattern.contains_key(instrument)
    &&& 0 <= step < pattern[instrument].steps.len()
    &&& pattern[instrument].steps[step]
}

/// The steps of the track of some instruments: a step plays where it plays
/// for one of the instruments in the pattern.
pub open spec fn track_steps(pattern: PatternModel, instruments: Set<Seq<u8>>) -> Seq<bool> {
    Seq::new(
        STEPS_PER_MEASURE as nat,
        |step: int|
            exists|instrument: Seq<u8>|
                instruments.contains(instrument) && #[trigger] hit(pattern, instrument, step),
    )
}

/// Whether an amplitude is the least among the full volume and the
/// amplitudes that the pattern gives the instruments.
pub open spec fn is_track_amplitude(
    pattern: PatternModel,
    instruments: Set<Seq<u8>>,
    amplitude: nat,
) -> bool {
    &&& amplitude <= unit()
    &&& forall|instrument: Seq<u8>|
        instruments.contains(instrument) && #[trigger] pattern.contains_key(instrument)
            ==> amplitude <= pattern[instrument].amplitude
    &&& amplitude == unit() || exists|instrument: Seq<u8>|
        instruments.contains(instrument) && #[trigger] pattern.contains_key(instrument)
            && pattern[instrument].amplitude == amplitude
}

/// The amplitude of the track of some instruments: the least of the
/// amplitudes that the pattern gives them, and the full volume where it
/// gives none.
pub open spec fn track_amplitude(pattern: PatternModel, instruments: Set<Seq<u8>>) -> nat {
    choose|amplitude: nat| is_track_amplitude(pattern, instruments, amplitude)
}

/// The track of some instruments: what a sample file plays that sounds
/// them all.
pub open spec fn track(pattern: PatternModel, instruments: Set<Seq<u8>>) -> Part {
    Part {
        steps: track_steps(pattern, instruments),
        amplitude: track_amplitude(pattern, instruments),
    }
}

/// The tracks of a pattern under an instrumentation: for each sample file
/// the track of the instruments that it sounds.
pub open spec fn bound_tracks(
    pattern: PatternModel,
    instrumentation: InstrumentationModel,
) -> Map<Seq<u8>, Part> {
    Map::new(
        |sample: Seq<u8>| instrumentation.contains_key(sample),
        |sample: Seq<u8>| track(pattern, instrumentation[sample]),
    )
}

/// The steps on which any track of a pattern under an instrumentation
/// plays.
pub open spec fn aggregate_steps(
    pattern: PatternModel,
    instrumentation: InstrumentationModel,
) -> Seq<bool> {
    track_steps(pattern, Set::new(|instrument: Seq<u8>| is_bound(instrumentation, instrument)))
}

/// The lesser of two amplitudes.
pub open spec fn lesser(a: nat, b: nat) -> nat {
    if a <= b {
        a
    } else {
        b
    }
}

/// What a list of instruments reduces to, one after the other: the union
/// of their steps in the pattern and the least of their amplitudes,
/// beginning with silence at full volume. An instrument that the pattern
/// does not hold changes nothing.
pub open spec fn reduce(pattern: PatternModel, instruments: Seq<Seq<u8>>) -> Part
    decreases instruments.len(),
{
    if instruments.len() == 0 {
        Part { steps: silence(), amplitude: unit() }
    } else {
        let before = reduce(pattern, instruments.drop_last());
        let instrument = instruments.last();
        if pattern.contains_key(instrument) {
            Part {
                steps: union_of(before.steps, pattern[instrument].steps),
                amplitude: lesser(before.amplitude, pattern[instrument].amplitude),
            }
        } else {
            before
        }
    }
}

/// No two amplitudes are the least for the same instruments.
pub proof fn lemma_track_amplitude_unique(
    pattern: PatternModel,
    instruments: Set<Seq<u8>>,
    a: nat,
    b: nat,
)
    requires
        is_track_amplitude(pattern, instruments, a),
        is_track_amplitude(pattern, instruments, b),
    ensures
        a == b,
{
    if a != unit() {
        let i = choose|i: Seq<u8>|
            instruments.contains(i) && #[trigger] pattern.contains_key(i) && pattern[i].amplitude
                == a;
        assert(b <= pattern[i].amplitude);
    }
    if b != unit() {
        let i = choose|i: Seq<u8>|
            instruments.contains(i) && #[trigger] pattern.contains_key(i) && pattern[i].amplitude
                == b;
        assert(a <= pattern[i].amplitude);
    }
}

/// Reducing a list of instruments gives the track of the instruments in it.
pub proof fn lemma_reduce(pattern: PatternModel, instruments: Seq<Seq<u8>>)
    ensures
        reduce(pattern, instruments) == track(pattern, instruments.to_set()),
        is_track_amplitude(pattern, instruments.to_set(), reduce(pattern, instruments).amplitude),
    decreases instruments.len(),
{
    let all = instruments.to_set();
    let reduced = reduce(pattern, instruments);
    if instruments.len() == 0 {
        assert(reduced.steps =~= track_steps(pattern, all));
        assert(is_track_amplitude(pattern, all, reduced.amplitude));
    } else {
        let first = instruments.drop_last();
        let before = reduce(pattern, first);
        let last = instruments.last();
        lemma_reduce(pattern, first);
        assert forall|i: Seq<u8>| all.contains(i) <==> first.to_set().contains(i) || i == last by {
            if all.contains(i) {
                let k = choose|k: int| 0 <= k < instruments.len() && instruments[k] == i;
                if k < first.len() {
                    assert(first[k] == i);
                }
            }
            if first.to_set().contains(i) {
                let k = choose|k: int| 0 <= k < first.len() && first[k] == i;
                assert(instruments[k] == i);
            }
            if i == last {
                assert(instruments[instruments.len() - 1] == i);
            }
        }
        assert forall|step: int| 0 <= step < STEPS_PER_MEASURE implies reduced.steps[step]
            == track_steps(pattern, all)[step] by {
            if track_steps(pattern, all)[step] {
                let i = choose|i: Seq<u8>| all.contains(i) && #[trigger] hit(pattern, i, step);
                if i != last {
                    assert(first.to_set().contains(i) && hit(pattern, i, step));
                }
            }
            if before.steps[step] {
                let i = choose|i: Seq<u8>|
                    first.to_set().contains(i) && #[trigger] hit(pattern, i, step);
                assert(all.contains(i) && hit(pattern, i, step));
            }
            if hit(pattern, last, step) {
                assert(all.contains(last) && hit(pattern, last, step));
            }
        }
        assert(reduced.steps =~= track_steps(pattern, all));
        assert(is_track_amplitude(pattern, all, reduced.amplitude)) by {
            if before.amplitude != unit() {
                let i = choose|i: Seq<u8>|
                    first.to_set().contains(i) && #[trigger] pattern.contains_key(i)
                        && pattern[i].amplitude == before.amplitude;
                assert(all.contains(i) && pattern.contains_key(i));
            }
            if pattern.contains_key(last) {
                assert(all.contains(last) && pattern.contains_key(last));
            }
        }
    }
    let least = track_amplitude(pattern, all);
    lemma_track_amplitude_unique(pattern, all, least, reduced.amplitude);
}

/// The track of a sample file that sounds one instrument of the pattern is
/// what the pattern gives the instrument, unchanged.
pub proof fn lemma_track_of_one(pattern: PatternModel, instrument: Seq<u8>)
    requires
        pattern.contains_key(instrument),
        is_part(pattern[instrument]),
    ensures
        track(pattern, set![instrument]) == pattern[instrument],
{
    let one = seq![instrument];
    lemma_reduce(pattern, one);
    assert(one.drop_last() =~= Seq::<Seq<u8>>::empty());
    assert(one.to_set() =~= set![instrument]) by {
        assert forall|name: Seq<u8>| one.to_set().contains(name) <==> set![instrument].contains(
            name,
        ) by {
            if name == instrument {
                assert(one[0] == name);
            }
        }
    }
    assert(reduce(pattern, one).steps =~= pattern[instrument].steps);
}

/// The track of a sample file that sounds two instruments of the pattern
/// has the union of their steps and the lesser of their amplitudes.
pub proof fn lemma_track_of_two(pattern: PatternModel, first: Seq<u8>, second: Seq<u8>)
    requires
        pattern.contains_key(first),
        pattern.contains_key(second),
        is_part(pattern[first]),
        is_part(pattern[second]),
    ensures
        track(pattern, set![first, second]) == (Part {
            steps: union_of(pattern[first].steps, pattern[second].steps),
            amplitude: lesser(pattern[first].amplitude, pattern[second].amplitude),
        }),
{
    let two = seq![first, second];
    lemma_reduce(pattern, two);
    assert(two.drop_last() =~= seq![first]);
    assert(seq![first].drop_last() =~= Seq::<Seq<u8>>::empty());
    assert(two.to_set() =~= set![first, second]) by {
        assert forall|name: Seq<u8>| two.to_set().contains(name) <==> set![
            first,
            second,
        ].contains(name) by {
            if name == first {
                assert(two[0] == name);
            }
            if name == second {
                assert(two[1] == name);
            }
        }
    }
    let none = reduce(pattern, Seq::<Seq<u8>>::empty());
    let one = reduce(pattern, seq![first]);
    assert(none.steps == silence() && none.amplitude == unit());
    assert(seq![first].last() == first);
    assert(one.steps == union_of(none.steps, pattern[first].steps));
    assert(one.steps =~= pattern[first].steps);
    assert(two.last() == second);
    assert(reduce(pattern, two).steps =~= union_of(pattern[first].steps, pattern[second].steps));
}

/// The steps on which any track plays are the union of the steps of the
/// tracks: one of them plays if and only if it plays in the track of some
/// sample file.
pub proof fn lemma_aggregate_steps(pattern: PatternModel, instrumentation: InstrumentationModel)
    ensures
        aggregate_steps(pattern, instrumentation).len() == STEPS_PER_MEASURE,
        forall|step: int|
            0 <= step < STEPS_PER_MEASURE ==> (#[trigger] aggregate_steps(
                pattern,
                instrumentation,
            )[step] <==> exists|sample: Seq<u8>|
                instrumentation.contains_key(sample) && (#[trigger] bound_tracks(
                    pattern,
                    instrumentation,
                )[sample]).steps[step]),
{
    let all = Set::new(|instrument: Seq<u8>| is_bound(instrumentation, instrument));
    let tracks = bound_tracks(pattern, instrumentation);
    assert forall|step: int| 0 <= step < STEPS_PER_MEASURE implies (#[trigger] aggregate_steps(
        pattern,
        instrumentation,
    )[step] <==> exists|sample: Seq<u8>|
        instrumentation.contains_key(sample) && (#[trigger] tracks[sample]).steps[step]) by {
        if aggregate_steps(pattern, instrumentation)[step] {
            let instrument = choose|instrument: Seq<u8>|
                all.contains(instrument) && #[trigger] hit(pattern, instrument, step);
            let sample = choose|sample: Seq<u8>| sounds(instrumentation, sample, instrument);
            assert(instrumentation[sample].contains(instrument) && hit(pattern, instrument, step));
            assert(tracks[sample].steps[step]);
        }
        if exists|sample: Seq<u8>|
            instrumentation.contains_key(sample) && (#[trigger] tracks[sample]).steps[step] {
            let sample = choose|sample: Seq<u8>|
                instrumentation.contains_key(sample) && (#[trigger] tracks[sample]).steps[step];
            let instrument = choose|instrument: Seq<u8>|
                instrumentation[sample].contains(instrument) && #[trigger] hit(
                    pattern,
                    instrument,
                    step,
                );
            assert(sounds(instrumentation, sample, instrument));
            assert(all.contains(instrument) && hit(pattern, instrument, step));
        }
    }
}

/// Reducing the instruments of a sample file in another order, or with
/// some of them repeated, gives the same track.
pub proof fn lemma_reduce_reordered(
    pattern: PatternModel,
    instruments: Seq<Seq<u8>>,
    reordered: Seq<Seq<u8>>,
)
    requires
        instruments.to_set() == reordered.to_set(),
    ensures
        reduce(pattern, instruments) == reduce(pattern, reordered),
{
    lemma_reduce(pattern, instruments);
    lemma_reduce(pattern, reordered);
}

/// The names in a list of instruments are the names of the instruments.
proof fn lemma_name_list(instruments: Seq<Instrument>)
    ensures
        name_list(instruments).to_set() == names(instruments),
{
    let list = name_list(instruments);
    assert forall|name: Seq<u8>| list.to_set().contains(name) <==> names(instruments).contains(
        name,
    ) by {
        if list.to_set().contains(name) {
            let i = choose|i: int| 0 <= i < list.len() && list[i] == name;
            assert(instruments[i]@ == name);
        }
        if names(instruments).contains(name) {
            let i = choose|i: int|
                0 <= i < instruments.len() && (#[trigger] instruments[i])@ == name;
            assert(list[i] == name);
        }
    }
    assert(list.to_set() =~= names(instruments));
}

/// Reducing two lists of instruments, one after the other, unites the
/// steps of the two.
proof fn lemma_reduce_both(pattern: PatternModel, first: Seq<Seq<u8>>, second: Seq<Seq<u8>>)
    ensures
        reduce(pattern, first + second).steps == union_of(
            reduce(pattern, first).steps,
            reduce(pattern, second).steps,
        ),
        reduce(pattern, first).steps.len() == STEPS_PER_MEASURE,
    decreases second.len(),
{
    lemma_reduce(pattern, first);
    lemma_reduce(pattern, second);
    if second.len() == 0 {
        assert(first + second =~= first);
        assert(reduce(pattern, first).steps =~= union_of(
            reduce(pattern, first).steps,
            reduce(pattern, second).steps,
        ));
    } else {
        assert((first + second).drop_last() =~= first + second.drop_last());
        lemma_reduce_both(pattern, first, second.drop_last());
        lemma_reduce(pattern, second.drop_last());
        assert(reduce(pattern, first + second).steps =~= union_of(
            reduce(pattern, first).steps,
            reduce(pattern, second).steps,
        ));
    }
}

/// The name of each instrument of each entry is among the names of the
/// entries.
proof fn lemma_named(entries: Seq<Entry>, i: int, k: int)
    requires
        0 <= i < entries.len(),
        0 <= k < entries[i].1@.len(),
    ensures
        all_names(entries).contains(entries[i].1@[k]@),
    decreases entries.len(),
{
    let n = entries.len() - 1;
    let first = all_names(entries.drop_last());
    let list = name_list(entries.last().1@);
    if i < n {
        lemma_named(entries.drop_last(), i, k);
        let at = choose|at: int| 0 <= at < first.len() && first[at] == entries[i].1@[k]@;
        assert(all_names(entries)[at] == entries[i].1@[k]@);
    } else {
        assert(all_names(entries)[first.len() + k] == list[k]);
    }
}

/// Each of the names of the entries is the name of an instrument of an
/// entry.
proof fn lemma_name_source(entries: Seq<Entry>, at: int) -> (found: (int, int))
    requires
        0 <= at < all_names(entries).len(),
    ensures
        0 <= found.0 < entries.len(),
        0 <= found.1 < entries[found.0].1@.len(),
        entries[found.0].1@[found.1]@ == all_names(entries)[at],
    decreases entries.len(),
{
    let n = entries.len() - 1;
    let first = all_names(entries.drop_last());
    if at < first.len() {
        lemma_name_source(entries.drop_last(), at)
    } else {
        (n, at - first.len())
    }
}

/// The instruments named among the entries are those that the
/// instrumentation of the entries binds.
proof fn lemma_all_names(entries: Seq<Entry>)
    requires
        apart(entry_samples(entries)),
    ensures
        all_names(entries).to_set() == Set::new(
            |instrument: Seq<u8>| is_bound(entries_view(entries), instrument),
        ),
{
    let samples = entry_samples(entries);
    let sets = entry_names(entries);
    lemma_table(samples, sets);
    let bindings = entries_view(entries);
    assert forall|name: Seq<u8>| all_names(entries).to_set().contains(name) <==> is_bound(
        bindings,
        name,
    ) by {
        if all_names(entries).contains(name) {
            let at = choose|at: int|
                0 <= at < all_names(entries).len() && all_names(entries)[at] == name;
            let (i, k) = lemma_name_source(entries, at);
            assert(sets[i].contains(name));
            assert(samples.contains(samples[i]));
            assert(sounds(bindings, samples[i], name));
        }
        if is_bound(bindings, name) {
            let sample = choose|sample: Seq<u8>| sounds(bindings, sample, name);
            let i = choose|i: int| 0 <= i < samples.len() && samples[i] == sample;
            assert(sets[i].contains(name));
            let k = choose|k: int|
                0 <= k < entries[i].1@.len() && (#[trigger] entries[i].1@[k])@ == name;
            lemma_named(entries, i, k);
        }
    }
    assert(all_names(entries).to_set() =~= Set::new(
        |instrument: Seq<u8>| is_bound(bindings, instrument),
    ));
}

/// Reduces the instruments of one sample file to the file's track, and
/// adds what they play to the steps on which any track plays.
fn reduce_track(
    pattern: &Pattern,
    instruments: &Vec<Instrument>,
    aggregate: &mut Steps,
) -> (reduced: (Steps, Amplitude))
    requires
        old(aggregate)@.len() == STEPS_PER_MEASURE,
    ensures
        part_view(reduced) == reduce(pattern@, name_list(instruments@)),
        final(aggregate)@ == union_of(old(aggregate)@, reduced.0@),
{
    let mut steps = Steps::zeros();
    let mut amplitude = Amplitude::max();
    let mut n: usize = 0;
    assert(name_list(instruments@).take(0) =~= Seq::<Seq<u8>>::empty());
    assert(aggregate@ =~= union_of(old(aggregate)@, steps@));
    while n < instruments.len()
        invariant
            n <= instruments@.len(),
            old(aggregate)@.len() == STEPS_PER_MEASURE,
            part_view((steps, amplitude)) == reduce(
                pattern@,
                name_list(instruments@).take(n as int),
            ),
            steps@.len() == STEPS_PER_MEASURE,
            aggregate@ == union_of(old(aggregate)@, steps@),
        decreases instruments@.len() - n,
    {
        let ghost list = name_list(instruments@);
        let ghost was = steps@;
        let ghost heard = aggregate@;
        assert(list.take(n + 1).drop_last() =~= list.take(n as int));
        assert(list.take(n + 1).last() == instruments@[n as int]@);
        if let Some(part) = pattern.get(&instruments[n]) {
            // update the aggregate step sequence
            aggregate.union(&part.0);
            // update the track's step sequence and amplitude
            steps.union(&part.0);
            amplitude = amplitude.min(&part.1);
            assert(aggregate@ =~= union_of(old(aggregate)@, steps@));
        }
        n += 1;
    }
    assert(name_list(instruments@).take(n as int) =~= name_list(instruments@));
    (steps, amplitude)
}

/// Binds a pattern's step sequences to audio files. Any sequences bound to
/// the same audio file will be unioned. The smallest amplitude for
/// instruments bound to the same audio file will be used. Returns the
/// tracks, each sample file once, and the steps on which any of them plays.
pub fn bind_tracks(pattern: Pattern, instrumentation: Instrumentation) -> (bound: (Tracks, Steps))
    ensures
        tracks_view(bound.0@) == bound_tracks(pattern@, instrumentation@),
        apart(track_files(bound.0@)),
        forall|sample: Seq<u8>| #[trigger]
            instrumentation@.contains_key(sample) ==> is_track_amplitude(
                pattern@,
                instrumentation@[sample],
                tracks_view(bound.0@)[sample].amplitude,
            ),
        bound.1@ == aggregate_steps(pattern@, instrumentation@),
{
    let mut aggregate_steps = Steps::zeros();
    let mut tracks: Tracks = Vec::new();
    let entries = instrumentation.into_iter();
    let mut n: usize = 0;
    assert(entries@.take(0) =~= Seq::<Entry>::empty());
    while n < entries.len()
        invariant
            n <= entries@.len(),
            tracks@.len() == n,
            forall|i: int|
                0 <= i < n ==> (#[trigger] tracks@[i]).0@ == entries@[i].0@ && part_view(
                    tracks@[i].1,
                ) == reduce(pattern@, name_list(entries@[i].1@)),
            aggregate_steps@ == reduce(pattern@, all_names(entries@.take(n as int))).steps,
            aggregate_steps@.len() == STEPS_PER_MEASURE,
        decreases entries@.len() - n,
    {
        let ghost heard = all_names(entries@.take(n as int));
        let simplified_steps = reduce_track(&pattern, &entries[n].1, &mut aggregate_steps);
        proof {
            assert(entries@.take(n + 1).drop_last() =~= entries@.take(n as int));
            assert(entries@.take(n + 1).last() == entries@[n as int]);
            lemma_reduce_both(pattern@, heard, name_list(entries@[n as int].1@));
        }
        tracks.push((SampleFile::new(entries[n].0.path()), simplified_steps));
        n += 1;
    }
    proof {
        assert(entries@.take(n as int) =~= entries@);
        lemma_reduce(pattern@, all_names(entries@));
        lemma_all_names(entries@);
        let samples = entry_samples(entries@);
        let sets = entry_names(entries@);
        let files = track_files(tracks@);
        let parts = track_parts(tracks@);
        lemma_table(samples, sets);
        lemma_table(files, parts);
        assert(files =~= samples);
        let made = tracks_view(tracks@);
        let wanted = bound_tracks(pattern@, instrumentation@);
        assert forall|sample: Seq<u8>| made.contains_key(sample) implies made[sample]
            == wanted[sample] by {
            let i = choose|i: int| 0 <= i < files.len() && files[i] == sample;
            assert(made[files[i]] == parts[i]);
            assert(instrumentation@[samples[i]] == sets[i]);
            assert(tracks@[i].0@ == entries@[i].0@);
            lemma_reduce(pattern@, name_list(entries@[i].1@));
            lemma_name_list(entries@[i].1@);
        }
        assert(made =~= wanted);
        assert forall|sample: Seq<u8>| #[trigger]
            instrumentation@.contains_key(sample) implies is_track_amplitude(
            pattern@,
            instrumentation@[sample],
            made[sample].amplitude,
        ) by {
            let i = choose|i: int| 0 <= i < samples.len() && samples[i] == sample;
            assert(instrumentation@[samples[i]] == sets[i]);
            lemma_reduce(pattern@, name_list(entries@[i].1@));
            lemma_name_list(entries@[i].1@);
        }
    }
    (tracks, aggregate_steps)
}

/// The nanoseconds in a minute.
pub const NANOS_PER_MINUTE: u64 = 60_000_000_000;

/// The tempo at which the delay factor is nought, and above which it is
/// negative.
pub const FACTOR_ZERO: u16 = 240;

/// The number of parts that the delay factor is counted in.
pub const FACTOR_PARTS: u16 = 120;

/// The nanoseconds that a measure of four beats lasts at a tempo, rounded
/// down: the 240 seconds that it lasts at one beat per minute, by the tempo.
pub open spec fn measure_nanos(bpm: nat) -> nat
    recommends
        bpm > 0,
{
    (NANOS_PER_MINUTE as nat) * (BEATS_PER_MEASURE as nat) / bpm
}

/// The nanoseconds that a step lasts at a tempo: a sixteenth of a measure,
/// rounded down.
pub open spec fn step_nanos(bpm: nat) -> nat
    recommends
        bpm > 0,
{
    measure_nanos(bpm) / (STEPS_PER_MEASURE as nat)
}

/// The factor by which a step is scaled for the padding of a loop, in
/// hundred-and-twentieths: 2 - bpm / 120 is (240 - bpm) / 120.
pub open spec fn factor_parts(bpm: nat) -> int {
    FACTOR_ZERO - bpm
}

/// The nanoseconds that a step lasts at a tempo, scaled by the delay
/// factor and rounded towards nought. Negative above 240 beats per minute.
pub open spec fn scaled_step_nanos(bpm: nat) -> int
    recommends
        bpm > 0,
{
    if bpm <= FACTOR_ZERO {
        step_nanos(bpm) * (FACTOR_ZERO - bpm) / (FACTOR_PARTS as int)
    } else {
        -(step_nanos(bpm) * (bpm - FACTOR_ZERO) / (FACTOR_PARTS as int))
    }
}

/// The nanoseconds by which a looped measure is delayed at its start: the
/// scaled step for each silent step at the end of the measure.
pub open spec fn pad_nanos(bpm: nat, trailing_silent_steps: nat) -> int
    recommends
        bpm > 0,
{
    scaled_step_nanos(bpm) * trailing_silent_steps
}

/// The delays, in nanoseconds from the start of the measure, of the steps
/// that play, in order: a step's delay is its position times the length of
/// a step.
pub open spec fn delays_of(step: nat, steps: Seq<bool>) -> Seq<nat>
    decreases steps.len(),
{
    if steps.len() == 0 {
        Seq::empty()
    } else if steps.last() {
        delays_of(step, steps.drop_last()).push(step * (steps.len() - 1) as nat)
    } else {
        delays_of(step, steps.drop_last())
    }
}

/// The numbers of a list of delays.
pub open spec fn delay_values(delays: Seq<u64>) -> Seq<nat> {
    Seq::new(delays.len(), |i: int| delays[i] as nat)
}

/// Computes the duration of a measure, in nanoseconds.
pub fn measure_duration(tempo: &Tempo) -> (nanos: u64)
    requires
        tempo.0 > 0,
    ensures
        nanos == measure_nanos(tempo.0 as nat),
        nanos <= 240_000_000_000,
{
    let bpm = tempo.0 as u64;
    let measure_at_one = NANOS_PER_MINUTE * (BEATS_PER_MEASURE as u64);
    assert(measure_at_one as int / bpm as int <= measure_at_one) by (nonlinear_arith)
        requires
            bpm >= 1,
    ;
    measure_at_one / bpm
}

/// Computes the duration of a step, in nanoseconds.
pub fn step_duration(tempo: &Tempo) -> (nanos: u64)
    requires
        tempo.0 > 0,
    ensures
        nanos == step_nanos(tempo.0 as nat),
        nanos <= 15_000_000_000,
{
    let measure = measure_duration(tempo);
    assert(measure as int / 16 <= 15_000_000_000) by (nonlinear_arith)
        requires
            measure <= 240_000_000_000,
    ;
    measure / (STEPS_PER_MEASURE as u64)
}

/// Computes a factor necessary for delay-padding a mix played on repeat, in
/// hundred-and-twentieths.
pub fn delay_factor(tempo: &Tempo) -> (parts: i32)
    ensures
        parts == factor_parts(tempo.0 as nat),
{
    FACTOR_ZERO as i32 - tempo.0 as i32
}

/// Computes the duration to delay a mix with trailing silence when played
/// on repeat, in nanoseconds. This is necessary so that playback of the
/// next iteration begins at the end of the current iteration's measure
/// instead of after its final non-silent step. Above 240 beats per minute
/// the factor is negative, and so is the result.
pub fn delay_pad_duration(tempo: &Tempo, trailing_silent_steps: usize) -> (nanos: i64)
    requires
        tempo.0 > 0,
        trailing_silent_steps <= STEPS_PER_MEASURE,
    ensures
        nanos == pad_nanos(tempo.0 as nat, trailing_silent_steps as nat),
        nanos < 0 ==> tempo.0 > FACTOR_ZERO,
{
    let step = step_duration(tempo);
    let parts = delay_factor(tempo);
    let count = trailing_silent_steps as i64;
    let magnitude = if parts >= 0 {
        parts as u64
    } else {
        (-parts) as u64
    };
    assert(0 <= step * magnitude <= 15_000_000_000 * 65_535) by (nonlinear_arith)
        requires
            step <= 15_000_000_000,
            magnitude <= 65_535,
    ;
    let product = step * magnitude;
    assert(0 <= product as int / 120 <= 8_200_000_000_000) by (nonlinear_arith)
        requires
            product <= 15_000_000_000 * 65_535,
    ;
    let scaled = (product / (FACTOR_PARTS as u64)) as i64;
    assert(0 <= scaled * count <= 8_200_000_000_000 * 16) by (nonlinear_arith)
        requires
            0 <= scaled <= 8_200_000_000_000,
            0 <= count <= 16,
    ;
    if parts >= 0 {
        scaled * count
    } else {
        assert((-scaled) * count == -(scaled * count)) by (nonlinear_arith);
        -(scaled * count)
    }
}

/// Computes the delay of each step of a track that plays, in nanoseconds
/// from the start of the measure and in order.
pub fn trigger_delays(tempo: &Tempo, steps: &Steps) -> (delays: Vec<u64>)
    requires
        tempo.0 > 0,
    ensures
        delay_values(delays@) == delays_of(step_nanos(tempo.0 as nat), steps@),
{
    let step = step_duration(tempo);
    let plays = steps.iter();
    let mut delays: Vec<u64> = Vec::new();
    let mut n: usize = 0;
    assert(plays@.take(0) =~= Seq::<bool>::empty());
    assert(delay_values(delays@) =~= Seq::<nat>::empty());
    while n < plays.len()
        invariant
            n <= plays@.len(),
            plays@.len() == STEPS_PER_MEASURE,
            step <= 15_000_000_000,
            delay_values(delays@) == delays_of(step as nat, plays@.take(n as int)),
        decreases plays@.len() - n,
    {
        let ghost before = delay_values(delays@);
        assert(plays@.take(n + 1).drop_last() =~= plays@.take(n as int));
        if plays[n] {
            assert(step * n <= 15_000_000_000 * 16) by (nonlinear_arith)
                requires
                    step <= 15_000_000_000,
                    n <= 16,
            ;
            delays.push(step * (n as u64));
            assert(delay_values(delays@) =~= before.push((step * n) as nat));
        }
        n += 1;
    }
    assert(plays@.take(n as int) =~= plays@);
    delays
}

/// How a mix is rendered on the audio device.
#[derive(Debug, PartialEq, Eq)]
pub enum Playback {
    /// The mix plays once, as it is, while the caller waits for the length
    /// of one measure, in nanoseconds.
    Once { wait: u64 },
    /// The mix is delayed by `pad` nanoseconds, cut to the length of one
    /// measure, in nanoseconds, and repeated without end.
    Repeat { pad: i64, measure: u64 },
}

/// Plans the playback of a mix, once or on repeat, from the tempo and from
/// the steps on which any of its tracks plays: the trailing silence of
/// these gives the delay of a repeated mix.
pub fn playback(tempo: &Tempo, aggregate_steps: &Steps, repeat: bool) -> (plan: Playback)
    requires
        tempo.0 > 0,
    ensures
        match plan {
            Playback::Once { wait } => !repeat && wait == measure_nanos(tempo.0 as nat),
            Playback::Repeat { pad, measure } => {
                &&& repeat
                &&& pad == pad_nanos(tempo.0 as nat, trailing_silent(aggregate_steps@))
                &&& measure == measure_nanos(tempo.0 as nat)
            },
        },
{
    if repeat {
        // compute the amount of trailing silence
        let trailing_silence = aggregate_steps.trailing_silent_steps();
        Playback::Repeat {
            pad: delay_pad_duration(tempo, trailing_silence),
            measure: measure_duration(tempo),
        }
    } else {
        Playback::Once { wait: measure_duration(tempo) }
    }
}

} // verus!
