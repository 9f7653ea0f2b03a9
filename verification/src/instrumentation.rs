//! Instrumentations: which sample file sounds which instruments.

use crate::error::{Error, Failure};
use crate::pattern::{after_blanks, instrument_field, skip_blanks, Instrument};
use crate::table::{apart, lemma_apart_push, lemma_table, table};
use crate::text::{lines_of, run, same_bytes, scan, split_lines, views, Class};
use vstd::prelude::*;
use vstd::slice::slice_to_vec;

verus! {

/// The byte that parts the names of a path: `/`.
pub const SLASH: u8 = 0x2f;

/// Represents the location of an audio sample file.
#[derive(Debug, PartialEq, Eq, Hash)]
pub struct SampleFile(pub Vec<u8>);

impl View for SampleFile {
    type V = Seq<u8>;

    open spec fn view(&self) -> Seq<u8> {
        self.0@
    }
}

/// The path `path` as seen from the directory `parent`: `path` itself where
/// it begins at the root, else `parent`, a slash unless `parent` is empty or
/// ends with one, and `path`.
pub open spec fn joined(parent: Seq<u8>, path: Seq<u8>) -> Seq<u8> {
    if path.len() > 0 && path[0] == SLASH {
        path
    } else if parent.len() == 0 || parent.last() == SLASH {
        parent + path
    } else {
        parent.push(SLASH) + path
    }
}

/// Appends bytes to a byte string.
fn append(bytes: &mut Vec<u8>, more: &[u8])
    ensures
        final(bytes)@ == old(bytes)@ + more@,
{
    let mut n: usize = 0;
    assert(bytes@ =~= old(bytes)@ + more@.take(0));
    while n < more.len()
        invariant
            n <= more@.len(),
            bytes@ == old(bytes)@ + more@.take(n as int),
        decreases more@.len() - n,
    {
        bytes.push(more[n]);
        assert(bytes@ =~= old(bytes)@ + more@.take(n + 1));
        n += 1;
    }
    assert(more@.take(n as int) =~= more@);
}

impl SampleFile {
    /// Makes the sample file of the given path.
    pub fn new(path: &[u8]) -> (file: SampleFile)
        ensures
            file@ == path@,
    {
        SampleFile(slice_to_vec(path))
    }

    /// Returns the path of the sample file.
    pub fn path(&self) -> (path: &[u8])
        ensures
            path@ == self@,
    {
        self.0.as_slice()
    }

    /// Tells whether two sample files have the same path.
    pub fn is(&self, other: &SampleFile) -> (same: bool)
        ensures
            same == (self@ == other@),
    {
        same_bytes(self.0.as_slice(), other.0.as_slice())
    }

    /// Returns a sample file whose path is the result of prepending the
    /// parent path given to this sample file's path.
    pub fn join(&self, parent: &[u8]) -> (file: SampleFile)
        ensures
            file@ == joined(parent@, self@),
    {
        let mut path: Vec<u8> = Vec::new();
        if self.0.len() > 0 && self.0[0] == SLASH {
            append(&mut path, self.0.as_slice());
            assert(path@ =~= self@);
        } else {
            append(&mut path, parent);
            if parent.len() > 0 && parent[parent.len() - 1] != SLASH {
                path.push(SLASH);
            }
            append(&mut path, self.0.as_slice());
            assert(path@ =~= joined(parent@, self@));
        }
        SampleFile(path)
    }

    /// Returns a sample file whose path is the result of prepending the
    /// parent path given to this sample file's path, if the parent is a
    /// directory and the resulting path is a file, as the caller has found.
    pub fn with_parent(&self, parent: &[u8], parent_is_dir: bool, is_file: bool) -> (found: Result<
        SampleFile,
        Error,
    >)
        ensures
            match found {
                Ok(file) => parent_is_dir && is_file && file@ == joined(parent@, self@),
                Err(error) => !(parent_is_dir && is_file) && error@ == Failure::FileDoesNotExist(
                    joined(parent@, self@),
                ),
            },
    {
        let file = self.join(parent);
        if parent_is_dir && is_file {
            Ok(file)
        } else {
            Err(Error::FileDoesNotExistError(file.0))
        }
    }
}

/// What a line of an instrumentation says: that the sample file sounds the
/// instrument.
pub struct BindingModel {
    pub instrument: Seq<u8>,
    pub sample: Seq<u8>,
}

/// A type that represents a binding in an instrumentation file.
pub type Binding = (Instrument, SampleFile);

/// What a parsed binding holds.
pub open spec fn binding_view(binding: Binding) -> BindingModel {
    BindingModel { instrument: binding.0@, sample: binding.1@ }
}

/// The sound file that `s` begins with, a run of bytes that are neither
/// blanks nor line ends, and what follows it; nothing where `s` begins with
/// no such byte.
pub open spec fn sound_file_field(s: Seq<u8>) -> Option<(Seq<u8>, Seq<u8>)> {
    let n = run(s, Class::Path) as int;
    if n > 0 {
        Some((s.skip(n), s.take(n)))
    } else {
        None
    }
}

/// The binding that `s` begins with, and what follows it: an instrument,
/// which blanks may precede, one blank or more, and a sound file.
pub open spec fn binding_field(s: Seq<u8>) -> Option<(Seq<u8>, BindingModel)> {
    match instrument_field(after_blanks(s)) {
        None => None,
        Some((s, instrument)) => if run(s, Class::Blank) == 0 {
            None
        } else {
            match sound_file_field(after_blanks(s)) {
                None => None,
                Some((s, sample)) => Some((s, BindingModel { instrument, sample })),
            }
        },
    }
}

/// The binding that a line of an instrumentation stands for. What follows
/// the binding on the line is not looked at.
pub open spec fn binding_of(line: Seq<u8>) -> Option<BindingModel> {
    match binding_field(line) {
        Some((_, binding)) => Some(binding),
        None => None,
    }
}

/// Parses the instrument from a binding line.
pub fn parse_instrument(s: &[u8]) -> (field: Option<(&[u8], &[u8])>)
    ensures
        match field {
            Some((rest, name)) => instrument_field(s@) == Some((rest@, name@)),
            None => instrument_field(s@) is None,
        },
{
    crate::pattern::parse_instrument(s)
}

/// Parses the sound file from a binding line.
pub fn parse_sound_file(s: &[u8]) -> (field: Option<(&[u8], &[u8])>)
    ensures
        match field {
            Some((rest, path)) => sound_file_field(s@) == Some((rest@, path@)),
            None => sound_file_field(s@) is None,
        },
{
    let n = scan(s, Class::Path);
    if n == 0 {
        None
    } else {
        let (path, rest) = s.split_at(n);
        Some((rest, path))
    }
}

/// Parses a binding from a single line of an instrumentation file.
pub fn parse_binding(s: &[u8]) -> (parsed: Option<(&[u8], Binding)>)
    ensures
        match parsed {
            Some((rest, binding)) => binding_field(s@) == Some((rest@, binding_view(binding))),
            None => binding_field(s@) is None,
        },
{
    let s = skip_blanks(s);
    let (s, instrument) = match parse_instrument(s) {
        Some(field) => field,
        None => return None,
    };
    if scan(s, Class::Blank) == 0 {
        return None;
    }
    let s = skip_blanks(s);
    let (s, sound_file) = match parse_sound_file(s) {
        Some(field) => field,
        None => return None,
    };
    Some((s, (Instrument::new(instrument), SampleFile::new(sound_file))))
}

/// What an instrumentation holds: for the path of each of its sample files,
/// the names of the instruments that the file sounds.
pub type InstrumentationModel = Map<Seq<u8>, Set<Seq<u8>>>;

/// Whether the sample file sounds the instrument in an instrumentation.
pub open spec fn sounds(
    bindings: InstrumentationModel,
    sample: Seq<u8>,
    instrument: Seq<u8>,
) -> bool {
    bindings.contains_key(sample) && bindings[sample].contains(instrument)
}

/// Whether some sample file of an instrumentation sounds the instrument.
pub open spec fn is_bound(bindings: InstrumentationModel, instrument: Seq<u8>) -> bool {
    exists|sample: Seq<u8>| sounds(bindings, sample, instrument)
}

/// An instrumentation with one more instrument for a sample file.
pub open spec fn bind(
    bindings: InstrumentationModel,
    sample: Seq<u8>,
    instrument: Seq<u8>,
) -> InstrumentationModel {
    if bindings.contains_key(sample) {
        bindings.insert(sample, bindings[sample].insert(instrument))
    } else {
        bindings.insert(sample, set![instrument])
    }
}

/// The instrumentation that the lines of an instrumentation file stand for.
/// Each line is a binding. The first line that is no binding fails the
/// whole, and so does the first line whose instrument an earlier line has
/// bound, to whatever sample file.
pub open spec fn instrumentation_of(lines: Seq<Seq<u8>>) -> Result<InstrumentationModel, Failure>
    decreases lines.len(),
{
    if lines.len() == 0 {
        Ok(Map::empty())
    } else {
        match instrumentation_of(lines.drop_last()) {
            Err(failure) => Err(failure),
            Ok(bindings) => match binding_of(lines.last()) {
                None => Err(Failure::Parse(lines.last())),
                Some(binding) => if is_bound(bindings, binding.instrument) {
                    Err(Failure::DuplicateInstrument(binding.instrument))
                } else {
                    Ok(bind(bindings, binding.sample, binding.instrument))
                },
            },
        }
    }
}

/// A failure among the first lines of a file is the failure of the file.
pub proof fn lemma_instrumentation_of_fails(lines: Seq<Seq<u8>>, n: int)
    requires
        0 <= n <= lines.len(),
        instrumentation_of(lines.take(n)) is Err,
    ensures
        instrumentation_of(lines) == instrumentation_of(lines.take(n)),
    decreases lines.len() - n,
{
    if n < lines.len() {
        assert(lines.take(n + 1).drop_last() =~= lines.take(n));
        lemma_instrumentation_of_fails(lines, n + 1);
    } else {
        assert(lines.take(n) =~= lines);
    }
}

/// The instrument that a line of an instrumentation binds.
pub open spec fn bound_on(line: Seq<u8>) -> Seq<u8>
    recommends
        binding_of(line) is Some,
{
    binding_of(line).unwrap().instrument
}

/// Whether a line of an instrumentation binds the instrument to the sample
/// file.
pub open spec fn binds(line: Seq<u8>, sample: Seq<u8>, instrument: Seq<u8>) -> bool {
    binding_of(line) == Some(BindingModel { instrument, sample })
}

/// Whether each of the lines is a binding and no two of them bind the same
/// instrument.
pub open spec fn bindings_apart(lines: Seq<Seq<u8>>) -> bool {
    &&& forall|i: int| 0 <= i < lines.len() ==> (#[trigger] binding_of(lines[i])) is Some
    &&& forall|i: int, j: int|
        0 <= i < j < lines.len() ==> #[trigger] bound_on(lines[i]) != #[trigger] bound_on(
            lines[j],
        )
}

/// A file makes an instrumentation if and only if each of its lines is a
/// binding and no two of them bind the same instrument, to whatever sample
/// files. In the instrumentation a sample file then sounds an instrument if
/// and only if a line binds the one to the other.
pub proof fn lemma_instrumentation_of(lines: Seq<Seq<u8>>)
    ensures
        instrumentation_of(lines) is Ok <==> bindings_apart(lines),
        instrumentation_of(lines) matches Ok(bindings) ==> {
            &&& forall|sample: Seq<u8>, instrument: Seq<u8>| #[trigger]
                sounds(bindings, sample, instrument) <==> exists|i: int|
                    0 <= i < lines.len() && #[trigger] binds(lines[i], sample, instrument)
            &&& forall|sample: Seq<u8>| #[trigger]
                bindings.contains_key(sample) ==> exists|instrument: Seq<u8>|
                    sounds(bindings, sample, instrument)
        },
    decreases lines.len(),
{
    if lines.len() > 0 {
        let before = lines.drop_last();
        let n = lines.len() - 1;
        lemma_instrumentation_of(before);
        assert forall|i: int| 0 <= i < n implies lines[i] == before[i] by {}
        match instrumentation_of(before) {
            Err(_) => {
                if bindings_apart(lines) {
                    assert forall|i: int| 0 <= i < before.len() implies (#[trigger] binding_of(
                        before[i],
                    )) is Some by {
                        assert(binding_of(lines[i]) is Some);
                    }
                    assert forall|i: int, j: int| 0 <= i < j < before.len() implies #[trigger] bound_on(
                        before[i],
                    ) != #[trigger] bound_on(before[j]) by {
                        assert(bound_on(lines[i]) != bound_on(lines[j]));
                    }
                }
            },
            Ok(bindings) => {
                assert forall|i: int| 0 <= i < n implies (#[trigger] binding_of(lines[i])) is Some by {
                    assert(binding_of(before[i]) is Some);
                }
                match binding_of(lines.last()) {
                    None => {
                        assert(binding_of(lines[n]) is None);
                    },
                    Some(binding) => {
                        assert(bound_on(lines[n]) == binding.instrument);
                        assert(binds(lines[n], binding.sample, binding.instrument));
                        if is_bound(bindings, binding.instrument) {
                            let sample = choose|sample: Seq<u8>|
                                sounds(bindings, sample, binding.instrument);
                            let i = choose|i: int|
                                0 <= i < before.len() && #[trigger] binds(
                                    before[i],
                                    sample,
                                    binding.instrument,
                                );
                            assert(bound_on(lines[i]) == bound_on(lines[n]));
                        } else {
                            let whole = bind(bindings, binding.sample, binding.instrument);
                            assert forall|i: int, j: int|
                                0 <= i < j < lines.len() implies #[trigger] bound_on(lines[i])
                                != #[trigger] bound_on(lines[j]) by {
                                if j < n {
                                    assert(bound_on(before[i]) != bound_on(before[j]));
                                } else {
                                    let earlier = binding_of(before[i]).unwrap();
                                    assert(binds(before[i], earlier.sample, earlier.instrument));
                                    assert(sounds(bindings, earlier.sample, earlier.instrument));
                                }
                            }
                            assert forall|sample: Seq<u8>, instrument: Seq<u8>| #[trigger]
                                sounds(whole, sample, instrument) <==> exists|i: int|
                                    0 <= i < lines.len() && #[trigger] binds(
                                        lines[i],
                                        sample,
                                        instrument,
                                    ) by {
                                if sounds(whole, sample, instrument) {
                                    if sample == binding.sample && instrument
                                        == binding.instrument {
                                        assert(binds(lines[n], sample, instrument));
                                    } else {
                                        assert(sounds(bindings, sample, instrument));
                                        let i = choose|i: int|
                                            0 <= i < before.len() && #[trigger] binds(
                                                before[i],
                                                sample,
                                                instrument,
                                            );
                                        assert(binds(lines[i], sample, instrument));
                                    }
                                }
                                if exists|i: int|
                                    0 <= i < lines.len() && #[trigger] binds(
                                        lines[i],
                                        sample,
                                        instrument,
                                    ) {
                                    let i = choose|i: int|
                                        0 <= i < lines.len() && #[trigger] binds(
                                            lines[i],
                                            sample,
                                            instrument,
                                        );
                                    if i < n {
                                        assert(binds(before[i], sample, instrument));
                                        assert(sounds(bindings, sample, instrument));
                                    }
                                }
                            }
                            assert forall|sample: Seq<u8>| #[trigger]
                                whole.contains_key(sample) implies exists|instrument: Seq<u8>|
                                sounds(whole, sample, instrument) by {
                                if sample == binding.sample {
                                    assert(sounds(whole, sample, binding.instrument));
                                } else {
                                    assert(bindings.contains_key(sample));
                                    let instrument = choose|instrument: Seq<u8>|
                                        sounds(bindings, sample, instrument);
                                    assert(sounds(whole, sample, instrument));
                                }
                            }
                        }
                    },
                }
            },
        }
    }
}

/// In an instrumentation an instrument is bound to one sample file at most.
pub proof fn lemma_bound_once(
    lines: Seq<Seq<u8>>,
    bindings: InstrumentationModel,
    instrument: Seq<u8>,
    sample: Seq<u8>,
    other: Seq<u8>,
)
    requires
        instrumentation_of(lines) == Ok::<InstrumentationModel, Failure>(bindings),
        sounds(bindings, sample, instrument),
        sounds(bindings, other, instrument),
    ensures
        sample == other,
{
    lemma_instrumentation_of(lines);
    assert(instrumentation_of(lines) matches Ok(held) && held == bindings);
    assert(sounds(bindings, sample, instrument) && sounds(bindings, other, instrument));
    let i = choose|i: int| 0 <= i < lines.len() && #[trigger] binds(lines[i], sample, instrument);
    let j = choose|j: int| 0 <= j < lines.len() && #[trigger] binds(lines[j], other, instrument);
    if i != j {
        assert(bound_on(lines[i]) == bound_on(lines[j]));
    }
}

/// Two lines that bind the same instrument are no instrumentation, even
/// where they name different sample files: the instrument is a duplicate.
pub proof fn lemma_duplicate_binding(first: Seq<u8>, second: Seq<u8>)
    requires
        binding_of(first) is Some,
        binding_of(second) is Some,
        bound_on(first) == bound_on(second),
    ensures
        instrumentation_of(seq![first, second]) == Err::<InstrumentationModel, Failure>(
            Failure::DuplicateInstrument(bound_on(second)),
        ),
{
    let lines = seq![first, second];
    let one = binding_of(first).unwrap();
    assert(lines.drop_last() =~= seq![first]);
    assert(seq![first].drop_last() =~= Seq::<Seq<u8>>::empty());
    assert(instrumentation_of(Seq::<Seq<u8>>::empty()) == Ok::<InstrumentationModel, Failure>(
        Map::empty(),
    ));
    let empty = Map::<Seq<u8>, Set<Seq<u8>>>::empty();
    assert(!is_bound(empty, one.instrument));
    let single = bind(empty, one.sample, one.instrument);
    assert(instrumentation_of(seq![first]) == Ok::<InstrumentationModel, Failure>(single));
    assert(sounds(single, one.sample, one.instrument));
}

/// Two lines that bind different instruments to the same sample file make
/// an instrumentation, in which the sample file sounds both.
pub proof fn lemma_shared_sample(first: Seq<u8>, second: Seq<u8>)
    requires
        binding_of(first) is Some,
        binding_of(second) is Some,
        bound_on(first) != bound_on(second),
        binding_of(first).unwrap().sample == binding_of(second).unwrap().sample,
    ensures
        instrumentation_of(seq![first, second]) == Ok::<InstrumentationModel, Failure>(
            map![binding_of(first).unwrap().sample => set![bound_on(first), bound_on(second)]],
        ),
{
    let lines = seq![first, second];
    let one = binding_of(first).unwrap();
    let two = binding_of(second).unwrap();
    assert(lines.drop_last() =~= seq![first]);
    assert(seq![first].drop_last() =~= Seq::<Seq<u8>>::empty());
    assert(instrumentation_of(Seq::<Seq<u8>>::empty()) == Ok::<InstrumentationModel, Failure>(
        Map::empty(),
    ));
    let empty = Map::<Seq<u8>, Set<Seq<u8>>>::empty();
    assert(!is_bound(empty, one.instrument));
    let single = bind(empty, one.sample, one.instrument);
    assert(instrumentation_of(seq![first]) == Ok::<InstrumentationModel, Failure>(single));
    assert(!is_bound(single, two.instrument)) by {
        if is_bound(single, two.instrument) {
            let sample = choose|sample: Seq<u8>| sounds(single, sample, two.instrument);
            assert(sample == one.sample);
        }
    }
    let both = bind(single, two.sample, two.instrument);
    assert(both =~= map![one.sample => set![one.instrument, two.instrument]]) by {
        assert(set![one.instrument].insert(two.instrument) =~= set![
            one.instrument,
            two.instrument,
        ]);
    }
}

/// A sample file and the instruments that it sounds.
pub type Entry = (SampleFile, Vec<Instrument>);

/// Represents the contents of an instrumentation file.
///
/// An instrumentation file binds the instruments from a pattern file to
/// audio sample files. Each line of an instrumentation file contains an
/// instrument name and an audio file name. Each instrument may only appear
/// once, but a single audio file may be bound to multiple instruments.
///
/// # Example
///
/// This is an example of an instrumentation file's contents that binds five
/// instruments to four audio sample files.
///
/// > Note that `tom.wav` is used for both `tom-1` and `tom-2`.
///
/// ```text
/// hi-hat hh.wav
/// tom-1  tom.wav
/// tom-2  tom.wav
/// snare  snare.wav
/// kick   kick.wav
/// ```
#[derive(Debug)]
pub struct Instrumentation(Vec<Entry>);

/// The names of the given instruments.
pub open spec fn names(instruments: Seq<Instrument>) -> Set<Seq<u8>> {
    Set::new(
        |name: Seq<u8>|
            exists|i: int| 0 <= i < instruments.len() && (#[trigger] instruments[i])@ == name,
    )
}

/// The paths of the sample files of the entries, in order.
pub open spec fn entry_samples(entries: Seq<Entry>) -> Seq<Seq<u8>> {
    Seq::new(entries.len(), |i: int| entries[i].0@)
}

/// The names of the instruments of each of the entries, in order.
pub open spec fn entry_names(entries: Seq<Entry>) -> Seq<Set<Seq<u8>>> {
    Seq::new(entries.len(), |i: int| names(entries[i].1@))
}

/// The instrumentation that the entries hold: the names of the instruments
/// of each sample file, under the file's path.
pub open spec fn entries_view(entries: Seq<Entry>) -> InstrumentationModel {
    table(entry_samples(entries), entry_names(entries))
}

/// Whether no instrument stands twice among the entries.
pub open spec fn instruments_apart(entries: Seq<Entry>) -> bool {
    forall|i: int, j: int, k: int, l: int|
        0 <= i < entries.len() && 0 <= j < entries.len() && 0 <= k < entries[i].1@.len() && 0
            <= l < entries[j].1@.len() && (i != j || k != l) ==> (#[trigger] entries[i].1@[k])@
            != (#[trigger] entries[j].1@[l])@
}

/// What a result of parsing an instrumentation file holds.
pub open spec fn instrumentation_view(parsed: Result<Instrumentation, Error>) -> Result<
    InstrumentationModel,
    Failure,
> {
    match parsed {
        Ok(instrumentation) => Ok(instrumentation@),
        Err(error) => Err(error@),
    }
}

/// Tells whether the instrument is among the given ones.
fn among(instruments: &Vec<Instrument>, instrument: &Instrument) -> (found: bool)
    ensures
        found == names(instruments@).contains(instrument@),
{
    let mut n: usize = 0;
    while n < instruments.len()
        invariant
            n <= instruments@.len(),
            forall|i: int| 0 <= i < n ==> (#[trigger] instruments@[i])@ != instrument@,
        decreases instruments@.len() - n,
    {
        if instruments[n].is(instrument) {
            return true;
        }
        n += 1;
    }
    false
}

/// Tells whether an entry holds the instrument.
fn bound(entries: &Vec<Entry>, instrument: &Instrument) -> (found: bool)
    requires
        apart(entry_samples(entries@)),
    ensures
        found == is_bound(entries_view(entries@), instrument@),
        !found ==> forall|i: int, k: int|
            0 <= i < entries@.len() && 0 <= k < entries@[i].1@.len() ==> (
            #[trigger] entries@[i].1@[k])@ != instrument@,
{
    let ghost samples = entry_samples(entries@);
    let ghost sets = entry_names(entries@);
    let mut n: usize = 0;
    while n < entries.len()
        invariant
            n <= entries@.len(),
            samples == entry_samples(entries@),
            sets == entry_names(entries@),
            apart(samples),
            forall|i: int| 0 <= i < n ==> !(#[trigger] sets[i]).contains(instrument@),
        decreases entries@.len() - n,
    {
        if among(&entries[n].1, instrument) {
            proof {
                lemma_table(samples, sets);
                assert(samples.contains(samples[n as int]));
                assert(sounds(entries_view(entries@), samples[n as int], instrument@));
            }
            return true;
        }
        n += 1;
    }
    proof {
        lemma_table(samples, sets);
        if is_bound(entries_view(entries@), instrument@) {
            let sample = choose|sample: Seq<u8>|
                sounds(entries_view(entries@), sample, instrument@);
            let i = choose|i: int| 0 <= i < samples.len() && samples[i] == sample;
            assert(!sets[i].contains(instrument@));
        }
        assert forall|i: int, k: int|
            0 <= i < entries@.len() && 0 <= k < entries@[i].1@.len() implies (
        #[trigger] entries@[i].1@[k])@ != instrument@ by {
            assert(!sets[i].contains(instrument@));
        }
    }
    false
}

/// One more instrument among some instruments is one more name among their
/// names.
proof fn lemma_names_push(before: Seq<Instrument>, after: Seq<Instrument>, instrument: Seq<u8>)
    requires
        after.len() == before.len() + 1,
        forall|k: int| 0 <= k < before.len() ==> (#[trigger] after[k]) == before[k],
        after.last()@ == instrument,
    ensures
        names(after) == names(before).insert(instrument),
{
    assert forall|name: Seq<u8>| names(after).contains(name) <==> names(before).insert(
        instrument,
    ).contains(name) by {
        if names(after).contains(name) {
            let k = choose|k: int| 0 <= k < after.len() && (#[trigger] after[k])@ == name;
            if k < before.len() {
                assert(before[k]@ == name);
            }
        }
        if names(before).contains(name) {
            let k = choose|k: int| 0 <= k < before.len() && (#[trigger] before[k])@ == name;
            assert(after[k]@ == name);
        }
        if name == instrument {
            assert(after[after.len() - 1]@ == name);
        }
    }
    assert(names(after) =~= names(before).insert(instrument));
}

/// Binding one more instrument to the sample file of an entry is binding
/// it in the instrumentation of the entries.
proof fn lemma_bind_known(before: Seq<Entry>, after: Seq<Entry>, n: int, instrument: Seq<u8>)
    requires
        apart(entry_samples(before)),
        0 <= n < before.len(),
        entry_samples(after) == entry_samples(before),
        forall|i: int|
            0 <= i < before.len() && i != n ==> (#[trigger] after[i]).1@ == before[i].1@,
        after[n].1@.len() == before[n].1@.len() + 1,
        forall|k: int|
            0 <= k < before[n].1@.len() ==> (#[trigger] after[n].1@[k]) == before[n].1@[k],
        after[n].1@.last()@ == instrument,
    ensures
        entries_view(after) == bind(entries_view(before), before[n].0@, instrument),
{
    let samples = entry_samples(before);
    assert(after.len() == before.len()) by {
        assert(entry_samples(after).len() == entry_samples(before).len());
    }
    lemma_table(samples, entry_names(before));
    lemma_table(samples, entry_names(after));
    lemma_names_push(before[n].1@, after[n].1@, instrument);
    let was = entries_view(before);
    let now = entries_view(after);
    let wanted = bind(was, before[n].0@, instrument);
    assert(samples.contains(samples[n]));
    assert forall|key: Seq<u8>| now.contains_key(key) implies now[key] == wanted[key] by {
        let i = choose|i: int| 0 <= i < samples.len() && samples[i] == key;
        assert(now[samples[i]] == entry_names(after)[i]);
        assert(was[samples[i]] == entry_names(before)[i]);
        if i != n {
            assert(samples[i] != samples[n]);
            assert(after[i].1@ == before[i].1@);
        }
    }
    assert(now =~= wanted);
}

/// Binding an instrument to a sample file in a new entry is binding it in
/// the instrumentation of the entries.
proof fn lemma_bind_new(before: Seq<Entry>, after: Seq<Entry>, instrument: Seq<u8>)
    requires
        apart(entry_samples(before)),
        after.len() == before.len() + 1,
        after.drop_last() == before,
        !entry_samples(before).contains(after.last().0@),
        after.last().1@.len() == 1,
        after.last().1@[0]@ == instrument,
    ensures
        apart(entry_samples(after)),
        entries_view(after) == bind(entries_view(before), after.last().0@, instrument),
{
    let samples = entry_samples(before);
    lemma_table(samples, entry_names(before));
    lemma_apart_push(samples, after.last().0@);
    assert(entry_samples(after) =~= samples.push(after.last().0@));
    assert(entry_samples(after).drop_last() =~= samples);
    assert(entry_names(after).drop_last() =~= entry_names(before));
    lemma_names_push(Seq::<Instrument>::empty(), after.last().1@, instrument);
    assert(names(Seq::<Instrument>::empty()) =~= Set::<Seq<u8>>::empty());
    assert(names(after.last().1@) =~= set![instrument]);
}

/// Looks for the entry of a sample file.
fn position(entries: &Vec<Entry>, sample: &SampleFile) -> (found: Option<usize>)
    ensures
        match found {
            Some(n) => n < entries@.len() && entry_samples(entries@)[n as int] == sample@,
            None => !entry_samples(entries@).contains(sample@),
        },
{
    let mut n: usize = 0;
    while n < entries.len()
        invariant
            n <= entries@.len(),
            forall|i: int| 0 <= i < n ==> entry_samples(entries@)[i] != sample@,
        decreases entries@.len() - n,
    {
        if entries[n].0.is(sample) {
            return Some(n);
        }
        n += 1;
    }
    None
}

impl View for Instrumentation {
    type V = InstrumentationModel;

    closed spec fn view(&self) -> InstrumentationModel {
        entries_view(self.0@)
    }
}

impl Instrumentation {
    #[verifier::type_invariant]
    spec fn bound_once(&self) -> bool {
        apart(entry_samples(self.0@)) && instruments_apart(self.0@)
    }

    /// Parses an instrumentation file located at the path given, whose
    /// contents are handed in, or nothing where there is no file at the path.
    /// Each line of the contents is a binding; an empty line is none.
    pub fn parse(path: &[u8], contents: Option<&[u8]>) -> (parsed: Result<Instrumentation, Error>)
        ensures
            instrumentation_view(parsed) == match contents {
                Some(text) => instrumentation_of(lines_of(text@)),
                None => Err(Failure::FileDoesNotExist(path@)),
            },
    {
        let text = match contents {
            Some(text) => text,
            None => return Err(Error::FileDoesNotExistError(slice_to_vec(path))),
        };
        let lines = split_lines(text);
        let ghost all = lines_of(text@);
        let mut entries: Vec<Entry> = Vec::new();
        let mut n: usize = 0;
        assert(all.take(0) =~= Seq::<Seq<u8>>::empty());
        while n < lines.len()
            invariant
                n <= lines@.len(),
                contents == Some(text),
                all == lines_of(text@),
                views(lines@) == all,
                instrumentation_of(all.take(n as int)) == Ok::<InstrumentationModel, Failure>(
                    entries_view(entries@),
                ),
                apart(entry_samples(entries@)),
                instruments_apart(entries@),
            decreases lines@.len() - n,
        {
            let line = lines[n];
            proof {
                assert(all.take(n + 1).drop_last() =~= all.take(n as int));
                assert(all.take(n + 1).last() == line@);
            }
            let (instrument, sample) = match parse_binding(line) {
                Some((_, binding)) => binding,
                None => {
                    proof {
                        lemma_instrumentation_of_fails(all, n + 1);
                    }
                    return Err(Error::ParseError(slice_to_vec(line)));
                },
            };
            if bound(&entries, &instrument) {
                proof {
                    lemma_instrumentation_of_fails(all, n + 1);
                }
                return Err(Error::DuplicateInstrumentError(instrument.into_name()));
            }
            let ghost before = entries@;
            let ghost name = instrument@;
            match position(&entries, &sample) {
                Some(k) => {
                    entries[k].1.push(instrument);
                    proof {
                        assert(entry_samples(entries@) =~= entry_samples(before));
                        lemma_bind_known(before, entries@, k as int, name);
                    }
                },
                None => {
                    let mut instruments: Vec<Instrument> = Vec::new();
                    instruments.push(instrument);
                    entries.push((sample, instruments));
                    proof {
                        assert(entries@.drop_last() =~= before);
                        lemma_bind_new(before, entries@, name);
                    }
                },
            }
            assert(instruments_apart(entries@));
            n += 1;
        }
        assert(all.take(n as int) =~= all);
        Ok(Instrumentation(entries))
    }

    /// Returns the instrumentation bindings: each sample file once, and
    /// with it the instruments that it sounds, each once.
    pub fn into_iter(self) -> (bindings: Vec<Entry>)
        ensures
            entries_view(bindings@) == self@,
            apart(entry_samples(bindings@)),
            instruments_apart(bindings@),
    {
        proof {
            use_type_invariant(&self);
        }
        self.0
    }
}

} // verus!
