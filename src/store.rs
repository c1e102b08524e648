use vstd::prelude::*;

use crate::id::BenchmarkId;
use crate::model::Model;

verus! {

/// Name of the record file that points at an identity's latest measurement file.
pub open spec fn record_file_name() -> Seq<char> {
    seq!['b', 'e', 'n', 'c', 'h', 'm', 'a', 'r', 'k', '.', 'c', 'b', 'o', 'r']
}

pub open spec fn measurement_prefix() -> Seq<char> {
    seq!['m', 'e', 'a', 's', 'u', 'r', 'e', 'm', 'e', 'n', 't', '_']
}

pub open spec fn cbor_suffix() -> Seq<char> {
    seq!['.', 'c', 'b', 'o', 'r']
}

/// Names of measurement files: the prefix, twelve characters of date and time, and the
/// suffix.
pub open spec fn is_measurement_name(n: Seq<char>) -> bool {
    &&& n.len() == 29
    &&& n.subrange(0, 12) == measurement_prefix()
    &&& n.subrange(24, 29) == cbor_suffix()
}

/// Relies on chrono's `Local::now` and `format`: the pattern's literal text is copied and
/// each of `%y %m %d %H %M %S` gives two zero-padded digits.
#[verifier::external_body]
fn measurement_name_now() -> (r: String)
    ensures
        is_measurement_name(r@),
{
    chrono::Local::now().format("measurement_%y%m%d%H%M%S.cbor").to_string()
}

/// `a`, a slash and `b`.
pub fn join_path(a: &String, b: &str) -> (r: String)
    ensures
        r@ == a@ + seq!['/'] + b@,
{
    proof {
        reveal_strlit("/");
    }
    let mut r = a.clone();
    r.append("/");
    r.append(b);
    r
}

/// The data directory of a timeline: `home/data/timeline`.
pub fn data_directory_of(home: &String, timeline: &String) -> (r: String)
    ensures
        r@ == home@ + seq!['/', 'd', 'a', 't', 'a', '/'] + timeline@,
{
    proof {
        reveal_strlit("data");
    }
    let d = join_path(home, "data");
    let r = join_path(&d, timeline.as_str());
    assert(r@ =~= home@ + seq!['/', 'd', 'a', 't', 'a', '/'] + timeline@);
    r
}

/// Where one completed run is written: the identity's directory, the new measurement
/// file in it, and the record file that is rewritten to point at it.
pub struct CompletionPaths {
    pub directory: String,
    pub measurement_name: String,
    pub measurement_path: String,
    pub record_path: String,
}

/// The paths of a completion in `directory` with the measurement file `measurement_name`.
pub fn completion_paths(directory: String, measurement_name: String) -> (r: CompletionPaths)
    ensures
        r.directory@ == directory@,
        r.measurement_name@ == measurement_name@,
        r.measurement_path@ == directory@ + seq!['/'] + measurement_name@,
        r.record_path@ == directory@ + seq!['/'] + record_file_name(),
{
    proof {
        reveal_strlit("benchmark.cbor");
        assert("benchmark.cbor"@ =~= record_file_name());
    }
    let measurement_path = join_path(&directory, measurement_name.as_str());
    let record_path = join_path(&directory, "benchmark.cbor");
    CompletionPaths { directory, measurement_name, measurement_path, record_path }
}

impl<S> Model<S> {
    /// The paths for a completed run of `id` now: a fresh measurement file named after the
    /// current time in the identity's directory, which is never the record file.
    pub fn plan_completion(&self, id: &BenchmarkId) -> (r: CompletionPaths)
        ensures
            r.directory@ == self.data_directory@ + seq!['/'] + id.directory_view(),
            is_measurement_name(r.measurement_name@),
            r.measurement_name@ != record_file_name(),
            r.measurement_path@ == r.directory@ + seq!['/'] + r.measurement_name@,
            r.record_path@ == r.directory@ + seq!['/'] + record_file_name(),
    {
        let directory = join_path(&self.data_directory, id.as_directory_name());
        let name = measurement_name_now();
        proof {
            assert(name@.len() != record_file_name().len());
        }
        completion_paths(directory, name)
    }
}

/// One identity's directory on disk: the target of its record file, if there is one, and
/// the measurement files by name.
pub struct DirView<S> {
    pub record: Option<Seq<char>>,
    pub measurements: Map<Seq<char>, S>,
}

/// The snapshot that loading the directory yields: the measurement that the record names.
pub open spec fn resolve<S>(d: DirView<S>) -> Option<S> {
    match d.record {
        Some(n) => if d.measurements.contains_key(n) {
            Some(d.measurements[n])
        } else {
            None
        },
        None => None,
    }
}

/// The first write of a completion: a new measurement file.
pub open spec fn write_measurement<S>(d: DirView<S>, name: Seq<char>, stats: S) -> DirView<S> {
    DirView { measurements: d.measurements.insert(name, stats), ..d }
}

/// The second write of a completion: the record now names `name`.
pub open spec fn write_record<S>(d: DirView<S>, name: Seq<char>) -> DirView<S> {
    DirView { record: Some(name), ..d }
}

/// One step of recording a completed run.
#[derive(Clone, Copy, Debug, PartialEq, Eq, Structural)]
pub enum WriteStep {
    CreateDirectory,
    WriteMeasurement,
    WriteRecord,
    UpdateIndex,
}

pub open spec fn completion_order() -> Seq<WriteStep> {
    seq![
        WriteStep::CreateDirectory,
        WriteStep::WriteMeasurement,
        WriteStep::WriteRecord,
        WriteStep::UpdateIndex,
    ]
}

/// The steps of recording a completed run, in the order they are taken: the record file
/// is rewritten only after the measurement file that it names has been written.
pub fn completion_steps() -> (r: Vec<WriteStep>)
    ensures
        r@ == completion_order(),
{
    let r = vec![
        WriteStep::CreateDirectory,
        WriteStep::WriteMeasurement,
        WriteStep::WriteRecord,
        WriteStep::UpdateIndex,
    ];
    assert(r@ =~= completion_order());
    r
}

/// What a step does to the identity's directory, for a measurement file `name` holding
/// `stats`.
pub open spec fn apply_step<S>(d: DirView<S>, step: WriteStep, name: Seq<char>, stats: S) -> DirView<
    S,
> {
    match step {
        WriteStep::WriteMeasurement => write_measurement(d, name, stats),
        WriteStep::WriteRecord => write_record(d, name),
        _ => d,
    }
}

pub open spec fn apply_steps<S>(d: DirView<S>, steps: Seq<WriteStep>, name: Seq<char>, stats: S) -> DirView<
    S,
>
    decreases steps.len(),
{
    if steps.len() == 0 {
        d
    } else {
        apply_step(apply_steps(d, steps.drop_last(), name, stats), steps.last(), name, stats)
    }
}

/// A completion interrupted after any of its steps leaves the directory loadable: before
/// the record file is rewritten, loading yields the snapshot it yielded before, the new
/// measurement file being an orphan; from then on it yields the new snapshot. The new
/// file's name must differ from the one the record names.
pub proof fn lemma_interrupted_completion_keeps_previous<S>(
    d: DirView<S>,
    name: Seq<char>,
    stats: S,
    k: int,
)
    requires
        d.record != Some(name),
        0 <= k <= 4,
    ensures
        k < 3 ==> resolve(apply_steps(d, completion_order().take(k), name, stats)) == resolve(d),
        k >= 3 ==> resolve(apply_steps(d, completion_order().take(k), name, stats)) == Some(
            stats,
        ),
{
    let o = completion_order();
    assert(o.take(0) =~= Seq::<WriteStep>::empty());
    assert(o.take(1).drop_last() =~= o.take(0));
    assert(o.take(2).drop_last() =~= o.take(1));
    assert(o.take(3).drop_last() =~= o.take(2));
    assert(o.take(4).drop_last() =~= o.take(3));
    assert(o.take(1).last() == WriteStep::CreateDirectory);
    assert(o.take(2).last() == WriteStep::WriteMeasurement);
    assert(o.take(3).last() == WriteStep::WriteRecord);
    assert(o.take(4).last() == WriteStep::UpdateIndex);
    let d2 = write_measurement(d, name, stats);
    assert(apply_steps(d, o.take(0), name, stats) == d);
    assert(apply_steps(d, o.take(1), name, stats) == d);
    assert(apply_steps(d, o.take(2), name, stats) == d2);
    assert(apply_steps(d, o.take(3), name, stats) == write_record(d2, name));
    assert(apply_steps(d, o.take(4), name, stats) == write_record(d2, name));
    assert(resolve(d2) == resolve(d));
    assert(resolve(write_record(d2, name)) == Some(stats));
}

} // verus!
