//! The copy engine's decisions: which strategy a job gets, what it will copy,
//! and the progress snapshots it reports while copying.
use vstd::prelude::*;
use crate::speed::{after_add, window_rate, Rate, SpeedTracker};

verus! {

/// Above this many bytes a single source file is copied as a large file in
/// automatic mode (100 MiB).
pub const LARGE_FILE_THRESHOLD: u64 = 104_857_600;

/// Files up to this size are copied in one call in many-files mode (4 MiB);
/// larger ones are copied in chunks with progress after each chunk.
pub const WHOLE_COPY_LIMIT: u64 = 4_194_304;

/// The least time, in nanoseconds, between two progress reports while large
/// files are copied (50 ms).
pub const REPORT_INTERVAL_NS: u64 = 50_000_000;

/// The copy strategy the user picks.
#[derive(Debug, Clone, Copy, PartialEq, Eq, Structural)]
pub enum CopyMode {
    /// Large-file copy for a single file above 100 MiB, many-files copy
    /// otherwise.
    Auto,
    /// Sequential chunked copy, one file after the other.
    Large,
    /// Parallel copy of all files.
    Small,
}

impl Default for CopyMode {
    fn default() -> (m: Self)
        ensures
            m == CopyMode::Auto,
    {
        CopyMode::Auto
    }
}

/// What the user asked to copy, and where. Each source is the exact byte
/// string of a platform path.
pub struct CopyJob {
    pub sources: Vec<Vec<u8>>,
    pub destination: String,
    pub mode: CopyMode,
}

/// A progress report sent from the copy engine to the interface.
#[derive(Debug)]
pub struct CopyProgress {
    pub bytes_done: u64,
    pub bytes_total: u64,
    pub files_done: u64,
    pub files_total: u64,
    /// The file being copied, empty when none is.
    pub current_file: String,
    /// The rolling transfer rate; `None` stands for a speed of zero.
    pub speed: Option<Rate>,
    /// Time since the copy started, in nanoseconds.
    pub elapsed_ns: u64,
    /// `(file, message)` for every file that could not be copied.
    pub errors: Vec<(String, String)>,
    pub finished: bool,
    pub cancelled: bool,
}

/// The rate reported matches the window's rate exactly.
pub open spec fn rate_is(r: Option<Rate>, expected: Option<(nat, nat)>) -> bool {
    match expected {
        None => r is None,
        Some((bytes, nanos)) => r matches Some(rate) && rate.bytes == bytes && rate.nanos == nanos,
    }
}

/// Every field of a report, stated at once.
pub open spec fn report_is(
    p: CopyProgress,
    bytes_done: u64,
    bytes_total: u64,
    files_done: u64,
    files_total: u64,
    current_file: Seq<char>,
    speed: Option<(nat, nat)>,
    elapsed_ns: u64,
    errors: Seq<(String, String)>,
    finished: bool,
    cancelled: bool,
) -> bool {
    &&& p.bytes_done == bytes_done
    &&& p.bytes_total == bytes_total
    &&& p.files_done == files_done
    &&& p.files_total == files_total
    &&& p.current_file@ == current_file
    &&& rate_is(p.speed, speed)
    &&& p.elapsed_ns == elapsed_ns
    &&& p.errors@ == errors
    &&& p.finished == finished
    &&& p.cancelled == cancelled
}

impl Default for CopyProgress {
    fn default() -> (p: Self)
        ensures
            report_is(p, 0, 0, 0, 0, Seq::empty(), None, 0, Seq::empty(), false, false),
    {
        CopyProgress {
            bytes_done: 0,
            bytes_total: 0,
            files_done: 0,
            files_total: 0,
            current_file: String::new(),
            speed: None,
            elapsed_ns: 0,
            errors: Vec::new(),
            finished: false,
            cancelled: false,
        }
    }
}

/// A copy of an error list.
pub fn clone_errors(errors: &Vec<(String, String)>) -> (c: Vec<(String, String)>)
    ensures
        c@ == errors@,
{
    let mut c: Vec<(String, String)> = Vec::new();
    let mut i: usize = 0;
    while i < errors.len()
        invariant
            i <= errors.len(),
            c@ == errors@.take(i as int),
        decreases errors.len() - i,
    {
        let file = errors[i].0.clone();
        let message = errors[i].1.clone();
        c.push((file, message));
        i = i + 1;
        assert(c@ =~= errors@.take(i as int));
    }
    assert(errors@.take(errors.len() as int) =~= errors@);
    c
}

impl CopyProgress {
    /// The bytes still to copy; zero once the count has reached the total.
    pub fn remaining(&self) -> (r: u64)
        ensures
            r == (if self.bytes_done <= self.bytes_total {
                self.bytes_total - self.bytes_done
            } else {
                0
            }),
    {
        self.bytes_total.saturating_sub(self.bytes_done)
    }

    /// The report sent when none of the sources exists: finished, with
    /// nothing copied.
    pub fn nothing_to_copy() -> (p: Self)
        ensures
            report_is(p, 0, 0, 0, 0, Seq::empty(), None, 0, Seq::empty(), true, false),
    {
        let mut p = CopyProgress::default();
        p.finished = true;
        p
    }

    /// The report sent when the destination folder cannot be created:
    /// finished, with the single error `("destination", message)`.
    pub fn destination_failed(message: String) -> (p: Self)
        ensures
            p.bytes_done == 0 && p.bytes_total == 0 && p.files_done == 0 && p.files_total == 0,
            p.current_file@ == Seq::<char>::empty(),
            p.speed is None,
            p.elapsed_ns == 0,
            p.errors@.len() == 1,
            p.errors@[0].0@ == seq!['d', 'e', 's', 't', 'i', 'n', 'a', 't', 'i', 'o', 'n'],
            p.errors@[0].1 == message,
            p.finished,
            !p.cancelled,
    {
        let mut p = CopyProgress::default();
        p.finished = true;
        let label = String::from_str("destination");
        proof {
            reveal_strlit("destination");
        }
        p.errors.push((label, message));
        p
    }
}

/// Builds a report from its parts.
fn report(
    bytes_done: u64,
    bytes_total: u64,
    files_done: u64,
    files_total: u64,
    current_file: String,
    speed: Option<Rate>,
    elapsed_ns: u64,
    errors: &Vec<(String, String)>,
    finished: bool,
    cancelled: bool,
) -> (p: CopyProgress)
    ensures
        p.bytes_done == bytes_done,
        p.bytes_total == bytes_total,
        p.files_done == files_done,
        p.files_total == files_total,
        p.current_file == current_file,
        p.speed == speed,
        p.elapsed_ns == elapsed_ns,
        p.errors@ == errors@,
        p.finished == finished,
        p.cancelled == cancelled,
{
    CopyProgress {
        bytes_done,
        bytes_total,
        files_done,
        files_total,
        current_file,
        speed,
        elapsed_ns,
        errors: clone_errors(errors),
        finished,
        cancelled,
    }
}

/// What a source path turned out to be when the job started.
#[derive(Debug, Clone, Copy, PartialEq, Eq, Structural)]
pub enum SourceKind {
    /// The path does not exist; the job skips it.
    Missing,
    /// A regular file (after following links).
    File,
    /// A directory (after following links).
    Dir,
    /// Something else that exists, such as a device or a pipe.
    Other,
}

/// A source as found on disk: its kind, its size when it is a file, and the
/// sizes of the regular files found under it, in walking order, when it is a
/// directory. Sizes that could not be read count as zero.
pub struct ScannedSource {
    pub kind: SourceKind,
    pub size: u64,
    pub dir_file_sizes: Vec<u64>,
}

/// The sum of a sequence of sizes.
pub open spec fn sum_sizes(s: Seq<u64>) -> nat
    decreases s.len(),
{
    if s.len() == 0 {
        0
    } else {
        sum_sizes(s.drop_last()) + s.last() as nat
    }
}

/// The bytes a source contributes to the job's total.
pub open spec fn source_bytes(src: ScannedSource) -> nat {
    match src.kind {
        SourceKind::Dir => sum_sizes(src.dir_file_sizes@),
        SourceKind::File => src.size as nat,
        _ => 0,
    }
}

/// The files a source contributes to the job's file count.
pub open spec fn source_files(src: ScannedSource) -> nat {
    match src.kind {
        SourceKind::Dir => src.dir_file_sizes@.len(),
        SourceKind::File => 1,
        _ => 0,
    }
}

/// Total bytes over all sources.
pub open spec fn total_bytes(s: Seq<ScannedSource>) -> nat
    decreases s.len(),
{
    if s.len() == 0 {
        0
    } else {
        total_bytes(s.drop_last()) + source_bytes(s.last())
    }
}

/// Total regular files over all sources.
pub open spec fn total_files(s: Seq<ScannedSource>) -> nat
    decreases s.len(),
{
    if s.len() == 0 {
        0
    } else {
        total_files(s.drop_last()) + source_files(s.last())
    }
}

proof fn lemma_sum_sizes_prefix(s: Seq<u64>, i: int)
    requires
        0 <= i <= s.len(),
    ensures
        sum_sizes(s.take(i)) <= sum_sizes(s),
    decreases s.len() - i,
{
    if i < s.len() {
        lemma_sum_sizes_prefix(s, i + 1);
        assert(s.take(i + 1).drop_last() =~= s.take(i));
    } else {
        assert(s.take(i) =~= s);
    }
}

proof fn lemma_totals_prefix(s: Seq<ScannedSource>, i: int)
    requires
        0 <= i <= s.len(),
    ensures
        total_bytes(s.take(i)) <= total_bytes(s),
        total_files(s.take(i)) <= total_files(s),
    decreases s.len() - i,
{
    if i < s.len() {
        lemma_totals_prefix(s, i + 1);
        assert(s.take(i + 1).drop_last() =~= s.take(i));
    } else {
        assert(s.take(i) =~= s);
    }
}

/// Adds up the bytes and regular files of all sources in one pass: `None`
/// when either total does not fit in 64 bits.
pub fn scan_sources(sources: &Vec<ScannedSource>) -> (r: Option<(u64, u64)>)
    ensures
        match r {
            Some((bytes, files)) => bytes == total_bytes(sources@) && files == total_files(
                sources@,
            ),
            None => total_bytes(sources@) > u64::MAX || total_files(sources@) > u64::MAX,
        },
{
    let mut bytes: u64 = 0;
    let mut files: u64 = 0;
    let mut i: usize = 0;
    while i < sources.len()
        invariant
            i <= sources.len(),
            bytes == total_bytes(sources@.take(i as int)),
            files == total_files(sources@.take(i as int)),
        decreases sources.len() - i,
    {
        let src = &sources[i];
        proof {
            assert(sources@.take(i + 1).drop_last() =~= sources@.take(i as int));
            lemma_totals_prefix(sources@, i + 1);
        }
        match src.kind {
            SourceKind::Dir => {
                let sizes = &src.dir_file_sizes;
                let mut j: usize = 0;
                let mut dir_bytes: u64 = 0;
                while j < sizes.len()
                    invariant
                        j <= sizes.len(),
                        dir_bytes == sum_sizes(sizes@.take(j as int)),
                        bytes + dir_bytes <= u64::MAX,
                        i < sources.len(),
                        sources@[i as int].kind == SourceKind::Dir,
                        sizes@ == sources@[i as int].dir_file_sizes@,
                        bytes == total_bytes(sources@.take(i as int)),
                        sources@.take(i + 1).drop_last() == sources@.take(i as int),
                        total_bytes(sources@.take(i + 1)) <= total_bytes(sources@),
                    decreases sizes.len() - j,
                {
                    proof {
                        assert(sizes@.take(j + 1).drop_last() =~= sizes@.take(j as int));
                    }
                    match dir_bytes.checked_add(sizes[j]) {
                        Some(v) if v <= u64::MAX - bytes => {
                            dir_bytes = v;
                        },
                        _ => {
                            proof {
                                lemma_sum_sizes_prefix(sizes@, j + 1);
                                assert(sources@.take(i + 1).last() == sources@[i as int]);
                                assert(total_bytes(sources@.take(i + 1)) == bytes + sum_sizes(
                                    sizes@,
                                ));
                            }
                            return None;
                        },
                    }
                    j = j + 1;
                }
                assert(sizes@.take(sizes.len() as int) =~= sizes@);
                bytes = bytes + dir_bytes;
                match files.checked_add(sizes.len() as u64) {
                    Some(v) => {
                        files = v;
                    },
                    None => {
                        return None;
                    },
                }
            },
            SourceKind::File => {
                match bytes.checked_add(src.size) {
                    Some(v) => {
                        bytes = v;
                    },
                    None => {
                        return None;
                    },
                }
                match files.checked_add(1) {
                    Some(v) => {
                        files = v;
                    },
                    None => {
                        return None;
                    },
                }
            },
            _ => {},
        }
        i = i + 1;
    }
    assert(sources@.take(sources.len() as int) =~= sources@);
    Some((bytes, files))
}

/// Totals add up over joined source lists: scanning two lists together
/// counts the bytes and files of each, a repeated source counts twice, and an
/// empty list counts nothing.
pub proof fn law_totals_add_up(a: Seq<ScannedSource>, b: Seq<ScannedSource>)
    ensures
        total_bytes(a + b) == total_bytes(a) + total_bytes(b),
        total_files(a + b) == total_files(a) + total_files(b),
        total_bytes(Seq::<ScannedSource>::empty()) == 0,
        total_files(Seq::<ScannedSource>::empty()) == 0,
    decreases b.len(),
{
    if b.len() == 0 {
        assert(a + b =~= a);
    } else {
        law_totals_add_up(a, b.drop_last());
        assert((a + b).drop_last() =~= a + b.drop_last());
        assert((a + b).last() == b.last());
    }
}

/// How many sources are neither missing, nor a file, nor a directory.
pub open spec fn other_count(s: Seq<ScannedSource>) -> nat
    decreases s.len(),
{
    if s.len() == 0 {
        0
    } else {
        other_count(s.drop_last()) + if s.last().kind == SourceKind::Other {
            1nat
        } else {
            0nat
        }
    }
}

/// One file the job will copy: source `source`, and within a directory source
/// the `entry`-th regular file found under it (`None` for the source itself).
#[derive(Debug, Clone, Copy, PartialEq, Eq, Structural)]
pub struct FilePlan {
    pub source: usize,
    pub entry: Option<usize>,
}

/// The files one source yields: none when it is missing, every regular file
/// under it when it is a directory, and the source itself otherwise.
pub open spec fn source_plan(src: ScannedSource, i: nat) -> Seq<FilePlan> {
    match src.kind {
        SourceKind::Missing => Seq::empty(),
        SourceKind::Dir => Seq::new(
            src.dir_file_sizes@.len(),
            |j: int| FilePlan { source: i as usize, entry: Some(j as usize) },
        ),
        _ => seq![FilePlan { source: i as usize, entry: None }],
    }
}

/// The files of all sources, source after source.
pub open spec fn planned_files(s: Seq<ScannedSource>) -> Seq<FilePlan>
    decreases s.len(),
{
    if s.len() == 0 {
        Seq::empty()
    } else {
        planned_files(s.drop_last()) + source_plan(s.last(), (s.len() - 1) as nat)
    }
}

/// The plan copies what the scan counted: a directory yields one planned
/// file per regular file found under it, a file source yields itself, a
/// missing source nothing, and any other existing source one entry that the
/// scan did not count.
pub proof fn law_plan_matches_scan(s: Seq<ScannedSource>)
    ensures
        planned_files(s).len() == total_files(s) + other_count(s),
        forall|i: int|
            0 <= i < s.len() && s[i].kind == SourceKind::Dir ==> #[trigger] source_plan(s[i], i as nat).len()
                == s[i].dir_file_sizes@.len(),
    decreases s.len(),
{
    if s.len() > 0 {
        law_plan_matches_scan(s.drop_last());
    }
}

/// How many sources exist.
pub open spec fn existing_count(s: Seq<ScannedSource>) -> nat
    decreases s.len(),
{
    if s.len() == 0 {
        0
    } else {
        existing_count(s.drop_last()) + if s.last().kind == SourceKind::Missing {
            0nat
        } else {
            1nat
        }
    }
}

/// Some source is a regular file.
pub open spec fn has_file_source(s: Seq<ScannedSource>) -> bool {
    exists|i: int| 0 <= i < s.len() && #[trigger] s[i].kind == SourceKind::File
}

/// The strategy a job actually runs with: automatic mode copies a single
/// existing source that is a file above 100 MiB as a large file and anything
/// else as many files; an explicit choice stands.
pub open spec fn effective_mode(mode: CopyMode, s: Seq<ScannedSource>, bytes_total: nat) -> CopyMode {
    match mode {
        CopyMode::Auto => if existing_count(s) == 1 && has_file_source(s) && bytes_total
            > LARGE_FILE_THRESHOLD {
            CopyMode::Large
        } else {
            CopyMode::Small
        },
        other => other,
    }
}

/// Automatic mode copies as a large file exactly when one source exists, it
/// is a regular file, and the job is above 100 MiB; an explicit mode is never
/// overridden.
pub proof fn law_auto_mode(mode: CopyMode, s: Seq<ScannedSource>, bytes_total: nat)
    ensures
        mode != CopyMode::Auto ==> effective_mode(mode, s, bytes_total) == mode,
        mode == CopyMode::Auto ==> (effective_mode(mode, s, bytes_total) == CopyMode::Large <==> (
        existing_count(s) == 1 && (exists|i: int|
            0 <= i < s.len() && s[i].kind == SourceKind::File) && bytes_total
            > LARGE_FILE_THRESHOLD)),
        effective_mode(mode, s, bytes_total) != CopyMode::Auto,
{
}

/// The sources that exist, in order.
pub open spec fn existing_only(s: Seq<ScannedSource>) -> Seq<ScannedSource>
    decreases s.len(),
{
    if s.len() == 0 {
        s
    } else if s.last().kind == SourceKind::Missing {
        existing_only(s.drop_last())
    } else {
        existing_only(s.drop_last()).push(s.last())
    }
}

proof fn lemma_has_file_last(s: Seq<ScannedSource>)
    requires
        s.len() > 0,
    ensures
        has_file_source(s) == (has_file_source(s.drop_last()) || s.last().kind == SourceKind::File),
{
    let d = s.drop_last();
    if has_file_source(s) {
        let w = choose|w: int| 0 <= w < s.len() && #[trigger] s[w].kind == SourceKind::File;
        if w < d.len() {
            assert(d[w] == s[w]);
        }
    }
    if has_file_source(d) {
        let w = choose|w: int| 0 <= w < d.len() && #[trigger] d[w].kind == SourceKind::File;
        assert(s[w] == d[w]);
    }
    if s.last().kind == SourceKind::File {
        assert(s[s.len() - 1].kind == SourceKind::File);
    }
}

proof fn lemma_plan_sources_in_range(s: Seq<ScannedSource>)
    ensures
        forall|k: int|
            0 <= k < planned_files(s).len() ==> (#[trigger] planned_files(s)[k]).source < s.len(),
    decreases s.len(),
{
    if s.len() > 0 {
        lemma_plan_sources_in_range(s.drop_last());
        let a = planned_files(s.drop_last());
        let b = source_plan(s.last(), (s.len() - 1) as nat);
        assert forall|k: int| 0 <= k < planned_files(s).len() implies (#[trigger] planned_files(
            s,
        )[k]).source < s.len() by {
            if k < a.len() {
                assert(planned_files(s)[k] == a[k]);
            } else {
                assert(planned_files(s)[k] == b[k - a.len()]);
            }
        }
    }
}

/// Missing sources change nothing: a job runs exactly like the same job
/// without them, with the same totals, the same strategy, and the same
/// files planned in the same order, each from the same source.
pub proof fn law_missing_sources_ignored(mode: CopyMode, s: Seq<ScannedSource>)
    requires
        s.len() <= usize::MAX,
    ensures
        ({
            let e = existing_only(s);
            &&& e.len() <= s.len()
            &&& total_bytes(s) == total_bytes(e)
            &&& total_files(s) == total_files(e)
            &&& existing_count(s) == existing_count(e)
            &&& existing_count(e) == e.len()
            &&& has_file_source(s) == has_file_source(e)
            &&& forall|b: nat| effective_mode(mode, s, b) == effective_mode(mode, e, b)
            &&& planned_files(s).len() == planned_files(e).len()
            &&& forall|k: int|
                0 <= k < planned_files(s).len() ==> {
                    &&& (#[trigger] planned_files(s)[k]).entry == planned_files(e)[k].entry
                    &&& planned_files(s)[k].source < s.len()
                    &&& planned_files(e)[k].source < e.len()
                    &&& s[planned_files(s)[k].source as int] == e[planned_files(
                        e,
                    )[k].source as int]
                }
        }),
    decreases s.len(),
{
    lemma_plan_sources_in_range(s);
    lemma_plan_sources_in_range(existing_only(s));
    if s.len() > 0 {
        let d = s.drop_last();
        law_missing_sources_ignored(mode, d);
        lemma_plan_sources_in_range(d);
        lemma_has_file_last(s);
        let e = existing_only(s);
        let ed = existing_only(d);
        let pd = planned_files(d);
        let ped = planned_files(ed);
        if s.last().kind == SourceKind::Missing {
            assert(e == ed);
            assert(planned_files(s) =~= pd);
            assert forall|k: int| 0 <= k < pd.len() implies s[pd[k].source as int]
                == d[pd[k].source as int] by {}
        } else {
            assert(e == ed.push(s.last()));
            assert(e.drop_last() =~= ed);
            lemma_has_file_last(e);
            let ps = planned_files(s);
            let pe = planned_files(e);
            let bs = source_plan(s.last(), (s.len() - 1) as nat);
            let be = source_plan(s.last(), (e.len() - 1) as nat);
            assert(ps == pd + bs);
            assert(pe == ped + be);
            assert(bs.len() == be.len());
            assert forall|k: int| 0 <= k < ps.len() implies {
                &&& (#[trigger] ps[k]).entry == pe[k].entry
                &&& ps[k].source < s.len()
                &&& pe[k].source < e.len()
                &&& s[ps[k].source as int] == e[pe[k].source as int]
            } by {
                if k < pd.len() {
                    assert(ps[k] == pd[k]);
                    assert(pe[k] == ped[k]);
                    assert(s[pd[k].source as int] == d[pd[k].source as int]);
                    assert(e[ped[k].source as int] == ed[ped[k].source as int]);
                } else {
                    assert(ps[k] == bs[k - pd.len()]);
                    assert(pe[k] == be[k - pd.len()]);
                    assert(s[s.len() - 1] == s.last());
                    assert(e[e.len() - 1] == s.last());
                    assert(e.len() <= s.len());
                    assert(ps[k].source == s.len() - 1);
                    assert(pe[k].source == e.len() - 1);
                }
            }
        }
    }
}

/// Everything a job needs before copying starts.
pub struct RunPlan {
    pub bytes_total: u64,
    pub files_total: u64,
    pub mode: CopyMode,
    pub files: Vec<FilePlan>,
}

/// How a job starts.
pub enum RunStart {
    /// No source exists: the job reports that it finished at once.
    NothingToCopy,
    /// The total size or file count does not fit in 64 bits.
    SizeOverflow,
    /// The job copies according to the plan.
    Ready(RunPlan),
}

/// Decides how a job runs from what its sources turned out to be.
pub fn plan_run(mode: CopyMode, sources: &Vec<ScannedSource>) -> (r: RunStart)
    ensures
        existing_count(sources@) == 0 ==> r is NothingToCopy,
        existing_count(sources@) > 0 ==> (r is SizeOverflow <==> (total_bytes(sources@) > u64::MAX
            || total_files(sources@) > u64::MAX)),
        existing_count(sources@) > 0 && total_bytes(sources@) <= u64::MAX && total_files(sources@)
            <= u64::MAX ==> r is Ready,
        r matches RunStart::Ready(plan) ==> {
            &&& existing_count(sources@) > 0
            &&& plan.bytes_total == total_bytes(sources@)
            &&& plan.files_total == total_files(sources@)
            &&& plan.mode == effective_mode(mode, sources@, total_bytes(sources@))
            &&& plan.files@ == planned_files(sources@)
        },
{
    let mut existing: usize = 0;
    let mut any_file = false;
    let mut files: Vec<FilePlan> = Vec::new();
    let mut i: usize = 0;
    while i < sources.len()
        invariant
            i <= sources.len(),
            existing == existing_count(sources@.take(i as int)),
            existing <= i,
            any_file == has_file_source(sources@.take(i as int)),
            files@ == planned_files(sources@.take(i as int)),
        decreases sources.len() - i,
    {
        let ghost prefix = sources@.take(i as int);
        let ghost next = sources@.take(i + 1);
        assert(next.drop_last() =~= prefix);
        let kind = sources[i].kind;
        if kind != SourceKind::Missing {
            existing = existing + 1;
        }
        if kind == SourceKind::File {
            any_file = true;
            assert(next[i as int].kind == SourceKind::File);
        } else {
            assert(has_file_source(next) ==> has_file_source(prefix)) by {
                if has_file_source(next) {
                    let w = choose|w: int| 0 <= w < next.len() && #[trigger] next[w].kind == SourceKind::File;
                    assert(prefix[w].kind == SourceKind::File);
                }
            }
        }
        if any_file && kind != SourceKind::File {
            let ghost w = choose|w: int| 0 <= w < prefix.len() && #[trigger] prefix[w].kind == SourceKind::File;
            assert(next[w].kind == SourceKind::File);
        }
        match kind {
            SourceKind::Missing => {
                assert(files@ =~= planned_files(next));
            },
            SourceKind::Dir => {
                let count = sources[i].dir_file_sizes.len();
                let ghost base = files@;
                let mut j: usize = 0;
                while j < count
                    invariant
                        j <= count,
                        count == sources@[i as int].dir_file_sizes@.len(),
                        files@ == base + Seq::new(
                            j as nat,
                            |k: int| FilePlan { source: i, entry: Some(k as usize) },
                        ),
                    decreases count - j,
                {
                    files.push(FilePlan { source: i, entry: Some(j) });
                    j = j + 1;
                    assert(files@ =~= base + Seq::new(
                        j as nat,
                        |k: int| FilePlan { source: i, entry: Some(k as usize) },
                    ));
                }
                assert(files@ =~= planned_files(next));
            },
            _ => {
                files.push(FilePlan { source: i, entry: None });
                assert(files@ =~= planned_files(next));
            },
        }
        i = i + 1;
    }
    assert(sources@.take(sources.len() as int) =~= sources@);
    if existing == 0 {
        return RunStart::NothingToCopy;
    }
    match scan_sources(sources) {
        None => RunStart::SizeOverflow,
        Some((bytes_total, files_total)) => {
            let effective = match mode {
                CopyMode::Auto => {
                    if existing == 1 && any_file && bytes_total > LARGE_FILE_THRESHOLD {
                        CopyMode::Large
                    } else {
                        CopyMode::Small
                    }
                },
                CopyMode::Large => CopyMode::Large,
                CopyMode::Small => CopyMode::Small,
            };
            RunStart::Ready(RunPlan { bytes_total, files_total, mode: effective, files })
        },
    }
}

/// How one file is copied in many-files mode.
#[derive(Debug, Clone, Copy, PartialEq, Eq, Structural)]
pub enum CopyMethod {
    /// In one call, counting its bytes when it completes.
    WholeFile,
    /// In 1 MiB chunks, counting bytes after every chunk.
    Buffered,
}

/// Files up to 4 MiB are copied whole, larger ones in chunks.
pub fn copy_method(file_size: u64) -> (m: CopyMethod)
    ensures
        m == (if file_size <= WHOLE_COPY_LIMIT {
            CopyMethod::WholeFile
        } else {
            CopyMethod::Buffered
        }),
{
    if file_size <= WHOLE_COPY_LIMIT {
        CopyMethod::WholeFile
    } else {
        CopyMethod::Buffered
    }
}

/// The chunk size of a large-file copy (64 MiB).
pub const LARGE_CHUNK_SIZE: usize = 67_108_864;

/// The chunk size of a chunked copy in many-files mode (1 MiB).
pub const BUFFERED_CHUNK_SIZE: usize = 1_048_576;

/// What a chunked file copy does next.
#[derive(Debug, Clone, Copy, PartialEq, Eq, Structural)]
pub enum ChunkStep {
    /// Read the next chunk from the source.
    Read,
    /// The user cancelled: close and remove the partial destination file and
    /// fail with an "Interrupted: cancelled" error.
    CancelAndRemove,
    /// The source is exhausted: the copy succeeded.
    Finish,
    /// Write the bytes just read to the destination, then report them.
    WriteAndCount(u64),
}

/// The decision of a chunked copy loop. Before each read (`last_read` is
/// `None`) the cancel flag is looked at: set, the copy stops and the partial
/// file goes; clear, the next chunk is read. After a read of `n` bytes, zero
/// ends the copy and anything else is written and counted.
pub fn next_chunk_step(cancelled: bool, last_read: Option<u64>) -> (s: ChunkStep)
    ensures
        s == (match last_read {
            None => if cancelled {
                ChunkStep::CancelAndRemove
            } else {
                ChunkStep::Read
            },
            Some(n) => if n == 0 {
                ChunkStep::Finish
            } else {
                ChunkStep::WriteAndCount(n)
            },
        }),
{
    match last_read {
        None => if cancelled {
            ChunkStep::CancelAndRemove
        } else {
            ChunkStep::Read
        },
        Some(n) => if n == 0 {
            ChunkStep::Finish
        } else {
            ChunkStep::WriteAndCount(n)
        },
    }
}

/// The bookkeeping of a large-file copy: files are copied one after the
/// other, each in chunks, and a report goes out after a file when at least
/// 50 ms passed since the last one. Times are nanoseconds since the job
/// started.
pub struct LargeCopy {
    pub bytes_done: u64,
    pub files_done: u64,
    pub errors: Vec<(String, String)>,
    pub tracker: SpeedTracker,
    pub last_report: u64,
    pub bytes_total: u64,
    pub files_total: u64,
}

/// The time since `then` at time `now`, zero if `now` is earlier.
pub open spec fn time_since(now: u64, then: u64) -> nat {
    if now >= then {
        (now - then) as nat
    } else {
        0
    }
}

impl LargeCopy {
    /// A copy that has not moved any byte yet; `now` is when it started
    /// waiting to report.
    pub fn new(bytes_total: u64, files_total: u64, now: u64) -> (c: Self)
        ensures
            c.bytes_done == 0,
            c.files_done == 0,
            c.errors@ == Seq::<(String, String)>::empty(),
            c.tracker@ == Seq::<(u64, u64)>::empty(),
            c.last_report == now,
            c.bytes_total == bytes_total,
            c.files_total == files_total,
    {
        LargeCopy {
            bytes_done: 0,
            files_done: 0,
            errors: Vec::new(),
            tracker: SpeedTracker::new(),
            last_report: now,
            bytes_total,
            files_total,
        }
    }

    /// A chunk of `n` bytes was written at time `now`.
    pub fn on_chunk(&mut self, n: u64, now: u64)
        requires
            old(self).bytes_done + n <= u64::MAX,
        ensures
            final(self).bytes_done == old(self).bytes_done + n,
            final(self).bytes_done >= old(self).bytes_done,
            final(self).tracker@ == after_add(old(self).tracker@, now, n),
            final(self).files_done == old(self).files_done,
            final(self).errors@ == old(self).errors@,
            final(self).last_report == old(self).last_report,
            final(self).bytes_total == old(self).bytes_total,
            final(self).files_total == old(self).files_total,
    {
        self.bytes_done = self.bytes_done + n;
        self.tracker.add(now, n);
    }

    /// A file was copied (`Ok`) or failed with a message (`Err`) at time
    /// `now`. A failure is recorded against `current_file` and the copy goes
    /// on. Returns the report to send, if one is due.
    pub fn on_file_done(&mut self, outcome: Result<(), String>, current_file: String, now: u64) -> (r:
        Option<CopyProgress>)
        requires
            outcome is Ok ==> old(self).files_done < u64::MAX,
        ensures
            final(self).bytes_done == old(self).bytes_done,
            final(self).files_done >= old(self).files_done,
            final(self).errors@.len() >= old(self).errors@.len(),
            final(self).files_done + final(self).errors@.len() == old(self).files_done + old(
                self,
            ).errors@.len() + 1,
            final(self).tracker@ == old(self).tracker@,
            final(self).bytes_total == old(self).bytes_total,
            final(self).files_total == old(self).files_total,
            match outcome {
                Ok(_) => final(self).files_done == old(self).files_done + 1 && final(self).errors@
                    == old(self).errors@,
                Err(message) => final(self).files_done == old(self).files_done
                    && final(self).errors@.len() == old(self).errors@.len() + 1
                    && final(self).errors@.drop_last() == old(self).errors@
                    && final(self).errors@.last().0 == current_file
                    && final(self).errors@.last().1 == message,
            },
            time_since(now, old(self).last_report) >= REPORT_INTERVAL_NS ==> {
                &&& r matches Some(p)
                &&& report_is(
                    p,
                    final(self).bytes_done,
                    final(self).bytes_total,
                    final(self).files_done,
                    final(self).files_total,
                    current_file@,
                    window_rate(final(self).tracker@),
                    now,
                    final(self).errors@,
                    false,
                    false,
                )
                &&& final(self).last_report == now
            },
            time_since(now, old(self).last_report) < REPORT_INTERVAL_NS ==> r is None
                && final(self).last_report == old(self).last_report,
    {
        match outcome {
            Ok(_) => {
                self.files_done = self.files_done + 1;
            },
            Err(message) => {
                let ghost before = self.errors@;
                self.errors.push((current_file.clone(), message));
                assert(self.errors@.drop_last() =~= before);
            },
        }
        if now.saturating_sub(self.last_report) >= REPORT_INTERVAL_NS {
            let speed = self.tracker.speed();
            let p = report(
                self.bytes_done,
                self.bytes_total,
                self.files_done,
                self.files_total,
                current_file,
                speed,
                now,
                &self.errors,
                false,
                false,
            );
            self.last_report = now;
            Some(p)
        } else {
            None
        }
    }

    /// The report sent when the user cancelled: no current file, a speed of
    /// zero, not finished.
    pub fn cancelled_report(&self, now: u64) -> (p: CopyProgress)
        ensures
            report_is(
                p,
                self.bytes_done,
                self.bytes_total,
                self.files_done,
                self.files_total,
                Seq::empty(),
                None,
                now,
                self.errors@,
                false,
                true,
            ),
    {
        report(
            self.bytes_done,
            self.bytes_total,
            self.files_done,
            self.files_total,
            String::new(),
            None,
            now,
            &self.errors,
            false,
            true,
        )
    }

    /// The last report once every file was tried: the cancelled report if
    /// the user cancelled, otherwise a finished one with the current speed.
    pub fn final_report(&self, cancelled: bool, now: u64) -> (p: CopyProgress)
        ensures
            cancelled ==> report_is(
                p,
                self.bytes_done,
                self.bytes_total,
                self.files_done,
                self.files_total,
                Seq::empty(),
                None,
                now,
                self.errors@,
                false,
                true,
            ),
            !cancelled ==> report_is(
                p,
                self.bytes_done,
                self.bytes_total,
                self.files_done,
                self.files_total,
                Seq::empty(),
                window_rate(self.tracker@),
                now,
                self.errors@,
                true,
                false,
            ),
    {
        if cancelled {
            self.cancelled_report(now)
        } else {
            let speed = self.tracker.speed();
            report(
                self.bytes_done,
                self.bytes_total,
                self.files_done,
                self.files_total,
                String::new(),
                speed,
                now,
                &self.errors,
                true,
                false,
            )
        }
    }
}

/// A report as values.
pub struct ReportView {
    pub bytes_done: u64,
    pub bytes_total: u64,
    pub files_done: u64,
    pub files_total: u64,
    pub current_file: Seq<char>,
    pub speed: Option<(nat, nat)>,
    pub elapsed_ns: u64,
    pub errors: Seq<(String, String)>,
    pub finished: bool,
    pub cancelled: bool,
}

/// A rate as values.
pub open spec fn rate_view(r: Option<Rate>) -> Option<(nat, nat)> {
    match r {
        Some(rate) => Some((rate.bytes as nat, rate.nanos as nat)),
        None => None,
    }
}

/// The values of a report.
pub open spec fn report_view(p: CopyProgress) -> ReportView {
    ReportView {
        bytes_done: p.bytes_done,
        bytes_total: p.bytes_total,
        files_done: p.files_done,
        files_total: p.files_total,
        current_file: p.current_file@,
        speed: rate_view(p.speed),
        elapsed_ns: p.elapsed_ns,
        errors: p.errors@,
        finished: p.finished,
        cancelled: p.cancelled,
    }
}

/// The values of an optional report.
pub open spec fn maybe_report_view(r: Option<CopyProgress>) -> Option<ReportView> {
    match r {
        Some(p) => Some(report_view(p)),
        None => None,
    }
}

proof fn lemma_report_is_view(
    p: CopyProgress,
    bytes_done: u64,
    bytes_total: u64,
    files_done: u64,
    files_total: u64,
    current_file: Seq<char>,
    speed: Option<(nat, nat)>,
    elapsed_ns: u64,
    errors: Seq<(String, String)>,
    finished: bool,
    cancelled: bool,
)
    requires
        report_is(
            p,
            bytes_done,
            bytes_total,
            files_done,
            files_total,
            current_file,
            speed,
            elapsed_ns,
            errors,
            finished,
            cancelled,
        ),
    ensures
        report_view(p) == (ReportView {
            bytes_done,
            bytes_total,
            files_done,
            files_total,
            current_file,
            speed,
            elapsed_ns,
            errors,
            finished,
            cancelled,
        }),
{
}

/// The bookkeeping of a large-file copy as values.
pub struct LargeView {
    pub bytes_done: u64,
    pub files_done: u64,
    pub errors: Seq<(String, String)>,
    pub window: Seq<(u64, u64)>,
    pub last_report: u64,
    pub bytes_total: u64,
    pub files_total: u64,
}

/// The values of a large-file copy's bookkeeping.
pub open spec fn large_view(c: LargeCopy) -> LargeView {
    LargeView {
        bytes_done: c.bytes_done,
        files_done: c.files_done,
        errors: c.errors@,
        window: c.tracker@,
        last_report: c.last_report,
        bytes_total: c.bytes_total,
        files_total: c.files_total,
    }
}

/// What happens during a large-file copy.
pub enum LargeEvent {
    /// A chunk of this many bytes was written.
    Chunk(u64),
    /// A file was copied (`Ok`) or failed; the second field is its name.
    FileDone(Result<(), String>, String),
    /// About to copy the next file; the flag says whether the user cancelled.
    BeforeFile(bool),
    /// Every file was tried; the flag says whether the user cancelled.
    End(bool),
}

/// The event ends the copy: a cancel seen before a file, or the end.
pub open spec fn closes_run(e: LargeEvent) -> bool {
    match e {
        LargeEvent::BeforeFile(c) => c,
        LargeEvent::End(_) => true,
        _ => false,
    }
}

/// The event can be taken in without a counter overflowing.
pub open spec fn large_step_ok(v: LargeView, e: LargeEvent) -> bool {
    match e {
        LargeEvent::Chunk(n) => v.bytes_done + n <= u64::MAX,
        LargeEvent::FileDone(Ok(_), _) => v.files_done < u64::MAX,
        _ => true,
    }
}

/// The report sent when the user cancelled.
pub open spec fn large_cancelled_report(v: LargeView, now: u64) -> ReportView {
    ReportView {
        bytes_done: v.bytes_done,
        bytes_total: v.bytes_total,
        files_done: v.files_done,
        files_total: v.files_total,
        current_file: Seq::empty(),
        speed: None,
        elapsed_ns: now,
        errors: v.errors,
        finished: false,
        cancelled: true,
    }
}

/// One event of a large-file copy: the bookkeeping after it and the report
/// it sends, if any.
pub open spec fn large_step(v: LargeView, e: LargeEvent, now: u64) -> (LargeView, Option<ReportView>) {
    match e {
        LargeEvent::Chunk(n) => (
            LargeView {
                bytes_done: (v.bytes_done + n) as u64,
                window: after_add(v.window, now, n),
                ..v
            },
            None,
        ),
        LargeEvent::FileDone(outcome, file) => {
            let v1 = match outcome {
                Ok(_) => LargeView { files_done: (v.files_done + 1) as u64, ..v },
                Err(message) => LargeView { errors: v.errors.push((file, message)), ..v },
            };
            if time_since(now, v.last_report) >= REPORT_INTERVAL_NS {
                (
                    LargeView { last_report: now, ..v1 },
                    Some(
                        ReportView {
                            bytes_done: v1.bytes_done,
                            bytes_total: v1.bytes_total,
                            files_done: v1.files_done,
                            files_total: v1.files_total,
                            current_file: file@,
                            speed: window_rate(v1.window),
                            elapsed_ns: now,
                            errors: v1.errors,
                            finished: false,
                            cancelled: false,
                        },
                    ),
                )
            } else {
                (v1, None)
            }
        },
        LargeEvent::BeforeFile(cancelled) => if cancelled {
            (v, Some(large_cancelled_report(v, now)))
        } else {
            (v, None)
        },
        LargeEvent::End(cancelled) => if cancelled {
            (v, Some(large_cancelled_report(v, now)))
        } else {
            (
                v,
                Some(
                    ReportView {
                        bytes_done: v.bytes_done,
                        bytes_total: v.bytes_total,
                        files_done: v.files_done,
                        files_total: v.files_total,
                        current_file: Seq::empty(),
                        speed: window_rate(v.window),
                        elapsed_ns: now,
                        errors: v.errors,
                        finished: true,
                        cancelled: false,
                    },
                ),
            )
        },
    }
}

/// The reports an optional report adds to a run.
pub open spec fn report_seq(r: Option<ReportView>) -> Seq<ReportView> {
    match r {
        Some(p) => seq![p],
        None => Seq::empty(),
    }
}

/// A large-file copy over a sequence of timed events: the bookkeeping at the
/// end and every report sent, in order.
pub open spec fn large_run(v: LargeView, events: Seq<(LargeEvent, u64)>) -> (LargeView, Seq<ReportView>)
    decreases events.len(),
{
    if events.len() == 0 {
        (v, Seq::empty())
    } else {
        let (w, reports) = large_run(v, events.drop_last());
        let (w2, r) = large_step(w, events.last().0, events.last().1);
        (w2, reports + report_seq(r))
    }
}

/// No event of the sequence overflows a counter.
pub open spec fn large_run_ok(v: LargeView, events: Seq<(LargeEvent, u64)>) -> bool
    decreases events.len(),
{
    if events.len() == 0 {
        true
    } else {
        large_run_ok(v, events.drop_last()) && large_step_ok(
            large_run(v, events.drop_last()).0,
            events.last().0,
        )
    }
}

/// Over a whole large-file copy, every report carries the totals the copy
/// started with, and the bytes and files done never go down from one report
/// to the next (nor below the start, nor above the end).
pub proof fn law_large_run_counts(v: LargeView, events: Seq<(LargeEvent, u64)>)
    requires
        large_run_ok(v, events),
    ensures
        ({
            let (w, reports) = large_run(v, events);
            &&& w.bytes_total == v.bytes_total && w.files_total == v.files_total
            &&& w.bytes_done >= v.bytes_done && w.files_done >= v.files_done
            &&& forall|i: int|
                0 <= i < reports.len() ==> (#[trigger] reports[i]).bytes_total == v.bytes_total
                    && reports[i].files_total == v.files_total && reports[i].bytes_done
                    <= w.bytes_done && reports[i].files_done <= w.files_done
                    && reports[i].bytes_done >= v.bytes_done && reports[i].files_done
                    >= v.files_done
            &&& forall|i: int, j: int|
                0 <= i < j < reports.len() ==> (#[trigger] reports[i]).bytes_done
                    <= (#[trigger] reports[j]).bytes_done && reports[i].files_done
                    <= reports[j].files_done
        }),
    decreases events.len(),
{
    if events.len() > 0 {
        law_large_run_counts(v, events.drop_last());
        let (w, reports) = large_run(v, events.drop_last());
        let (w2, r) = large_step(w, events.last().0, events.last().1);
        let all = reports + report_seq(r);
        assert forall|i: int| 0 <= i < reports.len() implies all[i] == reports[i] by {}
        match r {
            Some(p) => {
                assert(all[reports.len() as int] == p);
            },
            None => {},
        }
    }
}

/// A large-file copy that stops at its first closing event (a cancel seen
/// before a file, or the end) sends at least one report; its last report is
/// finished or cancelled, never both, and every report before it is
/// neither.
pub proof fn law_large_run_closes(v: LargeView, events: Seq<(LargeEvent, u64)>)
    requires
        events.len() > 0,
        closes_run(events.last().0),
        forall|k: int| 0 <= k < events.len() - 1 ==> !closes_run(#[trigger] events[k].0),
    ensures
        ({
            let reports = large_run(v, events).1;
            &&& reports.len() > 0
            &&& reports.last().finished != reports.last().cancelled
            &&& forall|i: int|
                0 <= i < reports.len() - 1 ==> !(#[trigger] reports[i]).finished
                    && !reports[i].cancelled
        }),
{
    lemma_large_open_reports(v, events.drop_last());
}

proof fn lemma_large_open_reports(v: LargeView, events: Seq<(LargeEvent, u64)>)
    requires
        forall|k: int| 0 <= k < events.len() ==> !closes_run(#[trigger] events[k].0),
    ensures
        forall|i: int|
            0 <= i < large_run(v, events).1.len() ==> !(#[trigger] large_run(v, events).1[i]).finished
                && !large_run(v, events).1[i].cancelled,
    decreases events.len(),
{
    if events.len() > 0 {
        let d = events.drop_last();
        assert forall|k: int| 0 <= k < d.len() implies !closes_run(#[trigger] d[k].0) by {
            assert(d[k] == events[k]);
        }
        lemma_large_open_reports(v, d);
        assert(!closes_run(events[events.len() - 1].0));
        let (w, reports) = large_run(v, d);
        let (w2, r) = large_step(w, events.last().0, events.last().1);
        let all = reports + report_seq(r);
        assert forall|i: int| 0 <= i < reports.len() implies all[i] == reports[i] by {}
    }
}

impl LargeCopy {
    /// Takes in one event of the copy at time `now` and returns the report to
    /// send, if any: a cancel seen before a file sends the cancelled report
    /// (the copy then stops), the end sends the last report.
    pub fn step(&mut self, event: LargeEvent, now: u64) -> (r: Option<CopyProgress>)
        requires
            large_step_ok(large_view(*old(self)), event),
        ensures
            (large_view(*final(self)), maybe_report_view(r)) == large_step(
                large_view(*old(self)),
                event,
                now,
            ),
    {
        let ghost v = large_view(*self);
        match event {
            LargeEvent::Chunk(n) => {
                self.on_chunk(n, now);
                None
            },
            LargeEvent::FileDone(outcome, file) => {
                let ghost o = outcome;
                let ghost f = file;
                let r = self.on_file_done(outcome, file, now);
                proof {
                    match o {
                        Ok(_) => {},
                        Err(message) => {
                            assert(self.errors@ =~= v.errors.push((f, message)));
                        },
                    }
                    let ghost_r = r;
                    match ghost_r {
                        Some(p) => {
                            let v1 = match o {
                                Ok(_) => LargeView { files_done: (v.files_done + 1) as u64, ..v },
                                Err(message) => LargeView {
                                    errors: v.errors.push((f, message)),
                                    ..v
                                },
                            };
                            lemma_report_is_view(
                                p,
                                v1.bytes_done,
                                v1.bytes_total,
                                v1.files_done,
                                v1.files_total,
                                f@,
                                window_rate(v1.window),
                                now,
                                v1.errors,
                                false,
                                false,
                            );
                        },
                        None => {},
                    }
                    match o {
                        Ok(_) => {},
                        Err(message) => {
                            assert(self.errors@ =~= v.errors.push((f, message)));
                        },
                    }
                }
                r
            },
            LargeEvent::BeforeFile(cancelled) => {
                if cancelled {
                    let p = self.cancelled_report(now);
                    proof {
                        lemma_report_is_view(
                            p,
                            v.bytes_done,
                            v.bytes_total,
                            v.files_done,
                            v.files_total,
                            Seq::empty(),
                            None,
                            now,
                            v.errors,
                            false,
                            true,
                        );
                    }
                    Some(p)
                } else {
                    None
                }
            },
            LargeEvent::End(cancelled) => {
                let p = self.final_report(cancelled, now);
                proof {
                    if cancelled {
                        lemma_report_is_view(
                            p,
                            v.bytes_done,
                            v.bytes_total,
                            v.files_done,
                            v.files_total,
                            Seq::empty(),
                            None,
                            now,
                            v.errors,
                            false,
                            true,
                        );
                    } else {
                        lemma_report_is_view(
                            p,
                            v.bytes_done,
                            v.bytes_total,
                            v.files_done,
                            v.files_total,
                            Seq::empty(),
                            window_rate(v.window),
                            now,
                            v.errors,
                            true,
                            false,
                        );
                    }
                }
                Some(p)
            },
        }
    }
}

/// What the many-files coordinator reads from the shared counters on each
/// tick.
pub struct Observation {
    pub bytes_done: u64,
    pub files_done: u64,
    pub current_file: String,
    pub errors: Vec<(String, String)>,
    /// All workers have returned.
    pub workers_done: bool,
    pub cancelled: bool,
}

/// The many-files coordinator: turns each reading of the shared counters into
/// a report and decides when to stop.
pub struct Coordinator {
    pub tracker: SpeedTracker,
    pub prev_bytes: u64,
    pub bytes_total: u64,
    pub files_total: u64,
}

impl Coordinator {
    /// A coordinator that has seen no bytes yet.
    pub fn new(bytes_total: u64, files_total: u64) -> (c: Self)
        ensures
            c.tracker@ == Seq::<(u64, u64)>::empty(),
            c.prev_bytes == 0,
            c.bytes_total == bytes_total,
            c.files_total == files_total,
    {
        Coordinator { tracker: SpeedTracker::new(), prev_bytes: 0, bytes_total, files_total }
    }

    /// One tick at time `now`: a speed sample is added only when bytes moved
    /// since the last tick; the report is finished when the workers are done
    /// and the user did not cancel; the coordinator stops (second result)
    /// once the report is finished or cancelled.
    pub fn tick(&mut self, obs: Observation, now: u64) -> (r: (CopyProgress, bool))
        ensures
            final(self).prev_bytes == obs.bytes_done,
            final(self).bytes_total == old(self).bytes_total,
            final(self).files_total == old(self).files_total,
            final(self).tracker@ == (if obs.bytes_done > old(self).prev_bytes {
                after_add(
                    old(self).tracker@,
                    now,
                    (obs.bytes_done - old(self).prev_bytes) as u64,
                )
            } else {
                old(self).tracker@
            }),
            report_is(
                r.0,
                obs.bytes_done,
                old(self).bytes_total,
                obs.files_done,
                old(self).files_total,
                obs.current_file@,
                window_rate(final(self).tracker@),
                now,
                obs.errors@,
                obs.workers_done && !obs.cancelled,
                obs.cancelled,
            ),
            r.1 == (obs.workers_done || obs.cancelled),
            r.1 ==> (r.0.finished != r.0.cancelled),
            !r.1 ==> !r.0.finished && !r.0.cancelled,
            (coord_view(*final(self)), report_view(r.0), r.1) == tick_step(
                coord_view(*old(self)),
                obs_view(obs),
                now,
            ),
    {
        let delta = obs.bytes_done.saturating_sub(self.prev_bytes);
        if delta > 0 {
            self.tracker.add(now, delta);
        }
        self.prev_bytes = obs.bytes_done;
        let speed = self.tracker.speed();
        let finished = obs.workers_done && !obs.cancelled;
        let p = CopyProgress {
            bytes_done: obs.bytes_done,
            bytes_total: self.bytes_total,
            files_done: obs.files_done,
            files_total: self.files_total,
            current_file: obs.current_file,
            speed,
            elapsed_ns: now,
            errors: obs.errors,
            finished,
            cancelled: obs.cancelled,
        };
        (p, finished || obs.cancelled)
    }
}

/// The coordinator as values.
pub struct CoordView {
    pub window: Seq<(u64, u64)>,
    pub prev_bytes: u64,
    pub bytes_total: u64,
    pub files_total: u64,
}

/// The values of a coordinator.
pub open spec fn coord_view(c: Coordinator) -> CoordView {
    CoordView {
        window: c.tracker@,
        prev_bytes: c.prev_bytes,
        bytes_total: c.bytes_total,
        files_total: c.files_total,
    }
}

/// A reading of the shared counters as values.
pub struct ObsView {
    pub bytes_done: u64,
    pub files_done: u64,
    pub current_file: Seq<char>,
    pub errors: Seq<(String, String)>,
    pub workers_done: bool,
    pub cancelled: bool,
}

/// The values of a reading.
pub open spec fn obs_view(o: Observation) -> ObsView {
    ObsView {
        bytes_done: o.bytes_done,
        files_done: o.files_done,
        current_file: o.current_file@,
        errors: o.errors@,
        workers_done: o.workers_done,
        cancelled: o.cancelled,
    }
}

/// One coordinator tick: the coordinator after it, the report it sends and
/// whether it stops.
pub open spec fn tick_step(v: CoordView, o: ObsView, now: u64) -> (CoordView, ReportView, bool) {
    let window = if o.bytes_done > v.prev_bytes {
        after_add(v.window, now, (o.bytes_done - v.prev_bytes) as u64)
    } else {
        v.window
    };
    (
        CoordView { window, prev_bytes: o.bytes_done, ..v },
        ReportView {
            bytes_done: o.bytes_done,
            bytes_total: v.bytes_total,
            files_done: o.files_done,
            files_total: v.files_total,
            current_file: o.current_file,
            speed: window_rate(window),
            elapsed_ns: now,
            errors: o.errors,
            finished: o.workers_done && !o.cancelled,
            cancelled: o.cancelled,
        },
        o.workers_done || o.cancelled,
    )
}

/// The coordinator over a sequence of timed readings: the coordinator at the
/// end and every report sent, in order.
pub open spec fn coord_run(v: CoordView, readings: Seq<(ObsView, u64)>) -> (CoordView, Seq<ReportView>)
    decreases readings.len(),
{
    if readings.len() == 0 {
        (v, Seq::empty())
    } else {
        let (w, reports) = coord_run(v, readings.drop_last());
        let (w2, r, _) = tick_step(w, readings.last().0, readings.last().1);
        (w2, reports.push(r))
    }
}

/// Over a whole many-files copy the coordinator sends one report per tick,
/// each carrying the totals it started with and the counts it read; so when
/// the shared counts only grow, the reported counts only grow too.
pub proof fn law_coordinator_run_counts(v: CoordView, readings: Seq<(ObsView, u64)>)
    ensures
        ({
            let (w, reports) = coord_run(v, readings);
            &&& reports.len() == readings.len()
            &&& w.bytes_total == v.bytes_total && w.files_total == v.files_total
            &&& forall|i: int|
                0 <= i < reports.len() ==> (#[trigger] reports[i]).bytes_total == v.bytes_total
                    && reports[i].files_total == v.files_total && reports[i].bytes_done
                    == readings[i].0.bytes_done && reports[i].files_done
                    == readings[i].0.files_done
        }),
        (forall|i: int, j: int|
            0 <= i < j < readings.len() ==> (#[trigger] readings[i]).0.bytes_done
                <= (#[trigger] readings[j]).0.bytes_done && readings[i].0.files_done
                <= readings[j].0.files_done) ==> forall|i: int, j: int|
            0 <= i < j < readings.len() ==> (#[trigger] coord_run(v, readings).1[i]).bytes_done
                <= (#[trigger] coord_run(v, readings).1[j]).bytes_done && coord_run(
                v,
                readings,
            ).1[i].files_done <= coord_run(v, readings).1[j].files_done,
    decreases readings.len(),
{
    if readings.len() > 0 {
        let d = readings.drop_last();
        law_coordinator_run_counts(v, d);
        let (w, reports) = coord_run(v, d);
        let all = coord_run(v, readings).1;
        assert forall|i: int| 0 <= i < reports.len() implies all[i] == reports[i] && readings[i]
            == d[i] by {}
        assert(all[reports.len() as int].bytes_done == readings.last().0.bytes_done);
        if forall|i: int, j: int|
            0 <= i < j < readings.len() ==> (#[trigger] readings[i]).0.bytes_done
                <= (#[trigger] readings[j]).0.bytes_done && readings[i].0.files_done
                <= readings[j].0.files_done {
            assert forall|i: int, j: int| 0 <= i < j < d.len() implies (#[trigger] d[i]).0.bytes_done
                <= (#[trigger] d[j]).0.bytes_done && d[i].0.files_done <= d[j].0.files_done by {
                assert(d[i] == readings[i] && d[j] == readings[j]);
            }
            assert forall|i: int, j: int| 0 <= i < j < all.len() implies (#[trigger] all[i]).bytes_done
                <= (#[trigger] all[j]).bytes_done && all[i].files_done <= all[j].files_done by {
                assert(all[i].bytes_done == readings[i].0.bytes_done);
                assert(all[j].bytes_done == readings[j].0.bytes_done);
            }
        }
    }
}

/// The coordinator stops at the first reading where the workers are done or
/// the user cancelled; over such a run its last report is finished or
/// cancelled, never both, and every earlier report is neither, even when
/// there were no files at all.
pub proof fn law_coordinator_run_closes(v: CoordView, readings: Seq<(ObsView, u64)>)
    requires
        readings.len() > 0,
        readings.last().0.workers_done || readings.last().0.cancelled,
        forall|k: int|
            0 <= k < readings.len() - 1 ==> !(#[trigger] readings[k]).0.workers_done
                && !readings[k].0.cancelled,
    ensures
        ({
            let reports = coord_run(v, readings).1;
            &&& reports.len() == readings.len()
            &&& reports.last().finished != reports.last().cancelled
            &&& forall|i: int|
                0 <= i < reports.len() - 1 ==> !(#[trigger] reports[i]).finished
                    && !reports[i].cancelled
        }),
{
    law_coordinator_run_counts(v, readings);
    let reports = coord_run(v, readings).1;
    assert forall|i: int| 0 <= i < reports.len() - 1 implies !(#[trigger] reports[i]).finished
        && !reports[i].cancelled by {
        lemma_coord_report_flags(v, readings, i);
    }
    lemma_coord_report_flags(v, readings, reports.len() - 1);
}

proof fn lemma_coord_report_flags(v: CoordView, readings: Seq<(ObsView, u64)>, i: int)
    requires
        0 <= i < readings.len(),
    ensures
        coord_run(v, readings).1.len() == readings.len(),
        coord_run(v, readings).1[i].finished == (readings[i].0.workers_done
            && !readings[i].0.cancelled),
        coord_run(v, readings).1[i].cancelled == readings[i].0.cancelled,
    decreases readings.len(),
{
    law_coordinator_run_counts(v, readings);
    let d = readings.drop_last();
    if i < readings.len() - 1 {
        lemma_coord_report_flags(v, d, i);
        assert(readings[i] == d[i]);
        assert(coord_run(v, readings).1[i] == coord_run(v, d).1[i]);
    }
}

/// How a file of a many-files copy is counted: as done whether it was copied
/// or not, and listed with its message when it failed.
pub fn small_file_done(outcome: Result<(), String>, file: String) -> (r: (u64, Option<(String, String)>))
    ensures
        r.0 == 1,
        match outcome {
            Ok(_) => r.1 is None,
            Err(message) => r.1 == Some((file, message)),
        },
{
    match outcome {
        Ok(_) => (1, None),
        Err(message) => (1, Some((file, message))),
    }
}

} // verus!
