//! Jobs: one pair of roots, or one source and several targets, and how they are synced.
use vstd::prelude::*;
use crate::apply::ApplyOptions;
use crate::compare::CompareOptions;
use crate::filter::{chosen_phrases, rules_on, PathFilter};
use crate::foundation::dirs::{below_of, in_dir};
use crate::fs::vfs::error::{IoFailure, IoKind};
use crate::order::{codes, codes_of, key_views, stable_order, stable_sort};
use crate::strings::{chars_of, same, texts};
use crate::table::{copy_opt, opt_text};

verus! {

/// How a job is set up. Empty lists and `None` leave the choice to the defaults.
#[derive(Debug)]
pub struct Job {
    /// `mirror`, `sync` or `enrich`.
    pub mode: String,
    pub source: String,
    pub target: String,
    /// Several targets in place of the one; each is compared and applied on its own.
    pub targets: Vec<String>,
    /// The table of the last sync.
    pub archive: Option<String>,
    /// What takes part; everything where it is empty.
    pub includes: Vec<String>,
    /// What does not.
    pub exclude: Vec<String>,
    pub no_hash: bool,
    /// A preset for the four settings below: `quick`, `fast`, `standard`, `paranoid` or `custom`.
    pub rigor: String,
    /// What is read of a file: `none`, `sampled` or `full`.
    pub evidence: Option<String>,
    /// Whether remembered hashes are trusted.
    pub use_cache: Option<bool>,
    /// Whether equal samples with different times are settled by reading everything.
    pub escalate: Option<bool>,
    /// Whether what was written is read again.
    pub verify_writes: Option<bool>,
    pub case_sensitive: bool,
    /// `exclude` or `direct`.
    pub symlinks: String,
    pub versioning: bool,
    pub remote_host: Option<String>,
    pub remote_root: Option<String>,
    pub remote_exe: Option<String>,
    pub require_marker: bool,
    pub fsync: bool,
    /// `report`, `copy` or `newer`.
    pub on_conflict: String,
    /// How many conflict copies of a file are kept; negative for all.
    pub max_conflicts: i32,
    pub sync_mode: bool,
    /// What may be deleted along with its directory.
    pub deletable: Vec<String>,
    pub delta: bool,
    /// `auto`, `windows`, `mac` or `off`.
    pub os_excludes: String,
    pub dev_excludes: bool,
    pub parallel: Option<usize>,
    pub watch_interval_secs: Option<u64>,
    pub watch_auto_apply: bool,
}

/// A job over its texts.
pub struct JobModel {
    pub mode: Seq<char>,
    pub source: Seq<char>,
    pub target: Seq<char>,
    pub targets: Seq<Seq<char>>,
    pub archive: Option<Seq<char>>,
    pub includes: Seq<Seq<char>>,
    pub exclude: Seq<Seq<char>>,
    pub no_hash: bool,
    pub rigor: Seq<char>,
    pub evidence: Option<Seq<char>>,
    pub use_cache: Option<bool>,
    pub escalate: Option<bool>,
    pub verify_writes: Option<bool>,
    pub case_sensitive: bool,
    pub symlinks: Seq<char>,
    pub versioning: bool,
    pub remote_host: Option<Seq<char>>,
    pub remote_root: Option<Seq<char>>,
    pub remote_exe: Option<Seq<char>>,
    pub require_marker: bool,
    pub fsync: bool,
    pub on_conflict: Seq<char>,
    pub max_conflicts: i32,
    pub sync_mode: bool,
    pub deletable: Seq<Seq<char>>,
    pub delta: bool,
    pub os_excludes: Seq<char>,
    pub dev_excludes: bool,
    pub parallel: Option<usize>,
    pub watch_interval_secs: Option<u64>,
    pub watch_auto_apply: bool,
}

impl View for Job {
    type V = JobModel;

    open spec fn view(&self) -> JobModel {
        JobModel {
            mode: self.mode@,
            source: self.source@,
            target: self.target@,
            targets: texts(self.targets@),
            archive: opt_text(self.archive),
            includes: texts(self.includes@),
            exclude: texts(self.exclude@),
            no_hash: self.no_hash,
            rigor: self.rigor@,
            evidence: opt_text(self.evidence),
            use_cache: self.use_cache,
            escalate: self.escalate,
            verify_writes: self.verify_writes,
            case_sensitive: self.case_sensitive,
            symlinks: self.symlinks@,
            versioning: self.versioning,
            remote_host: opt_text(self.remote_host),
            remote_root: opt_text(self.remote_root),
            remote_exe: opt_text(self.remote_exe),
            require_marker: self.require_marker,
            fsync: self.fsync,
            on_conflict: self.on_conflict@,
            max_conflicts: self.max_conflicts,
            sync_mode: self.sync_mode,
            deletable: texts(self.deletable@),
            delta: self.delta,
            os_excludes: self.os_excludes@,
            dev_excludes: self.dev_excludes,
            parallel: self.parallel,
            watch_interval_secs: self.watch_interval_secs,
            watch_auto_apply: self.watch_auto_apply,
        }
    }
}

/// A job of which nothing is said.
pub open spec fn default_job() -> JobModel {
    JobModel {
        mode: "mirror"@,
        source: Seq::empty(),
        target: Seq::empty(),
        targets: Seq::empty(),
        archive: None,
        includes: Seq::empty(),
        exclude: Seq::empty(),
        no_hash: false,
        rigor: "standard"@,
        evidence: None,
        use_cache: None,
        escalate: None,
        verify_writes: None,
        case_sensitive: false,
        symlinks: "exclude"@,
        versioning: false,
        remote_host: None,
        remote_root: None,
        remote_exe: None,
        require_marker: false,
        fsync: true,
        on_conflict: "report"@,
        max_conflicts: 5,
        sync_mode: false,
        deletable: Seq::empty(),
        delta: false,
        os_excludes: "auto"@,
        dev_excludes: false,
        parallel: None,
        watch_interval_secs: None,
        watch_auto_apply: false,
    }
}

impl Default for Job {
    fn default() -> (r: Job)
        ensures
            r@ == default_job(),
    {
        let j = Job {
            mode: "mirror".to_owned(),
            source: String::new(),
            target: String::new(),
            targets: Vec::new(),
            archive: None,
            includes: Vec::new(),
            exclude: Vec::new(),
            no_hash: false,
            rigor: "standard".to_owned(),
            evidence: None,
            use_cache: None,
            escalate: None,
            verify_writes: None,
            case_sensitive: false,
            symlinks: "exclude".to_owned(),
            versioning: false,
            remote_host: None,
            remote_root: None,
            remote_exe: None,
            require_marker: false,
            fsync: true,
            on_conflict: "report".to_owned(),
            max_conflicts: 5,
            sync_mode: false,
            deletable: Vec::new(),
            delta: false,
            os_excludes: "auto".to_owned(),
            dev_excludes: false,
            parallel: None,
            watch_interval_secs: None,
            watch_auto_apply: false,
        };
        proof {
            assert(j@.source =~= Seq::<char>::empty());
            assert(j@.target =~= Seq::<char>::empty());
            assert(j@.targets =~= Seq::<Seq<char>>::empty());
            assert(j@.includes =~= Seq::<Seq<char>>::empty());
            assert(j@.exclude =~= Seq::<Seq<char>>::empty());
            assert(j@.deletable =~= Seq::<Seq<char>>::empty());
        }
        j
    }
}

/// What is read, trusted and checked, once presets and settings are put together.
#[derive(Clone, Copy, Debug, PartialEq, Eq, Structural)]
pub struct RigorResolved {
    pub hash: bool,
    pub sampled: bool,
    pub use_cache: bool,
    pub escalate: bool,
    pub verify_writes: bool,
}

/// What a preset stands for. What is not known is taken for `standard`.
pub open spec fn preset(name: Seq<char>) -> RigorResolved {
    if name == "quick"@ {
        RigorResolved {
            hash: false,
            sampled: false,
            use_cache: false,
            escalate: false,
            verify_writes: false,
        }
    } else if name == "fast"@ {
        RigorResolved {
            hash: true,
            sampled: true,
            use_cache: true,
            escalate: true,
            verify_writes: false,
        }
    } else if name == "paranoid"@ {
        RigorResolved {
            hash: true,
            sampled: false,
            use_cache: false,
            escalate: false,
            verify_writes: true,
        }
    } else {
        RigorResolved {
            hash: true,
            sampled: true,
            use_cache: false,
            escalate: true,
            verify_writes: true,
        }
    }
}

pub open spec fn over(set: Option<bool>, base: bool) -> bool {
    match set {
        Some(v) => v,
        None => base,
    }
}

impl RigorResolved {
    pub fn from_preset(name: &str) -> (r: RigorResolved)
        ensures
            r == preset(name@),
    {
        if same(name, "quick") {
            RigorResolved {
                hash: false,
                sampled: false,
                use_cache: false,
                escalate: false,
                verify_writes: false,
            }
        } else if same(name, "fast") {
            RigorResolved {
                hash: true,
                sampled: true,
                use_cache: true,
                escalate: true,
                verify_writes: false,
            }
        } else if same(name, "paranoid") {
            RigorResolved {
                hash: true,
                sampled: false,
                use_cache: false,
                escalate: false,
                verify_writes: true,
            }
        } else {
            RigorResolved {
                hash: true,
                sampled: true,
                use_cache: false,
                escalate: true,
                verify_writes: true,
            }
        }
    }

    pub open spec fn evidence_spec(self, evidence: Option<Seq<char>>) -> RigorResolved {
        match evidence {
            None => self,
            Some(e) => RigorResolved {
                hash: e != "none"@,
                sampled: e != "none"@ && e != "full"@,
                ..self
            },
        }
    }

    /// With what is read set by name: nothing, everything, or else samples.
    pub fn with_evidence(self, evidence: &Option<String>) -> (r: RigorResolved)
        ensures
            r == self.evidence_spec(opt_text(*evidence)),
    {
        let mut r = self;
        if let Some(e) = evidence {
            if same(e.as_str(), "none") {
                r.hash = false;
                r.sampled = false;
            } else if same(e.as_str(), "full") {
                r.hash = true;
                r.sampled = false;
            } else {
                r.hash = true;
                r.sampled = true;
            }
        }
        r
    }

    pub fn with_cache(self, cache: Option<bool>) -> (r: RigorResolved)
        ensures
            r == (RigorResolved { use_cache: over(cache, self.use_cache), ..self }),
    {
        let mut r = self;
        if let Some(v) = cache {
            r.use_cache = v;
        }
        r
    }

    pub fn with_no_hash(self, no_hash: bool) -> (r: RigorResolved)
        ensures
            r == (RigorResolved { hash: self.hash && !no_hash, ..self }),
    {
        let mut r = self;
        if no_hash {
            r.hash = false;
        }
        r
    }
}

/// The preset, the settings over it, and last the switch that turns hashes off.
pub open spec fn resolved(j: JobModel) -> RigorResolved {
    let base = preset(j.rigor).evidence_spec(j.evidence);
    RigorResolved {
        hash: base.hash && !j.no_hash,
        sampled: base.sampled,
        use_cache: over(j.use_cache, base.use_cache),
        escalate: over(j.escalate, base.escalate),
        verify_writes: over(j.verify_writes, base.verify_writes),
    }
}

/// A setting that is made beats the preset, whatever the preset is.
pub proof fn settings_beat_the_preset(a: JobModel, b: JobModel)
    requires
        a.evidence == b.evidence,
        a.evidence is Some,
        a.use_cache == b.use_cache,
        a.use_cache is Some,
        a.escalate == b.escalate,
        a.escalate is Some,
        a.verify_writes == b.verify_writes,
        a.verify_writes is Some,
        a.no_hash == b.no_hash,
    ensures
        resolved(a) == resolved(b),
{
}

/// What to do about files that changed on both sides.
#[derive(Clone, Copy, Debug, PartialEq, Eq, Structural)]
pub enum ConflictPolicy {
    Report,
    Copy,
    Newer,
}

fn copy_texts(v: &Vec<String>) -> (r: Vec<String>)
    ensures
        texts(r@) == texts(v@),
{
    let mut out: Vec<String> = Vec::new();
    let mut i: usize = 0;
    while i < v.len()
        invariant
            i <= v@.len(),
            out@.len() == i,
            forall|j: int| 0 <= j < i ==> (#[trigger] out@[j])@ == v@[j]@,
        decreases v@.len() - i,
    {
        out.push(v[i].clone());
        i = i + 1;
    }
    assert(texts(out@) =~= texts(v@));
    out
}

/// The targets that count.
pub open spec fn effective_targets(j: JobModel) -> Seq<Seq<char>> {
    if j.targets.len() == 0 {
        seq![j.target]
    } else {
        j.targets
    }
}

pub open spec fn multi_target_fault(j: JobModel) -> Option<Seq<char>> {
    if j.targets.len() <= 1 {
        None
    } else if j.mode == "sync"@ {
        Some(
            "sync 模式不支持多 target（N 向合并需要版本向量归因）——请用成对的 sync 任务（hub-and-spoke）"@,
        )
    } else if j.remote_host is Some {
        Some("远程任务暂不支持多 target"@)
    } else {
        None
    }
}

pub open spec fn policy(name: Seq<char>) -> ConflictPolicy {
    if name == "copy"@ {
        ConflictPolicy::Copy
    } else if name == "newer"@ {
        ConflictPolicy::Newer
    } else {
        ConflictPolicy::Report
    }
}

impl Job {
    /// The targets that count: the list, or the one.
    pub fn target_list(&self) -> (r: Vec<String>)
        ensures
            texts(r@) == effective_targets(self@),
    {
        if self.targets.len() == 0 {
            let mut v: Vec<String> = Vec::new();
            v.push(self.target.clone());
            assert(texts(v@) =~= seq![self.target@]);
            v
        } else {
            copy_texts(&self.targets)
        }
    }

    /// Several targets are for one-way jobs on this machine.
    pub fn validate_multi_target(&self) -> (r: Result<(), String>)
        ensures
            match r {
                Ok(_) => multi_target_fault(self@) is None,
                Err(t) => multi_target_fault(self@) == Some(t@),
            },
    {
        assert(self@.targets.len() == self.targets@.len());
        if self.targets.len() > 1 {
            if same(self.mode.as_str(), "sync") {
                return Err(
                    "sync 模式不支持多 target（N 向合并需要版本向量归因）——请用成对的 sync 任务（hub-and-spoke）".to_owned(),
                );
            }
            if self.remote_host.is_some() {
                return Err("远程任务暂不支持多 target".to_owned());
            }
        }
        Ok(())
    }

    /// The same job with one target.
    pub fn for_target(&self, t: &str) -> (r: Job)
        ensures
            r@ == (JobModel { target: t@, targets: Seq::empty(), ..self@ }),
    {
        let j = Job {
            mode: self.mode.clone(),
            source: self.source.clone(),
            target: t.to_owned(),
            targets: Vec::new(),
            archive: copy_opt(&self.archive),
            includes: copy_texts(&self.includes),
            exclude: copy_texts(&self.exclude),
            no_hash: self.no_hash,
            rigor: self.rigor.clone(),
            evidence: copy_opt(&self.evidence),
            use_cache: self.use_cache,
            escalate: self.escalate,
            verify_writes: self.verify_writes,
            case_sensitive: self.case_sensitive,
            symlinks: self.symlinks.clone(),
            versioning: self.versioning,
            remote_host: copy_opt(&self.remote_host),
            remote_root: copy_opt(&self.remote_root),
            remote_exe: copy_opt(&self.remote_exe),
            require_marker: self.require_marker,
            fsync: self.fsync,
            on_conflict: self.on_conflict.clone(),
            max_conflicts: self.max_conflicts,
            sync_mode: self.sync_mode,
            deletable: copy_texts(&self.deletable),
            delta: self.delta,
            os_excludes: self.os_excludes.clone(),
            dev_excludes: self.dev_excludes,
            parallel: self.parallel,
            watch_interval_secs: self.watch_interval_secs,
            watch_auto_apply: self.watch_auto_apply,
        };
        assert(j@.targets =~= Seq::<Seq<char>>::empty());
        j
    }

    /// What is read, trusted and checked.
    pub fn rigor_resolved(&self) -> (r: RigorResolved)
        ensures
            r == resolved(self@),
    {
        let mut r = RigorResolved::from_preset(self.rigor.as_str()).with_evidence(
            &self.evidence,
        ).with_cache(self.use_cache);
        if let Some(v) = self.escalate {
            r.escalate = v;
        }
        if let Some(v) = self.verify_writes {
            r.verify_writes = v;
        }
        r.with_no_hash(self.no_hash)
    }

    pub fn compare_opts(&self) -> (r: CompareOptions)
        ensures
            r.case_insensitive == !self.case_sensitive,
    {
        CompareOptions { case_insensitive: !self.case_sensitive }
    }

    pub fn conflict_policy(&self) -> (r: ConflictPolicy)
        ensures
            r == policy(self.on_conflict@),
    {
        if same(self.on_conflict.as_str(), "copy") {
            ConflictPolicy::Copy
        } else if same(self.on_conflict.as_str(), "newer") {
            ConflictPolicy::Newer
        } else {
            ConflictPolicy::Report
        }
    }

    /// How a plan of this job is applied.
    pub fn apply_opts(&self, trash: Option<String>, verbose: bool) -> (r: ApplyOptions)
        ensures
            !r.dry_run,
            r.trash == trash,
            r.verbose == verbose,
            r.verify == resolved(self@).verify_writes,
            r.versioning == self.versioning,
            r.fsync == self.fsync,
            r.delta == self.delta,
            r.filter matches Some(f) && f@ == rules_on(
                chosen_phrases(self.os_excludes@, self.dev_excludes),
                texts(self.includes@),
                texts(self.exclude@),
                texts(self.deletable@),
            ),
    {
        ApplyOptions {
            dry_run: false,
            trash,
            verbose,
            verify: self.rigor_resolved().verify_writes,
            versioning: self.versioning,
            fsync: self.fsync,
            filter: Some(
                PathFilter::build_full_opt(
                    self.includes.as_slice(),
                    self.exclude.as_slice(),
                    self.deletable.as_slice(),
                    self.os_excludes.as_str(),
                    self.dev_excludes,
                ),
            ),
            delta: self.delta,
        }
    }

    /// How many files are copied at once: 4 where nothing is said, 1 to 16 in any case.
    pub fn parallel_width(&self) -> (r: usize)
        ensures
            r == ({
                let n = match self.parallel {
                    Some(n) => n,
                    None => 4,
                };
                if n < 1 {
                    1
                } else if n > 16 {
                    16
                } else {
                    n
                }
            }),
    {
        let n: usize = match self.parallel {
            Some(n) => n,
            None => 4,
        };
        if n < 1 {
            1
        } else if n > 16 {
            16
        } else {
            n
        }
    }
}

/// The file of a job.
pub fn job_file(jobs_dir: &str, windows: bool, name: &str) -> (r: String)
    ensures
        r@ == below_of(jobs_dir@, windows, name@ + ".toml"@),
{
    let mut leaf = name.to_owned();
    leaf.append(".toml");
    in_dir(jobs_dir, windows, leaf.as_str())
}

/// Which file a job is read from: the one that was named, where it is one, else the one in the jobs'
/// directory.
pub fn locate_job(
    given: &str,
    given_is_file: bool,
    candidate: &str,
    candidate_is_file: bool,
) -> (r: Result<String, IoFailure>)
    ensures
        if given_is_file {
            r matches Ok(p) && p@ == given@
        } else if candidate_is_file {
            r matches Ok(p) && p@ == candidate@
        } else {
            r matches Err(e) && e.kind == IoKind::NotFound && e.raw is None && e.message@
                == "job not found: "@ + given@ + " (looked at "@ + candidate@ + ")"@
        },
{
    if given_is_file {
        Ok(given.to_owned())
    } else if candidate_is_file {
        Ok(candidate.to_owned())
    } else {
        let mut s = "job not found: ".to_owned();
        s.append(given);
        s.append(" (looked at ");
        s.append(candidate);
        s.append(")");
        Err(IoFailure::new(IoKind::NotFound, s.as_str()))
    }
}

pub open spec fn name_keys(names: Seq<Seq<char>>) -> Seq<Seq<i64>> {
    Seq::new(names.len(), |i: int| codes(names[i]))
}

/// The order in which jobs are listed: by name, and as they came where names are equal.
pub fn job_order(names: &Vec<String>) -> (r: Vec<usize>)
    ensures
        stable_order(name_keys(texts(names@)), r@),
{
    let mut keys: Vec<Vec<i64>> = Vec::new();
    let mut i: usize = 0;
    while i < names.len()
        invariant
            i <= names@.len(),
            keys@.len() == i,
            forall|j: int| 0 <= j < i ==> (#[trigger] keys@[j])@ == codes(names@[j]@),
        decreases names@.len() - i,
    {
        keys.push(codes_of(chars_of(names[i].as_str()).as_slice()));
        i = i + 1;
    }
    assert(key_views(keys@) =~= name_keys(texts(names@)));
    stable_sort(&keys)
}

/// What the presets promise: `quick` reads and checks nothing, `fast` reads samples and checks no writes,
/// `paranoid` reads everything anew, and both it and `standard` check what they wrote. A name that is not
/// known means `standard`.
pub proof fn what_the_presets_promise(name: Seq<char>)
    ensures
        !preset("quick"@).hash && !preset("quick"@).verify_writes,
        preset("fast"@).hash && preset("fast"@).sampled && preset("fast"@).use_cache,
        !preset("fast"@).verify_writes,
        preset("paranoid"@).hash && !preset("paranoid"@).sampled && !preset("paranoid"@).use_cache,
        preset("paranoid"@).verify_writes,
        preset("standard"@).hash && preset("standard"@).verify_writes && !preset("standard"@).use_cache,
        preset("standard"@).sampled && preset("standard"@).escalate && preset("fast"@).escalate,
        name != "quick"@ && name != "fast"@ && name != "paranoid"@ ==> preset(name) == preset("standard"@),
        preset(name).sampled ==> preset(name).hash,
{
    reveal_strlit("quick");
    reveal_strlit("fast");
    reveal_strlit("paranoid");
    reveal_strlit("standard");
    assert("quick"@.len() == 5 && "fast"@.len() == 4 && "paranoid"@.len() == 8 && "standard"@.len() == 8);
    assert("paranoid"@[0] == 'p' && "standard"@[0] == 's');
}

/// Each setting that is made is what counts, each that is not leaves the preset's, and the switch that
/// turns hashes off beats them all.
pub proof fn every_setting_counts(j: JobModel)
    ensures
        j.no_hash ==> !resolved(j).hash,
        j.use_cache matches Some(v) ==> resolved(j).use_cache == v,
        j.escalate matches Some(v) ==> resolved(j).escalate == v,
        j.verify_writes matches Some(v) ==> resolved(j).verify_writes == v,
        j.use_cache is None ==> resolved(j).use_cache == preset(j.rigor).use_cache,
        j.escalate is None ==> resolved(j).escalate == preset(j.rigor).escalate,
        j.verify_writes is None ==> resolved(j).verify_writes == preset(j.rigor).verify_writes,
        j.evidence is None && !j.no_hash ==> resolved(j).hash == preset(j.rigor).hash && resolved(j).sampled
            == preset(j.rigor).sampled,
        j.evidence == Some("none"@) ==> !resolved(j).hash && !resolved(j).sampled,
        j.evidence == Some("full"@) ==> resolved(j).hash == !j.no_hash && !resolved(j).sampled,
        j.evidence matches Some(e) && e != "none"@ && e != "full"@ ==> resolved(j).hash == !j.no_hash
            && resolved(j).sampled,
{
    reveal_strlit("none");
    reveal_strlit("full");
    assert("none"@[0] == 'n' && "full"@[0] == 'f');
}

/// A list of targets stands for itself, and the one target only where there is no list; there is always
/// one. Several are refused exactly where they are to be synced both ways or are reached from afar.
pub proof fn targets_are_the_list_or_the_one(j: JobModel)
    ensures
        effective_targets(j).len() >= 1,
        j.targets.len() > 0 ==> effective_targets(j) == j.targets,
        j.targets.len() == 0 ==> effective_targets(j).len() == 1 && effective_targets(j)[0] == j.target,
        multi_target_fault(j) is Some <==> effective_targets(j).len() > 1 && (j.mode == "sync"@
            || j.remote_host is Some),
{
}

/// Conflicts are reported unless a copy is asked for or the newer file is to win.
pub proof fn conflicts_are_reported_by_default(name: Seq<char>)
    ensures
        policy(name) == ConflictPolicy::Copy <==> name == "copy"@,
        policy(name) == ConflictPolicy::Newer <==> name == "newer"@,
        policy(default_job().on_conflict) == ConflictPolicy::Report,
{
    reveal_strlit("copy");
    reveal_strlit("newer");
    reveal_strlit("report");
    assert("copy"@.len() == 4 && "newer"@.len() == 5 && "report"@.len() == 6);
}

/// Several targets are for jobs that go one way and run on this machine; one target is for every job.
pub proof fn several_targets_are_for_one_way_jobs_here(j: JobModel)
    ensures
        multi_target_fault(j) is None <==> j.targets.len() <= 1 || (j.mode != "sync"@ && j.remote_host is None),
{
}

/// A job that says nothing is resolved as the middle preset, with hashes and verified writes; it follows
/// no link, keeps to one target on this machine, writes through to the disk, and does nothing by itself:
/// whatever goes beyond that has to be asked for.
pub proof fn what_is_not_asked_for_is_off()
    ensures
        resolved(default_job()) == preset(default_job().rigor),
        resolved(default_job()).hash && resolved(default_job()).verify_writes,
        !resolved(default_job()).use_cache,
        multi_target_fault(default_job()) is None,
        default_job().remote_host is None && default_job().remote_root is None && default_job().remote_exe is None,
        default_job().fsync,
        !default_job().versioning && !default_job().delta && !default_job().sync_mode
            && !default_job().watch_auto_apply && !default_job().require_marker && !default_job().dev_excludes
            && !default_job().case_sensitive,
        default_job().includes.len() == 0 && default_job().exclude.len() == 0 && default_job().deletable.len() == 0,
        default_job().symlinks == "exclude"@,
        default_job().parallel is None && default_job().watch_interval_secs is None,
{
    reveal_strlit("standard");
    reveal_strlit("quick");
    reveal_strlit("fast");
    reveal_strlit("paranoid");
    assert("standard"@[0] == 's' && "paranoid"@[0] == 'p' && "quick"@.len() == 5 && "fast"@.len() == 4
        && "standard"@.len() == 8);
}

} // verus!
