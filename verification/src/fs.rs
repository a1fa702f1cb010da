//! The stale-entry scanner: age classification and the walk over a directory
//! tree, in file granularity (stale files, optionally recursive) and in
//! directory granularity (stale immediate subdirectories).

use vstd::prelude::*;

use crate::arg::{Config, ConfigV};

verus! {

/// A directory tree as one scan sees it: each entry carries the name it has
/// inside its parent and the last-access time (seconds since the epoch) that
/// its metadata reported. A directory that could not be listed is kept with
/// `readable` false and no entries.
pub enum FsNode {
    File { name: String, accessed: u64 },
    Dir { name: String, accessed: u64, readable: bool, entries: Vec<FsNode> },
}

pub open spec fn node_name(n: FsNode) -> Seq<char> {
    match n {
        FsNode::File { name, .. } => name@,
        FsNode::Dir { name, .. } => name@,
    }
}

pub open spec fn node_accessed(n: FsNode) -> u64 {
    match n {
        FsNode::File { accessed, .. } => accessed,
        FsNode::Dir { accessed, .. } => accessed,
    }
}

/// Whether a directory node's listing succeeded; a file is not listable.
pub open spec fn node_readable(n: FsNode) -> bool {
    match n {
        FsNode::File { .. } => false,
        FsNode::Dir { readable, .. } => readable,
    }
}

/// A directory node's immediate entries; a file has none.
pub open spec fn node_entries(n: FsNode) -> Seq<FsNode> {
    match n {
        FsNode::File { .. } => Seq::empty(),
        FsNode::Dir { entries, .. } => entries@,
    }
}

impl FsNode {
    pub fn accessed(&self) -> (r: u64)
        ensures
            r == node_accessed(*self),
    {
        match self {
            FsNode::File { accessed, .. } => *accessed,
            FsNode::Dir { accessed, .. } => *accessed,
        }
    }
}

/// Mathematical model of a [`Dir`] report.
pub ghost struct DirV {
    pub parent_path: Seq<char>,
    pub files_path: Seq<Seq<char>>,
}

/// One scan report: a directory and the names of the stale entries found
/// directly inside it, in enumeration order. A report is only ever produced
/// with at least one entry.
pub struct Dir {
    pub parent_path: String,
    pub files_path: Vec<String>,
}

impl View for Dir {
    type V = DirV;

    open spec fn view(&self) -> DirV {
        DirV {
            parent_path: self.parent_path@,
            files_path: self.files_path@.map_values(|s: String| s@),
        }
    }
}

/// Mathematical model of a [`ScanError`].
pub ghost enum ScanErrorV {
    Unreadable(Seq<char>),
    ClockSkew(Seq<char>),
    NoTargets(Seq<char>),
}

/// Why a directory scan stopped: the directory could not be listed; an entry
/// in it had a last-access time in the future of the scan start (an
/// unreliable clock, so the whole directory is refused rather than clamped);
/// or a directory-granularity scan found nothing stale, which is reported
/// distinctly from an empty result.
#[derive(Debug)]
pub enum ScanError {
    Unreadable(String),
    ClockSkew(String),
    NoTargets(String),
}

impl View for ScanError {
    type V = ScanErrorV;

    open spec fn view(&self) -> ScanErrorV {
        match self {
            ScanError::Unreadable(p) => ScanErrorV::Unreadable(p@),
            ScanError::ClockSkew(p) => ScanErrorV::ClockSkew(p@),
            ScanError::NoTargets(p) => ScanErrorV::NoTargets(p@),
        }
    }
}

/// The full path of an entry called `name` inside the directory at `dir`.
pub open spec fn join_path(dir: Seq<char>, name: Seq<char>) -> Seq<char> {
    dir + "/"@ + name
}

/// The age cutoff in seconds.
pub open spec fn threshold_secs(days: u64) -> int {
    days * 86400
}

/// Whether an entry last accessed at `accessed` is stale at instant `now`:
/// its age must strictly exceed the threshold. An entry from the future is
/// never stale; it is a clock-skew fault, handled separately.
pub open spec fn spec_is_stale(now: u64, accessed: u64, days: u64) -> bool {
    accessed <= now && now - accessed > threshold_secs(days)
}

/// Classifies one entry by age: `None` is a clock-skew fault (`accessed`
/// lies in the future of `now`); otherwise the entry is stale if and only if
/// its age strictly exceeds `duration_days` days. An entry exactly at the
/// threshold is not stale.
pub fn classify_age(now: u64, accessed: u64, duration_days: u64) -> (r: Option<bool>)
    ensures
        r is Some <==> accessed <= now,
        r matches Some(stale) ==> stale == spec_is_stale(now, accessed, duration_days),
{
    if accessed > now {
        None
    } else {
        let age: u64 = now - accessed;
        Some((age as u128) > (duration_days as u128) * 86400)
    }
}

/// Staleness is strict in the threshold: for every threshold and every entry
/// age, the entry is stale exactly when its age exceeds the threshold, and
/// never when the two are equal.
pub proof fn lemma_stale_iff_strictly_older(now: u64, accessed: u64, days: u64)
    requires
        accessed <= now,
    ensures
        spec_is_stale(now, accessed, days) <==> now - accessed > days * 86400,
        now - accessed == days * 86400 ==> !spec_is_stale(now, accessed, days),
{
}

/// No entry before index `i` has a last-access time in the future of `now`.
pub open spec fn skew_free_upto(entries: Seq<FsNode>, now: u64, i: int) -> bool {
    forall|j: int| 0 <= j < i ==> node_accessed(#[trigger] entries[j]) <= now
}

pub open spec fn skew_free(entries: Seq<FsNode>, now: u64) -> bool {
    skew_free_upto(entries, now, entries.len() as int)
}

/// Whether an entry is a target of the scan: in directory granularity a
/// stale directory, in file granularity a stale regular file.
pub open spec fn picks(e: FsNode, days: u64, now: u64, want_dirs: bool) -> bool {
    &&& if want_dirs {
        e is Dir
    } else {
        e is File
    }
    &&& spec_is_stale(now, node_accessed(e), days)
}

/// The names of the targets among the first `i` entries, in order.
pub open spec fn stale_names_upto(
    entries: Seq<FsNode>,
    days: u64,
    now: u64,
    want_dirs: bool,
    i: int,
) -> Seq<Seq<char>>
    decreases i,
{
    if i <= 0 {
        Seq::empty()
    } else {
        stale_names_upto(entries, days, now, want_dirs, i - 1) + (if picks(
            entries[i - 1],
            days,
            now,
            want_dirs,
        ) {
            seq![node_name(entries[i - 1])]
        } else {
            Seq::empty()
        })
    }
}

/// The names of the targets among all entries of a directory, in order.
pub open spec fn stale_names(entries: Seq<FsNode>, days: u64, now: u64, want_dirs: bool) -> Seq<
    Seq<char>,
> {
    stale_names_upto(entries, days, now, want_dirs, entries.len() as int)
}

/// What a file-granularity scan of the directory `node`, reached at `path`,
/// returns: an unreadable directory or one with a clock-skew fault stops with
/// an error; otherwise the directory's own report (if it has stale files)
/// comes first, followed, when `recurse` is set, by the reports of its
/// subdirectories in enumeration order, a failed subdirectory contributing
/// nothing.
pub open spec fn scan_dir(path: Seq<char>, node: FsNode, days: u64, recurse: bool, now: u64) -> Result<
    Seq<DirV>,
    ScanErrorV,
>
    decreases node, 1int, 0int,
{
    match node {
        FsNode::File { .. } => Err(ScanErrorV::Unreadable(path)),
        FsNode::Dir { readable, entries, .. } => {
            if !readable {
                Err(ScanErrorV::Unreadable(path))
            } else if !skew_free(entries@, now) {
                Err(ScanErrorV::ClockSkew(path))
            } else {
                let own = stale_names(entries@, days, now, false);
                let own_reports: Seq<DirV> = if own.len() > 0 {
                    seq![DirV { parent_path: path, files_path: own }]
                } else {
                    Seq::empty()
                };
                Ok(
                    own_reports + if recurse {
                        child_reports_upto(path, entries@, days, now, entries@.len() as int)
                    } else {
                        Seq::empty()
                    },
                )
            }
        },
    }
}

/// The reports of the subtrees rooted at the first `i` entries, concatenated
/// in enumeration order.
pub open spec fn child_reports_upto(
    path: Seq<char>,
    entries: Seq<FsNode>,
    days: u64,
    now: u64,
    i: int,
) -> Seq<DirV>
    decreases entries, 0int, i,
{
    if i <= 0 || i > entries.len() {
        Seq::empty()
    } else {
        child_reports_upto(path, entries, days, now, i - 1) + child_contrib(
            path,
            entries[i - 1],
            days,
            now,
        )
    }
}

/// What one child entry contributes to its parent's result: a subdirectory's
/// reports if its scan succeeds, nothing if it fails (the failure is
/// swallowed at the worker boundary), and nothing for a file.
pub open spec fn child_contrib(path: Seq<char>, child: FsNode, days: u64, now: u64) -> Seq<DirV>
    decreases child, 2int, 0int,
{
    if child is Dir {
        match scan_dir(join_path(path, node_name(child)), child, days, true, now) {
            Ok(rs) => rs,
            Err(_) => Seq::empty(),
        }
    } else {
        Seq::empty()
    }
}

pub open spec fn dirs_view(s: Seq<Dir>) -> Seq<DirV> {
    s.map_values(|d: Dir| d@)
}

pub open spec fn scan_result_view(r: Result<Vec<Dir>, ScanError>) -> Result<Seq<DirV>, ScanErrorV> {
    match r {
        Ok(v) => Ok(dirs_view(v@)),
        Err(e) => Err(e@),
    }
}

impl Dir {
    /// An empty report for the directory at `path`.
    pub fn new(path: &String) -> (r: Dir)
        ensures
            r@.parent_path == path@,
            r@.files_path == Seq::<Seq<char>>::empty(),
    {
        let r = Dir { parent_path: path.clone(), files_path: Vec::new() };
        proof {
            assert(r@.files_path =~= Seq::<Seq<char>>::empty());
        }
        r
    }

    pub fn get_amount_files(&self) -> (r: u64)
        ensures
            r == self@.files_path.len(),
    {
        self.files_path.len() as u64
    }

    pub fn get_parent_path(&self) -> (r: &String)
        ensures
            r@ == self@.parent_path,
    {
        &self.parent_path
    }

    pub fn get_files(&self) -> (r: &Vec<String>)
        ensures
            r@.map_values(|s: String| s@) == self@.files_path,
    {
        &self.files_path
    }
}

/// Scans the directory `node`, reached at `path`, for stale files, descending
/// into subdirectories when the configuration asks for recursion. A failure
/// below the top level is swallowed: one unreadable subtree never costs the
/// stale files found elsewhere.
#[verifier::loop_isolation(false)]
pub fn get_files_in_dir(path: &String, node: &FsNode, config: &Config, now: u64) -> (r: Result<
    Vec<Dir>,
    ScanError,
>)
    ensures
        scan_result_view(r) == scan_dir(path@, *node, config@.duration_days, config@.recursion, now),
    decreases *node,
{
    let days = config.get_duration_days();
    let recurse = config.recursion();
    match node {
        FsNode::File { .. } => Err(ScanError::Unreadable(path.clone())),
        FsNode::Dir { readable, entries, .. } => {
            if !*readable {
                return Err(ScanError::Unreadable(path.clone()));
            }
            let n = entries.len();
            let mut own = Dir::new(path);
            let mut i: usize = 0;
            while i < n
                invariant
                    n == entries@.len(),
                    i <= n,
                    days == config@.duration_days,
                    skew_free_upto(entries@, now, i as int),
                    own@.parent_path == path@,
                    own@.files_path == stale_names_upto(entries@, days, now, false, i as int),
                decreases n - i,
            {
                let e = &entries[i];
                match classify_age(now, e.accessed(), days) {
                    None => {
                        assert(!skew_free(entries@, now));
                        return Err(ScanError::ClockSkew(path.clone()));
                    },
                    Some(stale) => {
                        let ghost before = own@.files_path;
                        match e {
                            FsNode::File { name, .. } => {
                                if stale {
                                    own.files_path.push(name.clone());
                                    proof {
                                        assert(own@.files_path =~= before.push(name@));
                                    }
                                }
                            },
                            FsNode::Dir { .. } => {},
                        }
                        proof {
                            assert(own@.files_path =~= stale_names_upto(
                                entries@,
                                days,
                                now,
                                false,
                                i + 1,
                            ));
                        }
                    },
                }
                i = i + 1;
            }
            assert(skew_free(entries@, now));
            let mut target: Vec<Dir> = Vec::new();
            let ghost own_view = own@;
            let has_own = own.files_path.len() > 0;
            if has_own {
                target.push(own);
            }
            let ghost base = dirs_view(target@);
            proof {
                if has_own {
                    assert(base =~= seq![own_view]);
                } else {
                    assert(base =~= Seq::<DirV>::empty());
                }
            }
            if recurse {
                let mut i: usize = 0;
                while i < n
                    invariant
                        n == entries@.len(),
                        i <= n,
                        days == config@.duration_days,
                        config@.recursion,
                        dirs_view(target@) == base + child_reports_upto(
                            path@,
                            entries@,
                            days,
                            now,
                            i as int,
                        ),
                    decreases n - i,
                {
                    let e = &entries[i];
                    let ghost before = dirs_view(target@);
                    match e {
                        FsNode::Dir { name, .. } => {
                            let child_path = path.clone().concat("/").concat(name.as_str());
                            proof {
                                assert(child_path@ == join_path(path@, node_name(entries@[i as int])));
                                assert((*node)->Dir_entries == *entries);
                                assert(decreases_to!(*node => (*node)->Dir_entries));
                                assert(decreases_to!((*node)->Dir_entries => (*node)->Dir_entries@));
                                assert(decreases_to!((*node)->Dir_entries@ => (*node)->Dir_entries@[i as int]));
                                assert(entries@[i as int] == (*node)->Dir_entries@[i as int]);
                                assert(decreases_to!(*node => entries@[i as int]));
                            }
                            match get_files_in_dir(&child_path, e, config, now) {
                                Ok(mut rs) => {
                                    let ghost rs_view = dirs_view(rs@);
                                    target.append(&mut rs);
                                    proof {
                                        assert(dirs_view(target@) =~= before + rs_view);
                                        assert(scan_dir(
                                            join_path(path@, node_name(entries@[i as int])),
                                            entries@[i as int],
                                            days,
                                            true,
                                            now,
                                        ) == Ok::<Seq<DirV>, ScanErrorV>(rs_view));
                                        assert(rs_view == child_contrib(
                                            path@,
                                            entries@[i as int],
                                            days,
                                            now,
                                        ));
                                    }
                                },
                                Err(_) => {
                                    proof {
                                        assert(scan_dir(
                                            join_path(path@, node_name(entries@[i as int])),
                                            entries@[i as int],
                                            days,
                                            true,
                                            now,
                                        ) is Err);
                                        assert(child_contrib(path@, entries@[i as int], days, now)
                                            =~= Seq::<DirV>::empty());
                                    }
                                },
                            }
                        },
                        FsNode::File { .. } => {},
                    }
                    proof {
                        assert(child_reports_upto(path@, entries@, days, now, i + 1)
                            == child_reports_upto(path@, entries@, days, now, i as int)
                            + child_contrib(path@, entries@[i as int], days, now));
                        assert(dirs_view(target@) =~= base + child_reports_upto(
                            path@,
                            entries@,
                            days,
                            now,
                            i + 1,
                        ));
                    }
                    i = i + 1;
                }
            }
            proof {
                let spec_r = scan_dir(path@, *node, days, config@.recursion, now);
                if config@.recursion {
                    assert(dirs_view(target@) == base + child_reports_upto(
                        path@,
                        entries@,
                        days,
                        now,
                        n as int,
                    ));
                } else {
                    assert(dirs_view(target@) =~= base + Seq::<DirV>::empty());
                }
                assert(spec_r is Ok && spec_r->Ok_0 == dirs_view(target@));
            }
            Ok(target)
        },
    }
}

/// What a directory-granularity scan of `node`, reached at `path`, returns:
/// one report for `path` naming its stale immediate subdirectories, in
/// enumeration order. Finding none is a reportable absence, `NoTargets`,
/// distinct from an unreadable root; this scan never recurses.
pub open spec fn scan_dirs_spec(path: Seq<char>, node: FsNode, days: u64, now: u64) -> Result<
    DirV,
    ScanErrorV,
> {
    match node {
        FsNode::File { .. } => Err(ScanErrorV::Unreadable(path)),
        FsNode::Dir { readable, entries, .. } => {
            if !readable {
                Err(ScanErrorV::Unreadable(path))
            } else if !skew_free(entries@, now) {
                Err(ScanErrorV::ClockSkew(path))
            } else if stale_names(entries@, days, now, true).len() == 0 {
                Err(ScanErrorV::NoTargets(path))
            } else {
                Ok(DirV { parent_path: path, files_path: stale_names(entries@, days, now, true) })
            }
        },
    }
}

pub open spec fn dir_result_view(r: Result<Dir, ScanError>) -> Result<DirV, ScanErrorV> {
    match r {
        Ok(d) => Ok(d@),
        Err(e) => Err(e@),
    }
}

/// Scans the immediate children of the directory `node`, reached at `path`,
/// for stale subdirectories. Zero findings are the error `NoTargets`, never
/// an empty report.
#[verifier::loop_isolation(false)]
pub fn get_dirs_in_dir(path: &String, node: &FsNode, config: &Config, now: u64) -> (r: Result<
    Dir,
    ScanError,
>)
    ensures
        dir_result_view(r) == scan_dirs_spec(path@, *node, config@.duration_days, now),
{
    let days = config.get_duration_days();
    match node {
        FsNode::File { .. } => Err(ScanError::Unreadable(path.clone())),
        FsNode::Dir { readable, entries, .. } => {
            if !*readable {
                return Err(ScanError::Unreadable(path.clone()));
            }
            let n = entries.len();
            let mut target_dir = Dir::new(path);
            let mut i: usize = 0;
            while i < n
                invariant
                    i <= n,
                    skew_free_upto(entries@, now, i as int),
                    target_dir@.parent_path == path@,
                    target_dir@.files_path == stale_names_upto(entries@, days, now, true, i as int),
                decreases n - i,
            {
                let e = &entries[i];
                match classify_age(now, e.accessed(), days) {
                    None => {
                        assert(!skew_free(entries@, now));
                        return Err(ScanError::ClockSkew(path.clone()));
                    },
                    Some(stale) => {
                        let ghost before = target_dir@.files_path;
                        match e {
                            FsNode::Dir { name, .. } => {
                                if stale {
                                    target_dir.files_path.push(name.clone());
                                    proof {
                                        assert(target_dir@.files_path =~= before.push(name@));
                                    }
                                }
                            },
                            FsNode::File { .. } => {},
                        }
                        proof {
                            assert(target_dir@.files_path =~= stale_names_upto(
                                entries@,
                                days,
                                now,
                                true,
                                i + 1,
                            ));
                        }
                    },
                }
                i = i + 1;
            }
            assert(skew_free(entries@, now));
            if target_dir.files_path.len() > 0 {
                Ok(target_dir)
            } else {
                Err(ScanError::NoTargets(path.clone()))
            }
        },
    }
}

/// The result of the file-granularity scans of the first `i` roots,
/// concatenated in root order; an error at any root is fatal.
pub open spec fn scan_roots_files(
    paths: Seq<Seq<char>>,
    roots: Seq<FsNode>,
    days: u64,
    recurse: bool,
    now: u64,
    i: int,
) -> Result<Seq<DirV>, ScanErrorV>
    decreases i,
{
    if i <= 0 {
        Ok(Seq::empty())
    } else {
        match scan_roots_files(paths, roots, days, recurse, now, i - 1) {
            Ok(acc) => match scan_dir(paths[i - 1], roots[i - 1], days, recurse, now) {
                Ok(rs) => Ok(acc + rs),
                Err(e) => Err(e),
            },
            Err(e) => Err(e),
        }
    }
}

/// The result of the directory-granularity scans of the first `i` roots: one
/// report per root with stale subdirectories, in root order. A root with
/// nothing stale contributes nothing; an unreadable root or a clock-skew
/// fault is fatal.
pub open spec fn scan_roots_dirs(
    paths: Seq<Seq<char>>,
    roots: Seq<FsNode>,
    days: u64,
    now: u64,
    i: int,
) -> Result<Seq<DirV>, ScanErrorV>
    decreases i,
{
    if i <= 0 {
        Ok(Seq::empty())
    } else {
        match scan_roots_dirs(paths, roots, days, now, i - 1) {
            Ok(acc) => match scan_dirs_spec(paths[i - 1], roots[i - 1], days, now) {
                Ok(d) => Ok(acc.push(d)),
                Err(ScanErrorV::NoTargets(_)) => Ok(acc),
                Err(e) => Err(e),
            },
            Err(e) => Err(e),
        }
    }
}

/// The whole scan over every configured root: file granularity unless the
/// configuration targets directories.
pub open spec fn get_target_files_spec(cfg: ConfigV, roots: Seq<FsNode>, now: u64) -> Result<
    Seq<DirV>,
    ScanErrorV,
> {
    if !cfg.remove_dir {
        scan_roots_files(
            cfg.target_path,
            roots,
            cfg.duration_days,
            cfg.recursion,
            now,
            roots.len() as int,
        )
    } else {
        scan_roots_dirs(cfg.target_path, roots, cfg.duration_days, now, roots.len() as int)
    }
}

impl Dir {
    /// Scans every configured root, `roots[i]` being the tree behind the
    /// configured path `target_path[i]` as it stood at instant `now`, and
    /// concatenates the reports in root order. In directory granularity a
    /// root without stale subdirectories is simply left out; in file
    /// granularity any root error is returned to the caller.
    #[verifier::loop_isolation(false)]
    pub fn get_target_files(config: &Config, roots: &Vec<FsNode>, now: u64) -> (r: Result<
        Vec<Dir>,
        ScanError,
    >)
        requires
            roots@.len() == config@.target_path.len(),
        ensures
            scan_result_view(r) == get_target_files_spec(config@, roots@, now),
    {
        let paths = config.get_target_path();
        let n = roots.len();
        let mut targets: Vec<Dir> = Vec::new();
        proof {
            assert(paths@.len() == config@.target_path.len());
            assert(dirs_view(targets@) =~= Seq::<DirV>::empty());
        }
        if !config.remove_dir() {
            let mut i: usize = 0;
            while i < n
                invariant
                    n == roots@.len(),
                    i <= n,
                    n == paths@.len(),
                    paths@.map_values(|s: String| s@) == config@.target_path,
                    scan_roots_files(
                        config@.target_path,
                        roots@,
                        config@.duration_days,
                        config@.recursion,
                        now,
                        i as int,
                    ) == Ok::<Seq<DirV>, ScanErrorV>(dirs_view(targets@)),
                decreases n - i,
            {
                proof {
                    assert(config@.target_path[i as int] == paths@[i as int]@);
                }
                let ghost before = dirs_view(targets@);
                match get_files_in_dir(&paths[i], &roots[i], config, now) {
                    Ok(mut t) => {
                        let ghost t_view = dirs_view(t@);
                        targets.append(&mut t);
                        proof {
                            assert(dirs_view(targets@) =~= before + t_view);
                        }
                    },
                    Err(err_msg) => {
                        proof {
                            lemma_scan_roots_files_frozen(
                                config@.target_path,
                                roots@,
                                config@.duration_days,
                                config@.recursion,
                                now,
                                i + 1,
                                n as int,
                            );
                        }
                        return Err(err_msg);
                    },
                }
                i = i + 1;
            }
            Ok(targets)
        } else {
            let mut i: usize = 0;
            while i < n
                invariant
                    n == roots@.len(),
                    i <= n,
                    n == paths@.len(),
                    paths@.map_values(|s: String| s@) == config@.target_path,
                    scan_roots_dirs(
                        config@.target_path,
                        roots@,
                        config@.duration_days,
                        now,
                        i as int,
                    ) == Ok::<Seq<DirV>, ScanErrorV>(dirs_view(targets@)),
                decreases n - i,
            {
                proof {
                    assert(config@.target_path[i as int] == paths@[i as int]@);
                }
                let ghost before = dirs_view(targets@);
                match get_dirs_in_dir(&paths[i], &roots[i], config, now) {
                    Ok(t) => {
                        let ghost t_view = t@;
                        targets.push(t);
                        proof {
                            assert(dirs_view(targets@) =~= before.push(t_view));
                        }
                    },
                    Err(ScanError::NoTargets(_)) => {},
                    Err(err_msg) => {
                        proof {
                            lemma_scan_roots_dirs_frozen(
                                config@.target_path,
                                roots@,
                                config@.duration_days,
                                now,
                                i + 1,
                                n as int,
                            );
                        }
                        return Err(err_msg);
                    },
                }
                i = i + 1;
            }
            Ok(targets)
        }
    }
}

/// A fatal error at one root decides the whole file-granularity scan.
proof fn lemma_scan_roots_files_frozen(
    paths: Seq<Seq<char>>,
    roots: Seq<FsNode>,
    days: u64,
    recurse: bool,
    now: u64,
    j: int,
    n: int,
)
    requires
        0 <= j <= n,
        scan_roots_files(paths, roots, days, recurse, now, j) is Err,
    ensures
        scan_roots_files(paths, roots, days, recurse, now, n) == scan_roots_files(
            paths,
            roots,
            days,
            recurse,
            now,
            j,
        ),
    decreases n - j,
{
    if j < n {
        lemma_scan_roots_files_frozen(paths, roots, days, recurse, now, j + 1, n);
    }
}

/// A fatal error at one root decides the whole directory-granularity scan.
proof fn lemma_scan_roots_dirs_frozen(
    paths: Seq<Seq<char>>,
    roots: Seq<FsNode>,
    days: u64,
    now: u64,
    j: int,
    n: int,
)
    requires
        0 <= j <= n,
        scan_roots_dirs(paths, roots, days, now, j) is Err,
    ensures
        scan_roots_dirs(paths, roots, days, now, n) == scan_roots_dirs(paths, roots, days, now, j),
    decreases n - j,
{
    if j < n {
        lemma_scan_roots_dirs_frozen(paths, roots, days, now, j + 1, n);
    }
}

} // verus!
