//! Laws of the scanner: what the aggregated reports contain, how recursion
//! changes them, and how the failure of one subtree is isolated from its
//! siblings.

use vstd::prelude::*;
use vstd::seq_lib::lemma_multiset_commutative;

use crate::fs::{
    child_contrib, child_reports_upto, join_path, node_accessed, node_entries, node_name,
    node_readable, picks, scan_dir, skew_free, stale_names, stale_names_upto, DirV,
    FsNode,
};

verus! {

/// The directory paths the scan's reports name, in report order.
pub open spec fn report_paths(rs: Seq<DirV>) -> Seq<Seq<char>> {
    rs.map_values(|d: DirV| d.parent_path)
}

/// The paths of the directories in the subtree at `node` that directly
/// contain at least one stale file, in a depth-first walk; a subtree whose
/// root could not be listed or had a clock-skew fault contributes nothing.
pub open spec fn stale_dir_paths(path: Seq<char>, node: FsNode, days: u64, now: u64) -> Seq<
    Seq<char>,
>
    decreases node, 1int, 0int,
{
    match node {
        FsNode::File { .. } => Seq::empty(),
        FsNode::Dir { readable, entries, .. } => {
            if !readable || !skew_free(entries@, now) {
                Seq::empty()
            } else {
                (if stale_names(entries@, days, now, false).len() > 0 {
                    seq![path]
                } else {
                    Seq::empty()
                }) + stale_dir_paths_upto(path, entries@, days, now, entries@.len() as int)
            }
        },
    }
}

/// The stale-containing directory paths below the first `i` entries.
pub open spec fn stale_dir_paths_upto(
    path: Seq<char>,
    entries: Seq<FsNode>,
    days: u64,
    now: u64,
    i: int,
) -> Seq<Seq<char>>
    decreases entries, 0int, i,
{
    if i <= 0 || i > entries.len() {
        Seq::empty()
    } else {
        stale_dir_paths_upto(path, entries, days, now, i - 1) + (if entries[i - 1] is Dir {
            stale_dir_paths(
                join_path(path, node_name(entries[i - 1])),
                entries[i - 1],
                days,
                now,
            )
        } else {
            Seq::empty()
        })
    }
}

/// With recursion enabled, a successful scan produces exactly one report per
/// directory in the tree that directly contains a stale file — whatever the
/// fan-out — and the reports come in the depth-first order of those
/// directories.
pub proof fn lemma_one_report_per_stale_dir(path: Seq<char>, node: FsNode, days: u64, now: u64)
    requires
        scan_dir(path, node, days, true, now) is Ok,
    ensures
        report_paths(scan_dir(path, node, days, true, now)->Ok_0) == stale_dir_paths(
            path,
            node,
            days,
            now,
        ),
    decreases node, 1int, 0int,
{
    match node {
        FsNode::File { .. } => {},
        FsNode::Dir { readable, entries, .. } => {
            let own = stale_names(entries@, days, now, false);
            let own_reports: Seq<DirV> = if own.len() > 0 {
                seq![DirV { parent_path: path, files_path: own }]
            } else {
                Seq::empty()
            };
            let children = child_reports_upto(path, entries@, days, now, entries@.len() as int);
            lemma_children_report_paths(path, entries@, days, now, entries@.len() as int);
            assert(report_paths(own_reports + children) =~= report_paths(own_reports)
                + report_paths(children));
            if own.len() > 0 {
                assert(report_paths(own_reports) =~= seq![path]);
            } else {
                assert(report_paths(own_reports) =~= Seq::<Seq<char>>::empty());
            }
        },
    }
}

/// The reports of the first `i` children name exactly the stale-containing
/// directories of their subtrees, in order.
proof fn lemma_children_report_paths(
    path: Seq<char>,
    entries: Seq<FsNode>,
    days: u64,
    now: u64,
    i: int,
)
    ensures
        report_paths(child_reports_upto(path, entries, days, now, i)) == stale_dir_paths_upto(
            path,
            entries,
            days,
            now,
            i,
        ),
    decreases entries, 0int, i,
{
    if i <= 0 || i > entries.len() {
        assert(report_paths(child_reports_upto(path, entries, days, now, i)) =~= Seq::<
            Seq<char>,
        >::empty());
    } else {
        lemma_children_report_paths(path, entries, days, now, i - 1);
        let e = entries[i - 1];
        let prev = child_reports_upto(path, entries, days, now, i - 1);
        let part = child_contrib(path, e, days, now);
        assert(report_paths(prev + part) =~= report_paths(prev) + report_paths(part));
        if e is Dir {
            let child_path = join_path(path, node_name(e));
            match scan_dir(child_path, e, days, true, now) {
                Ok(_) => {
                    lemma_one_report_per_stale_dir(child_path, e, days, now);
                },
                Err(_) => {
                    assert(report_paths(part) =~= Seq::<Seq<char>>::empty());
                    assert(stale_dir_paths(child_path, e, days, now) == Seq::<Seq<char>>::empty());
                },
            }
        } else {
            assert(report_paths(part) =~= Seq::<Seq<char>>::empty());
        }
    }
}

/// With recursion disabled, every report a successful scan returns is about
/// the scanned root itself: stale files at depth two or deeper yield no
/// report at all.
pub proof fn lemma_no_recursion_root_only(path: Seq<char>, node: FsNode, days: u64, now: u64)
    requires
        scan_dir(path, node, days, false, now) is Ok,
    ensures
        scan_dir(path, node, days, false, now)->Ok_0.len() <= 1,
        forall|r: DirV|
            scan_dir(path, node, days, false, now)->Ok_0.contains(r) ==> r.parent_path == path,
{
    match node {
        FsNode::File { .. } => {},
        FsNode::Dir { readable, entries, .. } => {
            let own = stale_names(entries@, days, now, false);
            let own_reports: Seq<DirV> = if own.len() > 0 {
                seq![DirV { parent_path: path, files_path: own }]
            } else {
                Seq::empty()
            };
            assert(scan_dir(path, node, days, false, now)->Ok_0 =~= own_reports);
        },
    }
}

/// The stale pairs (directory path, file name) of one report.
pub open spec fn report_pairs(d: DirV) -> Seq<(Seq<char>, Seq<char>)> {
    d.files_path.map_values(|n: Seq<char>| (d.parent_path, n))
}

/// The stale pairs of a list of reports, flattened in order.
pub open spec fn reports_pairs(rs: Seq<DirV>) -> Seq<(Seq<char>, Seq<char>)>
    decreases rs.len(),
{
    if rs.len() == 0 {
        Seq::empty()
    } else {
        report_pairs(rs.first()) + reports_pairs(rs.drop_first())
    }
}

/// The names paired with one directory path.
pub open spec fn pairs_of_names(path: Seq<char>, names: Seq<Seq<char>>) -> Seq<
    (Seq<char>, Seq<char>),
> {
    names.map_values(|n: Seq<char>| (path, n))
}

/// The stale (directory path, file name) pairs a plain single-threaded
/// exhaustive walk of the subtree finds, visiting each directory's entries in
/// enumeration order and descending immediately; subtrees that could not be
/// listed or had a clock-skew fault contribute nothing.
pub open spec fn walk_pairs(path: Seq<char>, node: FsNode, days: u64, now: u64) -> Seq<
    (Seq<char>, Seq<char>),
>
    decreases node, 1int, 0int,
{
    match node {
        FsNode::File { .. } => Seq::empty(),
        FsNode::Dir { readable, entries, .. } => {
            if !readable || !skew_free(entries@, now) {
                Seq::empty()
            } else {
                walk_pairs_upto(path, entries@, days, now, entries@.len() as int)
            }
        },
    }
}

/// The stale pairs found among the first `i` entries and below them.
pub open spec fn walk_pairs_upto(
    path: Seq<char>,
    entries: Seq<FsNode>,
    days: u64,
    now: u64,
    i: int,
) -> Seq<(Seq<char>, Seq<char>)>
    decreases entries, 0int, i,
{
    if i <= 0 || i > entries.len() {
        Seq::empty()
    } else {
        walk_pairs_upto(path, entries, days, now, i - 1) + (if picks(
            entries[i - 1],
            days,
            now,
            false,
        ) {
            seq![(path, node_name(entries[i - 1]))]
        } else if entries[i - 1] is Dir {
            walk_pairs(join_path(path, node_name(entries[i - 1])), entries[i - 1], days, now)
        } else {
            Seq::empty()
        })
    }
}

/// Aggregation completeness: the stale pairs of a successful recursive scan
/// are — as a multiset, so nothing is lost and nothing is duplicated —
/// exactly the pairs a plain single-threaded exhaustive walk of the same tree
/// finds with the same threshold.
pub proof fn lemma_aggregation_complete(path: Seq<char>, node: FsNode, days: u64, now: u64)
    requires
        scan_dir(path, node, days, true, now) is Ok,
    ensures
        reports_pairs(scan_dir(path, node, days, true, now)->Ok_0).to_multiset() == walk_pairs(
            path,
            node,
            days,
            now,
        ).to_multiset(),
    decreases node, 1int, 0int,
{
    match node {
        FsNode::File { .. } => {},
        FsNode::Dir { readable, entries, .. } => {
            let own = stale_names(entries@, days, now, false);
            let own_reports: Seq<DirV> = if own.len() > 0 {
                seq![DirV { parent_path: path, files_path: own }]
            } else {
                Seq::empty()
            };
            let children = child_reports_upto(path, entries@, days, now, entries@.len() as int);
            lemma_reports_pairs_concat(own_reports, children);
            if own.len() > 0 {
                let d = DirV { parent_path: path, files_path: own };
                assert(own_reports.first() == d);
                assert(own_reports.drop_first() =~= Seq::<DirV>::empty());
                assert(reports_pairs(own_reports) == report_pairs(d) + reports_pairs(
                    Seq::<DirV>::empty(),
                ));
                assert(report_pairs(d) + reports_pairs(Seq::<DirV>::empty()) =~= report_pairs(d));
                assert(report_pairs(d) =~= pairs_of_names(path, own));
            } else {
                assert(reports_pairs(own_reports) =~= pairs_of_names(path, own));
            }
            lemma_walk_children(path, entries@, days, now, entries@.len() as int);
            lemma_multiset_commutative(reports_pairs(own_reports), reports_pairs(children));
            lemma_multiset_commutative(
                pairs_of_names(path, stale_names_upto(entries@, days, now, false, entries@.len() as int)),
                reports_pairs(children),
            );
        },
    }
}

/// Below the first `i` entries, the walk's pairs are the parent's own stale
/// files so far together with the children's pairs.
proof fn lemma_walk_children(path: Seq<char>, entries: Seq<FsNode>, days: u64, now: u64, i: int)
    requires
        i <= entries.len(),
    ensures
        walk_pairs_upto(path, entries, days, now, i).to_multiset() == pairs_of_names(
            path,
            stale_names_upto(entries, days, now, false, i),
        ).to_multiset().add(
            reports_pairs(child_reports_upto(path, entries, days, now, i)).to_multiset(),
        ),
    decreases entries, 0int, i,
{
    broadcast use vstd::seq_lib::group_to_multiset_ensures;
    broadcast use vstd::multiset::group_multiset_axioms;

    if i <= 0 {
        let e0 = Seq::<(Seq<char>, Seq<char>)>::empty();
        assert(pairs_of_names(path, stale_names_upto(entries, days, now, false, i)) =~= e0);
        assert(reports_pairs(child_reports_upto(path, entries, days, now, i)) == e0);
        assert(walk_pairs_upto(path, entries, days, now, i).to_multiset() =~= e0.to_multiset().add(
            e0.to_multiset(),
        ));
    } else {
        lemma_walk_children(path, entries, days, now, i - 1);
        let e = entries[i - 1];
        let walk_prev = walk_pairs_upto(path, entries, days, now, i - 1);
        let own_prev = pairs_of_names(path, stale_names_upto(entries, days, now, false, i - 1));
        let own_cur = pairs_of_names(path, stale_names_upto(entries, days, now, false, i));
        let rep_prev = reports_pairs(child_reports_upto(path, entries, days, now, i - 1));
        let rep_cur = reports_pairs(child_reports_upto(path, entries, days, now, i));
        let step: Seq<(Seq<char>, Seq<char>)> = if picks(e, days, now, false) {
            seq![(path, node_name(e))]
        } else if e is Dir {
            walk_pairs(join_path(path, node_name(e)), e, days, now)
        } else {
            Seq::empty()
        };
        lemma_multiset_commutative(walk_prev, step);
        if picks(e, days, now, false) {
            // A stale file: the walk and the parent's own report both gain
            // exactly this pair.
            assert(own_cur =~= own_prev + seq![(path, node_name(e))]);
            lemma_multiset_commutative(own_prev, seq![(path, node_name(e))]);
            assert(rep_cur =~= rep_prev) by {
                assert(child_contrib(path, e, days, now) =~= Seq::<DirV>::empty());
                lemma_reports_pairs_concat(
                    child_reports_upto(path, entries, days, now, i - 1),
                    child_contrib(path, e, days, now),
                );
                assert(reports_pairs(child_contrib(path, e, days, now)) =~= Seq::<
                    (Seq<char>, Seq<char>),
                >::empty());
            };
        } else if e is Dir {
            // A subdirectory: the walk gains its subtree's pairs, the
            // children's reports gain its contribution, and the two agree.
            assert(own_cur =~= own_prev);
            let child_path = join_path(path, node_name(e));
            let part = child_contrib(path, e, days, now);
            lemma_reports_pairs_concat(
                child_reports_upto(path, entries, days, now, i - 1),
                part,
            );
            lemma_multiset_commutative(rep_prev, reports_pairs(part));
            match scan_dir(child_path, e, days, true, now) {
                Ok(_) => {
                    lemma_aggregation_complete(child_path, e, days, now);
                },
                Err(_) => {
                    assert(walk_pairs(child_path, e, days, now) == Seq::<
                        (Seq<char>, Seq<char>),
                    >::empty());
                    assert(reports_pairs(part) =~= Seq::<(Seq<char>, Seq<char>)>::empty());
                },
            }
        } else {
            // A fresh file: nothing changes anywhere.
            assert(own_cur =~= own_prev);
            assert(rep_cur =~= rep_prev) by {
                assert(child_contrib(path, e, days, now) =~= Seq::<DirV>::empty());
                lemma_reports_pairs_concat(
                    child_reports_upto(path, entries, days, now, i - 1),
                    child_contrib(path, e, days, now),
                );
                assert(reports_pairs(child_contrib(path, e, days, now)) =~= Seq::<
                    (Seq<char>, Seq<char>),
                >::empty());
            };
        }
    }
}

/// Flattening distributes over concatenation of report lists.
proof fn lemma_reports_pairs_concat(a: Seq<DirV>, b: Seq<DirV>)
    ensures
        reports_pairs(a + b) == reports_pairs(a) + reports_pairs(b),
    decreases a.len(),
{
    if a.len() == 0 {
        assert(a + b =~= b);
        assert(reports_pairs(a) + reports_pairs(b) =~= reports_pairs(b));
    } else {
        assert((a + b).first() == a.first());
        assert((a + b).drop_first() =~= a.drop_first() + b);
        lemma_reports_pairs_concat(a.drop_first(), b);
        assert(report_pairs(a.first()) + (reports_pairs(a.drop_first()) + reports_pairs(b)) =~= (
        report_pairs(a.first()) + reports_pairs(a.drop_first())) + reports_pairs(b));
    }
}

/// A scan never produces an empty report: a directory with nothing stale in
/// it is simply absent from the result list.
pub proof fn lemma_no_empty_reports(path: Seq<char>, node: FsNode, days: u64, recurse: bool, now: u64)
    requires
        scan_dir(path, node, days, recurse, now) is Ok,
    ensures
        forall|r: DirV|
            scan_dir(path, node, days, recurse, now)->Ok_0.contains(r) ==> r.files_path.len() > 0,
    decreases node, 1int, 0int,
{
    match node {
        FsNode::File { .. } => {},
        FsNode::Dir { readable, entries, .. } => {
            let own = stale_names(entries@, days, now, false);
            let own_reports: Seq<DirV> = if own.len() > 0 {
                seq![DirV { parent_path: path, files_path: own }]
            } else {
                Seq::empty()
            };
            let children: Seq<DirV> = if recurse {
                child_reports_upto(path, entries@, days, now, entries@.len() as int)
            } else {
                Seq::empty()
            };
            if recurse {
                lemma_no_empty_children(path, entries@, days, now, entries@.len() as int);
            }
            assert forall|r: DirV|
                (own_reports + children).contains(r) implies r.files_path.len() > 0 by {
                let k = choose|k: int|
                    0 <= k < (own_reports + children).len() && (own_reports + children)[k] == r;
                if k < own_reports.len() {
                    assert(r == own_reports[k]);
                } else {
                    assert(children[k - own_reports.len()] == r);
                    assert(children.contains(r));
                }
            }
        },
    }
}

/// No child's contribution holds an empty report.
proof fn lemma_no_empty_children(path: Seq<char>, entries: Seq<FsNode>, days: u64, now: u64, i: int)
    ensures
        forall|r: DirV|
            child_reports_upto(path, entries, days, now, i).contains(r) ==> r.files_path.len() > 0,
    decreases entries, 0int, i,
{
    if i <= 0 || i > entries.len() {
    } else {
        lemma_no_empty_children(path, entries, days, now, i - 1);
        let prev = child_reports_upto(path, entries, days, now, i - 1);
        let part = child_contrib(path, entries[i - 1], days, now);
        let e = entries[i - 1];
        if e is Dir {
            let child_path = join_path(path, node_name(e));
            if scan_dir(child_path, e, days, true, now) is Ok {
                lemma_no_empty_reports(child_path, e, days, true, now);
            }
        }
        assert forall|r: DirV| (prev + part).contains(r) implies r.files_path.len() > 0 by {
            let k = choose|k: int| 0 <= k < (prev + part).len() && (prev + part)[k] == r;
            if k < prev.len() {
                assert(prev.contains(r));
            } else {
                assert(part[k - prev.len()] == r);
                assert(part.contains(r));
            }
        }
    }
}

/// Every report of one child's contribution appears in the concatenation of
/// all children's contributions.
proof fn lemma_contrib_in_children(
    path: Seq<char>,
    entries: Seq<FsNode>,
    days: u64,
    now: u64,
    j: int,
    i: int,
)
    requires
        0 <= j < i <= entries.len(),
    ensures
        forall|r: DirV|
            child_contrib(path, entries[j], days, now).contains(r) ==> child_reports_upto(
                path,
                entries,
                days,
                now,
                i,
            ).contains(r),
    decreases i,
{
    let prev = child_reports_upto(path, entries, days, now, i - 1);
    let part = child_contrib(path, entries[i - 1], days, now);
    assert(child_reports_upto(path, entries, days, now, i) == prev + part);
    if j == i - 1 {
        assert forall|r: DirV|
            child_contrib(path, entries[j], days, now).contains(r) implies child_reports_upto(
            path,
            entries,
            days,
            now,
            i,
        ).contains(r) by {
            let k = choose|k: int| 0 <= k < part.len() && part[k] == r;
            assert((prev + part)[prev.len() + k] == r);
        }
    } else {
        lemma_contrib_in_children(path, entries, days, now, j, i - 1);
        assert forall|r: DirV|
            child_contrib(path, entries[j], days, now).contains(r) implies child_reports_upto(
            path,
            entries,
            days,
            now,
            i,
        ).contains(r) by {
            assert(prev.contains(r));
            let k = choose|k: int| 0 <= k < prev.len() && prev[k] == r;
            assert((prev + part)[k] == r);
        }
    }
}

/// Two directory listings that agree everywhere but at one entry have the
/// same stale file names, provided neither version of that entry is a file.
proof fn lemma_stale_names_same(
    e1: Seq<FsNode>,
    e2: Seq<FsNode>,
    days: u64,
    now: u64,
    x: int,
    i: int,
)
    requires
        e1.len() == e2.len(),
        0 <= x < e1.len(),
        !(e1[x] is File),
        !(e2[x] is File),
        forall|j: int| 0 <= j < e1.len() && j != x ==> e1[j] == e2[j],
        0 <= i <= e1.len(),
    ensures
        stale_names_upto(e1, days, now, false, i) == stale_names_upto(e2, days, now, false, i),
    decreases i,
{
    if i > 0 {
        lemma_stale_names_same(e1, e2, days, now, x, i - 1);
    }
}

/// Partial-failure isolation: replace one subdirectory of a readable,
/// skew-free directory with a damaged version (say one that can no longer be
/// listed) and the scan still succeeds, still reports the same stale files of
/// the directory itself, and still contains every report contributed by every
/// other subdirectory. One failed subtree never costs its siblings' findings.
pub proof fn lemma_partial_failure_isolation(
    path: Seq<char>,
    d1: FsNode,
    d2: FsNode,
    x: int,
    days: u64,
    now: u64,
)
    requires
        d1 is Dir,
        d2 is Dir,
        node_readable(d1),
        node_readable(d2),
        node_entries(d1).len() == node_entries(d2).len(),
        0 <= x < node_entries(d1).len(),
        forall|j: int| 0 <= j < node_entries(d1).len() && j != x ==> node_entries(d1)[j]
            == node_entries(d2)[j],
        node_entries(d1)[x] is Dir,
        node_entries(d2)[x] is Dir,
        node_accessed(node_entries(d2)[x]) == node_accessed(node_entries(d1)[x]),
        skew_free(node_entries(d1), now),
    ensures
        scan_dir(path, d1, days, true, now) is Ok,
        scan_dir(path, d2, days, true, now) is Ok,
        stale_names(node_entries(d2), days, now, false) == stale_names(
            node_entries(d1),
            days,
            now,
            false,
        ),
        forall|j: int, r: DirV|
            0 <= j < node_entries(d1).len() && j != x && #[trigger] child_contrib(
                path,
                node_entries(d1)[j],
                days,
                now,
            ).contains(r) ==> scan_dir(path, d2, days, true, now)->Ok_0.contains(r),
{
    let e1 = node_entries(d1);
    let e2 = node_entries(d2);
    let n = e1.len() as int;
    assert(skew_free(e2, now)) by {
        assert(forall|j: int| 0 <= j < n ==> node_accessed(#[trigger] e2[j]) <= now) by {
            assert(forall|j: int| 0 <= j < n && j != x ==> e2[j] == e1[j]);
        }
    }
    lemma_stale_names_same(e1, e2, days, now, x, n);
    let own2 = stale_names(e2, days, now, false);
    let own_reports2: Seq<DirV> = if own2.len() > 0 {
        seq![DirV { parent_path: path, files_path: own2 }]
    } else {
        Seq::empty()
    };
    let children2 = child_reports_upto(path, e2, days, now, n);
    assert(scan_dir(path, d2, days, true, now)->Ok_0 == own_reports2 + children2);
    assert forall|j: int, r: DirV|
        0 <= j < n && j != x && #[trigger] child_contrib(path, e1[j], days, now).contains(r)
        implies scan_dir(path, d2, days, true, now)->Ok_0.contains(r) by {
        assert(e2[j] == e1[j]);
        lemma_contrib_in_children(path, e2, days, now, j, n);
        assert(children2.contains(r));
        let k = choose|k: int| 0 <= k < children2.len() && children2[k] == r;
        assert((own_reports2 + children2)[own_reports2.len() + k] == r);
    }
}

} // verus!
