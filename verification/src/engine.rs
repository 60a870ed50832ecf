//! The organizing engine: for each candidate file, choose the dated (or
//! `unsorted`) subdirectory, resolve a collision-free destination, record
//! the outcome, and emit the filesystem actions a real run must perform.
//! The engine itself performs no I/O: callers supply the extraction
//! outcomes and the initial contents of the output tree, and perform the
//! returned actions.
use vstd::prelude::*;
use crate::date::{CaptureDate, valid_date, fmt_strftime_spec, key_of, format_date, date_key};
use crate::files::{name_in, resolve_spec, resolve_conflict, contains_name, str_eq};
use crate::stats::{Stats, StatsV, bump};

verus! {

/// The pre-validated configuration of one run.
pub struct Config {
    /// strftime-style pattern for dated subdirectory names.
    pub date_format: String,
    /// Move files instead of copying them.
    pub destructive: bool,
    /// Compute and report everything, but emit no filesystem action.
    pub simulate: bool,
}

/// What metadata extraction yielded for one candidate file.
#[derive(Clone, Copy, Debug, PartialEq, Eq, Structural)]
pub enum ExtractOutcome {
    /// A parseable capture timestamp.
    Found(CaptureDate),
    /// No usable date; an expected outcome, not an error.
    Absent,
    /// The file could not be read at all.
    Unreadable,
}

/// One candidate file: its full source path, its base name, and what
/// extraction yielded for it.
pub struct Candidate {
    pub source: String,
    pub name: String,
    pub extract: ExtractOutcome,
}

/// A path in the output tree, as subdirectory plus file name.
pub struct RelPath {
    pub dir: String,
    pub name: String,
}

/// One filesystem action of a real run: transfer `source` to
/// `dir/dest_name` (creating `dir` first), by move when `destructive`.
pub struct FsAction {
    pub source: String,
    pub dir: String,
    pub dest_name: String,
    pub destructive: bool,
}

pub ghost struct CandV {
    pub source: Seq<char>,
    pub name: Seq<char>,
    pub extract: ExtractOutcome,
}

pub ghost struct PathV {
    pub dir: Seq<char>,
    pub name: Seq<char>,
}

pub ghost struct ActV {
    pub source: Seq<char>,
    pub dir: Seq<char>,
    pub name: Seq<char>,
    pub destructive: bool,
}

impl View for Candidate {
    type V = CandV;

    open spec fn view(&self) -> CandV {
        CandV { source: self.source@, name: self.name@, extract: self.extract }
    }
}

impl View for RelPath {
    type V = PathV;

    open spec fn view(&self) -> PathV {
        PathV { dir: self.dir@, name: self.name@ }
    }
}

impl View for FsAction {
    type V = ActV;

    open spec fn view(&self) -> ActV {
        ActV {
            source: self.source@,
            dir: self.dir@,
            name: self.dest_name@,
            destructive: self.destructive,
        }
    }
}

pub open spec fn cands_view(s: Seq<Candidate>) -> Seq<CandV> {
    s.map_values(|c: Candidate| c@)
}

pub open spec fn paths_view(s: Seq<RelPath>) -> Seq<PathV> {
    s.map_values(|p: RelPath| p@)
}

pub open spec fn acts_view(s: Seq<FsAction>) -> Seq<ActV> {
    s.map_values(|a: FsAction| a@)
}

/// Whether `dir/name` is present in the output tree model.
pub open spec fn path_in(st: Seq<PathV>, dir: Seq<char>, name: Seq<char>) -> bool {
    exists|k: int| 0 <= k < st.len() && st[k].dir == dir && st[k].name == name
}

/// The file names the output tree model holds in `dir`, in order.
pub open spec fn names_in_dir(st: Seq<PathV>, dir: Seq<char>) -> Seq<Seq<char>>
    decreases st.len(),
{
    if st.len() == 0 {
        Seq::<Seq<char>>::empty()
    } else {
        let rest = names_in_dir(st.drop_last(), dir);
        if st.last().dir == dir {
            rest.push(st.last().name)
        } else {
            rest
        }
    }
}

/// Membership in the per-directory listing is exactly membership in the
/// tree model.
pub proof fn lemma_names_in_dir_membership(st: Seq<PathV>, dir: Seq<char>, n: Seq<char>)
    ensures
        name_in(names_in_dir(st, dir), n) == path_in(st, dir, n),
    decreases st.len(),
{
    let names = names_in_dir(st, dir);
    if st.len() == 0 {
    } else {
        let rest = st.drop_last();
        lemma_names_in_dir_membership(rest, dir, n);
        let rnames = names_in_dir(rest, dir);
        if name_in(rnames, n) {
            let k = choose|k: int| 0 <= k < rnames.len() && rnames[k] == n;
            assert(names[k] == n);
            assert(name_in(names, n));
            let j = choose|j: int| 0 <= j < rest.len() && rest[j].dir == dir && rest[j].name == n;
            assert(st[j].dir == dir && st[j].name == n);
            assert(path_in(st, dir, n));
        } else {
            if st.last().dir == dir && st.last().name == n {
                assert(names.last() == n);
                assert(name_in(names, n));
                assert(st[st.len() - 1].dir == dir && st[st.len() - 1].name == n);
                assert(path_in(st, dir, n));
            } else {
                if name_in(names, n) {
                    let k = choose|k: int| 0 <= k < names.len() && names[k] == n;
                    if st.last().dir == dir {
                        assert(k < rnames.len() + 1);
                        if k < rnames.len() {
                            assert(rnames[k] == n);
                            assert(false);
                        } else {
                            assert(names[k] == st.last().name);
                            assert(false);
                        }
                    } else {
                        assert(rnames[k] == n);
                        assert(false);
                    }
                }
                if path_in(st, dir, n) {
                    let j = choose|j: int|
                        0 <= j < st.len() && st[j].dir == dir && st[j].name == n;
                    if j < st.len() - 1 {
                        assert(rest[j].dir == dir && rest[j].name == n);
                        assert(path_in(rest, dir, n));
                        assert(false);
                    } else {
                        assert(false);
                    }
                }
            }
        }
    }
}

/// Lists the names the model holds in `dir`.
pub fn list_dir(state: &Vec<RelPath>, dir: &str) -> (r: Vec<String>)
    ensures
        r.deep_view() == names_in_dir(paths_view(state@), dir@),
{
    let mut out: Vec<String> = Vec::new();
    let n = state.len();
    let mut i: usize = 0;
    assert(paths_view(state@).take(0) =~= Seq::<PathV>::empty());
    while i < n
        invariant
            0 <= i <= n,
            n == state@.len(),
            out.deep_view() == names_in_dir(paths_view(state@).take(i as int), dir@),
        decreases n - i,
    {
        let ghost pre = paths_view(state@).take(i as int);
        let ghost post = paths_view(state@).take(i as int + 1);
        proof {
            assert(post.drop_last() =~= pre);
            assert(post.last() == state@[i as int]@);
        }
        if str_eq(state[i].dir.as_str(), dir) {
            let nm = state[i].name.clone();
            out.push(nm);
            assert(out.deep_view() =~= names_in_dir(post, dir@));
        } else {
            assert(out.deep_view() =~= names_in_dir(post, dir@));
        }
        i = i + 1;
    }
    assert(paths_view(state@).take(n as int) =~= paths_view(state@));
    out
}

/// The fixed subdirectory name for files without a usable date.
pub open spec fn unsorted_dir() -> Seq<char> {
    "unsorted"@
}

/// The subdirectory a candidate is routed to: its formatted date, or the
/// fixed fallback name.
pub open spec fn subdir_for(e: ExtractOutcome, fmt: Seq<char>) -> Seq<char> {
    match e {
        ExtractOutcome::Found(d) => fmt_strftime_spec(d, fmt),
        _ => unsorted_dir(),
    }
}

/// A candidate whose extracted date, if any, is a real calendar timestamp.
pub open spec fn valid_cand(c: CandV) -> bool {
    c.extract matches ExtractOutcome::Found(d) ==> valid_date(d)
}

/// The whole state one run builds: statistics, emitted actions, and the
/// output tree as it stands after the actions are performed.
pub ghost struct RunModel {
    pub stats: StatsV,
    pub actions: Seq<ActV>,
    pub st: Seq<PathV>,
}

/// How one candidate changes the run state.  An unreadable candidate only
/// counts as an error.  Otherwise the candidate is routed to its
/// subdirectory; a dated candidate always feeds the histogram under its
/// canonical key.  If even the resolved destination is taken (possible only
/// through the resolver's exhaustion fallback) the file is skipped;
/// otherwise the transfer is recorded and the destination becomes part of
/// the tree.
pub open spec fn step_spec(m: RunModel, c: CandV, fmt: Seq<char>, destructive: bool, tag: int) -> RunModel {
    match c.extract {
        ExtractOutcome::Unreadable => RunModel {
            stats: StatsV { errors: m.stats.errors + 1, ..m.stats },
            ..m
        },
        _ => {
            let dated = c.extract is Found;
            let hist1 = match c.extract {
                ExtractOutcome::Found(d) => bump(m.stats.hist, key_of(d)),
                _ => m.stats.hist,
            };
            let subdir = subdir_for(c.extract, fmt);
            let names = names_in_dir(m.st, subdir);
            let resolved = resolve_spec(names, c.name, tag);
            if name_in(names, resolved) {
                RunModel { stats: StatsV { skipped: m.stats.skipped + 1, hist: hist1, ..m.stats }, ..m }
            } else {
                RunModel {
                    stats: StatsV {
                        organized: if dated {
                            m.stats.organized + 1
                        } else {
                            m.stats.organized
                        },
                        unsorted: if dated {
                            m.stats.unsorted
                        } else {
                            m.stats.unsorted + 1
                        },
                        hist: hist1,
                        ..m.stats
                    },
                    actions: m.actions.push(
                        ActV { source: c.source, dir: subdir, name: resolved, destructive },
                    ),
                    st: m.st.push(PathV { dir: subdir, name: resolved }),
                }
            }
        },
    }
}

pub open spec fn empty_stats() -> StatsV {
    StatsV { organized: 0, unsorted: 0, skipped: 0, errors: 0, hist: Map::<Seq<char>, int>::empty() }
}

/// The run state after processing `cands` in order, starting from the
/// output tree `st0`.
pub open spec fn run_model(
    cands: Seq<CandV>,
    fmt: Seq<char>,
    destructive: bool,
    st0: Seq<PathV>,
    tag: int,
) -> RunModel
    decreases cands.len(),
{
    if cands.len() == 0 {
        RunModel { stats: empty_stats(), actions: Seq::<ActV>::empty(), st: st0 }
    } else {
        step_spec(
            run_model(cands.drop_last(), fmt, destructive, st0, tag),
            cands.last(),
            fmt,
            destructive,
            tag,
        )
    }
}

/// All counts are within `n`, singly and together.
pub open spec fn stats_bounded(s: StatsV, n: int) -> bool {
    &&& 0 <= s.organized
    &&& 0 <= s.unsorted
    &&& 0 <= s.skipped
    &&& 0 <= s.errors
    &&& s.organized + s.unsorted + s.skipped + s.errors <= n
    &&& forall|k: Seq<char>| s.hist.contains_key(k) ==> 0 <= #[trigger] s.hist[k] <= n
}

proof fn lemma_bump_bounded(h: Map<Seq<char>, int>, k: Seq<char>, n: int)
    requires
        forall|x: Seq<char>| h.contains_key(x) ==> 0 <= #[trigger] h[x] <= n,
        0 <= n,
    ensures
        forall|x: Seq<char>| bump(h, k).contains_key(x) ==> 0 <= #[trigger] bump(h, k)[x] <= n + 1,
{
    assert forall|x: Seq<char>| bump(h, k).contains_key(x) implies 0 <= #[trigger] bump(h, k)[x]
        <= n + 1 by {
        if x == k {
        } else {
            assert(bump(h, k)[x] == h[x]);
        }
    }
}

proof fn lemma_step_bounded(m: RunModel, c: CandV, fmt: Seq<char>, destructive: bool, tag: int, n: int)
    requires
        stats_bounded(m.stats, n),
        0 <= n,
    ensures
        stats_bounded(step_spec(m, c, fmt, destructive, tag).stats, n + 1),
{
    match c.extract {
        ExtractOutcome::Unreadable => {
        },
        _ => {
            match c.extract {
                ExtractOutcome::Found(d) => lemma_bump_bounded(m.stats.hist, key_of(d), n),
                _ => (),
            }
        },
    }
}

proof fn lemma_hist_entries_bounded(s: Stats, bound: int)
    requires
        s.keys_unique(),
        forall|k: Seq<char>| s@.hist.contains_key(k) ==> #[trigger] s@.hist[k] <= bound,
    ensures
        forall|j: int|
            0 <= j < s.date_counts@.len() ==> #[trigger] s.date_counts@[j].1 <= bound,
{
    let entries = crate::stats::hist_entries(s.date_counts@);
    assert forall|j: int|
        0 <= j < s.date_counts@.len() implies #[trigger] s.date_counts@[j].1 <= bound by {
        assert(entries[j] == (s.date_counts@[j].0@, s.date_counts@[j].1 as int));
        crate::stats::lemma_hist_lookup(entries, j);
        assert(s@.hist.contains_key(s.date_counts@[j].0@));
    }
}

/// What one run returns: the statistics, the actions a real run performs
/// (empty in simulate mode), and the resulting output-tree model.
pub struct RunReport {
    pub stats: Stats,
    pub actions: Vec<FsAction>,
    pub state: Vec<RelPath>,
}

/// The OrganizeEngine: processes the candidates in the order supplied,
/// starting from the output tree described by `initial`.  The statistics
/// and the resulting tree do not depend on `cfg.simulate`; in simulate mode
/// no action is emitted, otherwise exactly the model's actions are.
pub fn run(candidates: &Vec<Candidate>, cfg: &Config, initial: Vec<RelPath>, fallback_tag: u64) -> (r:
    RunReport)
    requires
        forall|k: int| 0 <= k < candidates@.len() ==> valid_cand(#[trigger] candidates@[k]@),
    ensures
        ({
            let m = run_model(
                cands_view(candidates@),
                cfg.date_format@,
                cfg.destructive,
                paths_view(initial@),
                fallback_tag as int,
            );
            &&& r.stats@ == m.stats
            &&& r.stats.keys_unique()
            &&& paths_view(r.state@) == m.st
            &&& cfg.simulate ==> r.actions@.len() == 0
            &&& !cfg.simulate ==> acts_view(r.actions@) == m.actions
        }),
{
    let ghost fmt = cfg.date_format@;
    let ghost st0 = paths_view(initial@);
    let ghost tagi = fallback_tag as int;
    let ghost allc = cands_view(candidates@);
    let mut stats = Stats::new();
    let mut actions: Vec<FsAction> = Vec::new();
    let mut state: Vec<RelPath> = initial;
    let n = candidates.len();
    let mut i: usize = 0;
    proof {
        assert(allc.take(0) =~= Seq::<CandV>::empty());
        assert(acts_view(actions@) =~= Seq::<ActV>::empty());
    }
    while i < n
        invariant
            0 <= i <= n,
            n == candidates@.len(),
            forall|k: int| 0 <= k < candidates@.len() ==> valid_cand(#[trigger] candidates@[k]@),
            allc == cands_view(candidates@),
            fmt == cfg.date_format@,
            tagi == fallback_tag as int,
            stats.keys_unique(),
            stats.date_counts@.len() <= i,
            stats@ == run_model(allc.take(i as int), fmt, cfg.destructive, st0, tagi).stats,
            paths_view(state@) == run_model(allc.take(i as int), fmt, cfg.destructive, st0, tagi).st,
            stats_bounded(stats@, i as int),
            cfg.simulate ==> actions@.len() == 0,
            !cfg.simulate ==> acts_view(actions@) == run_model(
                allc.take(i as int),
                fmt,
                cfg.destructive,
                st0,
                tagi,
            ).actions,
        decreases n - i,
    {
        let ghost m0 = run_model(allc.take(i as int), fmt, cfg.destructive, st0, tagi);
        let ghost m1 = run_model(allc.take(i as int + 1), fmt, cfg.destructive, st0, tagi);
        proof {
            assert(allc.take(i as int + 1).drop_last() =~= allc.take(i as int));
            assert(allc.take(i as int + 1).last() == candidates@[i as int]@);
            assert(m1 == step_spec(m0, candidates@[i as int]@, fmt, cfg.destructive, tagi));
            lemma_step_bounded(m0, candidates@[i as int]@, fmt, cfg.destructive, tagi, i as int);
        }
        let c = &candidates[i];
        let dated: bool;
        let subdir: String;
        match &c.extract {
            ExtractOutcome::Unreadable => {
                stats.record_error();
                i = i + 1;
                continue ;
            },
            ExtractOutcome::Found(d) => {
                let key = date_key(d);
                proof {
                    lemma_hist_entries_bounded(stats, i as int);
                }
                stats.bump_date_count(key.as_str());
                subdir = format_date(d, cfg.date_format.as_str());
                dated = true;
            },
            ExtractOutcome::Absent => {
                proof {
                    reveal_strlit("unsorted");
                }
                subdir = "unsorted".to_owned();
                dated = false;
            },
        }
        assert(subdir@ == subdir_for(c.extract, fmt));
        let names = list_dir(&state, subdir.as_str());
        let resolved = resolve_conflict(&names, c.name.as_str(), fallback_tag);
        if contains_name(&names, resolved.as_str()) {
            stats.record_skipped();
        } else {
            if !cfg.simulate {
                actions.push(
                    FsAction {
                        source: c.source.clone(),
                        dir: subdir.clone(),
                        dest_name: resolved.clone(),
                        destructive: cfg.destructive,
                    },
                );
                assert(acts_view(actions@) =~= m1.actions);
            }
            state.push(RelPath { dir: subdir, name: resolved });
            assert(paths_view(state@) =~= m1.st);
            if dated {
                stats.record_organized();
            } else {
                stats.record_unsorted();
            }
        }
        assert(stats@ == m1.stats);
        i = i + 1;
    }
    proof {
        assert(allc.take(n as int) =~= allc);
    }
    RunReport { stats, actions, state }
}

/// How many candidates were unreadable.
pub open spec fn count_unreadable(cands: Seq<CandV>) -> int
    decreases cands.len(),
{
    if cands.len() == 0 {
        0
    } else {
        count_unreadable(cands.drop_last()) + if cands.last().extract is Unreadable {
            1int
        } else {
            0int
        }
    }
}

/// The candidates that could be read, in order.
pub open spec fn readable_of(cands: Seq<CandV>) -> Seq<CandV>
    decreases cands.len(),
{
    if cands.len() == 0 {
        Seq::<CandV>::empty()
    } else if cands.last().extract is Unreadable {
        readable_of(cands.drop_last())
    } else {
        readable_of(cands.drop_last()).push(cands.last())
    }
}

/// Partial-failure isolation: unreadable candidates only feed the error
/// count, and the rest of the run — every other count, the histogram, the
/// actions and the resulting tree — is exactly the run over the readable
/// candidates alone.
pub proof fn lemma_error_isolation(
    cands: Seq<CandV>,
    fmt: Seq<char>,
    destructive: bool,
    st0: Seq<PathV>,
    tag: int,
)
    ensures
        ({
            let m = run_model(cands, fmt, destructive, st0, tag);
            let mr = run_model(readable_of(cands), fmt, destructive, st0, tag);
            &&& m.stats.errors == count_unreadable(cands)
            &&& mr.stats.errors == 0
            &&& m.stats.organized == mr.stats.organized
            &&& m.stats.unsorted == mr.stats.unsorted
            &&& m.stats.skipped == mr.stats.skipped
            &&& m.stats.hist == mr.stats.hist
            &&& m.actions == mr.actions
            &&& m.st == mr.st
        }),
    decreases cands.len(),
{
    if cands.len() == 0 {
    } else {
        let prev = cands.drop_last();
        let c = cands.last();
        lemma_error_isolation(prev, fmt, destructive, st0, tag);
        let mp = run_model(prev, fmt, destructive, st0, tag);
        let mrp = run_model(readable_of(prev), fmt, destructive, st0, tag);
        if c.extract is Unreadable {
            assert(readable_of(cands) == readable_of(prev));
        } else {
            assert(readable_of(cands) == readable_of(prev).push(c));
            assert(readable_of(cands).drop_last() =~= readable_of(prev));
            assert(readable_of(cands).last() == c);
            assert(run_model(readable_of(cands), fmt, destructive, st0, tag) == step_spec(
                mrp,
                c,
                fmt,
                destructive,
                tag,
            ));
        }
    }
}

/// The destinations one run writes: fresh against the initial tree and
/// pairwise distinct, so no pre-existing file and no file this run created
/// is ever overwritten.  The resulting tree is exactly the initial tree
/// plus the written destinations.
pub proof fn lemma_no_overwrite(
    cands: Seq<CandV>,
    fmt: Seq<char>,
    destructive: bool,
    st0: Seq<PathV>,
    tag: int,
)
    ensures
        ({
            let m = run_model(cands, fmt, destructive, st0, tag);
            &&& m.st == st0 + m.actions.map_values(|a: ActV| PathV { dir: a.dir, name: a.name })
            &&& forall|k: int|
                0 <= k < m.actions.len() ==> !path_in(
                    st0,
                    #[trigger] m.actions[k].dir,
                    m.actions[k].name,
                )
            &&& forall|k: int, l: int|
                0 <= k < l < m.actions.len() ==> !(#[trigger] m.actions[k].dir
                    == #[trigger] m.actions[l].dir && m.actions[k].name == m.actions[l].name)
        }),
    decreases cands.len(),
{
    let m = run_model(cands, fmt, destructive, st0, tag);
    if cands.len() == 0 {
        assert(m.st =~= st0 + m.actions.map_values(
            |a: ActV| PathV { dir: a.dir, name: a.name },
        ));
    } else {
        let prev = cands.drop_last();
        let c = cands.last();
        lemma_no_overwrite(prev, fmt, destructive, st0, tag);
        let mp = run_model(prev, fmt, destructive, st0, tag);
        let dests = mp.actions.map_values(|a: ActV| PathV { dir: a.dir, name: a.name });
        if c.extract is Unreadable {
        } else {
            let subdir = subdir_for(c.extract, fmt);
            let names = names_in_dir(mp.st, subdir);
            let resolved = resolve_spec(names, c.name, tag);
            if name_in(names, resolved) {
            } else {
                lemma_names_in_dir_membership(mp.st, subdir, resolved);
                assert(!path_in(mp.st, subdir, resolved));
                let newdest = PathV { dir: subdir, name: resolved };
                assert(m.actions == mp.actions.push(
                    ActV { source: c.source, dir: subdir, name: resolved, destructive },
                ));
                assert(m.st == mp.st.push(newdest));
                assert(m.st =~= st0 + m.actions.map_values(
                    |a: ActV| PathV { dir: a.dir, name: a.name },
                ));
                // The new destination collides with nothing earlier.
                assert(!path_in(st0, subdir, resolved)) by {
                    if path_in(st0, subdir, resolved) {
                        let j = choose|j: int|
                            0 <= j < st0.len() && st0[j].dir == subdir && st0[j].name == resolved;
                        assert(mp.st[j] == st0[j]);
                        assert(path_in(mp.st, subdir, resolved));
                    }
                }
                assert forall|k: int| 0 <= k < mp.actions.len() implies !(
                #[trigger] mp.actions[k].dir == subdir && mp.actions[k].name == resolved) by {
                    if mp.actions[k].dir == subdir && mp.actions[k].name == resolved {
                        assert(mp.st[st0.len() + k] == dests[k]);
                        assert(dests[k] == PathV { dir: subdir, name: resolved });
                        assert(path_in(mp.st, subdir, resolved));
                    }
                }
            }
        }
    }
}

/// Every candidate lands in exactly one terminal bucket: the four counts
/// sum to the number of candidates processed, and no histogram count
/// exceeds it.
pub proof fn lemma_bucket_sum(
    cands: Seq<CandV>,
    fmt: Seq<char>,
    destructive: bool,
    st0: Seq<PathV>,
    tag: int,
)
    ensures
        stats_bounded(run_model(cands, fmt, destructive, st0, tag).stats, cands.len() as int),
        ({
            let s = run_model(cands, fmt, destructive, st0, tag).stats;
            s.organized + s.unsorted + s.skipped + s.errors == cands.len()
        }),
    decreases cands.len(),
{
    if cands.len() > 0 {
        lemma_bucket_sum(cands.drop_last(), fmt, destructive, st0, tag);
        lemma_step_bounded(
            run_model(cands.drop_last(), fmt, destructive, st0, tag),
            cands.last(),
            fmt,
            destructive,
            tag,
            cands.len() as int - 1,
        );
    }
}

/// A candidate without a usable date is routed to the fixed `unsorted`
/// subdirectory; it feeds the unsorted count (or, only when even the
/// resolved name is taken, the skipped count), never the organized count
/// and never the histogram.
pub proof fn lemma_no_date_fallback(
    m: RunModel,
    c: CandV,
    fmt: Seq<char>,
    destructive: bool,
    tag: int,
)
    requires
        c.extract is Absent,
    ensures
        ({
            let m2 = step_spec(m, c, fmt, destructive, tag);
            let names = names_in_dir(m.st, unsorted_dir());
            let resolved = resolve_spec(names, c.name, tag);
            &&& subdir_for(c.extract, fmt) == unsorted_dir()
            &&& m2.stats.organized == m.stats.organized
            &&& m2.stats.errors == m.stats.errors
            &&& m2.stats.hist == m.stats.hist
            &&& !name_in(names, resolved) ==> {
                &&& m2.stats.unsorted == m.stats.unsorted + 1
                &&& m2.actions == m.actions.push(
                    ActV { source: c.source, dir: unsorted_dir(), name: resolved, destructive },
                )
            }
            &&& name_in(names, resolved) ==> m2.stats.skipped == m.stats.skipped + 1
        }),
{
}

proof fn lemma_names_in_dir_len(st: Seq<PathV>, dir: Seq<char>)
    ensures
        names_in_dir(st, dir).len() <= st.len(),
    decreases st.len(),
{
    if st.len() > 0 {
        lemma_names_in_dir_len(st.drop_last(), dir);
    }
}

/// As long as a run cannot exhaust the resolver's probe range — fewer than
/// 9999 files in the initial tree and the batch together — every resolved
/// destination is fresh and nothing is ever skipped.
pub proof fn lemma_no_skip(
    cands: Seq<CandV>,
    fmt: Seq<char>,
    destructive: bool,
    st0: Seq<PathV>,
    tag: int,
)
    requires
        st0.len() + cands.len() <= 9999,
    ensures
        run_model(cands, fmt, destructive, st0, tag).stats.skipped == 0,
        run_model(cands, fmt, destructive, st0, tag).st.len() <= st0.len() + cands.len(),
    decreases cands.len(),
{
    if cands.len() > 0 {
        let prev = cands.drop_last();
        let c = cands.last();
        lemma_no_skip(prev, fmt, destructive, st0, tag);
        let mp = run_model(prev, fmt, destructive, st0, tag);
        if !(c.extract is Unreadable) {
            let subdir = subdir_for(c.extract, fmt);
            lemma_names_in_dir_len(mp.st, subdir);
            crate::files::lemma_resolve_fresh(names_in_dir(mp.st, subdir), c.name, tag);
        }
    }
}

/// The histogram is keyed by the canonical `YYYY-MM-DD` key of the
/// extracted date — independent of the configured display format and of
/// whether the file then had to be skipped.
pub proof fn lemma_histogram_canonical(
    m: RunModel,
    c: CandV,
    fmt: Seq<char>,
    destructive: bool,
    tag: int,
    d: CaptureDate,
)
    requires
        c.extract == ExtractOutcome::Found(d),
    ensures
        step_spec(m, c, fmt, destructive, tag).stats.hist == bump(m.stats.hist, key_of(d)),
{
}

} // verus!
