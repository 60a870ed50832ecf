//! The statistics aggregate of one organizing run: one terminal bucket per
//! candidate file, plus a per-date histogram keyed by canonical
//! `YYYY-MM-DD` strings.
use vstd::prelude::*;

verus! {

/// Abstract value of the histogram entries: key view and count.
pub open spec fn hist_entries(s: Seq<(String, usize)>) -> Seq<(Seq<char>, int)> {
    s.map_values(|p: (String, usize)| (p.0@, p.1 as int))
}

/// The histogram as a map from date key to count.
pub open spec fn hist_map_rec(s: Seq<(Seq<char>, int)>) -> Map<Seq<char>, int>
    decreases s.len(),
{
    if s.len() == 0 {
        Map::<Seq<char>, int>::empty()
    } else {
        hist_map_rec(s.drop_last()).insert(s.last().0, s.last().1)
    }
}

/// One increment of the histogram at `k`.
pub open spec fn bump(h: Map<Seq<char>, int>, k: Seq<char>) -> Map<Seq<char>, int> {
    if h.contains_key(k) {
        h.insert(k, h[k] + 1)
    } else {
        h.insert(k, 1)
    }
}

pub proof fn lemma_hist_push(s: Seq<(Seq<char>, int)>, k: Seq<char>, v: int)
    ensures
        hist_map_rec(s.push((k, v))) == hist_map_rec(s).insert(k, v),
{
    assert(s.push((k, v)).drop_last() =~= s);
}

pub proof fn lemma_hist_update(s: Seq<(Seq<char>, int)>, i: int, v: int)
    requires
        0 <= i < s.len(),
        forall|a: int, b: int| 0 <= a < b < s.len() ==> s[a].0 != s[b].0,
    ensures
        hist_map_rec(s.update(i, (s[i].0, v))) == hist_map_rec(s).insert(s[i].0, v),
    decreases s.len(),
{
    let s2 = s.update(i, (s[i].0, v));
    if i == s.len() - 1 {
        assert(s2.drop_last() =~= s.drop_last());
        assert(s2.last() == (s[i].0, v));
        assert(hist_map_rec(s2) =~= hist_map_rec(s).insert(s[i].0, v));
    } else {
        assert(s2.drop_last() =~= s.drop_last().update(i, (s[i].0, v)));
        assert(s.drop_last()[i] == s[i]);
        lemma_hist_update(s.drop_last(), i, v);
        assert(s2.last() == s.last());
        assert(s[i].0 != s.last().0);
        assert(hist_map_rec(s2) == hist_map_rec(s.drop_last()).insert(s[i].0, v).insert(
            s.last().0,
            s.last().1,
        ));
        assert(hist_map_rec(s.drop_last()).insert(s[i].0, v).insert(s.last().0, s.last().1)
            =~= hist_map_rec(s).insert(s[i].0, v));
    }
}

pub proof fn lemma_hist_lookup(s: Seq<(Seq<char>, int)>, i: int)
    requires
        0 <= i < s.len(),
        forall|a: int, b: int| 0 <= a < b < s.len() ==> s[a].0 != s[b].0,
    ensures
        hist_map_rec(s).contains_key(s[i].0),
        hist_map_rec(s)[s[i].0] == s[i].1,
    decreases s.len(),
{
    if i == s.len() - 1 {
    } else {
        assert(s.drop_last()[i] == s[i]);
        lemma_hist_lookup(s.drop_last(), i);
        assert(s[i].0 != s.last().0);
    }
}

pub proof fn lemma_hist_absent(s: Seq<(Seq<char>, int)>, k: Seq<char>)
    requires
        forall|j: int| 0 <= j < s.len() ==> s[j].0 != k,
    ensures
        !hist_map_rec(s).contains_key(k),
    decreases s.len(),
{
    if s.len() > 0 {
        assert(forall|j: int| 0 <= j < s.len() - 1 ==> s.drop_last()[j] == s[j]);
        lemma_hist_absent(s.drop_last(), k);
    }
}

/// Counts of terminal outcomes plus the per-date histogram.
pub struct Stats {
    pub organized: usize,
    pub unsorted: usize,
    pub skipped: usize,
    pub errors: usize,
    pub date_counts: Vec<(String, usize)>,
}

/// Abstract value of a `Stats`.
pub ghost struct StatsV {
    pub organized: int,
    pub unsorted: int,
    pub skipped: int,
    pub errors: int,
    pub hist: Map<Seq<char>, int>,
}

impl View for Stats {
    type V = StatsV;

    open spec fn view(&self) -> StatsV {
        StatsV {
            organized: self.organized as int,
            unsorted: self.unsorted as int,
            skipped: self.skipped as int,
            errors: self.errors as int,
            hist: hist_map_rec(hist_entries(self.date_counts@)),
        }
    }
}

impl Stats {
    /// Histogram keys occur once each; every update relies on it.
    pub open spec fn keys_unique(self) -> bool {
        forall|a: int, b: int|
            0 <= a < b < self.date_counts@.len() ==> self.date_counts@[a].0@
                != self.date_counts@[b].0@
    }

    /// Every histogram count can still be incremented.
    pub open spec fn hist_headroom(self) -> bool {
        forall|j: int| 0 <= j < self.date_counts@.len() ==> self.date_counts@[j].1 < usize::MAX
    }

    pub fn new() -> (r: Stats)
        ensures
            r@ == (StatsV {
                organized: 0,
                unsorted: 0,
                skipped: 0,
                errors: 0,
                hist: Map::<Seq<char>, int>::empty(),
            }),
            r.keys_unique(),
            r.date_counts@.len() == 0,
    {
        Stats { organized: 0, unsorted: 0, skipped: 0, errors: 0, date_counts: Vec::new() }
    }

    pub fn record_organized(&mut self)
        requires
            old(self).organized < usize::MAX,
        ensures
            final(self)@ == (StatsV { organized: old(self)@.organized + 1, ..old(self)@ }),
            final(self).keys_unique() == old(self).keys_unique(),
            final(self).hist_headroom() == old(self).hist_headroom(),
            final(self).date_counts == old(self).date_counts,
    {
        self.organized = self.organized + 1;
    }

    pub fn record_unsorted(&mut self)
        requires
            old(self).unsorted < usize::MAX,
        ensures
            final(self)@ == (StatsV { unsorted: old(self)@.unsorted + 1, ..old(self)@ }),
            final(self).keys_unique() == old(self).keys_unique(),
            final(self).hist_headroom() == old(self).hist_headroom(),
            final(self).date_counts == old(self).date_counts,
    {
        self.unsorted = self.unsorted + 1;
    }

    pub fn record_skipped(&mut self)
        requires
            old(self).skipped < usize::MAX,
        ensures
            final(self)@ == (StatsV { skipped: old(self)@.skipped + 1, ..old(self)@ }),
            final(self).keys_unique() == old(self).keys_unique(),
            final(self).hist_headroom() == old(self).hist_headroom(),
            final(self).date_counts == old(self).date_counts,
    {
        self.skipped = self.skipped + 1;
    }

    pub fn record_error(&mut self)
        requires
            old(self).errors < usize::MAX,
        ensures
            final(self)@ == (StatsV { errors: old(self)@.errors + 1, ..old(self)@ }),
            final(self).keys_unique() == old(self).keys_unique(),
            final(self).hist_headroom() == old(self).hist_headroom(),
            final(self).date_counts == old(self).date_counts,
    {
        self.errors = self.errors + 1;
    }

    /// Adds one to the histogram count under `key`, creating the entry when
    /// absent.
    pub fn bump_date_count(&mut self, key: &str)
        requires
            old(self).keys_unique(),
            old(self).hist_headroom(),
            old(self).date_counts@.len() < usize::MAX,
        ensures
            final(self)@ == (StatsV { hist: bump(old(self)@.hist, key@), ..old(self)@ }),
            final(self).keys_unique(),
            final(self).date_counts@.len() <= old(self).date_counts@.len() + 1,
    {
        let ghost entries0 = hist_entries(self.date_counts@);
        let mut i: usize = 0;
        let n = self.date_counts.len();
        while i < n
            invariant
                0 <= i <= n,
                *self == *old(self),
                n == self.date_counts@.len(),
                entries0 == hist_entries(self.date_counts@),
                old(self).keys_unique(),
                old(self).hist_headroom(),
                forall|j: int| 0 <= j < i ==> self.date_counts@[j].0@ != key@,
            decreases n - i,
        {
            if crate::files::str_eq(self.date_counts[i].0.as_str(), key) {
                let c = self.date_counts[i].1;
                let k2 = self.date_counts[i].0.clone();
                assert(c < usize::MAX);
                self.date_counts.set(i, (k2, c + 1));
                proof {
                    assert(hist_entries(self.date_counts@) =~= entries0.update(
                        i as int,
                        (entries0[i as int].0, (c + 1) as int),
                    ));
                    lemma_hist_update(entries0, i as int, (c + 1) as int);
                    lemma_hist_lookup(entries0, i as int);
                    assert(final(self)@.hist =~= bump(old(self)@.hist, key@));
                }
                return ;
            }
            i = i + 1;
        }
        let kn = key.to_owned();
        self.date_counts.push((kn, 1));
        proof {
            assert(hist_entries(self.date_counts@) =~= entries0.push((key@, 1int)));
            lemma_hist_push(entries0, key@, 1int);
            assert(forall|j: int|
                0 <= j < entries0.len() ==> entries0[j].0 == old(self).date_counts@[j].0@);
            lemma_hist_absent(entries0, key@);
            assert(final(self)@.hist =~= bump(old(self)@.hist, key@));
        }
    }
}

} // verus!
