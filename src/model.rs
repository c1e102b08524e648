use vstd::prelude::*;

use crate::id::{
    directory_sep, has_name, numbered, opt_view, title_sep, BenchmarkId, IdKey, Throughput,
};

verus! {

/// What the index knows of one benchmark, as mathematical values.
pub struct BenchView<S> {
    pub latest: Option<S>,
    pub previous: Option<S>,
    pub target: Option<Seq<char>>,
}

/// What the index knows of one group: its benchmarks in order, and its owner.
pub struct GroupView<S> {
    pub benchmarks: Seq<(IdKey, BenchView<S>)>,
    pub target: Option<Seq<char>>,
}

/// Index of the first entry whose key is `k`, or -1 when no entry has it.
pub open spec fn key_index<K, V>(s: Seq<(K, V)>, k: K) -> int {
    if exists|i: int| 0 <= i < s.len() && (#[trigger] s[i]).0 == k {
        choose|i: int| 0 <= i < s.len() && (#[trigger] s[i]).0 == k
    } else {
        -1
    }
}

/// No two entries share a key.
pub open spec fn keys_unique<K, V>(s: Seq<(K, V)>) -> bool {
    forall|i: int, j: int|
        0 <= i < s.len() && 0 <= j < s.len() && (#[trigger] s[i]).0 == (#[trigger] s[j]).0 ==> i
            == j
}

/// No two elements have the same characters.
pub open spec fn names_distinct(v: Seq<String>) -> bool {
    forall|i: int, j: int|
        0 <= i < v.len() && 0 <= j < v.len() && (#[trigger] v[i])@ == (#[trigger] v[j])@ ==> i
            == j
}

/// The entry for `k` moved to the end with value `v`, or `(k, v)` appended when absent.
pub open spec fn put_last<K, V>(s: Seq<(K, V)>, k: K, v: V) -> Seq<(K, V)> {
    let i = key_index(s, k);
    if i >= 0 {
        s.remove(i).push((k, v))
    } else {
        s.push((k, v))
    }
}

/// The entry for `k` given value `v` where it stands, or `(k, v)` appended when absent.
pub open spec fn put_in_place<K, V>(s: Seq<(K, V)>, k: K, v: V) -> Seq<(K, V)> {
    let i = key_index(s, k);
    if i >= 0 {
        s.update(i, (k, v))
    } else {
        s.push((k, v))
    }
}

pub open spec fn lookup<K, V>(s: Seq<(K, V)>, k: K) -> Option<V> {
    let i = key_index(s, k);
    if i >= 0 {
        Some(s[i].1)
    } else {
        None
    }
}

pub open spec fn fresh_bench<S>() -> BenchView<S> {
    BenchView { latest: None, previous: None, target: None }
}

pub open spec fn fresh_group<S>() -> GroupView<S> {
    GroupView { benchmarks: Seq::empty(), target: None }
}

/// A benchmark after registration by `target`: the first owner is kept.
pub open spec fn bench_registered<S>(b: Option<BenchView<S>>, target: Seq<char>) -> BenchView<S> {
    let b = match b {
        Some(b) => b,
        None => fresh_bench(),
    };
    match b.target {
        Some(_) => b,
        None => BenchView { target: Some(target), ..b },
    }
}

/// The owner to warn about when `target` registers a benchmark first seen elsewhere.
pub open spec fn register_warning<S>(b: Option<BenchView<S>>, target: Seq<char>) -> Option<
    Seq<char>,
> {
    match b {
        Some(b) => match b.target {
            Some(t) => if t != target {
                Some(t)
            } else {
                None
            },
            None => None,
        },
        None => None,
    }
}

/// The groups after `target` registers the identity `k`: the group is found or appended,
/// and the benchmark moves to the end of it.
pub open spec fn groups_registered<S>(
    gs: Seq<(Seq<char>, GroupView<S>)>,
    k: IdKey,
    target: Seq<char>,
) -> Seq<(Seq<char>, GroupView<S>)> {
    let g = match lookup(gs, k.0) {
        Some(g) => g,
        None => fresh_group(),
    };
    let b = bench_registered(lookup(g.benchmarks, k), target);
    put_in_place(gs, k.0, GroupView { benchmarks: put_last(g.benchmarks, k, b), ..g })
}

/// The groups after a record for `k` with snapshot `stats` is loaded: entries are found
/// or appended, none moves, and the snapshot becomes the latest.
pub open spec fn groups_loaded<S>(gs: Seq<(Seq<char>, GroupView<S>)>, k: IdKey, stats: S) -> Seq<
    (Seq<char>, GroupView<S>),
> {
    let g = match lookup(gs, k.0) {
        Some(g) => g,
        None => fresh_group(),
    };
    let b = match lookup(g.benchmarks, k) {
        Some(b) => b,
        None => fresh_bench(),
    };
    let b2 = BenchView { latest: Some(stats), ..b };
    put_in_place(gs, k.0, GroupView { benchmarks: put_in_place(g.benchmarks, k, b2), ..g })
}

/// The groups after a completed run of `k` with snapshot `stats`: the latest snapshot
/// becomes the previous one.
pub open spec fn groups_completed<S>(gs: Seq<(Seq<char>, GroupView<S>)>, k: IdKey, stats: S) -> Seq<
    (Seq<char>, GroupView<S>),
> {
    let g = lookup(gs, k.0).unwrap();
    let b = lookup(g.benchmarks, k).unwrap();
    let b2 = BenchView { latest: Some(stats), previous: b.latest, ..b };
    put_in_place(gs, k.0, GroupView { benchmarks: put_in_place(g.benchmarks, k, b2), ..g })
}

/// The groups after `target` claims the group `name`, which moves to the end.
pub open spec fn groups_claimed<S>(
    gs: Seq<(Seq<char>, GroupView<S>)>,
    name: Seq<char>,
    target: Seq<char>,
) -> Seq<(Seq<char>, GroupView<S>)> {
    let g = match lookup(gs, name) {
        Some(g) => g,
        None => fresh_group(),
    };
    put_last(gs, name, GroupView { target: Some(target), ..g })
}

pub open spec fn is_registered<S>(gs: Seq<(Seq<char>, GroupView<S>)>, k: IdKey) -> bool {
    lookup(gs, k.0) is Some && lookup(lookup(gs, k.0).unwrap().benchmarks, k) is Some
}

pub open spec fn bench_of<S>(gs: Seq<(Seq<char>, GroupView<S>)>, k: IdKey) -> Option<BenchView<S>> {
    match lookup(gs, k.0) {
        Some(g) => lookup(g.benchmarks, k),
        None => None,
    }
}

pub open spec fn latest_of<S>(gs: Seq<(Seq<char>, GroupView<S>)>, k: IdKey) -> Option<S> {
    match bench_of(gs, k) {
        Some(b) => b.latest,
        None => None,
    }
}

pub proof fn lemma_key_index<K, V>(s: Seq<(K, V)>, k: K, i: int)
    requires
        keys_unique(s),
        0 <= i < s.len(),
        s[i].0 == k,
    ensures
        key_index(s, k) == i,
{
}

pub proof fn lemma_key_absent<K, V>(s: Seq<(K, V)>, k: K)
    requires
        forall|j: int| 0 <= j < s.len() ==> (#[trigger] s[j]).0 != k,
    ensures
        key_index(s, k) == -1,
{
}

/// One benchmark's history within a run.
pub struct Benchmark<S> {
    pub latest_stats: Option<S>,
    pub previous_stats: Option<S>,
    pub target: Option<String>,
}

impl<S> Benchmark<S> {
    pub open spec fn view(&self) -> BenchView<S> {
        BenchView {
            latest: self.latest_stats,
            previous: self.previous_stats,
            target: opt_view(self.target),
        }
    }

    pub fn new() -> (r: Benchmark<S>)
        ensures
            r.view() == fresh_bench::<S>(),
    {
        Benchmark { latest_stats: None, previous_stats: None, target: None }
    }

    /// Makes `stats` the latest snapshot and the former latest the previous one.
    pub fn add_stats(&mut self, stats: S)
        ensures
            final(self).view() == (BenchView {
                latest: Some(stats),
                previous: old(self).latest_stats,
                ..old(self).view()
            }),
    {
        self.previous_stats = self.latest_stats.take();
        self.latest_stats = Some(stats);
    }

    pub fn latest_stats(&self) -> (r: Option<&S>)
        ensures
            r == match self.latest_stats {
                Some(s) => Some(&s),
                None => None::<&S>,
            },
    {
        self.latest_stats.as_ref()
    }

    pub fn previous_stats(&self) -> (r: Option<&S>)
        ensures
            r == match self.previous_stats {
                Some(s) => Some(&s),
                None => None::<&S>,
            },
    {
        self.previous_stats.as_ref()
    }
}

impl<S> Default for Benchmark<S> {
    fn default() -> (r: Benchmark<S>)
        ensures
            r.view() == fresh_bench::<S>(),
    {
        Benchmark::new()
    }
}

/// A named collection of benchmarks, in registration order.
pub struct BenchmarkGroup<S> {
    pub benchmarks: Vec<(BenchmarkId, Benchmark<S>)>,
    pub target: Option<String>,
}

impl<S> Default for BenchmarkGroup<S> {
    fn default() -> (r: BenchmarkGroup<S>)
        ensures
            r.view() == fresh_group::<S>(),
    {
        BenchmarkGroup::new()
    }
}

pub open spec fn bench_entries<S>(v: Seq<(BenchmarkId, Benchmark<S>)>) -> Seq<
    (IdKey, BenchView<S>),
> {
    v.map_values(|e: (BenchmarkId, Benchmark<S>)| (e.0.key(), e.1.view()))
}

impl<S> BenchmarkGroup<S> {
    pub open spec fn view(&self) -> GroupView<S> {
        GroupView { benchmarks: bench_entries(self.benchmarks@), target: opt_view(self.target) }
    }

    pub fn new() -> (r: BenchmarkGroup<S>)
        ensures
            r.view() == fresh_group::<S>(),
    {
        let r = BenchmarkGroup { benchmarks: Vec::new(), target: None };
        assert(r.view().benchmarks =~= Seq::empty());
        r
    }
}

pub proof fn lemma_put_last_unique<K, V>(s: Seq<(K, V)>, k: K, v: V)
    requires
        keys_unique(s),
    ensures
        keys_unique(put_last(s, k, v)),
        lookup(put_last(s, k, v), k) == Some(v),
{
    let i = key_index(s, k);
    let r = put_last(s, k, v);
    if i >= 0 {
        assert(forall|j: int| 0 <= j < r.len() - 1 ==> (#[trigger] r[j]).0 != k);
    } else {
        assert(forall|j: int| 0 <= j < r.len() - 1 ==> (#[trigger] r[j]).0 != k);
    }
    lemma_key_index(r, k, r.len() - 1);
}

pub proof fn lemma_put_in_place_unique<K, V>(s: Seq<(K, V)>, k: K, v: V)
    requires
        keys_unique(s),
    ensures
        keys_unique(put_in_place(s, k, v)),
        lookup(put_in_place(s, k, v), k) == Some(v),
{
    let i = key_index(s, k);
    let r = put_in_place(s, k, v);
    if i >= 0 {
        lemma_key_index(r, k, i);
    } else {
        assert(forall|j: int| 0 <= j < r.len() - 1 ==> (#[trigger] r[j]).0 != k);
        lemma_key_index(r, k, r.len() - 1);
    }
}

proof fn lemma_map_put_in_place<A, K, V>(s: Seq<A>, f: spec_fn(A) -> (K, V), k: K, e: A, i: int)
    requires
        f(e).0 == k,
        i == key_index(s.map_values(f), k),
    ensures
        i >= 0 ==> s.remove(i).insert(i, e).map_values(f) == put_in_place(s.map_values(f), k, f(e).1),
        i < 0 ==> s.push(e).map_values(f) == put_in_place(s.map_values(f), k, f(e).1),
{
    if i >= 0 {
        assert(s.remove(i).insert(i, e).map_values(f) =~= put_in_place(s.map_values(f), k, f(e).1));
    } else {
        assert(s.push(e).map_values(f) =~= put_in_place(s.map_values(f), k, f(e).1));
    }
}

proof fn lemma_map_put_last<A, K, V>(s: Seq<A>, f: spec_fn(A) -> (K, V), k: K, e: A, i: int)
    requires
        f(e).0 == k,
        i == key_index(s.map_values(f), k),
    ensures
        i >= 0 ==> s.remove(i).push(e).map_values(f) == put_last(s.map_values(f), k, f(e).1),
        i < 0 ==> s.push(e).map_values(f) == put_last(s.map_values(f), k, f(e).1),
{
    if i >= 0 {
        assert(s.remove(i).push(e).map_values(f) =~= put_last(s.map_values(f), k, f(e).1));
    } else {
        assert(s.push(e).map_values(f) =~= put_last(s.map_values(f), k, f(e).1));
    }
}

pub open spec fn group_entries<S>(v: Seq<(String, BenchmarkGroup<S>)>) -> Seq<
    (Seq<char>, GroupView<S>),
> {
    v.map_values(|e: (String, BenchmarkGroup<S>)| (e.0@, e.1.view()))
}

/// `new` is `old` with one more element, whose characters are `s`.
pub open spec fn pushed_name(new: Seq<String>, old: Seq<String>, s: Seq<char>) -> bool {
    new.len() == old.len() + 1 && new.drop_last() == old && new.last()@ == s
}

/// The index of benchmark results for one run, rooted at a data directory.
pub struct Model<S> {
    pub data_directory: String,
    pub all_titles: Vec<String>,
    pub all_directories: Vec<String>,
    pub groups: Vec<(String, BenchmarkGroup<S>)>,
}

impl<S> Model<S> {
    pub open spec fn groups_view(&self) -> Seq<(Seq<char>, GroupView<S>)> {
        group_entries(self.groups@)
    }

    /// Keys are unique at both levels, and no title or directory name is held twice.
    pub open spec fn wf(&self) -> bool {
        &&& keys_unique(self.groups_view())
        &&& forall|i: int|
            0 <= i < self.groups@.len() ==> keys_unique(
                #[trigger] bench_entries(self.groups@[i].1.benchmarks@),
            )
        &&& names_distinct(self.all_titles@)
        &&& names_distinct(self.all_directories@)
    }

    /// An empty index over `data_directory`.
    pub fn new(data_directory: String) -> (r: Model<S>)
        ensures
            r.wf(),
            r.data_directory@ == data_directory@,
            r.groups_view() == Seq::<(Seq<char>, GroupView<S>)>::empty(),
            r.all_titles@.len() == 0,
            r.all_directories@.len() == 0,
    {
        let r = Model {
            data_directory,
            all_titles: Vec::new(),
            all_directories: Vec::new(),
            groups: Vec::new(),
        };
        assert(r.groups_view() =~= Seq::empty());
        r
    }

    fn find_group(&self, name: &String) -> (r: Option<usize>)
        requires
            self.wf(),
        ensures
            match r {
                Some(i) => i < self.groups@.len() && key_index(self.groups_view(), name@) == i,
                None => key_index(self.groups_view(), name@) == -1,
            },
    {
        let mut i: usize = 0;
        while i < self.groups.len()
            invariant
                self.wf(),
                i <= self.groups@.len(),
                forall|j: int| 0 <= j < i ==> (#[trigger] self.groups@[j]).0@ != name@,
            decreases self.groups.len() - i,
        {
            if self.groups[i].0 == *name {
                proof {
                    lemma_key_index(self.groups_view(), name@, i as int);
                }
                return Some(i);
            }
            i += 1;
        }
        proof {
            assert(forall|j: int|
                0 <= j < self.groups_view().len() ==> self.groups_view()[j].0
                    == #[trigger] self.groups@[j].0@);
            lemma_key_absent(self.groups_view(), name@);
        }
        None
    }

    /// Registers `id` for the build target `target`. The directory name and the title of
    /// `id` are first made unique within the run. The benchmark, found or created, moves to
    /// the end of its group; a benchmark keeps the target that registered it first. The
    /// result is that first target, when it differs from `target`.
    pub fn add_benchmark_id(&mut self, target: &String, id: &mut BenchmarkId) -> (warning:
        Option<String>)
        requires
            old(self).wf(),
        ensures
            final(self).wf(),
            final(id).key() == old(id).key(),
            !has_name(old(self).all_directories@, final(id).directory_view()),
            !has_name(old(self).all_directories@, old(id).directory_view())
                ==> final(id).directory_view() == old(id).directory_view(),
            !has_name(old(self).all_titles@, final(id).title_view()),
            !has_name(old(self).all_titles@, old(id).title_view()) ==> final(id).title_view()
                == old(id).title_view(),
            has_name(old(self).all_directories@, old(id).directory_view()) ==> exists|k: nat|
                2 <= k && final(id).directory_view() == numbered(
                    old(id).directory_view(),
                    directory_sep(),
                    k,
                ) && forall|m: nat|
                    2 <= m < k ==> has_name(
                        old(self).all_directories@,
                        #[trigger] numbered(old(id).directory_view(), directory_sep(), m),
                    ),
            has_name(old(self).all_titles@, old(id).title_view()) ==> exists|k: nat|
                2 <= k && final(id).title_view() == numbered(old(id).title_view(), title_sep(), k)
                    && forall|m: nat|
                    2 <= m < k ==> has_name(
                        old(self).all_titles@,
                        #[trigger] numbered(old(id).title_view(), title_sep(), m),
                    ),
            pushed_name(
                final(self).all_directories@,
                old(self).all_directories@,
                final(id).directory_view(),
            ),
            pushed_name(final(self).all_titles@, old(self).all_titles@, final(id).title_view()),
            final(self).data_directory == old(self).data_directory,
            final(self).groups_view() == groups_registered(
                old(self).groups_view(),
                old(id).key(),
                target@,
            ),
            opt_view(warning) == register_warning(
                bench_of(old(self).groups_view(), old(id).key()),
                target@,
            ),
    {
        let ghost old_dirs = self.all_directories@;
        let ghost old_titles = self.all_titles@;
        id.ensure_directory_name_unique(&self.all_directories);
        self.all_directories.push(id.directory_name.clone());
        id.ensure_title_unique(&self.all_titles);
        self.all_titles.push(id.title.clone());
        proof {
            assert(forall|j: int| 0 <= j < old_dirs.len() ==> self.all_directories@[j] == old_dirs[j]);
            assert(forall|j: int| 0 <= j < old_titles.len() ==> self.all_titles@[j] == old_titles[j]);
            assert(self.all_directories@.drop_last() =~= old_dirs);
            assert(self.all_titles@.drop_last() =~= old_titles);
        }
        let ghost old_groups = self.groups@;
        let ghost k = id.key();
        let (gi, entry) = self.take_group(&id.group_id);
        let (name, mut group) = entry;
        let ghost old_benches = group.benchmarks@;
        let mut bench = match find_bench(&group.benchmarks, id) {
            Some(j) => group.benchmarks.remove(j).1,
            None => Benchmark::new(),
        };
        let warning = match &bench.target {
            Some(t) => if *t != *target {
                Some(t.clone())
            } else {
                None
            },
            None => None,
        };
        if bench.target.is_none() {
            bench.target = Some(target.clone());
        }
        group.benchmarks.push((id.duplicate(), bench));
        let ghost new_group = (name, group);
        self.groups.insert(gi, (name, group));
        proof {
            let fb = |e: (BenchmarkId, Benchmark<S>)| (e.0.key(), e.1.view());
            let fg = |e: (String, BenchmarkGroup<S>)| (e.0@, e.1.view());
            let bi = key_index(bench_entries(old_benches), k);
            let gk = key_index(group_entries(old_groups), k.0);
            assert(bench_entries(old_benches) =~= old_benches.map_values(fb));
            assert(group_entries(old_groups) =~= old_groups.map_values(fg));
            lemma_map_put_last(old_benches, fb, k, new_group.1.benchmarks@.last(), bi);
            if bi >= 0 {
                assert(bench_entries(new_group.1.benchmarks@) =~= old_benches.remove(bi).push(
                    new_group.1.benchmarks@.last(),
                ).map_values(fb));
            } else {
                assert(bench_entries(new_group.1.benchmarks@) =~= old_benches.push(
                    new_group.1.benchmarks@.last(),
                ).map_values(fb));
            }
            lemma_map_put_in_place(old_groups, fg, k.0, new_group, gk);
            if gk >= 0 {
                assert(group_entries(self.groups@) =~= old_groups.remove(gk).insert(
                    gk,
                    new_group,
                ).map_values(fg));
            } else {
                assert(group_entries(self.groups@) =~= old_groups.push(new_group).map_values(fg));
            }
        }
        warning
    }

    /// Sets `stats` as the latest snapshot of `id`, creating its group and benchmark where
    /// they are missing; nothing moves.
    pub fn load_stored_benchmark(&mut self, id: SavedBenchmarkId, stats: S)
        requires
            old(self).wf(),
        ensures
            final(self).wf(),
            final(self).data_directory == old(self).data_directory,
            final(self).all_titles == old(self).all_titles,
            final(self).all_directories == old(self).all_directories,
            final(self).groups_view() == groups_loaded(old(self).groups_view(), id.key(), stats),
    {
        let id = id.into_id();
        self.put_stats(&id, stats, false);
    }

    /// Records the snapshot of a completed run of `id`: the latest snapshot becomes the
    /// previous one and `stats` the latest.
    pub fn benchmark_complete(&mut self, id: &BenchmarkId, stats: S)
        requires
            old(self).wf(),
            is_registered(old(self).groups_view(), id.key()),
        ensures
            final(self).wf(),
            final(self).data_directory == old(self).data_directory,
            final(self).all_titles == old(self).all_titles,
            final(self).all_directories == old(self).all_directories,
            final(self).groups_view() == groups_completed(old(self).groups_view(), id.key(), stats),
    {
        self.put_stats(id, stats, true);
    }

    fn put_stats(&mut self, id: &BenchmarkId, stats: S, keep_previous: bool)
        requires
            old(self).wf(),
            keep_previous ==> is_registered(old(self).groups_view(), id.key()),
        ensures
            final(self).wf(),
            final(self).data_directory == old(self).data_directory,
            final(self).all_titles == old(self).all_titles,
            final(self).all_directories == old(self).all_directories,
            keep_previous ==> final(self).groups_view() == groups_completed(
                old(self).groups_view(),
                id.key(),
                stats,
            ),
            !keep_previous ==> final(self).groups_view() == groups_loaded(
                old(self).groups_view(),
                id.key(),
                stats,
            ),
    {
        let ghost old_groups = self.groups@;
        let ghost k = id.key();
        let (gi, entry) = self.take_group(&id.group_id);
        let (name, mut group) = entry;
        let ghost old_benches = group.benchmarks@;
        let (bi, mut bench_entry) = match find_bench(&group.benchmarks, id) {
            Some(j) => (j, group.benchmarks.remove(j)),
            None => (group.benchmarks.len(), (id.duplicate(), Benchmark::new())),
        };
        if keep_previous {
            bench_entry.1.add_stats(stats);
        } else {
            bench_entry.1.latest_stats = Some(stats);
        }
        group.benchmarks.insert(bi, bench_entry);
        let ghost new_group = (name, group);
        self.groups.insert(gi, (name, group));
        proof {
            let fb = |e: (BenchmarkId, Benchmark<S>)| (e.0.key(), e.1.view());
            let fg = |e: (String, BenchmarkGroup<S>)| (e.0@, e.1.view());
            let bk = key_index(bench_entries(old_benches), k);
            let gk = key_index(group_entries(old_groups), k.0);
            assert(bench_entries(old_benches) =~= old_benches.map_values(fb));
            assert(group_entries(old_groups) =~= old_groups.map_values(fg));
            lemma_map_put_in_place(old_benches, fb, k, bench_entry, bk);
            if bk >= 0 {
                assert(bench_entries(new_group.1.benchmarks@) =~= old_benches.remove(bk).insert(
                    bk,
                    bench_entry,
                ).map_values(fb));
            } else {
                assert(bench_entries(new_group.1.benchmarks@) =~= old_benches.push(
                    bench_entry,
                ).map_values(fb));
            }
            lemma_put_in_place_unique(bench_entries(old_benches), k, bench_entry.1.view());
            lemma_map_put_in_place(old_groups, fg, k.0, new_group, gk);
            if gk >= 0 {
                assert(group_entries(self.groups@) =~= old_groups.remove(gk).insert(
                    gk,
                    new_group,
                ).map_values(fg));
            } else {
                assert(group_entries(self.groups@) =~= old_groups.push(new_group).map_values(fg));
            }
        }
    }

    /// Whether `id` has an entry in the index.
    pub fn contains_benchmark(&self, id: &BenchmarkId) -> (r: bool)
        requires
            self.wf(),
        ensures
            r == is_registered(self.groups_view(), id.key()),
    {
        match self.find_group(&id.group_id) {
            Some(gi) => {
                let group = &self.groups[gi].1;
                proof {
                    assert(group_entries(self.groups@)[gi as int].1 == group.view());
                }
                find_bench(&group.benchmarks, id).is_some()
            },
            None => false,
        }
    }

    /// The latest snapshot of `id`, where the index has one.
    pub fn get_last_sample(&self, id: &BenchmarkId) -> (r: Option<&S>)
        requires
            self.wf(),
        ensures
            r == match latest_of(self.groups_view(), id.key()) {
                Some(s) => Some(&s),
                None => None::<&S>,
            },
    {
        match self.find_group(&id.group_id) {
            Some(gi) => {
                let group = &self.groups[gi].1;
                proof {
                    assert(group_entries(self.groups@)[gi as int].1 == group.view());
                }
                match find_bench(&group.benchmarks, id) {
                    Some(bi) => {
                        proof {
                            assert(bench_entries(group.benchmarks@)[bi as int].1
                                == group.benchmarks@[bi as int].1.view());
                        }
                        self.groups[gi].1.benchmarks[bi].1.latest_stats.as_ref()
                    },
                    None => None,
                }
            },
            None => None,
        }
    }

    /// The build target that first claimed `group`, when it is not `current_target`.
    pub fn check_benchmark_group(&self, current_target: &String, group: &String) -> (r: Option<
        String,
    >)
        requires
            self.wf(),
        ensures
            opt_view(r) == match lookup(self.groups_view(), group@) {
                Some(g) => match g.target {
                    Some(t) => if t != current_target@ {
                        Some(t)
                    } else {
                        None
                    },
                    None => None,
                },
                None => None,
            },
    {
        match self.find_group(group) {
            Some(gi) => {
                proof {
                    assert(group_entries(self.groups@)[gi as int].1 == self.groups@[gi as int].1.view());
                }
                match &self.groups[gi].1.target {
                    Some(t) => if *t != *current_target {
                        Some(t.clone())
                    } else {
                        None
                    },
                    None => None,
                }
            },
            None => None,
        }
    }

    /// The index of `data_directory` built from the records found there, in order: each
    /// loaded record sets the latest snapshot of its identity, and a record that failed to
    /// load is skipped.
    pub fn load(data_directory: String, records: Vec<Result<(SavedBenchmarkId, S), String>>) -> (r:
        Model<S>)
        ensures
            r.wf(),
            r.data_directory@ == data_directory@,
            r.groups_view() == load_all(Seq::empty(), records@),
            r.all_titles@.len() == 0,
            r.all_directories@.len() == 0,
    {
        let mut model = Model::new(data_directory);
        let mut records = records;
        let ghost all = records@;
        let ghost mut i: int = 0;
        while records.len() > 0
            invariant
                model.wf(),
                model.data_directory@ == data_directory@,
                model.all_titles@.len() == 0,
                model.all_directories@.len() == 0,
                0 <= i <= all.len(),
                records@ == all.skip(i),
                model.groups_view() == load_all(Seq::empty(), all.take(i)),
            decreases records.len(),
        {
            let record = records.remove(0);
            proof {
                assert(all.take(i + 1).drop_last() =~= all.take(i));
                assert(record == all[i]);
                assert(records@ =~= all.skip(i + 1));
                i = i + 1;
            }
            match record {
                Ok((id, stats)) => model.load_stored_benchmark(id, stats),
                Err(_) => {},
            }
        }
        proof {
            assert(all.take(i) =~= all);
        }
        model
    }

    /// Gives the group `group_name` to `target` and moves it to the end of the list.
    pub fn add_benchmark_group(&mut self, target: &String, group_name: String)
        requires
            old(self).wf(),
        ensures
            final(self).wf(),
            final(self).data_directory == old(self).data_directory,
            final(self).all_titles == old(self).all_titles,
            final(self).all_directories == old(self).all_directories,
            final(self).groups_view() == groups_claimed(
                old(self).groups_view(),
                group_name@,
                target@,
            ),
    {
        let ghost old_groups = self.groups@;
        let (i, entry) = self.take_group(&group_name);
        let (name, mut group) = entry;
        group.target = Some(target.clone());
        self.groups.push((name, group));
        proof {
            let f = |e: (String, BenchmarkGroup<S>)| (e.0@, e.1.view());
            let k = key_index(group_entries(old_groups), group_name@);
            assert(group_entries(old_groups) =~= old_groups.map_values(f));
            lemma_map_put_last(old_groups, f, group_name@, self.groups@.last(), k);
            if k >= 0 {
                assert(group_entries(self.groups@) =~= old_groups.remove(k).push(
                    self.groups@.last(),
                ).map_values(f));
            } else {
                assert(group_entries(self.groups@) =~= old_groups.push(
                    self.groups@.last(),
                ).map_values(f));
            }
            lemma_put_last_unique(group_entries(old_groups), group_name@, f(self.groups@.last()).1);
            assert forall|j: int| 0 <= j < self.groups@.len() implies keys_unique(
                #[trigger] bench_entries(self.groups@[j].1.benchmarks@),
            ) by {
                if j < self.groups@.len() - 1 {
                    if k >= 0 && j >= k {
                        assert(self.groups@[j] == old_groups[j + 1]);
                    } else {
                        assert(self.groups@[j] == old_groups[j]);
                    }
                } else if k >= 0 {
                    assert(self.groups@[j].1.benchmarks == old_groups[k].1.benchmarks);
                } else {
                    assert(bench_entries(self.groups@[j].1.benchmarks@) =~= Seq::empty());
                }
            }
        }
    }

    /// Takes the group `name` out of the list, or makes a new one; the index says where
    /// it goes back.
    fn take_group(&mut self, name: &String) -> (r: (usize, (String, BenchmarkGroup<S>)))
        requires
            old(self).wf(),
        ensures
            final(self).data_directory == old(self).data_directory,
            final(self).all_titles == old(self).all_titles,
            final(self).all_directories == old(self).all_directories,
            ({
                let i = key_index(old(self).groups_view(), name@);
                if i >= 0 {
                    &&& r.0 == i
                    &&& final(self).groups@ == old(self).groups@.remove(i)
                    &&& r.1 == old(self).groups@[i]
                } else {
                    &&& r.0 == old(self).groups@.len()
                    &&& final(self).groups@ == old(self).groups@
                    &&& r.1.0@ == name@
                    &&& r.1.1.view() == fresh_group::<S>()
                }
            }),
    {
        match self.find_group(name) {
            Some(i) => {
                let g = self.groups.remove(i);
                (i, g)
            },
            None => (self.groups.len(), (name.clone(), BenchmarkGroup::new())),
        }
    }
}

/// The durable form of a benchmark identity: its four logical fields.
pub struct SavedBenchmarkId {
    pub group_id: String,
    pub function_id: Option<String>,
    pub value_str: Option<String>,
    pub throughput: Option<Throughput>,
}

impl SavedBenchmarkId {
    pub open spec fn key(&self) -> IdKey {
        (self.group_id@, opt_view(self.function_id), opt_view(self.value_str), self.throughput)
    }

    /// The durable form of `id`; its title and directory name are not kept.
    pub fn from_id(id: BenchmarkId) -> (r: SavedBenchmarkId)
        ensures
            r.key() == id.key(),
    {
        SavedBenchmarkId::from(id)
    }

    /// The identity with these fields, its title and directory name derived afresh.
    pub fn into_id(self) -> (r: BenchmarkId)
        ensures
            r.key() == self.key(),
            r.title_view() == r.base(),
            r.directory_view() == r.base(),
    {
        BenchmarkId::new(self.group_id, self.function_id, self.value_str, self.throughput)
    }
}

/// The groups after loading `records` in order; failed records change nothing.
pub open spec fn load_all<S>(
    gs: Seq<(Seq<char>, GroupView<S>)>,
    records: Seq<Result<(SavedBenchmarkId, S), String>>,
) -> Seq<(Seq<char>, GroupView<S>)>
    decreases records.len(),
{
    if records.len() == 0 {
        gs
    } else {
        let before = load_all(gs, records.drop_last());
        match records.last() {
            Ok((id, stats)) => groups_loaded(before, id.key(), stats),
            Err(_) => before,
        }
    }
}

/// Keys are unique among the groups and among the benchmarks of each group.
pub open spec fn views_wf<S>(gs: Seq<(Seq<char>, GroupView<S>)>) -> bool {
    &&& keys_unique(gs)
    &&& forall|i: int| 0 <= i < gs.len() ==> keys_unique(#[trigger] gs[i].1.benchmarks)
}

impl From<BenchmarkId> for SavedBenchmarkId {
    fn from(other: BenchmarkId) -> (r: SavedBenchmarkId) {
        SavedBenchmarkId {
            group_id: other.group_id,
            function_id: other.function_id,
            value_str: other.value_str,
            throughput: other.throughput,
        }
    }
}

impl vstd::std_specs::convert::FromSpecImpl<BenchmarkId> for SavedBenchmarkId {
    open spec fn obeys_from_spec() -> bool {
        true
    }

    open spec fn from_spec(other: BenchmarkId) -> SavedBenchmarkId {
        SavedBenchmarkId {
            group_id: other.group_id,
            function_id: other.function_id,
            value_str: other.value_str,
            throughput: other.throughput,
        }
    }
}

/// Position of the benchmark with the same identity as `id`, if any.
fn find_bench<S>(benchmarks: &Vec<(BenchmarkId, Benchmark<S>)>, id: &BenchmarkId) -> (r: Option<
    usize,
>)
    requires
        keys_unique(bench_entries(benchmarks@)),
    ensures
        match r {
            Some(i) => i < benchmarks@.len() && key_index(bench_entries(benchmarks@), id.key())
                == i,
            None => key_index(bench_entries(benchmarks@), id.key()) == -1,
        },
{
    let mut i: usize = 0;
    while i < benchmarks.len()
        invariant
            keys_unique(bench_entries(benchmarks@)),
            i <= benchmarks@.len(),
            forall|j: int| 0 <= j < i ==> (#[trigger] benchmarks@[j]).0.key() != id.key(),
        decreases benchmarks.len() - i,
    {
        if benchmarks[i].0.same_identity(id) {
            proof {
                lemma_key_index(bench_entries(benchmarks@), id.key(), i as int);
            }
            return Some(i);
        }
        i += 1;
    }
    proof {
        assert(forall|j: int|
            0 <= j < benchmarks@.len() ==> bench_entries(benchmarks@)[j].0
                == #[trigger] benchmarks@[j].0.key());
        lemma_key_absent(bench_entries(benchmarks@), id.key());
    }
    None
}

/// A record that failed to load leaves no trace: loading a sequence of records gives the
/// same index as loading only those that loaded.
pub proof fn lemma_failed_records_skipped<S>(
    gs: Seq<(Seq<char>, GroupView<S>)>,
    records: Seq<Result<(SavedBenchmarkId, S), String>>,
)
    ensures
        load_all(gs, records) == load_all(
            gs,
            records.filter(|r: Result<(SavedBenchmarkId, S), String>| r is Ok),
        ),
    decreases records.len(),
{
    let p = |r: Result<(SavedBenchmarkId, S), String>| r is Ok;
    reveal(Seq::filter);
    if records.len() > 0 {
        lemma_failed_records_skipped(gs, records.drop_last());
        let f = records.filter(p);
        if p(records.last()) {
            assert(f.drop_last() =~= records.drop_last().filter(p));
        } else {
            assert(f =~= records.drop_last().filter(p));
        }
    } else {
        assert(records.filter(p) =~= records);
    }
}

/// Two indexes loaded from the same records hold the same groups, benchmarks and
/// latest snapshots.
pub proof fn lemma_reload_same<S>(
    a: Model<S>,
    b: Model<S>,
    records: Seq<Result<(SavedBenchmarkId, S), String>>,
)
    requires
        a.groups_view() == load_all(Seq::empty(), records),
        b.groups_view() == load_all(Seq::empty(), records),
    ensures
        a.groups_view() == b.groups_view(),
        forall|k: IdKey| latest_of(a.groups_view(), k) == latest_of(b.groups_view(), k),
{
}

proof fn lemma_completed_shape<S>(gs: Seq<(Seq<char>, GroupView<S>)>, k: IdKey, stats: S)
    requires
        views_wf(gs),
        is_registered(gs, k),
    ensures
        views_wf(groups_completed(gs, k, stats)),
        is_registered(groups_completed(gs, k, stats), k),
        bench_of(groups_completed(gs, k, stats), k) == Some(
            BenchView {
                latest: Some(stats),
                previous: bench_of(gs, k).unwrap().latest,
                ..bench_of(gs, k).unwrap()
            },
        ),
{
    let gi = key_index(gs, k.0);
    let g = gs[gi].1;
    let b = lookup(g.benchmarks, k).unwrap();
    let b2 = BenchView { latest: Some(stats), previous: b.latest, ..b };
    lemma_put_in_place_unique(g.benchmarks, k, b2);
    let g2 = GroupView { benchmarks: put_in_place(g.benchmarks, k, b2), ..g };
    lemma_put_in_place_unique(gs, k.0, g2);
    let r = groups_completed(gs, k, stats);
    assert forall|i: int| 0 <= i < r.len() implies keys_unique(#[trigger] r[i].1.benchmarks) by {
        if i != gi {
            assert(r[i] == gs[i]);
        }
    }
}

/// After one completed run of an identity without history its latest snapshot is the one
/// written; after a second, the latest is the second and the previous the first.
pub proof fn lemma_completion_round_trip<S>(
    gs: Seq<(Seq<char>, GroupView<S>)>,
    k: IdKey,
    first: S,
    second: S,
)
    requires
        views_wf(gs),
        is_registered(gs, k),
        latest_of(gs, k) is None,
    ensures
        latest_of(groups_completed(gs, k, first), k) == Some(first),
        latest_of(groups_completed(groups_completed(gs, k, first), k, second), k) == Some(second),
        bench_of(groups_completed(groups_completed(gs, k, first), k, second), k).unwrap().previous
            == Some(first),
{
    lemma_completed_shape(gs, k, first);
    lemma_completed_shape(groups_completed(gs, k, first), k, second);
}

proof fn lemma_registered_shape<S>(gs: Seq<(Seq<char>, GroupView<S>)>, k: IdKey, target: Seq<char>)
    requires
        views_wf(gs),
    ensures
        views_wf(groups_registered(gs, k, target)),
        bench_of(groups_registered(gs, k, target), k) == Some(
            bench_registered(bench_of(gs, k), target),
        ),
{
    let g = match lookup(gs, k.0) {
        Some(g) => g,
        None => fresh_group(),
    };
    let gi = key_index(gs, k.0);
    let b = bench_registered(lookup(g.benchmarks, k), target);
    if gi < 0 {
        assert(keys_unique(g.benchmarks));
    }
    lemma_put_last_unique(g.benchmarks, k, b);
    let g2 = GroupView { benchmarks: put_last(g.benchmarks, k, b), ..g };
    lemma_put_in_place_unique(gs, k.0, g2);
    let r = groups_registered(gs, k, target);
    assert forall|i: int| 0 <= i < r.len() implies keys_unique(#[trigger] r[i].1.benchmarks) by {
        if i != gi && i < gs.len() {
            assert(r[i] == gs[i]);
        }
    }
}

/// Registering a new identity twice: the first registration never warns; the second warns,
/// naming the first target, exactly when the two targets differ; the first target stays
/// the owner.
pub proof fn lemma_register_twice<S>(
    gs: Seq<(Seq<char>, GroupView<S>)>,
    k: IdKey,
    first: Seq<char>,
    second: Seq<char>,
)
    requires
        views_wf(gs),
        bench_of(gs, k) is None,
    ensures
        register_warning(bench_of(gs, k), first) is None,
        register_warning(bench_of(groups_registered(gs, k, first), k), second) == (if first
            != second {
            Some(first)
        } else {
            None
        }),
        bench_of(groups_registered(groups_registered(gs, k, first), k, second), k).unwrap().target
            == Some(first),
{
    lemma_registered_shape(gs, k, first);
    lemma_registered_shape(groups_registered(gs, k, first), k, second);
}

/// A name recorded by one registration differs from any name that a later registration
/// found free: titles and directory names of two registrations never coincide.
pub proof fn lemma_registered_names_distinct(
    before: Seq<String>,
    after_first: Seq<String>,
    first: Seq<char>,
    second: Seq<char>,
)
    requires
        pushed_name(after_first, before, first),
        !has_name(after_first, second),
    ensures
        first != second,
{
    assert(after_first[after_first.len() - 1]@ == first);
}

} // verus!
