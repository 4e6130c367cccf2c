//! Breadth-first resolution of the dependency closure of the configured apps.
//!
//! Each lookup runs in the outside session, so the resolver is a state
//! machine: `next_unresolved` names the app to look up, `record` takes the
//! outcome. A failed lookup is skipped: the app gets no entry and its
//! dependencies are not followed.
use crate::depends::{apps_view, DependsError};
use crate::model::{AppKey, ScoopApp, ScoopBucket};
use crate::plan::{entry_keys, has_app, table_keys, RequiredThings};
use vstd::prelude::*;

verus! {

/// What the configuration file declares.
pub struct Config {
    pub scoop_buckets: Vec<ScoopBucket>,
    pub scoop_apps: Vec<ScoopApp>,
}

/// A dependency table as (app, its direct dependencies) pairs.
pub open spec fn table_view(v: Seq<(ScoopApp, Vec<ScoopApp>)>) -> Seq<(AppKey, Seq<AppKey>)> {
    v.map_values(|e: (ScoopApp, Vec<ScoopApp>)| (e.0@, apps_view(e.1@)))
}

/// `d` is a root or a direct dependency of one of the first `n` entries.
pub open spec fn introduced(
    roots: Seq<AppKey>,
    entries: Seq<(AppKey, Seq<AppKey>)>,
    n: int,
    d: AppKey,
) -> bool {
    roots.contains(d) || exists|j: int| 0 <= j < n && #[trigger] entries[j].1.contains(d)
}

/// `d` is a root or a direct dependency of some entry of `entries`.
pub open spec fn reached(
    roots: Seq<AppKey>,
    entries: Seq<(AppKey, Seq<AppKey>)>,
    d: AppKey,
) -> bool {
    introduced(roots, entries, entries.len() as int, d)
}

/// The number of dependencies over all entries.
pub open spec fn total_deps(entries: Seq<(AppKey, Seq<AppKey>)>) -> nat
    decreases entries.len(),
{
    if entries.len() == 0 {
        0
    } else {
        total_deps(entries.drop_last()) + entries.last().1.len()
    }
}

proof fn lemma_introduced_grows(
    roots: Seq<AppKey>,
    e1: Seq<(AppKey, Seq<AppKey>)>,
    e2: Seq<(AppKey, Seq<AppKey>)>,
    n: int,
    m: int,
    d: AppKey,
)
    requires
        0 <= n <= e1.len() <= e2.len(),
        n <= m,
        forall|j: int| 0 <= j < e1.len() ==> e2[j] == e1[j],
        introduced(roots, e1, n, d),
    ensures
        introduced(roots, e2, m, d),
{
    if !roots.contains(d) {
        let j = choose|j: int| 0 <= j < n && #[trigger] e1[j].1.contains(d);
        assert(e2[j] == e1[j]);
        assert(e2[j].1.contains(d));
    }
}

pub struct Resolver {
    resolved: Vec<(ScoopApp, Vec<ScoopApp>)>,
    pending: Vec<ScoopApp>,
    next: usize,
    current: Option<ScoopApp>,
    failed: Ghost<Set<AppKey>>,
    roots: Ghost<Seq<AppKey>>,
}

impl Resolver {
    /// The table so far, in the order in which entries were made.
    pub closed spec fn entries(&self) -> Seq<(AppKey, Seq<AppKey>)> {
        table_view(self.resolved@)
    }

    /// The apps that have an entry.
    pub closed spec fn keys(&self) -> Seq<AppKey> {
        entry_keys(self.resolved@)
    }

    /// Every app ever queued, the roots first.
    pub closed spec fn queue(&self) -> Seq<AppKey> {
        apps_view(self.pending@)
    }

    /// How many queued apps have been taken from the queue.
    pub closed spec fn visited(&self) -> int {
        self.next as int
    }

    /// The app whose lookup is awaited.
    pub closed spec fn awaiting(&self) -> Option<AppKey> {
        match self.current {
            Some(a) => Some(a@),
            None => None,
        }
    }

    /// The apps whose lookup failed at some point.
    pub closed spec fn failed(&self) -> Set<AppKey> {
        self.failed@
    }

    pub closed spec fn roots(&self) -> Seq<AppKey> {
        self.roots@
    }

    /// The queue is exhausted and no lookup is awaited.
    pub closed spec fn is_done(&self) -> bool {
        self.current is None && self.next == self.pending@.len()
    }

    pub closed spec fn wf(&self) -> bool {
        &&& self.next <= self.pending@.len()
        &&& self.keys().no_duplicates()
        &&& self.roots@.len() <= self.pending@.len()
        &&& forall|i: int| 0 <= i < self.roots@.len() ==> self.queue()[i] == self.roots@[i]
        &&& forall|i: int, d: AppKey|
            0 <= i < self.entries().len() && #[trigger] self.entries()[i].1.contains(d)
                ==> self.queue().contains(d)
        &&& forall|k: int|
            0 <= k < self.next ==> self.keys().contains(#[trigger] self.queue()[k])
                || self.failed@.contains(self.queue()[k]) || self.awaiting() == Some(
                self.queue()[k],
            )
        &&& self.current matches Some(c) ==> !self.keys().contains(c@)
        &&& self.current matches Some(c) ==> introduced(
            self.roots@,
            self.entries(),
            self.entries().len() as int,
            c@,
        )
        &&& forall|k: int|
            0 <= k < self.queue().len() ==> introduced(
                self.roots@,
                self.entries(),
                self.entries().len() as int,
                #[trigger] self.queue()[k],
            )
        &&& forall|i: int|
            0 <= i < self.entries().len() ==> introduced(
                self.roots@,
                self.entries(),
                i,
                #[trigger] self.entries()[i].0,
            )
        &&& self.queue().len() == self.roots@.len() + total_deps(self.entries())
    }

    /// A resolver whose queue holds the roots.
    pub fn new(roots: &Vec<ScoopApp>) -> (r: Resolver)
        ensures
            r.wf(),
            r.entries() == Seq::<(AppKey, Seq<AppKey>)>::empty(),
            r.queue() == apps_view(roots@),
            r.roots() == apps_view(roots@),
            r.failed() == Set::<AppKey>::empty(),
            r.awaiting() is None,
            r.visited() == 0,
            r.visited() <= r.queue().len(),
    {
        let mut pending: Vec<ScoopApp> = Vec::new();
        let mut i: usize = 0;
        while i < roots.len()
            invariant
                i <= roots@.len(),
                apps_view(pending@) == apps_view(roots@.take(i as int)),
            decreases roots@.len() - i,
        {
            let ghost before = pending@;
            pending.push(roots[i].duplicate());
            assert(apps_view(pending@) =~= apps_view(before).push(roots@[i as int]@));
            assert(apps_view(roots@.take(i + 1)) =~= apps_view(roots@.take(i as int)).push(
                roots@[i as int]@,
            ));
            i = i + 1;
        }
        assert(roots@.take(roots@.len() as int) =~= roots@);
        let r = Resolver {
            resolved: Vec::new(),
            pending,
            next: 0,
            current: None,
            failed: Ghost(Set::empty()),
            roots: Ghost(apps_view(roots@)),
        };
        assert(r.entries() =~= Seq::<(AppKey, Seq<AppKey>)>::empty());
        assert(r.keys() =~= Seq::<AppKey>::empty());
        r
    }

    /// The next app to look up: the awaited one if its outcome is not recorded
    /// yet, else the next queued app that has no entry. `None` once the queue
    /// is exhausted.
    pub fn next_unresolved(&mut self) -> (r: Option<ScoopApp>)
        requires
            old(self).wf(),
        ensures
            final(self).wf(),
            final(self).visited() <= final(self).queue().len(),
            final(self).entries() == old(self).entries(),
            final(self).keys() == old(self).keys(),
            final(self).queue() == old(self).queue(),
            final(self).failed() == old(self).failed(),
            final(self).roots() == old(self).roots(),
            old(self).awaiting() is Some ==> r is Some && final(self).awaiting() == old(self).awaiting() && final(self).visited() == old(self).visited(),
            r is Some ==> final(self).awaiting() == Some(r->0@) && !old(self).keys().contains(
                r->0@,
            ),
            old(self).awaiting() is None && r is Some ==> old(self).visited() < final(self).visited() && r->0@ == old(self).queue()[final(self).visited() - 1],
            old(self).awaiting() is None && r is Some ==> forall|k: int|
                old(self).visited() <= k < final(self).visited() - 1 ==> old(self).keys().contains(#[trigger] old(self).queue()[k]),
            r is None ==> final(self).is_done(),
            r is None ==> forall|k: int|
                old(self).visited() <= k < old(self).queue().len() ==> old(self).keys().contains(#[trigger] old(self).queue()[k]),
    {
        if let Some(c) = &self.current {
            return Some(c.duplicate());
        }
        let keys = table_keys(&self.resolved);
        let ghost start = self.next as int;
        while self.next < self.pending.len()
            invariant
                old(self).wf(),
                self.resolved@ == old(self).resolved@,
                self.pending@ == old(self).pending@,
                self.current is None,
                old(self).current is None,
                self.failed@ == old(self).failed@,
                self.roots@ == old(self).roots@,
                start == old(self).next,
                start <= self.next <= self.pending@.len(),
                apps_view(keys@) == self.keys(),
                forall|k: int|
                    start <= k < self.next ==> old(self).keys().contains(
                        #[trigger] old(self).queue()[k],
                    ),
            decreases self.pending@.len() - self.next,
        {
            let a = &self.pending[self.next];
            self.next = self.next + 1;
            if !has_app(&keys, a) {
                let c = a.duplicate();
                let out = a.duplicate();
                let ghost cv = c@;
                assert(cv == self.queue()[self.next - 1]);
                self.current = Some(c);
                proof {
                    assert(self.keys() == old(self).keys());
                    assert(self.entries() == old(self).entries());
                    assert(self.queue() == old(self).queue());
                    assert forall|k: int| 0 <= k < self.next implies self.keys().contains(
                        #[trigger] self.queue()[k],
                    ) || self.failed@.contains(self.queue()[k]) || self.awaiting() == Some(
                        self.queue()[k],
                    ) by {
                        if k < start {
                            assert(old(self).keys().contains(old(self).queue()[k])
                                || old(self).failed@.contains(old(self).queue()[k]));
                        } else if k == self.next - 1 {
                            assert(self.awaiting() == Some(cv));
                        } else {
                            assert(old(self).keys().contains(old(self).queue()[k]));
                        }
                    }
                }
                return Some(out);
            }
        }
        proof {
            assert(self.keys() == old(self).keys());
            assert(self.entries() == old(self).entries());
            assert(self.queue() == old(self).queue());
            assert forall|k: int| 0 <= k < self.next implies self.keys().contains(
                #[trigger] self.queue()[k],
            ) || self.failed@.contains(self.queue()[k]) || self.awaiting() == Some(
                self.queue()[k],
            ) by {
                if k < start {
                    assert(old(self).keys().contains(old(self).queue()[k])
                        || old(self).failed@.contains(old(self).queue()[k]));
                } else {
                    assert(old(self).keys().contains(old(self).queue()[k]));
                }
            }
        }
        None
    }

    /// Takes the outcome of the awaited lookup. On success the app gets an
    /// entry with its dependencies, which are queued; on failure it gets none
    /// and nothing is queued. Without an awaited lookup nothing changes.
    pub fn record(&mut self, outcome: Result<Vec<ScoopApp>, DependsError>)
        requires
            old(self).wf(),
        ensures
            final(self).wf(),
            final(self).visited() <= final(self).queue().len(),
            final(self).awaiting() is None,
            final(self).visited() == old(self).visited(),
            final(self).roots() == old(self).roots(),
            old(self).awaiting() is None ==> final(self).entries() == old(self).entries() && final(self).queue() == old(self).queue() && final(self).failed() == old(self).failed(),
            old(self).awaiting() is Some && outcome is Ok ==> final(self).entries() == old(self).entries().push((old(self).awaiting()->0, apps_view(outcome->Ok_0@))),
            old(self).awaiting() is Some && outcome is Ok ==> final(self).keys() == old(self).keys().push(old(self).awaiting()->0),
            old(self).awaiting() is Some && outcome is Ok ==> final(self).queue() == old(self).queue() + apps_view(outcome->Ok_0@),
            old(self).awaiting() is Some && outcome is Ok ==> final(self).failed() == old(self).failed(),
            old(self).awaiting() is Some && outcome is Err ==> final(self).entries() == old(self).entries() && final(self).keys() == old(self).keys() && final(self).queue() == old(self).queue(),
            old(self).awaiting() is Some && outcome is Err ==> final(self).failed() == old(self).failed().insert(old(self).awaiting()->0),
    {
        let current = self.current.take();
        match current {
            None => {
                assert(self.keys() == old(self).keys());
                assert(self.entries() == old(self).entries());
                assert(self.queue() == old(self).queue());
            },
            Some(app) => {
                match outcome {
                    Ok(deps) => {
                        let ghost old_queue = self.queue();
                        let ghost old_entries = self.entries();
                        let mut i: usize = 0;
                        while i < deps.len()
                            invariant
                                i <= deps@.len(),
                                self.next == old(self).next,
                                self.resolved@ == old(self).resolved@,
                                self.failed@ == old(self).failed@,
                                self.roots@ == old(self).roots@,
                                self.current is None,
                                old_queue == old(self).queue(),
                                old_entries == old(self).entries(),
                                self.next <= old_queue.len(),
                                self.queue() == old_queue + apps_view(deps@.take(i as int)),
                            decreases deps@.len() - i,
                        {
                            let ghost before = self.pending@;
                            self.pending.push(deps[i].duplicate());
                            assert(apps_view(self.pending@) =~= apps_view(before).push(
                                deps@[i as int]@,
                            ));
                            assert(apps_view(deps@.take(i + 1)) =~= apps_view(
                                deps@.take(i as int),
                            ).push(deps@[i as int]@));
                            i = i + 1;
                        }
                        assert(deps@.take(deps@.len() as int) =~= deps@);
                        let ghost dv = apps_view(deps@);
                        let ghost a = app@;
                        self.resolved.push((app, deps));
                        assert(self.entries() =~= old_entries.push((a, dv)));
                        assert(self.keys() =~= old(self).keys().push(a));
                        proof {
                            assert forall|i: int, d: AppKey|
                                0 <= i < self.entries().len() && #[trigger] self.entries()[i].1.contains(d) implies self.queue().contains(
                                d,
                            ) by {
                                if i < old_entries.len() {
                                    assert(self.entries()[i] == old_entries[i]);
                                    assert(old(self).queue().contains(d));
                                    let k = choose|k: int|
                                        0 <= k < old_queue.len() && old_queue[k] == d;
                                    assert(self.queue()[k] == d);
                                } else {
                                    let k = choose|k: int| 0 <= k < dv.len() && dv[k] == d;
                                    assert(self.queue()[old_queue.len() + k] == d);
                                }
                            }
                            assert forall|k: int| 0 <= k < self.next implies self.keys().contains(
                                #[trigger] self.queue()[k],
                            ) || self.failed@.contains(self.queue()[k]) || self.awaiting()
                                == Some(self.queue()[k]) by {
                                assert(self.queue()[k] == old_queue[k]);
                                if old(self).keys().contains(old_queue[k]) {
                                    let j = choose|j: int|
                                        0 <= j < old(self).keys().len() && old(self).keys()[j]
                                            == old_queue[k];
                                    assert(self.keys()[j] == old_queue[k]);
                                } else if old_queue[k] == a {
                                    assert(self.keys()[self.keys().len() - 1] == a);
                                }
                            }
                            assert forall|i: int|
                                0 <= i < self.roots@.len() implies self.queue()[i]
                                == self.roots@[i] by {
                                assert(self.queue()[i] == old_queue[i]);
                            }
                            let n = old_entries.len() as int;
                            let ne = self.entries();
                            let roots = self.roots@;
                            assert(ne[n] == (a, dv));
                            assert forall|k: int| 0 <= k < self.queue().len() implies introduced(
                                roots,
                                ne,
                                ne.len() as int,
                                #[trigger] self.queue()[k],
                            ) by {
                                if k < old_queue.len() {
                                    assert(self.queue()[k] == old_queue[k]);
                                    lemma_introduced_grows(roots, old_entries, ne, n, n + 1, old_queue[k]);
                                } else {
                                    assert(self.queue()[k] == dv[k - old_queue.len()]);
                                    assert(ne[n].1.contains(self.queue()[k]));
                                }
                            }
                            assert forall|i: int| 0 <= i < ne.len() implies introduced(
                                roots,
                                ne,
                                i,
                                #[trigger] ne[i].0,
                            ) by {
                                if i < n {
                                    assert(ne[i] == old_entries[i]);
                                    lemma_introduced_grows(roots, old_entries, ne, i, i, ne[i].0);
                                } else {
                                    lemma_introduced_grows(roots, old_entries, ne, n, n, a);
                                }
                            }
                            assert(ne.drop_last() =~= old_entries);
                            assert(total_deps(ne) == total_deps(old_entries) + dv.len());
                        }
                    },
                    Err(_) => {
                        let ghost a = app@;
                        self.failed = Ghost(self.failed@.insert(a));
                        assert(self.keys() == old(self).keys());
                        assert(self.entries() == old(self).entries());
                        assert(self.queue() == old(self).queue());
                        assert forall|k: int| 0 <= k < self.next implies self.keys().contains(
                            #[trigger] self.queue()[k],
                        ) || self.failed@.contains(self.queue()[k]) || self.awaiting() == Some(
                            self.queue()[k],
                        ) by {
                            assert(old(self).keys().contains(old(self).queue()[k])
                                || old(self).failed@.contains(old(self).queue()[k])
                                || old(self).awaiting() == Some(old(self).queue()[k]));
                        }
                    },
                }
            },
        }
    }

    /// The required state: the configured buckets, and the table.
    pub fn into_required(self, scoop_buckets: Vec<ScoopBucket>) -> (r: RequiredThings)
        requires
            self.wf(),
        ensures
            entry_keys(r.scoop_apps@).no_duplicates(),
            r.scoop_buckets@ == scoop_buckets@,
            table_view(r.scoop_apps@) == self.entries(),
            entry_keys(r.scoop_apps@) == self.keys(),
    {
        RequiredThings { scoop_buckets, scoop_apps: self.resolved }
    }
}

/// Every app gets at most one entry, and once the queue is exhausted the table
/// is closed: each root, and each dependency of an app with an entry, has an
/// entry itself or its lookup failed.
pub proof fn lemma_resolution_closed(r: &Resolver)
    requires
        r.wf(),
    ensures
        r.keys().no_duplicates(),
        r.keys().len() == r.entries().len(),
        forall|i: int| 0 <= i < r.entries().len() ==> (#[trigger] r.entries()[i]).0 == r.keys()[i],
        r.is_done() ==> forall|d: AppKey|
            reached(r.roots(), r.entries(), d) ==> r.keys().contains(d) || r.failed().contains(d),
{
    if r.is_done() {
        assert forall|d: AppKey| reached(r.roots(), r.entries(), d) implies r.keys().contains(d)
            || r.failed().contains(d) by {
            if r.roots().contains(d) {
                let i = choose|i: int| 0 <= i < r.roots().len() && r.roots()[i] == d;
                assert(r.queue()[i] == d);
            } else {
                let i = choose|i: int|
                    0 <= i < r.entries().len() && (#[trigger] r.entries()[i]).1.contains(d);
                assert(r.queue().contains(d));
                let k = choose|k: int| 0 <= k < r.queue().len() && r.queue()[k] == d;
                assert(r.keys().contains(r.queue()[k]) || r.failed().contains(r.queue()[k]));
            }
        }
    }
}

/// Between lookups, what has been taken from the queue is within it, and the
/// queue holds the roots and the dependencies of every entry: so the number of
/// lookups of a run is at most the number of roots plus the number of
/// dependencies recorded.
pub proof fn lemma_lookups_bounded(r: &Resolver)
    requires
        r.wf(),
    ensures
        r.visited() <= r.queue().len(),
        r.queue().len() == r.roots().len() + total_deps(r.entries()),
{
}

/// Whether the recorded outcomes agree with `answers`: `Some(deps)` for an
/// app whose lookup succeeds with `deps`, `None` for one whose lookup fails.
pub open spec fn agrees(
    entries: Seq<(AppKey, Seq<AppKey>)>,
    failed: Set<AppKey>,
    answers: spec_fn(AppKey) -> Option<Seq<AppKey>>,
) -> bool {
    &&& forall|i: int| 0 <= i < entries.len() ==> answers(#[trigger] entries[i].0) == Some(entries[i].1)
    &&& forall|d: AppKey| #[trigger] failed.contains(d) ==> answers(d) is None
}

/// The successful lookup of `p` lists `d`.
pub open spec fn lists(answers: spec_fn(AppKey) -> Option<Seq<AppKey>>, p: AppKey, d: AppKey) -> bool {
    match answers(p) {
        Some(deps) => deps.contains(d),
        None => false,
    }
}

/// `chain` starts at a root and each app of it is listed by the lookup of
/// the one before; every lookup along it succeeds.
pub open spec fn lookup_chain(
    roots: Set<AppKey>,
    answers: spec_fn(AppKey) -> Option<Seq<AppKey>>,
    chain: Seq<AppKey>,
) -> bool {
    &&& chain.len() > 0
    &&& roots.contains(chain[0])
    &&& forall|k: int| 0 <= k < chain.len() ==> answers(#[trigger] chain[k]) is Some
    &&& forall|k: int| 0 < k < chain.len() ==> lists(answers, chain[k - 1], #[trigger] chain[k])
}

/// The least set that holds each root whose lookup succeeds, and each
/// dependency, whose lookup succeeds, of an app in the set.
pub open spec fn in_closure(
    roots: Set<AppKey>,
    answers: spec_fn(AppKey) -> Option<Seq<AppKey>>,
    d: AppKey,
) -> bool {
    exists|chain: Seq<AppKey>| lookup_chain(roots, answers, chain) && chain.last() == d
}

proof fn lemma_key_in_closure(r: &Resolver, answers: spec_fn(AppKey) -> Option<Seq<AppKey>>, i: int)
    requires
        r.wf(),
        agrees(r.entries(), r.failed(), answers),
        0 <= i < r.entries().len(),
    ensures
        in_closure(r.roots().to_set(), answers, r.entries()[i].0),
    decreases i,
{
    let e = r.entries();
    let d = e[i].0;
    let roots = r.roots().to_set();
    assert(introduced(r.roots(), e, i, d));
    assert(answers(d) == Some(e[i].1));
    if !r.roots().contains(d) {
        let j = choose|j: int| 0 <= j < i && #[trigger] e[j].1.contains(d);
        lemma_key_in_closure(r, answers, j);
        let c = choose|c: Seq<AppKey>| lookup_chain(roots, answers, c) && c.last() == e[j].0;
        assert(answers(e[j].0) == Some(e[j].1));
        let c2 = c.push(d);
        assert forall|k: int| 0 <= k < c2.len() implies answers(#[trigger] c2[k]) is Some by {
            if k < c.len() {
                assert(c2[k] == c[k]);
            }
        }
        assert forall|k: int| 0 < k < c2.len() implies lists(answers, c2[k - 1], #[trigger] c2[k]) by {
            if k < c.len() {
                assert(c2[k] == c[k]);
                assert(c2[k - 1] == c[k - 1]);
            } else {
                assert(c2[k - 1] == e[j].0);
            }
        }
        assert(lookup_chain(roots, answers, c2));
        assert(c2.last() == d);
    } else {
        let c = seq![d];
        assert(lookup_chain(roots, answers, c));
        assert(c.last() == d);
    }
}

proof fn lemma_closure_has_key(
    r: &Resolver,
    answers: spec_fn(AppKey) -> Option<Seq<AppKey>>,
    chain: Seq<AppKey>,
    k: int,
)
    requires
        r.wf(),
        r.is_done(),
        agrees(r.entries(), r.failed(), answers),
        lookup_chain(r.roots().to_set(), answers, chain),
        0 <= k < chain.len(),
    ensures
        r.keys().contains(chain[k]),
    decreases k,
{
    lemma_resolution_closed(r);
    let d = chain[k];
    assert(answers(d) is Some);
    if k == 0 {
        assert(r.roots().to_set().contains(d));
        assert(reached(r.roots(), r.entries(), d));
    } else {
        lemma_closure_has_key(r, answers, chain, k - 1);
        let p = chain[k - 1];
        let i = choose|i: int| 0 <= i < r.keys().len() && r.keys()[i] == p;
        assert(r.entries()[i].0 == p);
        assert(answers(r.entries()[i].0) == Some(r.entries()[i].1));
        assert(lists(answers, p, d));
        assert(r.entries()[i].1.contains(d));
        assert(reached(r.roots(), r.entries(), d));
    }
    if r.failed().contains(d) {
        assert(answers(d) is None);
    }
}

/// Where each lookup gives the same answer every time, a finished resolution
/// has an entry exactly for the apps of the closure of the roots, each once,
/// with that app's direct dependencies as its value.
pub proof fn lemma_resolution_exact(r: &Resolver, answers: spec_fn(AppKey) -> Option<Seq<AppKey>>)
    requires
        r.wf(),
        r.is_done(),
        agrees(r.entries(), r.failed(), answers),
    ensures
        r.keys().no_duplicates(),
        forall|d: AppKey| r.keys().contains(d) <==> in_closure(r.roots().to_set(), answers, d),
        forall|i: int|
            0 <= i < r.entries().len() ==> Some((#[trigger] r.entries()[i]).1) == answers(
                r.entries()[i].0,
            ),
{
    lemma_resolution_closed(r);
    assert forall|d: AppKey| r.keys().contains(d) <==> in_closure(
        r.roots().to_set(),
        answers,
        d,
    ) by {
        if r.keys().contains(d) {
            let i = choose|i: int| 0 <= i < r.keys().len() && r.keys()[i] == d;
            lemma_key_in_closure(r, answers, i);
        }
        if in_closure(r.roots().to_set(), answers, d) {
            let c = choose|c: Seq<AppKey>|
                lookup_chain(r.roots().to_set(), answers, c) && c.last() == d;
            lemma_closure_has_key(r, answers, c, c.len() - 1);
        }
    }
}

/// The result does not depend on the order of the roots: two finished
/// resolutions from the same roots, in any order, under the same answers,
/// have entries for the same apps.
pub proof fn lemma_root_order_irrelevant(
    r1: &Resolver,
    r2: &Resolver,
    answers: spec_fn(AppKey) -> Option<Seq<AppKey>>,
)
    requires
        r1.wf(),
        r1.is_done(),
        agrees(r1.entries(), r1.failed(), answers),
        r2.wf(),
        r2.is_done(),
        agrees(r2.entries(), r2.failed(), answers),
        r1.roots().to_set() == r2.roots().to_set(),
    ensures
        r1.keys().to_set() == r2.keys().to_set(),
{
    lemma_resolution_exact(r1, answers);
    lemma_resolution_exact(r2, answers);
    assert(r1.keys().to_set() =~= r2.keys().to_set());
}

/// Where the lookup of `x` fails and every other lookup succeeds, a finished
/// resolution has no entry for `x` and an entry for every other app that it
/// reached.
pub proof fn lemma_failure_contained(
    r: &Resolver,
    answers: spec_fn(AppKey) -> Option<Seq<AppKey>>,
    x: AppKey,
)
    requires
        r.wf(),
        r.is_done(),
        agrees(r.entries(), r.failed(), answers),
        answers(x) is None,
        forall|d: AppKey| d != x ==> #[trigger] answers(d) is Some,
    ensures
        !r.keys().contains(x),
        forall|d: AppKey| reached(r.roots(), r.entries(), d) && d != x ==> r.keys().contains(d),
{
    lemma_resolution_closed(r);
    if r.keys().contains(x) {
        let i = choose|i: int| 0 <= i < r.keys().len() && r.keys()[i] == x;
        assert(r.entries()[i].0 == x);
    }
    assert forall|d: AppKey| reached(r.roots(), r.entries(), d) && d != x implies r.keys().contains(
        d,
    ) by {
        if r.failed().contains(d) {
            assert(answers(d) is None);
        }
    }
}

} // verus!
