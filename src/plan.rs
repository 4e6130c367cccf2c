//! Comparing what is installed with what is required: the buckets and apps
//! to remove and to add.
use crate::depends::apps_view;
use crate::model::{AppKey, BucketKey, ScoopApp, ScoopBucket};
use vstd::prelude::*;

verus! {

pub open spec fn buckets_view(v: Seq<ScoopBucket>) -> Seq<BucketKey> {
    v.map_values(|b: ScoopBucket| b@)
}

/// The apps that are keys of a dependency table.
pub open spec fn entry_keys(v: Seq<(ScoopApp, Vec<ScoopApp>)>) -> Seq<AppKey> {
    v.map_values(|e: (ScoopApp, Vec<ScoopApp>)| e.0@)
}

/// What is on the machine: apps without a known bucket are left out.
pub struct InstalledThings {
    pub scoop_buckets: Vec<ScoopBucket>,
    pub scoop_apps: Vec<ScoopApp>,
}

/// What the configuration asks for: its buckets, and each app that could be
/// resolved with its direct dependencies.
pub struct RequiredThings {
    pub scoop_buckets: Vec<ScoopBucket>,
    pub scoop_apps: Vec<(ScoopApp, Vec<ScoopApp>)>,
}

/// Buckets and apps to remove.
pub struct ThingsToUninstall {
    pub scoop_buckets: Vec<ScoopBucket>,
    pub scoop_apps: Vec<ScoopApp>,
}

/// Buckets and apps to add.
pub struct ThingsToInstall {
    pub scoop_buckets: Vec<ScoopBucket>,
    pub scoop_apps: Vec<ScoopApp>,
}

impl InstalledThings {
    pub open spec fn bucket_set(&self) -> Set<BucketKey> {
        buckets_view(self.scoop_buckets@).to_set()
    }

    pub open spec fn app_set(&self) -> Set<AppKey> {
        apps_view(self.scoop_apps@).to_set()
    }
}

impl RequiredThings {
    pub open spec fn bucket_set(&self) -> Set<BucketKey> {
        buckets_view(self.scoop_buckets@).to_set()
    }

    /// The apps that were resolved: the keys of the table.
    pub open spec fn app_set(&self) -> Set<AppKey> {
        entry_keys(self.scoop_apps@).to_set()
    }
}

impl ThingsToUninstall {
    pub open spec fn bucket_set(&self) -> Set<BucketKey> {
        buckets_view(self.scoop_buckets@).to_set()
    }

    pub open spec fn app_set(&self) -> Set<AppKey> {
        apps_view(self.scoop_apps@).to_set()
    }

    /// Nothing to remove.
    pub fn is_empty(&self) -> (r: bool)
        ensures
            r == (self.scoop_buckets@.len() == 0 && self.scoop_apps@.len() == 0),
    {
        self.scoop_apps.len() == 0 && self.scoop_buckets.len() == 0
    }
}

impl ThingsToInstall {
    pub open spec fn bucket_set(&self) -> Set<BucketKey> {
        buckets_view(self.scoop_buckets@).to_set()
    }

    pub open spec fn app_set(&self) -> Set<AppKey> {
        apps_view(self.scoop_apps@).to_set()
    }

    /// Nothing to add.
    pub fn is_empty(&self) -> (r: bool)
        ensures
            r == (self.scoop_buckets@.len() == 0 && self.scoop_apps@.len() == 0),
    {
        self.scoop_apps.len() == 0 && self.scoop_buckets.len() == 0
    }
}

fn has_bucket(v: &Vec<ScoopBucket>, b: &ScoopBucket) -> (r: bool)
    ensures
        r == buckets_view(v@).contains(b@),
{
    let mut i: usize = 0;
    while i < v.len()
        invariant
            i <= v@.len(),
            forall|j: int| 0 <= j < i ==> v@[j]@ != b@,
        decreases v@.len() - i,
    {
        if v[i].same_as(b) {
            assert(buckets_view(v@)[i as int] == b@);
            return true;
        }
        i = i + 1;
    }
    proof {
        if buckets_view(v@).contains(b@) {
            let j = choose|j: int| 0 <= j < buckets_view(v@).len() && buckets_view(v@)[j] == b@;
            assert(v@[j]@ == b@);
        }
    }
    false
}

pub(crate) fn has_app(v: &Vec<ScoopApp>, a: &ScoopApp) -> (r: bool)
    ensures
        r == apps_view(v@).contains(a@),
{
    let mut i: usize = 0;
    while i < v.len()
        invariant
            i <= v@.len(),
            forall|j: int| 0 <= j < i ==> v@[j]@ != a@,
        decreases v@.len() - i,
    {
        if v[i].same_as(a) {
            assert(apps_view(v@)[i as int] == a@);
            return true;
        }
        i = i + 1;
    }
    proof {
        if apps_view(v@).contains(a@) {
            let j = choose|j: int| 0 <= j < apps_view(v@).len() && apps_view(v@)[j] == a@;
            assert(v@[j]@ == a@);
        }
    }
    false
}

/// The buckets of `a` that are not in `b`, each once.
fn bucket_difference(a: &Vec<ScoopBucket>, b: &Vec<ScoopBucket>) -> (r: Vec<ScoopBucket>)
    ensures
        buckets_view(r@).to_set() == buckets_view(a@).to_set().difference(
            buckets_view(b@).to_set(),
        ),
        buckets_view(r@).no_duplicates(),
{
    let mut r: Vec<ScoopBucket> = Vec::new();
    let mut i: usize = 0;
    while i < a.len()
        invariant
            i <= a@.len(),
            buckets_view(r@).to_set() == buckets_view(a@.take(i as int)).to_set().difference(
                buckets_view(b@).to_set(),
            ),
            buckets_view(r@).no_duplicates(),
        decreases a@.len() - i,
    {
        let x = &a[i];
        let ghost before = r@;
        assert(buckets_view(a@.take(i + 1)) =~= buckets_view(a@.take(i as int)).push(x@));
        proof {
            buckets_view(a@.take(i as int)).lemma_push_to_set_commute(x@);
            buckets_view(before).lemma_push_to_set_commute(x@);
        }
        if !has_bucket(b, x) && !has_bucket(&r, x) {
            r.push(x.duplicate());
            assert(buckets_view(r@) =~= buckets_view(before).push(x@));
        }
        assert(buckets_view(r@).to_set() =~= buckets_view(a@.take(i + 1)).to_set().difference(
            buckets_view(b@).to_set(),
        ));
        i = i + 1;
    }
    assert(a@.take(a@.len() as int) =~= a@);
    r
}

/// The apps of `a` that are not in `b`, each once.
fn app_difference(a: &Vec<ScoopApp>, b: &Vec<ScoopApp>) -> (r: Vec<ScoopApp>)
    ensures
        apps_view(r@).to_set() == apps_view(a@).to_set().difference(apps_view(b@).to_set()),
        apps_view(r@).no_duplicates(),
{
    let mut r: Vec<ScoopApp> = Vec::new();
    let mut i: usize = 0;
    while i < a.len()
        invariant
            i <= a@.len(),
            apps_view(r@).to_set() == apps_view(a@.take(i as int)).to_set().difference(
                apps_view(b@).to_set(),
            ),
            apps_view(r@).no_duplicates(),
        decreases a@.len() - i,
    {
        let x = &a[i];
        let ghost before = r@;
        assert(apps_view(a@.take(i + 1)) =~= apps_view(a@.take(i as int)).push(x@));
        proof {
            apps_view(a@.take(i as int)).lemma_push_to_set_commute(x@);
            apps_view(before).lemma_push_to_set_commute(x@);
        }
        if !has_app(b, x) && !has_app(&r, x) {
            r.push(x.duplicate());
            assert(apps_view(r@) =~= apps_view(before).push(x@));
        }
        assert(apps_view(r@).to_set() =~= apps_view(a@.take(i + 1)).to_set().difference(
            apps_view(b@).to_set(),
        ));
        i = i + 1;
    }
    assert(a@.take(a@.len() as int) =~= a@);
    r
}

/// The keys of a dependency table, in order.
pub fn table_keys(v: &Vec<(ScoopApp, Vec<ScoopApp>)>) -> (r: Vec<ScoopApp>)
    ensures
        apps_view(r@) == entry_keys(v@),
{
    let mut r: Vec<ScoopApp> = Vec::new();
    let mut i: usize = 0;
    while i < v.len()
        invariant
            i <= v@.len(),
            apps_view(r@) == entry_keys(v@.take(i as int)),
        decreases v@.len() - i,
    {
        let ghost before = r@;
        r.push(v[i].0.duplicate());
        assert(apps_view(r@) =~= apps_view(before).push(v@[i as int].0@));
        assert(entry_keys(v@.take(i + 1)) =~= entry_keys(v@.take(i as int)).push(v@[i as int].0@));
        i = i + 1;
    }
    assert(v@.take(v@.len() as int) =~= v@);
    r
}

/// The installed buckets that the configuration does not name (by name and
/// source), and the installed apps that are not keys of the dependency table.
pub fn compute_things_to_uninstall(
    installed_things: &InstalledThings,
    required_things: &RequiredThings,
) -> (r: ThingsToUninstall)
    ensures
        r.bucket_set() == installed_things.bucket_set().difference(required_things.bucket_set()),
        r.app_set() == installed_things.app_set().difference(required_things.app_set()),
        buckets_view(r.scoop_buckets@).no_duplicates(),
        apps_view(r.scoop_apps@).no_duplicates(),
{
    let scoop_buckets = bucket_difference(
        &installed_things.scoop_buckets,
        &required_things.scoop_buckets,
    );
    let keys = table_keys(&required_things.scoop_apps);
    let scoop_apps = app_difference(&installed_things.scoop_apps, &keys);
    ThingsToUninstall { scoop_buckets, scoop_apps }
}

/// The configured buckets that are not installed (by name and source), and the
/// keys of the dependency table that are not installed.
pub fn compute_things_to_install(
    installed_things: &InstalledThings,
    required_things: RequiredThings,
) -> (r: ThingsToInstall)
    ensures
        r.bucket_set() == required_things.bucket_set().difference(installed_things.bucket_set()),
        r.app_set() == required_things.app_set().difference(installed_things.app_set()),
        buckets_view(r.scoop_buckets@).no_duplicates(),
        apps_view(r.scoop_apps@).no_duplicates(),
{
    let scoop_buckets = bucket_difference(
        &required_things.scoop_buckets,
        &installed_things.scoop_buckets,
    );
    let keys = table_keys(&required_things.scoop_apps);
    let scoop_apps = app_difference(&keys, &installed_things.scoop_apps);
    ThingsToInstall { scoop_buckets, scoop_apps }
}

/// The installed state after a plan is carried out: what was there, less what
/// the plan removes, with what the plan adds.
pub open spec fn applied<K>(installed: Set<K>, removed: Set<K>, added: Set<K>) -> Set<K> {
    installed.difference(removed).union(added)
}

/// Carrying out the plan for some requirements leaves nothing to do: planning
/// again against the same requirements removes and adds nothing.
pub proof fn lemma_applied_plan_is_settled(
    installed: InstalledThings,
    required: RequiredThings,
    after: InstalledThings,
)
    requires
        after.bucket_set() == applied(
            installed.bucket_set(),
            installed.bucket_set().difference(required.bucket_set()),
            required.bucket_set().difference(installed.bucket_set()),
        ),
        after.app_set() == applied(
            installed.app_set(),
            installed.app_set().difference(required.app_set()),
            required.app_set().difference(installed.app_set()),
        ),
    ensures
        after.bucket_set().difference(required.bucket_set()).is_empty(),
        after.app_set().difference(required.app_set()).is_empty(),
        required.bucket_set().difference(after.bucket_set()).is_empty(),
        required.app_set().difference(after.app_set()).is_empty(),
{
    assert(after.bucket_set().difference(required.bucket_set()) =~= Set::empty());
    assert(after.app_set().difference(required.app_set()) =~= Set::empty());
    assert(required.bucket_set().difference(after.bucket_set()) =~= Set::empty());
    assert(required.app_set().difference(after.app_set()) =~= Set::empty());
}

} // verus!
