//! The Scoop commands issued during a run, and how their outcome is judged.
use crate::channel::views_of;
use crate::depends::apps_view;
use crate::model::{app_id_text, AppKey, ExecResult, ScoopApp, ScoopBucket};
use crate::plan::{buckets_view, has_app, InstalledThings};
use vstd::prelude::*;
use vstd::string::StringExecFns;

verus! {

/// An app as `scoop export` lists it: its bucket may be unknown.
pub struct ExportedApp {
    pub name: String,
    pub source: Option<String>,
}

pub open spec fn exported_key(a: ExportedApp) -> Option<AppKey> {
    match a.source {
        Some(b) => Some((b@, a.name@)),
        None => None,
    }
}

/// The apps of an export whose bucket is known.
pub open spec fn attributed(v: Seq<ExportedApp>) -> Set<AppKey> {
    Set::new(|k: AppKey| exists|i: int| 0 <= i < v.len() && exported_key(v[i]) == Some(k))
}

/// A mutating command exited with a non-zero status.
#[derive(Debug)]
pub struct CommandError {
    pub exit_code: i32,
    pub stderr: String,
}

/// `scoop export` failed.
#[derive(Debug)]
pub struct QueryError {
    pub exit_code: i32,
    pub stderr: String,
}

/// The installed state from what `scoop export` listed; apps whose bucket is
/// unknown are dropped, and each app is kept once.
pub fn installed_from_export(
    scoop_buckets: Vec<ScoopBucket>,
    apps: &Vec<ExportedApp>,
) -> (r: InstalledThings)
    ensures
        r.scoop_buckets@ == scoop_buckets@,
        r.app_set() == attributed(apps@),
        apps_view(r.scoop_apps@).no_duplicates(),
{
    let mut out: Vec<ScoopApp> = Vec::new();
    let mut i: usize = 0;
    while i < apps.len()
        invariant
            i <= apps@.len(),
            apps_view(out@).no_duplicates(),
            forall|k: AppKey|
                apps_view(out@).contains(k) <==> exists|j: int|
                    0 <= j < i && exported_key(#[trigger] apps@[j]) == Some(k),
        decreases apps@.len() - i,
    {
        let e = &apps[i];
        let ghost before = out@;
        match &e.source {
            Some(b) => {
                let a = ScoopApp::new(b.clone(), e.name.clone());
                if !has_app(&out, &a) {
                    out.push(a);
                    assert(apps_view(out@) =~= apps_view(before).push(exported_key(*e)->0));
                }
                assert forall|k: AppKey| apps_view(out@).contains(k) <==> exists|j: int|
                    0 <= j < i + 1 && exported_key(#[trigger] apps@[j]) == Some(k) by {
                    if apps_view(out@).contains(k) && k != exported_key(*e)->0 {
                        let m = choose|m: int| 0 <= m < apps_view(out@).len() && apps_view(out@)[m] == k;
                        assert(apps_view(before).contains(k)) by {
                            assert(apps_view(before)[m] == k);
                        }
                    }
                    if k == exported_key(*e)->0 {
                        assert(exported_key(apps@[i as int]) == Some(k));
                        if !apps_view(before).contains(k) {
                            assert(apps_view(out@)[apps_view(out@).len() - 1] == k);
                        }
                    }
                    if (exists|j: int| 0 <= j < i && exported_key(#[trigger] apps@[j]) == Some(k)) {
                        assert(apps_view(before).contains(k));
                        let m = choose|m: int| 0 <= m < apps_view(before).len() && apps_view(before)[m] == k;
                        assert(apps_view(out@)[m] == k);
                    }
                }
            },
            None => {
                assert forall|k: AppKey| apps_view(out@).contains(k) <==> exists|j: int|
                    0 <= j < i + 1 && exported_key(#[trigger] apps@[j]) == Some(k) by {
                    if exists|j: int| 0 <= j < i + 1 && exported_key(#[trigger] apps@[j]) == Some(k) {
                        let j = choose|j: int| 0 <= j < i + 1 && exported_key(#[trigger] apps@[j]) == Some(k);
                        assert(j != i);
                    }
                }
            },
        }
        i = i + 1;
    }
    let r = InstalledThings { scoop_buckets, scoop_apps: out };
    assert(r.app_set() =~= attributed(apps@));
    r
}

/// Judges `scoop export`: it must have exited with status zero.
pub fn check_export(result: &ExecResult) -> (r: Result<(), QueryError>)
    ensures
        r is Ok <==> result.exit_code == 0,
        r matches Err(e) ==> e.exit_code == result.exit_code && e.stderr@ == result.stderr@,
{
    if result.exit_code == 0 {
        Ok(())
    } else {
        Err(QueryError { exit_code: result.exit_code, stderr: result.stderr.clone() })
    }
}

/// Judges a mutating command: it must have exited with status zero.
pub fn check_command(result: &ExecResult) -> (r: Result<(), CommandError>)
    ensures
        r is Ok <==> result.exit_code == 0,
        r matches Err(e) ==> e.exit_code == result.exit_code && e.stderr@ == result.stderr@,
{
    if result.exit_code == 0 {
        Ok(())
    } else {
        Err(CommandError { exit_code: result.exit_code, stderr: result.stderr.clone() })
    }
}

/// `scoop export`.
pub fn export_command() -> (r: Vec<String>)
    ensures
        views_of(r@) == seq!["export"@],
{
    let mut r: Vec<String> = Vec::new();
    r.push(String::from_str("export"));
    assert(views_of(r@) =~= seq!["export"@]);
    r
}

/// `scoop depends bucket/name`.
pub fn depends_command(app: &ScoopApp) -> (r: Vec<String>)
    ensures
        views_of(r@) == seq!["depends"@, app_id_text(app@)],
{
    let mut r: Vec<String> = Vec::new();
    r.push(String::from_str("depends"));
    r.push(app.to_string());
    assert(views_of(r@) =~= seq!["depends"@, app_id_text(app@)]);
    r
}

/// `scoop bucket rm` with the names of `buckets`; `None` where there are none.
pub fn uninstall_buckets_command(buckets: &Vec<ScoopBucket>) -> (r: Option<Vec<String>>)
    ensures
        buckets@.len() == 0 <==> r is None,
        r matches Some(v) ==> views_of(v@) == seq!["bucket"@, "rm"@] + buckets_view(
            buckets@,
        ).map_values(|b: (Seq<char>, Seq<char>)| b.0),
{
    if buckets.len() == 0 {
        return None;
    }
    let mut r: Vec<String> = Vec::new();
    r.push(String::from_str("bucket"));
    r.push(String::from_str("rm"));
    let mut i: usize = 0;
    while i < buckets.len()
        invariant
            i <= buckets@.len(),
            views_of(r@) == seq!["bucket"@, "rm"@] + buckets_view(buckets@.take(i as int)).map_values(
                |b: (Seq<char>, Seq<char>)| b.0,
            ),
        decreases buckets@.len() - i,
    {
        let ghost before = r@;
        r.push(buckets[i].name.clone());
        assert(views_of(r@) =~= views_of(before).push(buckets@[i as int].name@));
        assert(buckets_view(buckets@.take(i + 1)).map_values(|b: (Seq<char>, Seq<char>)| b.0)
            =~= buckets_view(buckets@.take(i as int)).map_values(|b: (Seq<char>, Seq<char>)| b.0).push(
            buckets@[i as int].name@,
        ));
        i = i + 1;
    }
    assert(buckets@.take(buckets@.len() as int) =~= buckets@);
    Some(r)
}

/// `verb` followed by `bucket/name` of each app.
fn apps_command(verb: &str, apps: &Vec<ScoopApp>) -> (r: Vec<String>)
    ensures
        views_of(r@) == seq![verb@] + apps_view(apps@).map_values(|k: AppKey| app_id_text(k)),
{
    let mut r: Vec<String> = Vec::new();
    r.push(String::from_str(verb));
    let mut i: usize = 0;
    while i < apps.len()
        invariant
            i <= apps@.len(),
            views_of(r@) == seq![verb@] + apps_view(apps@.take(i as int)).map_values(
                |k: AppKey| app_id_text(k),
            ),
        decreases apps@.len() - i,
    {
        let ghost before = r@;
        r.push(apps[i].to_string());
        assert(views_of(r@) =~= views_of(before).push(app_id_text(apps@[i as int]@)));
        assert(apps_view(apps@.take(i + 1)).map_values(|k: AppKey| app_id_text(k))
            =~= apps_view(apps@.take(i as int)).map_values(|k: AppKey| app_id_text(k)).push(
            app_id_text(apps@[i as int]@),
        ));
        i = i + 1;
    }
    assert(apps@.take(apps@.len() as int) =~= apps@);
    r
}

/// `scoop uninstall` with `bucket/name` of each app; `None` where there are none.
pub fn uninstall_apps_command(apps: &Vec<ScoopApp>) -> (r: Option<Vec<String>>)
    ensures
        apps@.len() == 0 <==> r is None,
        r matches Some(v) ==> views_of(v@) == seq!["uninstall"@] + apps_view(apps@).map_values(
            |k: AppKey| app_id_text(k),
        ),
{
    if apps.len() == 0 {
        return None;
    }
    Some(apps_command("uninstall", apps))
}

/// `scoop install` with `bucket/name` of each app; `None` where there are none.
pub fn install_apps_command(apps: &Vec<ScoopApp>) -> (r: Option<Vec<String>>)
    ensures
        apps@.len() == 0 <==> r is None,
        r matches Some(v) ==> views_of(v@) == seq!["install"@] + apps_view(apps@).map_values(
            |k: AppKey| app_id_text(k),
        ),
{
    if apps.len() == 0 {
        return None;
    }
    Some(apps_command("install", apps))
}

/// `scoop bucket add name source`.
pub fn install_bucket_command(bucket: &ScoopBucket) -> (r: Vec<String>)
    ensures
        views_of(r@) == seq!["bucket"@, "add"@, bucket.name@, bucket.source@],
{
    let mut r: Vec<String> = Vec::new();
    r.push(String::from_str("bucket"));
    r.push(String::from_str("add"));
    r.push(bucket.name.clone());
    r.push(bucket.source.clone());
    assert(views_of(r@) =~= seq!["bucket"@, "add"@, bucket.name@, bucket.source@]);
    r
}

} // verus!
