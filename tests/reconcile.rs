use scoop_sync::commands::{installed_from_export, ExportedApp};
use scoop_sync::depends::DependsError;
use scoop_sync::model::{ScoopApp, ScoopBucket};
use scoop_sync::plan::{
    compute_things_to_install, compute_things_to_uninstall, InstalledThings, RequiredThings,
};
use scoop_sync::resolve::{Config, Resolver};
use std::collections::HashSet;

fn app(id: &str) -> ScoopApp {
    ScoopApp::parse(id).unwrap()
}

fn bucket(name: &str, source: &str) -> ScoopBucket {
    ScoopBucket::new(name.to_string(), source.to_string())
}

/// Runs the resolver with `lookup` standing in for `scoop depends`.
fn resolve(
    config: &Config,
    lookup: impl Fn(&str) -> Result<Vec<&'static str>, ()>,
) -> (RequiredThings, usize) {
    let mut resolver = Resolver::new(&config.scoop_apps);
    let mut lookups = 0;
    while let Some(a) = resolver.next_unresolved() {
        lookups += 1;
        let outcome = match lookup(&a.to_string()) {
            Ok(ids) => Ok(ids.into_iter().map(app).collect()),
            Err(()) => Err(DependsError::BadLine),
        };
        resolver.record(outcome);
    }
    let buckets = config.scoop_buckets.iter().map(|b| b.duplicate()).collect();
    (resolver.into_required(buckets), lookups)
}

fn keys(r: &RequiredThings) -> Vec<String> {
    r.scoop_apps.iter().map(|(a, _)| a.to_string()).collect()
}

fn ids(v: &[ScoopApp]) -> HashSet<String> {
    v.iter().map(|a| a.to_string()).collect()
}

fn names(v: &[ScoopBucket]) -> HashSet<String> {
    v.iter().map(|b| b.name.clone()).collect()
}

fn config(buckets: Vec<ScoopBucket>, apps: &[&str]) -> Config {
    Config { scoop_buckets: buckets, scoop_apps: apps.iter().map(|s| app(s)).collect() }
}

fn installed(buckets: Vec<ScoopBucket>, apps: &[&str]) -> InstalledThings {
    InstalledThings { scoop_buckets: buckets, scoop_apps: apps.iter().map(|s| app(s)).collect() }
}

#[test]
fn fresh_install() {
    let cfg = config(vec![bucket("main", "official")], &["main/git"]);
    let (required, _) = resolve(&cfg, |_| Ok(vec![]));
    let inst = installed(vec![], &[]);
    let un = compute_things_to_uninstall(&inst, &required);
    let add = compute_things_to_install(&inst, required);
    assert!(un.is_empty());
    assert_eq!(names(&add.scoop_buckets), HashSet::from(["main".to_string()]));
    assert_eq!(add.scoop_buckets[0].source, "official");
    assert_eq!(ids(&add.scoop_apps), HashSet::from(["main/git".to_string()]));
}

#[test]
fn already_satisfied() {
    let cfg = config(vec![bucket("main", "official")], &["main/git"]);
    let (required, _) = resolve(&cfg, |_| Ok(vec![]));
    let inst = installed(vec![bucket("main", "official")], &["main/git"]);
    let un = compute_things_to_uninstall(&inst, &required);
    let add = compute_things_to_install(&inst, required);
    assert!(un.is_empty());
    assert!(add.is_empty());
}

#[test]
fn extraneous_bucket() {
    let cfg = config(vec![bucket("main", "official")], &[]);
    let (required, _) = resolve(&cfg, |_| Ok(vec![]));
    let inst = installed(vec![bucket("main", "official"), bucket("extra", "elsewhere")], &[]);
    let un = compute_things_to_uninstall(&inst, &required);
    assert_eq!(names(&un.scoop_buckets), HashSet::from(["extra".to_string()]));
    assert!(un.scoop_apps.is_empty());
}

#[test]
fn bucket_with_other_source_differs() {
    let cfg = config(vec![bucket("main", "official")], &[]);
    let (required, _) = resolve(&cfg, |_| Ok(vec![]));
    let inst = installed(vec![bucket("main", "mirror")], &[]);
    let un = compute_things_to_uninstall(&inst, &required);
    let add = compute_things_to_install(&inst, required);
    assert_eq!(un.scoop_buckets[0].source, "mirror");
    assert_eq!(add.scoop_buckets[0].source, "official");
}

#[test]
fn transitive_dependency_pulled_in() {
    let cfg = config(vec![], &["main/git"]);
    let (required, _) = resolve(&cfg, |id| {
        if id == "main/git" {
            Ok(vec!["main/curl"])
        } else {
            Ok(vec![])
        }
    });
    assert_eq!(keys(&required), vec!["main/git", "main/curl"]);
    let deps: Vec<String> = required.scoop_apps[0].1.iter().map(|a| a.to_string()).collect();
    assert_eq!(deps, vec!["main/curl"]);
    let add = compute_things_to_install(&installed(vec![], &[]), required);
    assert_eq!(
        ids(&add.scoop_apps),
        HashSet::from(["main/git".to_string(), "main/curl".to_string()])
    );
}

#[test]
fn cycles_resolve_once_each() {
    let cfg = config(vec![], &["main/a", "main/a", "main/s"]);
    let (required, lookups) = resolve(&cfg, |id| match id {
        "main/a" => Ok(vec!["main/b"]),
        "main/b" => Ok(vec!["main/a"]),
        "main/s" => Ok(vec!["main/s"]),
        _ => Ok(vec![]),
    });
    assert_eq!(keys(&required), vec!["main/a", "main/s", "main/b"]);
    assert_eq!(lookups, 3);
}

#[test]
fn mutual_and_self_cycle() {
    let cfg = config(vec![], &["main/a"]);
    let (required, lookups) = resolve(&cfg, |id| match id {
        "main/a" => Ok(vec!["main/b"]),
        "main/b" => Ok(vec!["main/a", "main/b"]),
        _ => Ok(vec![]),
    });
    assert_eq!(keys(&required), vec!["main/a", "main/b"]);
    let deps: Vec<String> = required.scoop_apps[1].1.iter().map(|a| a.to_string()).collect();
    assert_eq!(deps, vec!["main/a", "main/b"]);
    assert_eq!(lookups, 2);
}

#[test]
fn failed_lookup_is_skipped() {
    let cfg = config(vec![], &["main/git", "main/broken"]);
    let (required, _) = resolve(&cfg, |id| match id {
        "main/git" => Ok(vec!["main/curl", "main/broken"]),
        "main/broken" => Err(()),
        _ => Ok(vec![]),
    });
    assert_eq!(keys(&required), vec!["main/git", "main/curl"]);
    let inst = installed(vec![], &["main/broken"]);
    let un = compute_things_to_uninstall(&inst, &required);
    assert_eq!(ids(&un.scoop_apps), HashSet::from(["main/broken".to_string()]));
}

#[test]
fn dependencies_of_failed_app_not_followed() {
    let cfg = config(vec![], &["main/x"]);
    let (required, _) = resolve(&cfg, |_| Err(()));
    assert!(required.scoop_apps.is_empty());
}

#[test]
fn plan_applied_then_settled() {
    let cfg = config(vec![bucket("main", "official")], &["main/git"]);
    let (required, _) = resolve(&cfg, |_| Ok(vec!["main/curl"]));
    let inst = installed(vec![bucket("old", "x")], &["main/vim", "main/curl"]);
    let un = compute_things_to_uninstall(&inst, &required);
    let add = compute_things_to_install(&inst, required);
    assert_eq!(ids(&un.scoop_apps), HashSet::from(["main/vim".to_string()]));
    assert_eq!(ids(&add.scoop_apps), HashSet::from(["main/git".to_string()]));
    let mut after_buckets: Vec<ScoopBucket> = inst
        .scoop_buckets
        .iter()
        .filter(|b| !un.scoop_buckets.iter().any(|u| u.same_as(b)))
        .map(|b| b.duplicate())
        .collect();
    after_buckets.extend(add.scoop_buckets.iter().map(|b| b.duplicate()));
    let mut after_apps: Vec<ScoopApp> = inst
        .scoop_apps
        .iter()
        .filter(|a| !un.scoop_apps.iter().any(|u| u.same_as(a)))
        .map(|a| a.duplicate())
        .collect();
    after_apps.extend(add.scoop_apps.iter().map(|a| a.duplicate()));
    let after = InstalledThings { scoop_buckets: after_buckets, scoop_apps: after_apps };
    let (required, _) = resolve(&cfg, |_| Ok(vec!["main/curl"]));
    let un = compute_things_to_uninstall(&after, &required);
    let add = compute_things_to_install(&after, required);
    assert!(un.is_empty());
    assert!(add.is_empty());
}

#[test]
fn export_drops_unattributed_apps() {
    let apps = vec![
        ExportedApp { name: "git".to_string(), source: Some("main".to_string()) },
        ExportedApp { name: "local".to_string(), source: None },
        ExportedApp { name: "git".to_string(), source: Some("main".to_string()) },
    ];
    let inst = installed_from_export(vec![bucket("main", "official")], &apps);
    assert_eq!(inst.scoop_apps.len(), 1);
    assert_eq!(inst.scoop_apps[0].to_string(), "main/git");
    assert_eq!(inst.scoop_buckets.len(), 1);
}
