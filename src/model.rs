//! The things being reconciled: buckets, apps, and the result of one command.
use crate::text::{chars_of, string_of};
use vstd::prelude::*;
use vstd::string::StringExecFns;

verus! {

/// A bucket as (name, source).
pub type BucketKey = (Seq<char>, Seq<char>);

/// An app as (bucket name, app name).
pub type AppKey = (Seq<char>, Seq<char>);

/// A named source repository of app manifests.
#[derive(Debug)]
pub struct ScoopBucket {
    pub name: String,
    pub source: String,
}

/// An installable app, identified by its bucket and its name.
#[derive(Debug)]
pub struct ScoopApp {
    pub name: String,
    pub bucket_name: String,
}

impl View for ScoopBucket {
    type V = BucketKey;

    open spec fn view(&self) -> BucketKey {
        (self.name@, self.source@)
    }
}

impl View for ScoopApp {
    type V = AppKey;

    open spec fn view(&self) -> AppKey {
        (self.bucket_name@, self.name@)
    }
}

/// The canonical text of an app: `bucket/name`.
pub open spec fn app_id_text(k: AppKey) -> Seq<char> {
    k.0 + seq!['/'] + k.1
}

/// The app that `s` names, where `s` holds exactly one `/`.
pub open spec fn app_from_id(s: Seq<char>) -> Option<AppKey> {
    if exists|p: int| 0 <= p < s.len() && s[p] == '/' && forall|q: int|
        0 <= q < s.len() && q != p ==> s[q] != '/' {
        let p = choose|p: int|
            0 <= p < s.len() && s[p] == '/' && forall|q: int|
                0 <= q < s.len() && q != p ==> s[q] != '/';
        Some((s.take(p), s.skip(p + 1)))
    } else {
        None
    }
}

impl ScoopBucket {
    pub fn new(name: String, source: String) -> (r: ScoopBucket)
        ensures
            r@ == (name@, source@),
    {
        ScoopBucket { name, source }
    }

    /// A copy with the same name and source.
    pub fn duplicate(&self) -> (r: ScoopBucket)
        ensures
            r@ == self@,
    {
        ScoopBucket { name: self.name.clone(), source: self.source.clone() }
    }

    /// Same name and same source.
    pub fn same_as(&self, other: &ScoopBucket) -> (r: bool)
        ensures
            r == (self@ == other@),
    {
        self.name == other.name && self.source == other.source
    }
}

impl ScoopApp {
    pub fn new(bucket_name: String, name: String) -> (r: ScoopApp)
        ensures
            r@ == (bucket_name@, name@),
    {
        ScoopApp { name, bucket_name }
    }

    /// A copy with the same bucket and name.
    pub fn duplicate(&self) -> (r: ScoopApp)
        ensures
            r@ == self@,
    {
        ScoopApp { name: self.name.clone(), bucket_name: self.bucket_name.clone() }
    }

    /// Same bucket and same name.
    pub fn same_as(&self, other: &ScoopApp) -> (r: bool)
        ensures
            r == (self@ == other@),
    {
        self.name == other.name && self.bucket_name == other.bucket_name
    }

    /// The canonical text `bucket/name`.
    pub fn to_string(&self) -> (r: String)
        ensures
            r@ == app_id_text(self@),
    {
        let mut r = self.bucket_name.clone();
        r.append("/");
        r.append(self.name.as_str());
        proof {
            reveal_strlit("/");
        }
        r
    }

    /// Reads `bucket/name`; `None` unless `s` holds exactly one `/`.
    pub fn parse(s: &str) -> (r: Option<ScoopApp>)
        ensures
            r matches Some(a) ==> app_from_id(s@) == Some(a@),
            r is None ==> app_from_id(s@) is None,
    {
        let v = chars_of(s);
        let mut slash: Option<usize> = None;
        let mut i: usize = 0;
        while i < v.len()
            invariant
                i <= v@.len(),
                v@ == s@,
                slash matches Some(p) ==> p < i && v@[p as int] == '/' && forall|q: int|
                    0 <= q < i && q != p ==> v@[q] != '/',
                slash is None ==> forall|q: int| 0 <= q < i ==> v@[q] != '/',
            decreases v@.len() - i,
        {
            if v[i] == '/' {
                if slash.is_some() {
                    proof {
                        let p = slash->0 as int;
                        assert forall|x: int|
                            0 <= x < s@.len() && s@[x] == '/' implies !(forall|q: int|
                            0 <= q < s@.len() && q != x ==> s@[q] != '/') by {
                            if x != p {
                                assert(s@[p] == '/');
                            } else {
                                assert(s@[i as int] == '/');
                            }
                        }
                    }
                    return None;
                }
                slash = Some(i);
            }
            i = i + 1;
        }
        match slash {
            Some(p) => {
                let bucket_name = string_of(&v, 0, p);
                let name = string_of(&v, p + 1, v.len());
                proof {
                    let c = choose|x: int|
                        0 <= x < s@.len() && s@[x] == '/' && forall|q: int|
                            0 <= q < s@.len() && q != x ==> s@[q] != '/';
                    assert(c == p);
                    assert(v@.subrange(0, p as int) =~= s@.take(p as int));
                    assert(v@.subrange(p + 1, v@.len() as int) =~= s@.skip(p + 1));
                }
                Some(ScoopApp { name, bucket_name })
            },
            None => None,
        }
    }
}

/// What one command printed, and its exit status.
#[derive(Debug)]
pub struct ExecResult {
    pub stdout: String,
    pub stderr: String,
    pub exit_code: i32,
}

impl ExecResult {
    /// The command exited with status zero.
    pub fn success(&self) -> (r: bool)
        ensures
            r == (self.exit_code == 0),
    {
        self.exit_code == 0
    }
}

} // verus!
