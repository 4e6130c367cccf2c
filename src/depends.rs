//! Reading what `scoop depends` prints: two header lines, then one
//! `<bucket> <name>` line per dependency.
use crate::channel::views_of;
use crate::model::{AppKey, ExecResult, ScoopApp};
use crate::text::{chars_of, contains_text, is_whitespace, is_ws, occurs_in};
use vstd::prelude::*;
use vstd::string::StringExecFns;

verus! {

/// Printed by Scoop in place of a listing when an app has no manifest.
pub const MANIFEST_MISSING: &'static str = "Couldn't find manifest for";

/// The tokens of a line, with `cur` the token being read, if any.
pub open spec fn flush(toks: Seq<Seq<char>>, cur: Seq<char>) -> Seq<Seq<char>> {
    if cur.len() > 0 {
        toks.push(cur)
    } else {
        toks
    }
}

/// Reading `s` from the left: the lines so far (each as its whitespace-separated
/// tokens), the tokens of the current line, and the current token.
pub open spec fn scan(s: Seq<char>) -> (Seq<Seq<Seq<char>>>, Seq<Seq<char>>, Seq<char>)
    decreases s.len(),
{
    if s.len() == 0 {
        (seq![], seq![], seq![])
    } else {
        let prev = scan(s.drop_last());
        let ch = s.last();
        if ch == '\n' {
            (prev.0.push(flush(prev.1, prev.2)), seq![], seq![])
        } else if is_ws(ch) {
            (prev.0, flush(prev.1, prev.2), seq![])
        } else {
            (prev.0, prev.1, prev.2.push(ch))
        }
    }
}

/// The lines of `s`, each as its whitespace-separated tokens.
pub open spec fn line_tokens(s: Seq<char>) -> Seq<Seq<Seq<char>>> {
    let st = scan(s);
    st.0.push(flush(st.1, st.2))
}

/// `nb` with `line` added where it is not blank.
pub open spec fn add_line(nb: Seq<Seq<Seq<char>>>, line: Seq<Seq<char>>) -> Seq<Seq<Seq<char>>> {
    if line.len() > 0 {
        nb.push(line)
    } else {
        nb
    }
}

/// The lines that hold at least one token.
pub open spec fn nonblank(ls: Seq<Seq<Seq<char>>>) -> Seq<Seq<Seq<char>>>
    decreases ls.len(),
{
    if ls.len() == 0 {
        seq![]
    } else {
        add_line(nonblank(ls.drop_last()), ls.last())
    }
}

/// The non-blank lines after the two header lines.
pub open spec fn rows_after_header(nb: Seq<Seq<Seq<char>>>) -> Seq<Seq<Seq<char>>> {
    if nb.len() <= 2 {
        seq![]
    } else {
        nb.skip(2)
    }
}

/// The dependency rows of a listing.
pub open spec fn dependency_rows(s: Seq<char>) -> Seq<Seq<Seq<char>>> {
    rows_after_header(nonblank(line_tokens(s)))
}

/// Every row holds exactly a bucket and a name.
pub open spec fn rows_ok(rows: Seq<Seq<Seq<char>>>) -> bool {
    forall|i: int| 0 <= i < rows.len() ==> (#[trigger] rows[i]).len() == 2
}

pub open spec fn row_app(row: Seq<Seq<char>>) -> AppKey {
    (row[0], row[1])
}

pub open spec fn apps_view(v: Seq<ScoopApp>) -> Seq<AppKey> {
    v.map_values(|a: ScoopApp| a@)
}

/// Why the dependencies of one app could not be read.
#[derive(Debug)]
pub enum DependsError {
    /// The command exited with a non-zero status.
    CommandFailed { stderr: String },
    /// Scoop knows no manifest for the app.
    ManifestMissing { stderr: String },
    /// A line after the header is not `<bucket> <name>`.
    BadLine,
}

struct RowReader {
    headers: usize,
    apps: Vec<ScoopApp>,
    bad: bool,
}

impl RowReader {
    /// The reader has taken the non-blank lines `nb`.
    spec fn holds(&self, nb: Seq<Seq<Seq<char>>>) -> bool {
        &&& self.headers as int == if nb.len() < 2 {
            nb.len() as int
        } else {
            2
        }
        &&& self.bad == !rows_ok(rows_after_header(nb))
        &&& !self.bad ==> apps_view(self.apps@) == rows_after_header(nb).map_values(
            |r: Seq<Seq<char>>| row_app(r),
        )
    }

    fn take_line(&mut self, line: Vec<String>, Ghost(nb): Ghost<Seq<Seq<Seq<char>>>>)
        requires
            old(self).holds(nb),
        ensures
            final(self).holds(add_line(nb, views_of(line@))),
    {
        let ghost lv = views_of(line@);
        if line.len() == 0 {
            assert(add_line(nb, lv) == nb);
            return ;
        }
        let ghost nb2 = nb.push(lv);
        assert(add_line(nb, lv) == nb2);
        if self.headers < 2 {
            self.headers = self.headers + 1;
            assert(rows_after_header(nb2) =~= rows_after_header(nb));
            return ;
        }
        let ghost rows = rows_after_header(nb);
        assert(rows_after_header(nb2) =~= rows.push(lv));
        assert(lv.len() == line@.len());
        if line.len() == 2 {
            if !self.bad {
                let ghost before = self.apps@;
                let a = ScoopApp::new(line[0].clone(), line[1].clone());
                assert(a@ == row_app(lv));
                self.apps.push(a);
                assert(apps_view(self.apps@) =~= apps_view(before).push(row_app(lv)));
                assert(apps_view(self.apps@) =~= rows_after_header(nb2).map_values(
                    |r: Seq<Seq<char>>| row_app(r),
                ));
            }
            assert(rows_ok(rows.push(lv)) == rows_ok(rows)) by {
                if rows_ok(rows) {
                    assert forall|k: int| 0 <= k < rows.push(lv).len() implies (
                    #[trigger] rows.push(lv)[k]).len() == 2 by {
                        if k < rows.len() {
                            assert(rows.push(lv)[k] == rows[k]);
                        }
                    }
                } else {
                    let k = choose|k: int| 0 <= k < rows.len() && (#[trigger] rows[k]).len() != 2;
                    assert(rows.push(lv)[k] == rows[k]);
                }
            }
        } else {
            self.bad = true;
            assert(rows_after_header(nb2)[rows_after_header(nb2).len() - 1].len() != 2);
        }
    }
}

proof fn lemma_nonblank_push(ls: Seq<Seq<Seq<char>>>, line: Seq<Seq<char>>)
    ensures
        nonblank(ls.push(line)) == add_line(nonblank(ls), line),
{
    assert(ls.push(line).drop_last() =~= ls);
}

/// Reads the rows of a dependency listing; `None` where a row is not
/// `<bucket> <name>`.
pub fn dependency_listing(text: &str) -> (r: Option<Vec<ScoopApp>>)
    ensures
        r is Some <==> rows_ok(dependency_rows(text@)),
        r matches Some(v) ==> apps_view(v@) == dependency_rows(text@).map_values(
            |row: Seq<Seq<char>>| row_app(row),
        ),
{
    let v = chars_of(text);
    let mut reader = RowReader { headers: 0, apps: Vec::new(), bad: false };
    let mut toks: Vec<String> = Vec::new();
    let mut cur = String::new();
    let mut i: usize = 0;
    proof {
        assert(v@.take(0) =~= seq![]);
        assert(nonblank(scan(v@.take(0)).0) =~= seq![]);
        assert(apps_view(reader.apps@) =~= seq![]);
        let e: Seq<Seq<Seq<char>>> = seq![];
        assert(rows_after_header(e).map_values(|r: Seq<Seq<char>>| row_app(r)) =~= seq![]);
        assert(reader.holds(e));
    }
    while i < v.len()
        invariant
            i <= v@.len(),
            v@ == text@,
            views_of(toks@) == scan(v@.take(i as int)).1,
            cur@ == scan(v@.take(i as int)).2,
            reader.holds(nonblank(scan(v@.take(i as int)).0)),
        decreases v@.len() - i,
    {
        let ch = v[i];
        let ghost pre = scan(v@.take(i as int));
        assert(v@.take(i + 1).drop_last() =~= v@.take(i as int));
        if ch == '\n' || is_whitespace(ch) {
            if !cur.as_str().is_empty() {
                let t = cur;
                toks.push(t);
                assert(views_of(toks@) =~= flush(pre.1, pre.2));
            } else {
                assert(views_of(toks@) =~= flush(pre.1, pre.2));
            }
            cur = String::new();
            if ch == '\n' {
                let line = toks;
                toks = Vec::new();
                proof {
                    lemma_nonblank_push(pre.0, flush(pre.1, pre.2));
                }
                reader.take_line(line, Ghost(nonblank(pre.0)));
                assert(views_of(toks@) =~= seq![]);
            }
        } else {
            cur.push(ch);
        }
        i = i + 1;
    }
    let ghost st = scan(v@.take(i as int));
    assert(v@.take(i as int) =~= text@);
    if !cur.as_str().is_empty() {
        let t = cur;
        toks.push(t);
    }
    assert(views_of(toks@) =~= flush(st.1, st.2));
    proof {
        lemma_nonblank_push(st.0, flush(st.1, st.2));
    }
    reader.take_line(toks, Ghost(nonblank(st.0)));
    if reader.bad {
        None
    } else {
        Some(reader.apps)
    }
}

/// The direct dependencies that one `scoop depends` run reports.
pub fn parse_dependencies(result: &ExecResult) -> (r: Result<Vec<ScoopApp>, DependsError>)
    ensures
        result.exit_code != 0 ==> (r matches Err(DependsError::CommandFailed { stderr })
            && stderr@ == result.stderr@),
        result.exit_code == 0 && occurs_in(result.stdout@, MANIFEST_MISSING@) ==> (r matches Err(
            DependsError::ManifestMissing { stderr },
        ) && stderr@ == result.stderr@),
        result.exit_code == 0 && !occurs_in(result.stdout@, MANIFEST_MISSING@) ==> {
            let rows = dependency_rows(result.stdout@);
            &&& (r is Ok <==> rows_ok(rows))
            &&& (r is Err ==> r matches Err(DependsError::BadLine))
            &&& (r matches Ok(v) ==> apps_view(v@) == rows.map_values(
                |row: Seq<Seq<char>>| row_app(row),
            ))
        },
{
    if result.exit_code != 0 {
        return Err(DependsError::CommandFailed { stderr: result.stderr.clone() });
    }
    if contains_text(result.stdout.as_str(), MANIFEST_MISSING) {
        return Err(DependsError::ManifestMissing { stderr: result.stderr.clone() });
    }
    match dependency_listing(result.stdout.as_str()) {
        Some(v) => Ok(v),
        None => Err(DependsError::BadLine),
    }
}

} // verus!
