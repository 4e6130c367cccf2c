//! The request/response framing used to run many commands, one after the
//! other, in one PowerShell session.
use crate::model::ExecResult;
use crate::text::{
    chars_of, find_last, has_char, i32_or_minus_one, occurs_at, occurs_in, parse_i32_or_minus_one,
    string_of, trim, trim_end, trim_end_pos, trim_start_pos, trimmed, trimmed_end,
};
use vstd::prelude::*;
use vstd::string::StringExecFns;

verus! {

/// The line that closes a command's output on both streams.
pub const END_MARKER: &'static str = "----------END_OF_COMMAND----------";

/// The tag in front of the exit status on standard output.
pub const EXIT_TAG: &'static str = "EXIT_CODE:";

/// What follows a command in the batch written to the session: keep its exit
/// status, print it after the tag, then close both streams with the marker.
pub const FRAME_SUFFIX: &'static str = "\n$exitCode = $LASTEXITCODE\n[Console]::Out.WriteLine(\"EXIT_CODE:$exitCode\")\n[Console]::Out.WriteLine('----------END_OF_COMMAND----------')\n[Console]::Error.WriteLine('----------END_OF_COMMAND----------')\n";

/// The arguments `parts` joined with `sep` between each two.
pub open spec fn joined(parts: Seq<Seq<char>>, sep: Seq<char>) -> Seq<char>
    decreases parts.len(),
{
    if parts.len() == 0 {
        seq![]
    } else if parts.len() == 1 {
        parts[0]
    } else {
        parts[0] + sep + joined(parts.drop_first(), sep)
    }
}

pub open spec fn views_of(v: Seq<String>) -> Seq<Seq<char>> {
    v.map_values(|s: String| s@)
}

/// How one argument is written on the command line.
pub open spec fn quoted(s: Seq<char>) -> Seq<char> {
    if s.contains('"') {
        seq!['\''] + s + seq!['\'']
    } else if s.contains(' ') || s.contains('\'') {
        seq!['"'] + s + seq!['"']
    } else {
        s
    }
}

/// The command line for `args`: each argument quoted, single spaces between.
pub open spec fn command_line_of(args: Seq<Seq<char>>) -> Seq<char> {
    joined(args.map_values(|a: Seq<char>| quoted(a)), seq![' '])
}

/// Relies on itertools::join: the items' text, with `sep` between each two.
#[verifier::external_body]
fn join_with(items: &Vec<String>, sep: &str) -> (r: String)
    ensures
        r@ == joined(views_of(items@), sep@),
{
    itertools::join(items, sep)
}

/// Writes `arg` for the session's command line: in single quotes where it holds
/// a double quote, in double quotes where it holds a space or a single quote.
pub fn quote_arg(arg: &str) -> (r: String)
    ensures
        r@ == quoted(arg@),
{
    proof {
        reveal_strlit("'");
        reveal_strlit("\"");
    }
    if has_char(arg, '"') {
        let mut r = String::from_str("'");
        r.append(arg);
        r.append("'");
        r
    } else if has_char(arg, ' ') || has_char(arg, '\'') {
        let mut r = String::from_str("\"");
        r.append(arg);
        r.append("\"");
        r
    } else {
        String::from_str(arg)
    }
}

/// The command line that runs `args` in the session.
pub fn command_line(args: &Vec<String>) -> (r: String)
    ensures
        r@ == command_line_of(views_of(args@)),
{
    let mut quoted_args: Vec<String> = Vec::new();
    let mut i: usize = 0;
    while i < args.len()
        invariant
            i <= args@.len(),
            quoted_args@.len() == i,
            forall|j: int| 0 <= j < i ==> (#[trigger] quoted_args@[j])@ == quoted(args@[j]@),
        decreases args@.len() - i,
    {
        let q = quote_arg(args[i].as_str());
        quoted_args.push(q);
        i = i + 1;
    }
    proof {
        reveal_strlit(" ");
    }
    let r = join_with(&quoted_args, " ");
    assert(" "@ =~= seq![' ']);
    assert(views_of(quoted_args@) =~= views_of(args@).map_values(|a: Seq<char>| quoted(a)));
    r
}

/// The batch written to the session for one command line.
pub fn frame_command(command: &str) -> (r: String)
    ensures
        r@ == command@ + FRAME_SUFFIX@,
{
    let mut r = String::from_str(command);
    r.append(FRAME_SUFFIX);
    r
}

/// Whether a line read from the session is the closing marker.
pub fn is_end_marker(line: &str) -> (r: bool)
    ensures
        r == (trim(line@) == END_MARKER@),
{
    let t = trimmed(line);
    let m = String::from_str(END_MARKER);
    t == m
}

/// `p` is the last position at which `t` occurs in `s`.
pub open spec fn last_at(s: Seq<char>, t: Seq<char>, p: int) -> bool {
    occurs_at(s, t, p) && forall|q: int| p < q ==> !occurs_at(s, t, q)
}

/// The session lost track of where a command's output ends.
#[derive(Debug)]
pub struct ProtocolDesync {
    pub stdout: String,
}

/// The result of one command, from what was read off both streams up to the
/// marker: the exit status follows the last tag on standard output, and that
/// tag and what follows it are cut away.
pub fn finish_exec(stdout_raw: &str, stderr_raw: &str) -> (r: Result<ExecResult, ProtocolDesync>)
    ensures
        r is Err <==> !occurs_in(stdout_raw@, EXIT_TAG@),
        r matches Err(e) ==> e.stdout@ == stdout_raw@,
        forall|p: int|
            last_at(stdout_raw@, EXIT_TAG@, p) ==> (r matches Ok(x) && x.stdout@ == trim_end(
                stdout_raw@.take(p),
            ) && x.stderr@ == trim_end(stderr_raw@) && x.exit_code == i32_or_minus_one(
                trim(stdout_raw@.skip(p + EXIT_TAG@.len())),
            )),
{
    let v = chars_of(stdout_raw);
    let tag = chars_of(EXIT_TAG);
    match find_last(&v, &tag) {
        None => Err(ProtocolDesync { stdout: String::from_str(stdout_raw) }),
        Some(p) => {
            let n = v.len();
            let code_end = trim_end_pos(&v, p + tag.len(), n);
            let code_start = trim_start_pos(&v, p + tag.len(), code_end);
            let exit_code = parse_i32_or_minus_one(&v, code_start, code_end);
            let out_end = trim_end_pos(&v, 0, p);
            let stdout = string_of(&v, 0, out_end);
            let stderr = trimmed_end(stderr_raw);
            proof {
                let rest = v@.subrange(p + tag@.len(), n as int);
                assert(rest =~= stdout_raw@.skip(p + EXIT_TAG@.len()));
                assert(v@.subrange(p + tag@.len(), code_end as int) =~= trim_end(rest));
                assert(v@.subrange(code_start as int, code_end as int) =~= trim(rest));
                assert(v@.subrange(0, p as int) =~= stdout_raw@.take(p as int));
                assert(stdout@ =~= trim_end(stdout_raw@.take(p as int)));
                assert forall|q: int| last_at(stdout_raw@, EXIT_TAG@, q) implies q == p by {
                    if q < p {
                        assert(!last_at(stdout_raw@, EXIT_TAG@, q));
                    }
                }
            }
            Ok(ExecResult { stdout, stderr, exit_code })
        },
    }
}

/// The PowerShell script path of Scoop under the user's home directory.
pub fn scoop_script_path(home_dir: &str) -> (r: String)
    ensures
        r@ == trim(home_dir@) + "\\scoop\\apps\\scoop\\current\\bin\\scoop.ps1"@,
{
    let mut r = trimmed(home_dir);
    r.append("\\scoop\\apps\\scoop\\current\\bin\\scoop.ps1");
    r
}

/// The session's arguments that run Scoop with `args`: the call operator, the
/// script, then `args`.
pub fn scoop_command(script_path: &str, args: &Vec<String>) -> (r: Vec<String>)
    ensures
        views_of(r@) == seq!["&"@, script_path@] + views_of(args@),
{
    let mut r: Vec<String> = Vec::new();
    r.push(String::from_str("&"));
    r.push(String::from_str(script_path));
    let mut i: usize = 0;
    while i < args.len()
        invariant
            i <= args@.len(),
            r@.len() == i + 2,
            r@[0]@ == "&"@,
            r@[1]@ == script_path@,
            forall|j: int| 0 <= j < i ==> (#[trigger] r@[j + 2])@ == args@[j]@,
        decreases args@.len() - i,
    {
        r.push(args[i].clone());
        i = i + 1;
    }
    let ghost want = seq!["&"@, script_path@] + views_of(args@);
    assert forall|j: int| 0 <= j < want.len() implies views_of(r@)[j] == want[j] by {
        if j >= 2 {
            assert(r@[(j - 2) + 2] == r@[j]);
        }
    }
    assert(views_of(r@) =~= want);
    r
}

/// The first position at or after `i` that holds `c`, or the length of `s`.
pub open spec fn find_char(s: Seq<char>, c: char, i: int) -> int
    decreases s.len() - i,
{
    if i < 0 || i >= s.len() {
        s.len() as int
    } else if s[i] == c {
        i
    } else {
        find_char(s, c, i + 1)
    }
}

/// How the session reads a command line back into words: spaces separate
/// words, and a word that starts with a quote runs to the matching quote.
pub open spec fn split_words(s: Seq<char>) -> Seq<Seq<char>>
    decreases s.len(),
{
    if s.len() == 0 {
        seq![]
    } else if s[0] == ' ' {
        split_words(s.drop_first())
    } else if s[0] == '"' || s[0] == '\'' {
        let e = find_char(s, s[0], 1);
        if 1 <= e < s.len() {
            seq![s.subrange(1, e)] + split_words(s.skip(e + 1))
        } else {
            seq![s.skip(1)]
        }
    } else {
        let e = find_char(s, ' ', 0);
        if 0 < e <= s.len() {
            seq![s.take(e)] + split_words(s.skip(e))
        } else {
            seq![s]
        }
    }
}

/// An argument that survives the command line: not empty, and not holding
/// both kinds of quote.
pub open spec fn carried_intact(a: Seq<char>) -> bool {
    a.len() > 0 && !(a.contains('"') && a.contains('\''))
}

proof fn lemma_find_char(s: Seq<char>, c: char, i: int, k: int)
    requires
        0 <= i <= k <= s.len(),
        forall|j: int| i <= j < k ==> s[j] != c,
        k == s.len() || s[k] == c,
    ensures
        find_char(s, c, i) == k,
    decreases k - i,
{
    if i < k {
        lemma_find_char(s, c, i + 1, k);
    }
}

/// A quoted argument followed by a space (or by nothing) reads back as that
/// argument.
proof fn lemma_quoted_word(a: Seq<char>, t: Seq<char>)
    requires
        carried_intact(a),
        t.len() == 0 || t[0] == ' ',
    ensures
        split_words(quoted(a) + t) == seq![a] + split_words(t),
{
    let w = quoted(a) + t;
    let n = a.len() as int;
    if a.contains('"') {
        assert(!a.contains('\''));
        assert(w[0] == '\'');
        assert forall|j: int| 1 <= j < n + 1 implies w[j] != '\'' by {
            assert(w[j] == a[j - 1]);
        }
        assert(w[n + 1] == '\'');
        lemma_find_char(w, '\'', 1, n + 1);
        assert(w.subrange(1, n + 1) =~= a);
        assert(w.skip(n + 2) =~= t);
    } else if a.contains(' ') || a.contains('\'') {
        assert(w[0] == '"');
        assert forall|j: int| 1 <= j < n + 1 implies w[j] != '"' by {
            assert(w[j] == a[j - 1]);
        }
        assert(w[n + 1] == '"');
        lemma_find_char(w, '"', 1, n + 1);
        assert(w.subrange(1, n + 1) =~= a);
        assert(w.skip(n + 2) =~= t);
    } else {
        assert(w[0] == a[0]);
        assert(a[0] != ' ' && a[0] != '"' && a[0] != '\'') by {
            assert(a.contains(a[0]));
        }
        assert forall|j: int| 0 <= j < a.len() implies w[j] != ' ' by {
            assert(w[j] == a[j]);
            if a[j] == ' ' {
                assert(a.contains(' '));
            }
        }
        if t.len() > 0 {
            assert(w[a.len() as int] == t[0]);
        }
        lemma_find_char(w, ' ', 0, a.len() as int);
        assert(w.take(a.len() as int) =~= a);
        assert(w.skip(a.len() as int) =~= t);
    }
}

/// Reading a command line back word by word gives the arguments again, for
/// arguments that are not empty and do not hold both kinds of quote.
pub proof fn lemma_command_line_round_trip(args: Seq<Seq<char>>)
    requires
        forall|i: int| 0 <= i < args.len() ==> carried_intact(#[trigger] args[i]),
    ensures
        split_words(command_line_of(args)) == args,
    decreases args.len(),
{
    let q = args.map_values(|a: Seq<char>| quoted(a));
    if args.len() == 0 {
        assert(command_line_of(args) =~= seq![]);
    } else if args.len() == 1 {
        assert(command_line_of(args) == quoted(args[0]));
        lemma_quoted_word(args[0], seq![]);
        assert(quoted(args[0]) + seq![] =~= quoted(args[0]));
        assert(split_words(seq![]) =~= Seq::<Seq<char>>::empty());
        assert(seq![args[0]] + Seq::<Seq<char>>::empty() =~= args);
    } else {
        let rest = args.drop_first();
        assert forall|i: int| 0 <= i < rest.len() implies carried_intact(#[trigger] rest[i]) by {
            assert(rest[i] == args[i + 1]);
        }
        lemma_command_line_round_trip(rest);
        assert(q.drop_first() =~= rest.map_values(|a: Seq<char>| quoted(a)));
        let tail = seq![' '] + command_line_of(rest);
        assert(command_line_of(args) =~= quoted(args[0]) + tail);
        lemma_quoted_word(args[0], tail);
        assert(tail.drop_first() =~= command_line_of(rest));
        assert(split_words(tail) == split_words(command_line_of(rest)));
        assert(seq![args[0]] + rest =~= args);
    }
}

} // verus!
