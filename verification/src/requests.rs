//! Request building and small client-side rules: splitting an
//! `owner/repo` specification, assembling request paths and query
//! parameters, decimal page numbers, and the configuration file naming
//! rules. The transport that sends these requests is a collaborator; what
//! it is asked is decided, and verified, here.

use vstd::prelude::*;

use crate::value::push_char;

verus! {

/// An authenticated user, as the metadata endpoint reports it.
#[derive(Clone, Debug)]
pub struct User {
    pub login: String,
    pub id: u64,
}

/// A repository specification that is not of the form `owner/name` with
/// both parts nonempty.
#[derive(Clone, Copy, Debug, PartialEq, Eq, Structural)]
pub enum RepoSpecError {
    Malformed,
}

/// The position of the first slash, from position `j` on.
pub open spec fn slash_from(s: Seq<char>, j: int) -> Option<int>
    decreases s.len() - j,
{
    if j < 0 || j >= s.len() {
        None
    } else if s[j] == '/' {
        Some(j)
    } else {
        slash_from(s, j + 1)
    }
}

/// Whether a repository specification is well-formed: a first slash with a
/// nonempty owner before it and a nonempty name after it.
pub open spec fn repo_spec_ok(s: Seq<char>) -> bool {
    match slash_from(s, 0) {
        Some(p) => 0 < p < s.len() - 1,
        None => false,
    }
}

/// Splits `owner/name` at the first slash. The owner is everything before
/// it and the name everything after it; an absent slash, an empty owner or
/// an empty name is an error.
#[verifier::loop_isolation(false)]
pub fn split_repo(s: &str) -> (r: Result<(String, String), RepoSpecError>)
    ensures
        r is Ok <==> repo_spec_ok(s@),
        r matches Ok((owner, name)) ==> {
            let p = slash_from(s@, 0).unwrap();
            owner@ == s@.take(p) && name@ == s@.skip(p + 1)
        },
{
    let n = s.unicode_len();
    let mut j: usize = 0;
    while j < n
        invariant
            j <= n,
            n == s@.len(),
            slash_from(s@, 0) == slash_from(s@, j as int),
        decreases n - j,
    {
        if s.get_char(j) == '/' {
            if j == 0 || j + 1 >= n {
                return Err(RepoSpecError::Malformed);
            }
            let owner = s.substring_char(0, j);
            let name = s.substring_char(j + 1, n);
            proof {
                assert(s@.take(j as int) =~= s@.subrange(0, j as int));
                assert(s@.skip(j as int + 1) =~= s@.subrange(j as int + 1, n as int));
            }
            return Ok((owner.to_owned(), name.to_owned()));
        }
        j = j + 1;
    }
    Err(RepoSpecError::Malformed)
}

/// The character of one decimal digit.
pub open spec fn dec_digit(d: int) -> char {
    if d == 0 {
        '0'
    } else if d == 1 {
        '1'
    } else if d == 2 {
        '2'
    } else if d == 3 {
        '3'
    } else if d == 4 {
        '4'
    } else if d == 5 {
        '5'
    } else if d == 6 {
        '6'
    } else if d == 7 {
        '7'
    } else if d == 8 {
        '8'
    } else {
        '9'
    }
}

/// The decimal text of a number, most significant digit first.
pub open spec fn dec_str(n: nat) -> Seq<char>
    decreases n,
{
    if n < 10 {
        seq![dec_digit(n as int)]
    } else {
        dec_str(n / 10).push(dec_digit((n % 10) as int))
    }
}

/// Appends the decimal text of `n`.
fn push_dec(n: u64, out: &mut String)
    ensures
        final(out)@ == old(out)@ + dec_str(n as nat),
    decreases n,
{
    if n >= 10 {
        push_dec(n / 10, out);
    }
    let m = n % 10;
    let c = if m == 0 {
        '0'
    } else if m == 1 {
        '1'
    } else if m == 2 {
        '2'
    } else if m == 3 {
        '3'
    } else if m == 4 {
        '4'
    } else if m == 5 {
        '5'
    } else if m == 6 {
        '6'
    } else if m == 7 {
        '7'
    } else if m == 8 {
        '8'
    } else {
        '9'
    };
    push_char(out, c);
    proof {
        assert(c == dec_digit((n % 10) as int));
        if n < 10 {
            assert(dec_str(n as nat) =~= seq![dec_digit(n as int)]);
            assert(out@ =~= old(out)@ + dec_str(n as nat));
        } else {
            assert(out@ =~= old(out)@ + dec_str(n as nat));
        }
    }
}

/// The decimal text of a number.
pub fn u64_to_string(n: u64) -> (r: String)
    ensures
        r@ == dec_str(n as nat),
{
    let mut out = String::new();
    push_dec(n, &mut out);
    proof {
        assert(Seq::<char>::empty() + dec_str(n as nat) =~= dec_str(n as nat));
    }
    out
}

/// A query parameter contributed by an optional filter: one `(name,
/// value)` pair when the filter is given, nothing otherwise.
pub open spec fn opt_param(name: Seq<char>, v: Option<Seq<char>>) -> Seq<(Seq<char>, Seq<char>)> {
    match v {
        Some(x) => seq![(name, x)],
        None => Seq::empty(),
    }
}

/// The spec view of an optional string filter.
pub open spec fn opt_str(o: Option<&str>) -> Option<Seq<char>> {
    match o {
        Some(s) => Some(s@),
        None => None,
    }
}

/// Appends one optional query parameter.
pub fn push_param(params: &mut Vec<(String, String)>, name: &str, value: Option<&str>)
    ensures
        final(params).deep_view() == old(params).deep_view() + opt_param(name@, opt_str(value)),
{
    let ghost prev = params.deep_view();
    match value {
        Some(v) => {
            params.push((name.to_owned(), v.to_owned()));
            proof {
                assert(params.deep_view() =~= prev.push((name@, v@)));
                assert(prev.push((name@, v@)) =~= prev + opt_param(name@, opt_str(value)));
            }
        },
        None => {
            proof {
                assert(params.deep_view() =~= prev + opt_param(name@, opt_str(value)));
            }
        },
    }
}

/// Appends the pagination parameters: the page size and the page number,
/// in decimal.
pub fn push_paging(params: &mut Vec<(String, String)>, per_page: u64, page: u64)
    ensures
        final(params).deep_view() == old(params).deep_view() + seq![
            ("per_page"@, dec_str(per_page as nat)),
            ("page"@, dec_str(page as nat)),
        ],
{
    let ghost prev = params.deep_view();
    params.push(("per_page".to_owned(), u64_to_string(per_page)));
    let ghost mid = params.deep_view();
    params.push(("page".to_owned(), u64_to_string(page)));
    proof {
        assert(mid =~= prev.push(("per_page"@, dec_str(per_page as nat))));
        assert(params.deep_view() =~= mid.push(("page"@, dec_str(page as nat))));
        assert(params.deep_view() =~= prev + seq![
            ("per_page"@, dec_str(per_page as nat)),
            ("page"@, dec_str(page as nat)),
        ]);
    }
}

/// The request path for an organization's repository listing.
pub fn org_repos_request(org: &str, kind: Option<&str>) -> (r: (String, Vec<(String, String)>))
    ensures
        r.0@ == "/orgs/"@ + org@ + "/repos"@,
        r.1.deep_view() == opt_param("type"@, opt_str(kind)),
{
    let mut path = "/orgs/".to_owned();
    path.append(org);
    path.append("/repos");
    let mut params: Vec<(String, String)> = Vec::new();
    proof {
        assert(params.deep_view() =~= Seq::<(Seq<char>, Seq<char>)>::empty());
    }
    push_param(&mut params, "type", kind);
    proof {
        assert(Seq::<(Seq<char>, Seq<char>)>::empty() + opt_param("type"@, opt_str(kind))
            =~= opt_param("type"@, opt_str(kind)));
    }
    (path, params)
}

/// A repository-scoped request path: `/repos/{owner}/{repo}` followed by a
/// suffix.
fn repo_path(owner: &str, repo: &str, suffix: &str) -> (r: String)
    ensures
        r@ == "/repos/"@ + owner@ + "/"@ + repo@ + suffix@,
{
    let mut path = "/repos/".to_owned();
    path.append(owner);
    path.append("/");
    path.append(repo);
    path.append(suffix);
    proof {
        assert(path@ =~= "/repos/"@ + owner@ + "/"@ + repo@ + suffix@);
    }
    path
}

/// The request for a repository's issues, with its optional filters in a
/// fixed order.
pub fn repo_issues_request(
    owner: &str,
    repo: &str,
    state: Option<&str>,
    labels: Option<&str>,
    assignee: Option<&str>,
    milestone: Option<&str>,
    since: Option<&str>,
) -> (r: (String, Vec<(String, String)>))
    ensures
        r.0@ == "/repos/"@ + owner@ + "/"@ + repo@ + "/issues"@,
        r.1.deep_view() == opt_param("state"@, opt_str(state)) + opt_param(
            "labels"@,
            opt_str(labels),
        ) + opt_param("assignee"@, opt_str(assignee)) + opt_param(
            "milestone"@,
            opt_str(milestone),
        ) + opt_param("since"@, opt_str(since)),
{
    let path = repo_path(owner, repo, "/issues");
    let mut params: Vec<(String, String)> = Vec::new();
    proof {
        assert(params.deep_view() =~= Seq::<(Seq<char>, Seq<char>)>::empty());
    }
    push_param(&mut params, "state", state);
    push_param(&mut params, "labels", labels);
    push_param(&mut params, "assignee", assignee);
    push_param(&mut params, "milestone", milestone);
    push_param(&mut params, "since", since);
    proof {
        assert(params.deep_view() =~= opt_param("state"@, opt_str(state)) + opt_param(
            "labels"@,
            opt_str(labels),
        ) + opt_param("assignee"@, opt_str(assignee)) + opt_param(
            "milestone"@,
            opt_str(milestone),
        ) + opt_param("since"@, opt_str(since)));
    }
    (path, params)
}

/// The request for a repository's pull requests.
pub fn repo_pulls_request(owner: &str, repo: &str, state: Option<&str>, draft: Option<bool>, base: Option<&str>) -> (r: (
    String,
    Vec<(String, String)>,
))
    ensures
        r.0@ == "/repos/"@ + owner@ + "/"@ + repo@ + "/pulls"@,
        r.1.deep_view() == opt_param("state"@, opt_str(state)) + (match draft {
            Some(true) => seq![("draft"@, "true"@)],
            Some(false) => seq![("draft"@, "false"@)],
            None => Seq::<(Seq<char>, Seq<char>)>::empty(),
        }) + opt_param("base"@, opt_str(base)),
{
    let path = repo_path(owner, repo, "/pulls");
    let mut params: Vec<(String, String)> = Vec::new();
    proof {
        assert(params.deep_view() =~= Seq::<(Seq<char>, Seq<char>)>::empty());
    }
    push_param(&mut params, "state", state);
    match draft {
        Some(d) => {
            if d {
                push_param(&mut params, "draft", Some("true"));
            } else {
                push_param(&mut params, "draft", Some("false"));
            }
        },
        None => {},
    }
    push_param(&mut params, "base", base);
    proof {
        assert(params.deep_view() =~= opt_param("state"@, opt_str(state)) + (match draft {
            Some(true) => seq![("draft"@, "true"@)],
            Some(false) => seq![("draft"@, "false"@)],
            None => Seq::<(Seq<char>, Seq<char>)>::empty(),
        }) + opt_param("base"@, opt_str(base)));
    }
    (path, params)
}

/// The request path for a repository's workflow listing.
pub fn repo_workflows_request(owner: &str, repo: &str) -> (r: String)
    ensures
        r@ == "/repos/"@ + owner@ + "/"@ + repo@ + "/actions/workflows"@,
{
    repo_path(owner, repo, "/actions/workflows")
}

/// The request for a repository's workflow runs.
pub fn repo_workflow_runs_request(
    owner: &str,
    repo: &str,
    branch: Option<&str>,
    status: Option<&str>,
    conclusion: Option<&str>,
) -> (r: (String, Vec<(String, String)>))
    ensures
        r.0@ == "/repos/"@ + owner@ + "/"@ + repo@ + "/actions/runs"@,
        r.1.deep_view() == opt_param("branch"@, opt_str(branch)) + opt_param(
            "status"@,
            opt_str(status),
        ) + opt_param("conclusion"@, opt_str(conclusion)),
{
    let path = repo_path(owner, repo, "/actions/runs");
    let mut params: Vec<(String, String)> = Vec::new();
    proof {
        assert(params.deep_view() =~= Seq::<(Seq<char>, Seq<char>)>::empty());
    }
    push_param(&mut params, "branch", branch);
    push_param(&mut params, "status", status);
    push_param(&mut params, "conclusion", conclusion);
    proof {
        assert(params.deep_view() =~= opt_param("branch"@, opt_str(branch)) + opt_param(
            "status"@,
            opt_str(status),
        ) + opt_param("conclusion"@, opt_str(conclusion)));
    }
    (path, params)
}

/// The request for a repository's security alerts of one service: the
/// service's path suffix and its two optional filters.
pub fn repo_alerts_request(
    owner: &str,
    repo: &str,
    suffix: &str,
    first_name: &str,
    first: Option<&str>,
    second_name: &str,
    second: Option<&str>,
) -> (r: (String, Vec<(String, String)>))
    ensures
        r.0@ == "/repos/"@ + owner@ + "/"@ + repo@ + suffix@,
        r.1.deep_view() == opt_param(first_name@, opt_str(first)) + opt_param(
            second_name@,
            opt_str(second),
        ),
{
    let path = repo_path(owner, repo, suffix);
    let mut params: Vec<(String, String)> = Vec::new();
    proof {
        assert(params.deep_view() =~= Seq::<(Seq<char>, Seq<char>)>::empty());
    }
    push_param(&mut params, first_name, first);
    push_param(&mut params, second_name, second);
    proof {
        assert(params.deep_view() =~= opt_param(first_name@, opt_str(first)) + opt_param(
            second_name@,
            opt_str(second),
        ));
    }
    (path, params)
}

/// The default API base address.
pub fn default_api_url() -> (r: String)
    ensures
        r@ == "https://api.github.com"@,
{
    "https://api.github.com".to_owned()
}

/// The default output format name.
pub fn default_output_format() -> (r: String)
    ensures
        r@ == "table"@,
{
    "table".to_owned()
}

/// The credential-store service name for one host.
pub fn key_service(host: &str) -> (r: String)
    ensures
        r@ == "gh-otco::"@ + host@,
{
    let mut s = "gh-otco::".to_owned();
    s.append(host);
    s
}

} // verus!
