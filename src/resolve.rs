//! Deciding which merge request a fragment belongs to. The operator is asked
//! when the fragment's name does not settle it; the caller does the asking and
//! hands each answer back to these functions.

use vstd::prelude::*;
use crate::catalog::PullRequest;
use crate::host::{
    gitlab_merge_request_url, gitlab_shorthand, link_for_id, make_pull_request_link, Link,
    MergeError, RepositoryHost,
};
use crate::text::{all_digits, chars_of, decimal, parse_u64, parse_unsigned, string_of, trim, trim_of};

verus! {

/// Which answers a prompt accepts.
#[derive(Clone, Copy, Debug, PartialEq, Eq, Structural)]
pub enum Answer {
    /// Exactly `y` or `n`.
    YesNo,
    /// Any text that is not empty.
    NonEmpty,
}

pub open spec fn accepts(rule: Answer, t: Seq<char>) -> bool {
    match rule {
        Answer::YesNo => t == "y"@ || t == "n"@,
        Answer::NonEmpty => t.len() > 0,
    }
}

/// One round of a prompt: the operator's `line` is trimmed; an empty answer
/// takes `default` when there is one; an accepted answer is returned; anything
/// else gives `None`, and the prompt is asked again.
pub fn prompt_step(line: &str, default: Option<&str>, rule: Answer) -> (r: Option<String>)
    ensures
        ({
            let t = trim_of(line@);
            if t.len() == 0 && default is Some {
                r matches Some(s) && s@ == default->0@
            } else if accepts(rule, t) {
                r matches Some(s) && s@ == t
            } else {
                r is None
            }
        }),
{
    let t = trim(line);
    if t.as_str().is_empty() {
        if let Some(d) = default {
            return Some(d.to_owned());
        }
    }
    let ok = match rule {
        Answer::YesNo => t == "y".to_owned() || t == "n".to_owned(),
        Answer::NonEmpty => !t.as_str().is_empty(),
    };
    if ok {
        Some(t)
    } else {
        None
    }
}

/// The first catalog entry numbered `id`.
pub fn find_request(pull_requests: &Vec<PullRequest>, id: u64) -> (r: Option<usize>)
    ensures
        match r {
            Some(i) => i < pull_requests@.len() && pull_requests@[i as int].id == id && forall|
                j: int,
            |
                0 <= j < i ==> (#[trigger] pull_requests@[j]).id != id,
            None => forall|j: int|
                0 <= j < pull_requests@.len() ==> (#[trigger] pull_requests@[j]).id != id,
        },
{
    let mut i: usize = 0;
    while i < pull_requests.len()
        invariant
            i <= pull_requests@.len(),
            forall|j: int| 0 <= j < i ==> (#[trigger] pull_requests@[j]).id != id,
        decreases pull_requests.len() - i,
    {
        if pull_requests[i].id == id {
            return Some(i);
        }
        i = i + 1;
    }
    None
}

/// Where resolving a fragment's link stands.
#[derive(Debug)]
pub enum Resolution {
    /// The link is known.
    Resolved(Link),
    /// The fragment names request `id`, which the catalog does not list: ask
    /// the operator to confirm (`y`/`n`, default `y`), then use `link_for_id`.
    Confirm(u64),
    /// The name does not identify a request: show the fragment and the
    /// guesses, ask for a link, and pass it to `resolve_entered_link`.
    AskLink,
    /// The entered text is a full link: ask for the shorthand to show for it.
    AskShorthand(String),
}

/// What the first resolution step gives for the fragment `name`: a name that
/// is not a number asks for a link; a number listed in the catalog resolves
/// to the first such entry's shorthand and the request's URL (an error on
/// GitHub); an unlisted number asks for confirmation.
pub open spec fn resolves_to(
    name: Seq<char>,
    prs: Seq<PullRequest>,
    owner: Seq<char>,
    repo: Seq<char>,
    host: RepositoryHost,
    r: Result<Resolution, MergeError>,
) -> bool {
    match parse_u64(name) {
        None => r matches Ok(Resolution::AskLink),
        Some(id) => if exists|i: int|
            0 <= i < prs.len() && (#[trigger] prs[i]).id == id {
            if host == RepositoryHost::GitHub {
                r == Err::<Resolution, MergeError>(MergeError::UnimplementedHost)
            } else {
                exists|i: int|
                    0 <= i < prs.len() && (#[trigger] prs[i]).id == id
                        && (forall|j: int| 0 <= j < i ==> (#[trigger] prs[j]).id != id)
                        && (r matches Ok(Resolution::Resolved(l)) && l.shorthand@
                        == prs[i].link@ && l.full@ == gitlab_merge_request_url(
                        owner,
                        repo,
                        decimal(id as nat),
                    ))
            }
        } else {
            r matches Ok(Resolution::Confirm(k)) && k == id
        },
    }
}

/// The content of a resolution step's result, by views.
pub open spec fn resolution_view(r: Result<Resolution, MergeError>) -> (int, u64, (Seq<char>, Seq<char>)) {
    match r {
        Err(_) => (0, 0, (seq![], seq![])),
        Ok(Resolution::AskLink) => (1, 0, (seq![], seq![])),
        Ok(Resolution::Confirm(k)) => (2, k, (seq![], seq![])),
        Ok(Resolution::Resolved(l)) => (3, 0, l@),
        Ok(Resolution::AskShorthand(f)) => (4, 0, (f@, seq![])),
    }
}

/// Resolving the same fragment name against the same catalog and repository
/// twice gives the same step: the same link, the same question or the same
/// error; so runs with the same answers produce the same links.
pub proof fn law_resolution_deterministic(
    name: Seq<char>,
    prs: Seq<PullRequest>,
    owner: Seq<char>,
    repo: Seq<char>,
    host: RepositoryHost,
    r1: Result<Resolution, MergeError>,
    r2: Result<Resolution, MergeError>,
)
    requires
        resolves_to(name, prs, owner, repo, host, r1),
        resolves_to(name, prs, owner, repo, host, r2),
    ensures
        resolution_view(r1) == resolution_view(r2),
        r1 is Err ==> r1 == r2,
{
    if let Some(id) = parse_u64(name) {
        if host != RepositoryHost::GitHub && exists|i: int| 0 <= i < prs.len() && (#[trigger] prs[i]).id == id {
            let i1 = choose|i: int|
                0 <= i < prs.len() && (#[trigger] prs[i]).id == id && (forall|j: int|
                    0 <= j < i ==> (#[trigger] prs[j]).id != id) && (r1 matches Ok(
                    Resolution::Resolved(l),
                ) && l.shorthand@ == prs[i].link@ && l.full@ == gitlab_merge_request_url(
                    owner,
                    repo,
                    decimal(id as nat),
                ));
            let i2 = choose|i: int|
                0 <= i < prs.len() && (#[trigger] prs[i]).id == id && (forall|j: int|
                    0 <= j < i ==> (#[trigger] prs[j]).id != id) && (r2 matches Ok(
                    Resolution::Resolved(l),
                ) && l.shorthand@ == prs[i].link@ && l.full@ == gitlab_merge_request_url(
                    owner,
                    repo,
                    decimal(id as nat),
                ));
            if i1 < i2 {
                assert(prs[i1].id != id);
            } else if i2 < i1 {
                assert(prs[i2].id != id);
            }
        }
    }
}

/// First step for the fragment called `name`. A name that reads as a number
/// is looked up in the catalog; a listed one resolves at once.
pub fn resolve_changelog_pr(
    name: &str,
    pull_requests: &Vec<PullRequest>,
    repo_owner: &str,
    repo_name: &str,
    host: RepositoryHost,
) -> (r: Result<Resolution, MergeError>)
    requires
        host != RepositoryHost::Infer,
    ensures
        resolves_to(name@, pull_requests@, repo_owner@, repo_name@, host, r),
{
    match parse_unsigned(name) {
        None => Ok(Resolution::AskLink),
        Some(id) => match find_request(pull_requests, id) {
            None => Ok(Resolution::Confirm(id)),
            Some(i) => {
                let digits = crate::text::unsigned_to_string(id);
                let link = pull_requests[i].link.clone();
                let l = make_pull_request_link(digits, link, host, repo_owner, repo_name)?;
                Ok(Resolution::Resolved(l))
            },
        },
    }
}

/// Whether `t` is GitLab's shorthand for a merge request: `!` and digits.
pub open spec fn is_gitlab_shorthand(t: Seq<char>) -> bool {
    t.len() >= 2 && t[0] == '!' && all_digits(t.drop_first())
}

/// Second step after `AskLink`: the operator entered `entered`. A GitLab
/// shorthand resolves to that merge request; anything else is a full link
/// that still needs a shorthand.
pub fn resolve_entered_link(
    entered: String,
    repo_owner: &str,
    repo_name: &str,
    host: RepositoryHost,
) -> (r: Result<Resolution, MergeError>)
    requires
        host != RepositoryHost::Infer,
    ensures
        host == RepositoryHost::GitHub ==> r == Err::<Resolution, MergeError>(
            MergeError::UnimplementedHost,
        ),
        host == RepositoryHost::GitLab ==> if is_gitlab_shorthand(entered@) {
            r matches Ok(Resolution::Resolved(l)) && l.shorthand@ == entered@ && l.full@
                == gitlab_merge_request_url(repo_owner@, repo_name@, entered@.drop_first())
        } else {
            r matches Ok(Resolution::AskShorthand(f)) && f@ == entered@
        },
{
    if host == RepositoryHost::GitHub {
        return Err(MergeError::UnimplementedHost);
    }
    let cs = chars_of(entered.as_str());
    if cs.len() == 0 {
        return Ok(Resolution::AskShorthand(entered));
    }
    let mut shorthand = cs.len() >= 2 && cs[0] == '!';
    let mut digits: Vec<char> = Vec::new();
    let mut i: usize = 1;
    while i < cs.len()
        invariant
            1 <= i <= cs@.len(),
            cs@ == entered@,
            digits@ == cs@.subrange(1, i as int),
            shorthand == (cs@.len() >= 2 && cs@[0] == '!' && all_digits(cs@.subrange(1, i as int))),
        decreases cs.len() - i,
    {
        let c = cs[i];
        let ghost before = cs@.subrange(1, i as int);
        if !('0' <= c && c <= '9') {
            shorthand = false;
        }
        digits.push(c);
        i = i + 1;
        proof {
            let after = cs@.subrange(1, i as int);
            assert(after == before.push(c));
            assert(after[after.len() - 1] == c);
            if all_digits(after) {
                assert forall|k: int| 0 <= k < before.len() implies crate::text::is_digit(
                    #[trigger] before[k],
                ) by {
                    assert(before[k] == after[k]);
                }
            }
        }
    }
    if shorthand {
        assert(cs@.subrange(1, cs@.len() as int) == cs@.drop_first());
        let id = string_of(&digits);
        let l = make_pull_request_link(id, entered, host, repo_owner, repo_name)?;
        Ok(Resolution::Resolved(l))
    } else {
        assert(cs@.subrange(1, cs@.len() as int) == cs@.drop_first());
        Ok(Resolution::AskShorthand(entered))
    }
}

} // verus!
