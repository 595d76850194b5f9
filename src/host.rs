//! Repository hosts, repository coordinates and merge-request links.

use vstd::prelude::*;
use crate::text::{byte_count, bytes_at, byte_len, concat, decimal, find_bytes, same_text, unsigned_to_string};

verus! {

/// Where the repository lives. `Infer` means "work it out from the URL".
#[derive(Clone, Copy, Debug, PartialEq, Eq, Structural)]
pub enum RepositoryHost {
    GitHub,
    GitLab,
    Infer,
}

/// Every way the run can fail.
#[derive(Clone, Debug, PartialEq, Eq)]
pub enum MergeError {
    /// A host name other than `github`, `gh`, `gitlab` or `gl`.
    UnknownHostName(String),
    /// The repository URL has no domain.
    MissingDomain,
    /// The repository URL's domain is no known host.
    UnknownDomain(String),
    /// The repository URL cannot have path segments.
    MissingPathSegments,
    /// The repository URL does not name an owner and a repository.
    NotARepository,
    /// The operation is not implemented for GitHub.
    UnimplementedHost,
    /// The host's listing is not valid JSON.
    MalformedResponse,
    /// The host's listing is not a JSON array.
    ExpectedArray,
    /// A listed merge request has no numeric `iid`.
    MissingId,
    /// A listed merge request has no `title` text.
    MissingTitle,
    /// A heading holds something other than plain text.
    UnsupportedHeading,
}

/// A shorthand reference (such as `!42`) and the full URL it stands for.
#[derive(Clone, Debug)]
pub struct Link {
    pub shorthand: String,
    pub full: String,
}

impl View for Link {
    type V = (Seq<char>, Seq<char>);

    open spec fn view(&self) -> (Seq<char>, Seq<char>) {
        (self.shorthand@, self.full@)
    }
}

impl Link {
    /// A copy of the link.
    pub fn duplicate(&self) -> (r: Link)
        ensures
            r@ == self@,
    {
        Link { shorthand: self.shorthand.clone(), full: self.full.clone() }
    }
}

impl RepositoryHost {
    /// Reads a host name as given on the command line.
    pub fn from_str(s: &str) -> (r: Result<RepositoryHost, MergeError>)
        ensures
            (s@ == "github"@ || s@ == "gh"@) ==> r == Ok::<RepositoryHost, MergeError>(
                RepositoryHost::GitHub,
            ),
            (s@ == "gitlab"@ || s@ == "gl"@) ==> r == Ok::<RepositoryHost, MergeError>(
                RepositoryHost::GitLab,
            ),
            !(s@ == "github"@ || s@ == "gh"@ || s@ == "gitlab"@ || s@ == "gl"@) ==> (match r {
                Err(MergeError::UnknownHostName(t)) => t@ == s@,
                _ => false,
            }),
    {
        proof {
            reveal_strlit("github");
            reveal_strlit("gh");
            reveal_strlit("gitlab");
            reveal_strlit("gl");
            assert("gitlab"@[3] != "github"@[3]);
            assert("gl"@[1] != "gh"@[1]);
        }
        if same_text(s, "github") || same_text(s, "gh") {
            Ok(RepositoryHost::GitHub)
        } else if same_text(s, "gitlab") || same_text(s, "gl") {
            Ok(RepositoryHost::GitLab)
        } else {
            Err(MergeError::UnknownHostName(s.to_owned()))
        }
    }
}

/// The template used when no configuration gives one.
pub fn default_config_format() -> (r: String)
    ensures
        r@ == "{item} ({link_name})"@,
{
    "{item} ({link_name})".to_owned()
}

/// Picks the host from the domain of the repository URL, if it has one.
pub fn infer_host(domain: Option<&str>) -> (r: Result<RepositoryHost, MergeError>)
    ensures
        match domain {
            None => r == Err::<RepositoryHost, MergeError>(MergeError::MissingDomain),
            Some(d) => if d@ == "github.com"@ {
                r == Ok::<RepositoryHost, MergeError>(RepositoryHost::GitHub)
            } else if d@ == "gitlab.com"@ {
                r == Ok::<RepositoryHost, MergeError>(RepositoryHost::GitLab)
            } else {
                match r {
                    Err(MergeError::UnknownDomain(t)) => t@ == d@,
                    _ => false,
                }
            },
        },
{
    match domain {
        None => Err(MergeError::MissingDomain),
        Some(d) => {
            if same_text(d, "github.com") {
                Ok(RepositoryHost::GitHub)
            } else if same_text(d, "gitlab.com") {
                Ok(RepositoryHost::GitLab)
            } else {
                Err(MergeError::UnknownDomain(d.to_owned()))
            }
        },
    }
}

/// Where `domain` stands in the text of `url`, as a byte offset and a byte
/// length, so that an unknown domain can be pointed at.
pub fn domain_span(url: &str, domain: &str) -> (r: Option<(usize, usize)>)
    ensures
        match r {
            Some((start, len)) => len == byte_len(domain@) && bytes_at(
                vstd::utf8::encode_utf8(url@),
                vstd::utf8::encode_utf8(domain@),
                start as int,
            ) && forall|j: int|
                0 <= j < start ==> !bytes_at(
                    vstd::utf8::encode_utf8(url@),
                    vstd::utf8::encode_utf8(domain@),
                    j,
                ),
            None => forall|j: int|
                !bytes_at(vstd::utf8::encode_utf8(url@), vstd::utf8::encode_utf8(domain@), j),
        },
{
    match find_bytes(url, domain) {
        Some(start) => Some((start, byte_count(domain))),
        None => None,
    }
}

/// Whether path segments name an owner and a repository: at least two, the
/// first two not empty.
pub open spec fn names_repository(c: Seq<Seq<char>>) -> bool {
    c.len() >= 2 && c[0].len() > 0 && c[1].len() > 0
}

/// Takes the owner and the repository name from the URL's path segments
/// (`None` when the URL cannot have any).
pub fn parse_owner_and_name(segments: Option<Vec<String>>, host: RepositoryHost) -> (r: Result<
    (String, String),
    MergeError,
>)
    requires
        host != RepositoryHost::Infer,
    ensures
        host == RepositoryHost::GitHub ==> r == Err::<(String, String), MergeError>(
            MergeError::UnimplementedHost,
        ),
        host == RepositoryHost::GitLab ==> match segments {
            None => r == Err::<(String, String), MergeError>(MergeError::MissingPathSegments),
            Some(c) => if names_repository(c@.map_values(|s: String| s@)) {
                match r {
                    Ok((owner, name)) => owner@ == c@[0]@ && name@ == c@[1]@,
                    _ => false,
                }
            } else {
                r == Err::<(String, String), MergeError>(MergeError::NotARepository)
            },
        },
{
    match host {
        RepositoryHost::GitHub => Err(MergeError::UnimplementedHost),
        _ => match segments {
            None => Err(MergeError::MissingPathSegments),
            Some(c) => {
                let ghost v = c@.map_values(|s: String| s@);
                let n = c.len();
                if n < 2 || c[0].as_str().is_empty() || c[1].as_str().is_empty() {
                    assert(!names_repository(v));
                    Err(MergeError::NotARepository)
                } else {
                    assert(names_repository(v));
                    Ok((c[0].clone(), c[1].clone()))
                }
            },
        },
    }
}

/// The URL of merge request `id` of `owner`/`name` on GitLab.
pub open spec fn gitlab_merge_request_url(owner: Seq<char>, name: Seq<char>, id: Seq<char>) -> Seq<
    char,
> {
    "https://gitlab.com/"@ + owner + "/"@ + name + "/-/merge_requests/"@ + id
}

/// Pairs `link` with the full URL of request `id` in the repository.
pub fn make_pull_request_link(
    id: String,
    link: String,
    host: RepositoryHost,
    repo_owner: &str,
    repo_name: &str,
) -> (r: Result<Link, MergeError>)
    requires
        host != RepositoryHost::Infer,
    ensures
        host == RepositoryHost::GitHub ==> r == Err::<Link, MergeError>(
            MergeError::UnimplementedHost,
        ),
        host == RepositoryHost::GitLab ==> match r {
            Ok(l) => l.shorthand@ == link@ && l.full@ == gitlab_merge_request_url(
                repo_owner@,
                repo_name@,
                id@,
            ),
            _ => false,
        },
{
    match host {
        RepositoryHost::GitHub => Err(MergeError::UnimplementedHost),
        _ => {
            let mut full = concat("https://gitlab.com/", repo_owner);
            full.append("/");
            full.append(repo_name);
            full.append("/-/merge_requests/");
            full.append(id.as_str());
            Ok(Link { shorthand: link, full })
        },
    }
}

/// The shorthand GitLab writes for merge request `id`.
pub open spec fn gitlab_shorthand(id: u64) -> Seq<char> {
    "!"@ + decimal(id as nat)
}

/// The link of merge request `id`, under its GitLab shorthand `!id`.
pub fn link_for_id(id: u64, host: RepositoryHost, repo_owner: &str, repo_name: &str) -> (r: Result<
    Link,
    MergeError,
>)
    requires
        host != RepositoryHost::Infer,
    ensures
        host == RepositoryHost::GitHub ==> r == Err::<Link, MergeError>(
            MergeError::UnimplementedHost,
        ),
        host == RepositoryHost::GitLab ==> match r {
            Ok(l) => l.shorthand@ == gitlab_shorthand(id) && l.full@ == gitlab_merge_request_url(
                repo_owner@,
                repo_name@,
                decimal(id as nat),
            ),
            _ => false,
        },
{
    let digits = unsigned_to_string(id);
    let shorthand = concat("!", digits.as_str());
    make_pull_request_link(digits, shorthand, host, repo_owner, repo_name)
}

} // verus!
