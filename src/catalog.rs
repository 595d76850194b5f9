//! The catalog of merged requests that the host lists for a repository.

use vstd::prelude::*;
use crate::host::{gitlab_shorthand, MergeError, RepositoryHost};
use crate::text::{concat, unsigned_to_string};

verus! {

/// One merged request: its number, its shorthand reference and its title.
#[derive(Debug)]
pub struct PullRequest {
    pub id: u64,
    pub link: String,
    pub title: String,
}

/// One merge request of a listing as the host wrote it: its `iid` when that
/// is a non-negative integer, and its `title` when that is a string.
pub type ListedFields = (Option<u64>, Option<String>);

/// What the listing `text` holds: `None` when it is not JSON, `Some(None)`
/// when it is JSON but not an array, else the fields of each element in order.
pub uninterp spec fn gitlab_listing_of(text: Seq<char>) -> Option<
    Option<Seq<(Option<u64>, Option<Seq<char>>)>>,
>;

pub open spec fn fields_view(f: ListedFields) -> (Option<u64>, Option<Seq<char>>) {
    (
        f.0,
        match f.1 {
            Some(t) => Some(t@),
            None => None,
        },
    )
}

pub open spec fn listing_view(r: Option<Option<Vec<ListedFields>>>) -> Option<
    Option<Seq<(Option<u64>, Option<Seq<char>>)>>,
> {
    match r {
        None => None,
        Some(None) => Some(None),
        Some(Some(v)) => Some(Some(v@.map_values(|f: ListedFields| fields_view(f)))),
    }
}

/// Relies on `serde_json::from_str` to read `text` as a JSON value, then on
/// `Value::as_array`, and on `Value::get`, `as_u64` and `as_str` for the
/// `iid` and `title` of each element.
#[verifier::external_body]
fn read_listing(text: &str) -> (r: Option<Option<Vec<ListedFields>>>)
    ensures
        listing_view(r) == gitlab_listing_of(text@),
{
    serde_json::from_str::<serde_json::Value>(text).ok().map(|json| {
        json.as_array().map(|items| {
            items.iter().map(|o| (
                o.get("iid").and_then(|x| x.as_u64()),
                o.get("title").and_then(|x| x.as_str()).map(|t| t.to_string()),
            )).collect()
        })
    })
}

/// Builds a catalog entry from the `iid` and `title` members of a listed
/// merge request; its shorthand is `!` and the number.
pub fn from_gitlab_fields(iid: Option<u64>, title: Option<String>) -> (r: Result<
    PullRequest,
    MergeError,
>)
    ensures
        iid is None ==> r == Err::<PullRequest, MergeError>(MergeError::MissingId),
        iid is Some && title is None ==> r == Err::<PullRequest, MergeError>(
            MergeError::MissingTitle,
        ),
        iid is Some && title is Some ==> match r {
            Ok(pr) => pr.id == iid->0 && pr.title@ == title->0@ && pr.link@ == gitlab_shorthand(
                pr.id,
            ),
            _ => false,
        },
{
    match iid {
        None => Err(MergeError::MissingId),
        Some(id) => match title {
            None => Err(MergeError::MissingTitle),
            Some(t) => {
                let digits = unsigned_to_string(id);
                let link = concat("!", digits.as_str());
                Ok(PullRequest { id, link, title: t })
            },
        },
    }
}

/// Both fields of a listed merge request are present.
pub open spec fn complete(f: (Option<u64>, Option<Seq<char>>)) -> bool {
    f.0 is Some && f.1 is Some
}

/// The error for a listed merge request that lacks a field.
pub open spec fn field_error(f: (Option<u64>, Option<Seq<char>>)) -> MergeError {
    if f.0 is None {
        MergeError::MissingId
    } else {
        MergeError::MissingTitle
    }
}

/// `v` is the catalog made of the complete elements `es`, in order.
pub open spec fn catalog_of(v: Seq<PullRequest>, es: Seq<(Option<u64>, Option<Seq<char>>)>) -> bool {
    &&& v.len() == es.len()
    &&& forall|i: int|
        0 <= i < v.len() ==> (#[trigger] v[i]).id == es[i].0->0 && v[i].title@ == es[i].1->0
            && v[i].link@ == gitlab_shorthand(v[i].id)
}

/// Reads GitLab's listing of merged requests: a JSON array of objects, each
/// with a numeric `iid` and a string `title`. Any element lacking one fails
/// the whole listing.
pub fn parse_merge_requests(response: &str) -> (r: Result<Vec<PullRequest>, MergeError>)
    ensures
        match gitlab_listing_of(response@) {
            None => r == Err::<Vec<PullRequest>, MergeError>(MergeError::MalformedResponse),
            Some(None) => r == Err::<Vec<PullRequest>, MergeError>(MergeError::ExpectedArray),
            Some(Some(es)) => if forall|i: int| 0 <= i < es.len() ==> complete(#[trigger] es[i]) {
                r matches Ok(v) && catalog_of(v@, es)
            } else {
                exists|i: int|
                    0 <= i < es.len() && !complete(#[trigger] es[i]) && (forall|j: int|
                        0 <= j < i ==> complete(#[trigger] es[j])) && r == Err::<
                        Vec<PullRequest>,
                        MergeError,
                    >(field_error(es[i]))
            },
        },
{
    let listing = read_listing(response);
    let fields = match listing {
        None => {
            return Err(MergeError::MalformedResponse);
        },
        Some(None) => {
            return Err(MergeError::ExpectedArray);
        },
        Some(Some(f)) => f,
    };
    let ghost es = fields@.map_values(|f: ListedFields| fields_view(f));
    let mut out: Vec<PullRequest> = Vec::new();
    let mut i: usize = 0;
    while i < fields.len()
        invariant
            i <= fields@.len(),
            es == fields@.map_values(|f: ListedFields| fields_view(f)),
            gitlab_listing_of(response@) == Some(Some(es)),
            forall|j: int| 0 <= j < i ==> complete(#[trigger] es[j]),
            catalog_of(out@, es.subrange(0, i as int)),
        decreases fields.len() - i,
    {
        let f = &fields[i];
        let title = match &f.1 {
            Some(t) => Some(t.clone()),
            None => None,
        };
        assert(es[i as int] == fields_view(fields@[i as int]));
        match from_gitlab_fields(f.0, title) {
            Ok(pr) => {
                out.push(pr);
            },
            Err(e) => {
                assert(title is None <==> es[i as int].1 is None);
                assert(!complete(es[i as int]));
                assert(e == field_error(es[i as int]));
                assert(0 <= i < es.len() && !complete(es[i as int]) && (forall|j: int|
                    0 <= j < i ==> complete(#[trigger] es[j])));
                let r: Result<Vec<PullRequest>, MergeError> = Err(e);
                assert(r == Err::<Vec<PullRequest>, MergeError>(field_error(es[i as int])));
                assert(exists|k: int|
                    0 <= k < es.len() && !complete(#[trigger] es[k]) && (forall|j: int|
                        0 <= j < k ==> complete(#[trigger] es[j])) && r == Err::<
                        Vec<PullRequest>,
                        MergeError,
                    >(field_error(es[k])));
                assert(!(forall|k: int| 0 <= k < es.len() ==> complete(#[trigger] es[k])));
                assert(match gitlab_listing_of(response@) {
                    Some(Some(es2)) => es2 == es,
                    _ => false,
                });
                return r;
            },
        }
        i = i + 1;
        assert forall|k: int| 0 <= k < out@.len() implies (#[trigger] out@[k]).id == es.subrange(
            0,
            i as int,
        )[k].0->0 && out@[k].title@ == es.subrange(0, i as int)[k].1->0 && out@[k].link@
            == gitlab_shorthand(out@[k].id) by {
            if k < i - 1 {
                assert(es.subrange(0, i as int)[k] == es.subrange(0, i - 1)[k]);
            }
        }
    }
    assert(es.subrange(0, es.len() as int) == es);
    Ok(out)
}

/// GitLab's REST endpoint listing up to a hundred merged requests of `owner`/`name`.
pub open spec fn gitlab_listing_url(owner: Seq<char>, name: Seq<char>) -> Seq<char> {
    "https://gitlab.com/api/v4/projects/"@ + owner + "%2F"@ + name
        + "/merge_requests?state=merged&view=simple&per_page=100"@
}

/// The address to fetch the catalog of `owner`/`name` from.
pub fn merge_requests_url(owner: &str, name: &str, host: RepositoryHost) -> (r: Result<
    String,
    MergeError,
>)
    requires
        host != RepositoryHost::Infer,
    ensures
        host == RepositoryHost::GitHub ==> r == Err::<String, MergeError>(
            MergeError::UnimplementedHost,
        ),
        host == RepositoryHost::GitLab ==> match r {
            Ok(u) => u@ == gitlab_listing_url(owner@, name@),
            _ => false,
        },
{
    match host {
        RepositoryHost::GitHub => Err(MergeError::UnimplementedHost),
        _ => {
            let mut u = concat("https://gitlab.com/api/v4/projects/", owner);
            u.append("%2F");
            u.append(name);
            u.append("/merge_requests?state=merged&view=simple&per_page=100");
            Ok(u)
        },
    }
}

} // verus!
