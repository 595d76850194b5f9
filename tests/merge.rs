use mergelog::catalog::{from_gitlab_fields, merge_requests_url, parse_merge_requests, PullRequest};
use mergelog::guess::{guess_pull_request, request_score, top_ranked};
use mergelog::host::{
    default_config_format, infer_host, link_for_id, make_pull_request_link, parse_owner_and_name, Link,
    MergeError, RepositoryHost,
};
use mergelog::resolve::{prompt_step, resolve_changelog_pr, resolve_entered_link, Answer, Resolution};
use mergelog::sections::{heading_text, MarkdownNode, Sections};
use mergelog::render::format_entry;

fn pr(id: u64, title: &str) -> PullRequest {
    PullRequest { id, link: format!("!{}", id), title: title.to_string() }
}

fn link(short: &str, full: &str) -> Link {
    Link { shorthand: short.to_string(), full: full.to_string() }
}

fn heading(level: u8, text: &str) -> MarkdownNode {
    MarkdownNode::Heading { level, parts: vec![Some(text.to_string())] }
}

fn item(text: &str) -> MarkdownNode {
    MarkdownNode::Item(text.to_string())
}

fn names(list: &[&str]) -> Vec<String> {
    list.iter().map(|s| s.to_string()).collect()
}

#[test]
fn host_names() {
    assert_eq!(RepositoryHost::from_str("gh"), Ok(RepositoryHost::GitHub));
    assert_eq!(RepositoryHost::from_str("github"), Ok(RepositoryHost::GitHub));
    assert_eq!(RepositoryHost::from_str("gl"), Ok(RepositoryHost::GitLab));
    assert_eq!(RepositoryHost::from_str("gitlab"), Ok(RepositoryHost::GitLab));
    assert_eq!(RepositoryHost::from_str("bitbucket"), Err(MergeError::UnknownHostName("bitbucket".to_string())));
}

#[test]
fn host_from_domain() {
    assert_eq!(infer_host(Some("gitlab.com")), Ok(RepositoryHost::GitLab));
    assert_eq!(infer_host(Some("github.com")), Ok(RepositoryHost::GitHub));
    assert_eq!(infer_host(Some("example.org")), Err(MergeError::UnknownDomain("example.org".to_string())));
    assert_eq!(infer_host(None), Err(MergeError::MissingDomain));
}

#[test]
fn unknown_domain_located() {
    assert_eq!(mergelog::host::domain_span("https://example.com/a/b", "example.com"), Some((8, 11)));
    assert_eq!(mergelog::host::domain_span("https://a.org/", "b.org"), None);
}

#[test]
fn owner_and_name() {
    let ok = parse_owner_and_name(Some(names(&["group", "project"])), RepositoryHost::GitLab);
    assert_eq!(ok, Ok(("group".to_string(), "project".to_string())));
    let longer = parse_owner_and_name(Some(names(&["group", "project", "tree"])), RepositoryHost::GitLab);
    assert_eq!(longer, Ok(("group".to_string(), "project".to_string())));
    assert_eq!(parse_owner_and_name(Some(names(&["group"])), RepositoryHost::GitLab), Err(MergeError::NotARepository));
    assert_eq!(parse_owner_and_name(Some(names(&["group", ""])), RepositoryHost::GitLab), Err(MergeError::NotARepository));
    assert_eq!(parse_owner_and_name(Some(names(&["o", "", "x"])), RepositoryHost::GitLab), Err(MergeError::NotARepository));
    assert_eq!(parse_owner_and_name(Some(names(&["", "p", "x"])), RepositoryHost::GitLab), Err(MergeError::NotARepository));
    assert_eq!(parse_owner_and_name(None, RepositoryHost::GitLab), Err(MergeError::MissingPathSegments));
    assert_eq!(parse_owner_and_name(Some(names(&["a", "b"])), RepositoryHost::GitHub), Err(MergeError::UnimplementedHost));
}

#[test]
fn default_format() {
    assert_eq!(default_config_format(), "{item} ({link_name})");
}

#[test]
fn full_links() {
    let l = make_pull_request_link("7".to_string(), "!7".to_string(), RepositoryHost::GitLab, "me", "tool").unwrap();
    assert_eq!(l.shorthand, "!7");
    assert_eq!(l.full, "https://gitlab.com/me/tool/-/merge_requests/7");
    assert!(make_pull_request_link("7".to_string(), "!7".to_string(), RepositoryHost::GitHub, "me", "tool").is_err());
    let l = link_for_id(1234, RepositoryHost::GitLab, "me", "tool").unwrap();
    assert_eq!(l.shorthand, "!1234");
    assert_eq!(l.full, "https://gitlab.com/me/tool/-/merge_requests/1234");
}

#[test]
fn listing_address() {
    assert_eq!(
        merge_requests_url("me", "tool", RepositoryHost::GitLab).unwrap(),
        "https://gitlab.com/api/v4/projects/me%2Ftool/merge_requests?state=merged&view=simple&per_page=100"
    );
    assert_eq!(merge_requests_url("me", "tool", RepositoryHost::GitHub), Err(MergeError::UnimplementedHost));
}

#[test]
fn listing_parsed() {
    let prs = parse_merge_requests(r#"[{"iid": 3, "title": "Add x"}, {"iid": 12, "title": "Fix y", "state": "merged"}]"#).unwrap();
    assert_eq!(prs.len(), 2);
    assert_eq!((prs[0].id, prs[0].link.as_str(), prs[0].title.as_str()), (3, "!3", "Add x"));
    assert_eq!((prs[1].id, prs[1].link.as_str(), prs[1].title.as_str()), (12, "!12", "Fix y"));
    assert_eq!(parse_merge_requests("not json").unwrap_err(), MergeError::MalformedResponse);
    assert_eq!(parse_merge_requests(r#"{"iid": 1}"#).unwrap_err(), MergeError::ExpectedArray);
    assert_eq!(parse_merge_requests(r#"[{"title": "x"}]"#).unwrap_err(), MergeError::MissingId);
    assert_eq!(parse_merge_requests(r#"[{"iid": 1, "title": 5}]"#).unwrap_err(), MergeError::MissingTitle);
    assert_eq!(parse_merge_requests("[]").unwrap().len(), 0);
    assert_eq!(parse_merge_requests(r#"{"message": "404 Not Found"}"#).unwrap_err(), MergeError::ExpectedArray);
    assert_eq!(parse_merge_requests(r#"[{"iid": 1, "title": "A"}, {"iid": 2}]"#).unwrap_err(), MergeError::MissingTitle);
    assert_eq!(parse_merge_requests(r#"[{"iid": -1, "title": "A"}]"#).unwrap_err(), MergeError::MissingId);
    let two = parse_merge_requests(r#"[{"iid": 1, "title": "A"}, {"iid": 2, "title": "B"}]"#).unwrap();
    assert_eq!((two[0].id, two[0].link.as_str(), two[0].title.as_str()), (1, "!1", "A"));
    assert_eq!((two[1].id, two[1].link.as_str(), two[1].title.as_str()), (2, "!2", "B"));
}

#[test]
fn catalog_entry_fields() {
    let p = from_gitlab_fields(Some(42), Some("Fix bug".to_string())).unwrap();
    assert_eq!((p.id, p.link.as_str(), p.title.as_str()), (42, "!42", "Fix bug"));
    assert_eq!(from_gitlab_fields(None, Some("x".to_string())).unwrap_err(), MergeError::MissingId);
    assert_eq!(from_gitlab_fields(Some(1), None).unwrap_err(), MergeError::MissingTitle);
}

#[test]
fn prompt_rounds() {
    assert_eq!(prompt_step("\n", Some("y"), Answer::YesNo), Some("y".to_string()));
    assert_eq!(prompt_step(" n \n", Some("y"), Answer::YesNo), Some("n".to_string()));
    assert_eq!(prompt_step("maybe\n", Some("y"), Answer::YesNo), None);
    assert_eq!(prompt_step("\n", None, Answer::NonEmpty), None);
    assert_eq!(prompt_step("  !30 \n", None, Answer::NonEmpty), Some("!30".to_string()));
}

#[test]
fn numeric_id_exact_match() {
    let prs = vec![pr(42, "Fix bug")];
    match resolve_changelog_pr("42", &prs, "me", "tool", RepositoryHost::GitLab).unwrap() {
        Resolution::Resolved(l) => {
            assert_eq!(l.shorthand, "!42");
            assert_eq!(l.full, "https://gitlab.com/me/tool/-/merge_requests/42");
        }
        other => panic!("unexpected {:?}", other),
    }
    assert_eq!(
        resolve_changelog_pr("42", &prs, "me", "tool", RepositoryHost::GitHub).unwrap_err(),
        MergeError::UnimplementedHost
    );
}

#[test]
fn unknown_numeric_id() {
    let prs = vec![pr(42, "Fix bug")];
    let id = match resolve_changelog_pr("99", &prs, "me", "tool", RepositoryHost::GitLab).unwrap() {
        Resolution::Confirm(id) => id,
        other => panic!("unexpected {:?}", other),
    };
    assert_eq!(id, 99);
    assert_eq!(prompt_step("\n", Some("y"), Answer::YesNo), Some("y".to_string()));
    let l = link_for_id(id, RepositoryHost::GitLab, "me", "tool").unwrap();
    assert_eq!(l.shorthand, "!99");
    assert_eq!(l.full, "https://gitlab.com/me/tool/-/merge_requests/99");
}

#[test]
fn non_numeric_name_asks() {
    let prs = vec![pr(42, "Fix bug")];
    assert!(matches!(resolve_changelog_pr("fix-bug", &prs, "me", "tool", RepositoryHost::GitLab), Ok(Resolution::AskLink)));
    match resolve_entered_link("!30".to_string(), "me", "tool", RepositoryHost::GitLab).unwrap() {
        Resolution::Resolved(l) => {
            assert_eq!(l.shorthand, "!30");
            assert_eq!(l.full, "https://gitlab.com/me/tool/-/merge_requests/30");
        }
        other => panic!("unexpected {:?}", other),
    }
    match resolve_entered_link("https://example.org/x".to_string(), "me", "tool", RepositoryHost::GitLab).unwrap() {
        Resolution::AskShorthand(full) => assert_eq!(full, "https://example.org/x"),
        other => panic!("unexpected {:?}", other),
    }
    assert!(matches!(resolve_entered_link("!x".to_string(), "me", "tool", RepositoryHost::GitLab), Ok(Resolution::AskShorthand(_))));
    assert_eq!(resolve_entered_link("!30".to_string(), "me", "tool", RepositoryHost::GitHub).unwrap_err(), MergeError::UnimplementedHost);
}

#[test]
fn fuzzy_scores() {
    assert_eq!(request_score("Fix parser crash", "parser-crash"), (325, 16));
    assert_eq!(request_score("Add docs", "parser-crash"), (20, 8));
    assert_eq!(request_score("a", "parser-crash"), (11, 1));
    assert_eq!(request_score("", "parser-crash"), (0, 1));
}

#[test]
fn fuzzy_scores_ignore_case() {
    assert_eq!(request_score("Parser Crash", "parser-crash"), (240, 12));
    assert_eq!(request_score("Ünïcode fix", "fix"), (138, 13));
}

#[test]
fn fuzzy_ranking_determinism() {
    let prs = vec![pr(1, "Add docs"), pr(2, "Fix parser crash")];
    let first = guess_pull_request("parser-crash", &prs).unwrap();
    let second = guess_pull_request("parser-crash", &prs).unwrap();
    assert_eq!(first, vec![1, 0]);
    assert_eq!(first, second);
    let prs = vec![pr(1, "Update readme"), pr(2, "a"), pr(3, "Fix parser crash"), pr(4, "Add docs")];
    assert_eq!(guess_pull_request("parser-crash", &prs).unwrap(), vec![2, 1, 3, 0]);
    assert_eq!(guess_pull_request("parser-crash", &Vec::new()), None);
}

#[test]
fn ranking_keeps_five() {
    let nums = vec![1, 5, 3, 5, 0, 9, 2];
    let dens = vec![1, 1, 1, 1, 1, 1, 1];
    assert_eq!(top_ranked(&nums, &dens, 5), vec![5, 1, 3, 2, 6]);
    assert_eq!(top_ranked(&vec![1, 1], &vec![2, 3], 5), vec![0, 1]);
}

#[test]
fn heading_parts() {
    assert_eq!(heading_text(&vec![Some("Fix".to_string()), Some("ed".to_string())]), Some("Fixed".to_string()));
    assert_eq!(heading_text(&vec![Some("Fix".to_string()), None]), None);
}

#[test]
fn bucket_identity() {
    let mut s = Sections::new();
    s.add_fragment(&vec![heading(2, "Fixed"), item("- one\n")], &link("!1", "u1")).unwrap();
    s.add_fragment(&vec![heading(2, "Fixed"), item("- two\n")], &link("!2", "u2")).unwrap();
    s.add_fragment(&vec![heading(3, " Fixed "), item("- three\n")], &link("!3", "u3")).unwrap();
    s.add_fragment(&vec![heading(2, "fixed"), item("- four\n")], &link("!4", "u4")).unwrap();
    let b = s.buckets();
    assert_eq!(b.len(), 2);
    assert_eq!(b[0].name, "Fixed");
    assert_eq!(b[0].level, 2);
    assert_eq!(b[0].entries.len(), 3);
    assert_eq!(b[1].name, "fixed");
    assert_eq!(b[1].entries.len(), 1);
}

#[test]
fn items_before_heading_dropped() {
    let mut s = Sections::new();
    s.add_fragment(&vec![item("- early\n"), MarkdownNode::Other, heading(2, "Added"), item("- late\n")], &link("!1", "u1")).unwrap();
    let b = s.buckets();
    assert_eq!(b.len(), 1);
    assert_eq!(b[0].entries.len(), 1);
    assert_eq!(b[0].entries[0].0, "- late\n");
}

#[test]
fn unsupported_heading() {
    let mut s = Sections::new();
    let nodes = vec![MarkdownNode::Heading { level: 2, parts: vec![None] }, item("- x\n")];
    assert_eq!(s.add_fragment(&nodes, &link("!1", "u1")), Err(MergeError::UnsupportedHeading));
}

#[test]
fn entry_line_template() {
    let l = link("!4", "https://h/4");
    assert_eq!(format_entry("{item} ({link_short})", &"- Fix it\n".to_string(), &l), "- Fix it (!4)\n");
    assert_eq!(format_entry("{item} [{link_short}]({link})", &"  -  Spaced  ".to_string(), &l), "- Spaced [!4](https://h/4)\n");
    assert_eq!(format_entry("{item} ({link_name})", &"- a".to_string(), &l), "- a ({link_name})\n");
}

fn sample() -> Sections {
    let mut s = Sections::new();
    s.add_fragment(&vec![heading(2, "Fixed"), item("- late fix\n")], &link("!9", "u9")).unwrap();
    s.add_fragment(&vec![heading(2, "Added"), item("- feature\n"), heading(2, "Fixed"), item("- early fix\n")], &link("!10", "u10")).unwrap();
    s.add_fragment(&vec![heading(2, "Security"), item("- secret\n"), heading(2, "Fixed"), item("- other fix\n")], &link("!9", "u9")).unwrap();
    s
}

#[test]
fn ordering_law() {
    let out = sample().render(&names(&["Fixed"]), "{item} ({link_short})", false);
    assert_eq!(out, "## Fixed\n- early fix (!10)\n- late fix (!9)\n- other fix (!9)\n");
}

#[test]
fn section_filtering() {
    let out = sample().render(&names(&["Added", "Fixed"]), "{item} ({link_short})", false);
    assert_eq!(out, "## Added\n- feature (!10)\n\n## Fixed\n- early fix (!10)\n- late fix (!9)\n- other fix (!9)\n");
    assert!(!out.contains("Security"));
    assert!(!out.contains("secret"));
}

#[test]
fn short_link_dedup() {
    let out = sample().render(&names(&["Fixed", "Missing"]), "{item} [{link_short}]", true);
    assert_eq!(
        out,
        "## Fixed\n- early fix [!10]\n- late fix [!9]\n- other fix [!9]\n\n\n[!10]: u10\n[!9]: u9\n"
    );
    assert_eq!(out.matches("[!9]: u9").count(), 1);
}

#[test]
fn determinism() {
    let s = sample();
    let a = s.render(&names(&["Added", "Fixed"]), "{item} [{link_short}]", true);
    let b = s.render(&names(&["Added", "Fixed"]), "{item} [{link_short}]", true);
    assert_eq!(a, b);
    assert_eq!(sample().render(&names(&["Added", "Fixed"]), "{item} [{link_short}]", true), a);
}

#[test]
fn empty_render() {
    let s = Sections::new();
    assert_eq!(s.render(&names(&["Added"]), "{item}", true), "");
    assert_eq!(s.render(&Vec::new(), "{item}", true), "");
}

#[test]
fn markdown_fragments() {
    let mut s = Sections::new();
    s.add_markdown("- early\n\n## Fixed\n\n- one\n- two\n\n### Added\n\n* three\n", &link("!1", "u1")).unwrap();
    s.add_markdown("##  Fixed \n\n- four\n", &link("!0", "u0")).unwrap();
    let b = s.buckets();
    assert_eq!(b.len(), 2);
    assert_eq!(b[0].name, "Fixed");
    assert_eq!(b[0].level, 2);
    assert_eq!(b[0].entries.len(), 3);
    assert_eq!(b[1].name, "Added");
    assert_eq!(b[1].level, 3);
    let out = s.render(&names(&["Fixed", "Added"]), "{item} ({link_short})", false);
    assert_eq!(out, "## Fixed\n- four (!0)\n- one (!1)\n- two (!1)\n\n### Added\n- three (!1)\n");
}

#[test]
fn markdown_heading_with_emphasis() {
    let mut s = Sections::new();
    assert_eq!(s.add_markdown("## *Fixed*\n\n- one\n", &link("!1", "u1")), Err(MergeError::UnsupportedHeading));
}
