use fw::config::add_entry;
use fw::config::Config;
use fw::config::Project;
use fw::config::Settings;
use fw::config::Tag;
use fw::errors::AppError;
use fw::tag::add_tag;
use fw::tag::add_tag_project;
use fw::tag::create_tag;
use fw::tag::delete_tag;
use fw::tag::list_all_tags;
use fw::tag::list_project_tags;
use fw::tag::list_tags;
use fw::tag::remove_tag;

fn project(name: &str, git: &str, tags: &[&str]) -> Project {
    Project {
        name: name.to_string(),
        git: git.to_string(),
        after_clone: None,
        after_workon: None,
        tags: tags.iter().map(|t| t.to_string()).collect(),
    }
}

fn tag(priority: Option<u8>) -> Tag {
    Tag { after_clone: None, after_workon: None, priority, workspace: None }
}

fn registry(projects: Vec<(&str, Project)>, tags: Option<Vec<(&str, Tag)>>) -> Config {
    Config {
        projects: projects.into_iter().map(|(k, p)| (k.to_string(), p)).collect(),
        settings: Settings {
            workspace: "~/workspace".to_string(),
            tags: tags.map(|ts| ts.into_iter().map(|(k, t)| (k.to_string(), t)).collect()),
        },
    }
}

#[test]
fn scenario_delete_tag_cascades() {
    let r = registry(
        vec![("api", project("api", "git@github.com:x/api.git", &["backend"]))],
        Some(vec![("backend", tag(Some(1))), ("frontend", tag(Some(2)))]),
    );
    let out = delete_tag(Ok(r), "backend").unwrap();
    assert_eq!(out.projects.len(), 1);
    assert_eq!(out.projects[0].0, "api");
    assert!(out.projects[0].1.tags.is_empty());
    let cat = out.settings.tags.unwrap();
    assert_eq!(cat.len(), 1);
    assert_eq!(cat[0].0, "frontend");
}

#[test]
fn scenario_add_tag_unknown_tag_fails() {
    let r = registry(
        vec![("api", project("api", "git@github.com:x/api.git", &[]))],
        None,
    );
    let err = add_tag(Ok(r), "api".to_string(), "backend".to_string()).unwrap_err();
    assert_eq!(err, AppError::UnknownTag("backend".to_string()));
}

#[test]
fn scenario_remove_absent_tag_is_noop() {
    let r = registry(
        vec![("api", project("api", "git@github.com:x/api.git", &[]))],
        None,
    );
    let before = r.clone();
    let out = remove_tag(Ok(r), "api".to_string(), "backend").unwrap();
    assert_eq!(out, before);
}

#[test]
fn scenario_url_like_name_rejected() {
    let r = registry(vec![], None);
    let err = add_entry(Ok(r), "git@github.com:x/y", "url").unwrap_err();
    assert_eq!(err, AppError::InvalidName("git@github.com:x/y".to_string()));
    let r2 = registry(vec![], None);
    let err2 = add_entry(Ok(r2), "https://github.com/x/y", "url").unwrap_err();
    assert_eq!(err2, AppError::InvalidName("https://github.com/x/y".to_string()));
}

#[test]
fn scenario_duplicate_project_rejected() {
    let r = registry(vec![], None);
    let r = add_entry(Ok(r), "api", "git@github.com:x/y.git").unwrap();
    let err = add_entry(Ok(r), "api", "git@github.com:other/repo.git").unwrap_err();
    assert_eq!(err, AppError::DuplicateProject("api".to_string()));
}

#[test]
fn add_tag_is_idempotent() {
    let r = registry(
        vec![("api", project("api", "git@github.com:x/api.git", &[]))],
        Some(vec![("backend", tag(None))]),
    );
    let once = add_tag_project(Ok(r), "api".to_string(), "backend".to_string()).unwrap();
    let twice =
        add_tag_project(Ok(once.clone()), "api".to_string(), "backend".to_string()).unwrap();
    assert_eq!(twice, once);
    assert_eq!(once.projects[0].1.tags, vec!["backend".to_string()]);
}

#[test]
fn remove_tag_is_idempotent() {
    let r = registry(
        vec![("api", project("api", "git@github.com:x/api.git", &["backend", "web"]))],
        Some(vec![("backend", tag(None)), ("web", tag(None))]),
    );
    let once = remove_tag(Ok(r), "api".to_string(), "web").unwrap();
    let twice = remove_tag(Ok(once.clone()), "api".to_string(), "web").unwrap();
    assert_eq!(twice, once);
    assert_eq!(once.projects[0].1.tags, vec!["backend".to_string()]);
}

#[test]
fn create_tag_overwrites_silently() {
    let r = registry(vec![], Some(vec![("backend", tag(Some(1)))]));
    let out = create_tag(
        Ok(r),
        "backend".to_string(),
        Some("make check".to_string()),
        None,
        Some(9),
        None,
    )
    .unwrap();
    let cat = out.settings.tags.unwrap();
    assert_eq!(cat.len(), 1);
    assert_eq!(cat[0].0, "backend");
    assert_eq!(cat[0].1.priority, Some(9));
    assert_eq!(cat[0].1.after_workon, Some("make check".to_string()));
}

#[test]
fn create_tag_starts_catalog_when_none() {
    let r = registry(vec![], None);
    let out = create_tag(Ok(r), "web".to_string(), None, None, None, None).unwrap();
    let cat = out.settings.tags.unwrap();
    assert_eq!(cat.len(), 1);
    assert_eq!(cat[0].0, "web");
}

#[test]
fn list_all_tags_is_sorted_whatever_creation_order() {
    let r = registry(vec![], None);
    let r = create_tag(Ok(r), "frontend".to_string(), None, None, Some(2), None).unwrap();
    let r = create_tag(Ok(r), "backend".to_string(), None, None, Some(1), None).unwrap();
    let r = create_tag(Ok(r), "cli".to_string(), None, None, None, None).unwrap();
    let names = list_all_tags(&r);
    assert_eq!(
        names,
        vec!["backend".to_string(), "cli".to_string(), "frontend".to_string()]
    );
}

#[test]
fn list_project_tags_sorted_and_unknown_project_fails() {
    let r = registry(
        vec![("api", project("api", "git@github.com:x/api.git", &[]))],
        Some(vec![("a", tag(None)), ("b", tag(None)), ("z", tag(None))]),
    );
    let r = add_tag(Ok(r), "api".to_string(), "z".to_string()).unwrap();
    let r = add_tag(Ok(r), "api".to_string(), "a".to_string()).unwrap();
    let r = add_tag(Ok(r), "api".to_string(), "b".to_string()).unwrap();
    let listed = list_project_tags(&r, "api").unwrap();
    assert_eq!(listed, vec!["a".to_string(), "b".to_string(), "z".to_string()]);
    let err = list_project_tags(&r, "ghost").unwrap_err();
    assert_eq!(err, AppError::UnknownProject("ghost".to_string()));
}

#[test]
fn list_tags_dispatches_on_project_name() {
    let r = registry(
        vec![("api", project("api", "git@github.com:x/api.git", &["a"]))],
        Some(vec![("a", tag(None)), ("b", tag(None))]),
    );
    let all = list_tags(Ok(r.clone()), None).unwrap();
    assert_eq!(all, vec!["a".to_string(), "b".to_string()]);
    let one = list_tags(Ok(r), Some("api".to_string())).unwrap();
    assert_eq!(one, vec!["a".to_string()]);
}

#[test]
fn errors_pass_through_every_operation() {
    let boom = || -> Result<Config, AppError> { Err(AppError::InternalError("boom".to_string())) };
    assert!(matches!(add_entry(boom(), "a", "b"), Err(AppError::InternalError(_))));
    assert!(matches!(
        create_tag(boom(), "t".to_string(), None, None, None, None),
        Err(AppError::InternalError(_))
    ));
    assert!(matches!(delete_tag(boom(), "t"), Err(AppError::InternalError(_))));
    assert!(matches!(
        add_tag(boom(), "p".to_string(), "t".to_string()),
        Err(AppError::InternalError(_))
    ));
    assert!(matches!(
        remove_tag(boom(), "p".to_string(), "t"),
        Err(AppError::InternalError(_))
    ));
    assert!(matches!(list_tags(boom(), None), Err(AppError::InternalError(_))));
}

#[test]
fn add_tag_checks_project_before_tag() {
    let r = registry(vec![], Some(vec![("backend", tag(None))]));
    let err = add_tag(Ok(r), "ghost".to_string(), "backend".to_string()).unwrap_err();
    assert_eq!(err, AppError::UnknownProject("ghost".to_string()));
}

#[test]
fn require_unwraps_or_reports() {
    assert_eq!(
        AppError::require(Some(7), AppError::InternalError("missing".to_string())),
        Ok(7)
    );
    assert_eq!(
        AppError::require(None::<u8>, AppError::InternalError("missing".to_string())),
        Err(AppError::InternalError("missing".to_string()))
    );
}
