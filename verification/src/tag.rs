//! Tag operations: create and delete tags, associate and dissociate
//! tags and projects, and list tags — each a pure function from a
//! registry to a new registry or a typed error, with the laws that
//! relate them.

use vstd::prelude::*;

use crate::config::alist_idx;
use crate::config::alookup;
use crate::config::ainsert;
use crate::config::ainsert_exec;
use crate::config::aremove;
use crate::config::aremove_exec;
use crate::config::aview;
use crate::config::clone_names;
use crate::config::clone_opt;
use crate::config::names_view;
use crate::config::opt_view;
use crate::config::res_view;
use crate::config::sinsert;
use crate::config::sinsert_exec;
use crate::config::sremove;
use crate::config::sremove_exec;
use crate::config::Config;
use crate::config::ConfigV;
use crate::config::Project;
use crate::config::ProjectV;
use crate::config::Settings;
use crate::config::SettingsV;
use crate::config::Tag;
use crate::config::TagV;
use crate::errors::AppError;
use crate::errors::AppErrorV;

verus! {

/// What `create_tag` does: bind the tag under its name, replacing any
/// previous definition, and leave everything else alone.
pub open spec fn create_tag_m(c: ConfigV, name: Seq<char>, t: TagV) -> ConfigV {
    ConfigV {
        projects: c.projects,
        settings: SettingsV {
            workspace: c.settings.workspace,
            tags: Option::Some(ainsert(c.catalog(), name, t)),
        },
    }
}

/// One step of the cascade: drop `name` from one project's tag set.
pub open spec fn cascade_p(p: (Seq<char>, ProjectV), name: Seq<char>) -> (Seq<char>, ProjectV) {
    (
        p.0,
        ProjectV {
            name: p.1.name,
            git: p.1.git,
            after_clone: p.1.after_clone,
            after_workon: p.1.after_workon,
            tags: sremove(p.1.tags, name),
        },
    )
}

/// The cascade: drop `name` from every project's tag set.
pub open spec fn cascade(s: Seq<(Seq<char>, ProjectV)>, name: Seq<char>) -> Seq<
    (Seq<char>, ProjectV),
> {
    Seq::new(s.len(), |i: int| cascade_p(s[i], name))
}

/// What `delete_tag` does: drop the tag from every project's tag set,
/// then drop it from the catalog.
pub open spec fn delete_tag_m(c: ConfigV, name: Seq<char>) -> ConfigV {
    ConfigV {
        projects: cascade(c.projects, name),
        settings: SettingsV {
            workspace: c.settings.workspace,
            tags: match c.settings.tags {
                Option::None => Option::None,
                Option::Some(cat) => Option::Some(aremove(cat, name)),
            },
        },
    }
}

/// What `add_tag` does: reject an unknown project or a tag missing
/// from the catalog, else insert the tag name into the project's set.
pub open spec fn add_tag_m(c: ConfigV, project_name: Seq<char>, tag_name: Seq<char>) -> Result<
    ConfigV,
    AppErrorV,
> {
    match alookup(c.projects, project_name) {
        Option::None => Result::Err(AppErrorV::UnknownProject(project_name)),
        Option::Some(p) => {
            if alookup(c.catalog(), tag_name) is None {
                Result::Err(AppErrorV::UnknownTag(tag_name))
            } else {
                Result::Ok(
                    ConfigV {
                        projects: ainsert(
                            c.projects,
                            project_name,
                            ProjectV {
                                name: p.name,
                                git: p.git,
                                after_clone: p.after_clone,
                                after_workon: p.after_workon,
                                tags: sinsert(p.tags, tag_name),
                            },
                        ),
                        settings: c.settings,
                    },
                )
            }
        },
    }
}

/// What `remove_tag` does: reject an unknown project, else drop the
/// tag name from the project's set; a tag not present is a no-op.
pub open spec fn remove_tag_m(c: ConfigV, project_name: Seq<char>, tag_name: Seq<char>) -> Result<
    ConfigV,
    AppErrorV,
> {
    match alookup(c.projects, project_name) {
        Option::None => Result::Err(AppErrorV::UnknownProject(project_name)),
        Option::Some(p) => Result::Ok(
            ConfigV {
                projects: ainsert(
                    c.projects,
                    project_name,
                    ProjectV {
                        name: p.name,
                        git: p.git,
                        after_clone: p.after_clone,
                        after_workon: p.after_workon,
                        tags: sremove(p.tags, tag_name),
                    },
                ),
                settings: c.settings,
            },
        ),
    }
}

/// Defines (or redefines) a tag in the catalog. Creating a tag under
/// an existing name silently replaces its definition; project-tag
/// associations are untouched.
pub fn create_tag(
    maybe_config: Result<Config, AppError>,
    tag_name: String,
    after_workon: Option<String>,
    after_clone: Option<String>,
    priority: Option<u8>,
    tag_workspace: Option<String>,
) -> (r: Result<Config, AppError>)
    ensures
        match maybe_config {
            Result::Err(e) => res_view(r) == Result::<ConfigV, AppErrorV>::Err(e@),
            Result::Ok(c) => res_view(r) == Result::<ConfigV, AppErrorV>::Ok(
                create_tag_m(
                    c@,
                    tag_name@,
                    TagV {
                        after_clone: opt_view(after_clone),
                        after_workon: opt_view(after_workon),
                        priority: priority,
                        workspace: opt_view(tag_workspace),
                    },
                ),
            ),
        },
{
    let config = match maybe_config {
        Result::Ok(c) => c,
        Result::Err(e) => {
            return Result::Err(e);
        },
    };
    let ghost cv = config@;
    let Config { projects, settings } = config;
    let Settings { workspace, tags } = settings;
    let cat: Vec<(String, Tag)> = match tags {
        Option::Some(cat) => cat,
        Option::None => Vec::new(),
    };
    proof {
        assert(aview(cat@) =~= cv.catalog());
    }
    let new_tag = Tag { after_clone, after_workon, priority, workspace: tag_workspace };
    let ghost ntv = new_tag@;
    let cat = ainsert_exec(cat, tag_name, new_tag);
    let r = Config { projects, settings: Settings { workspace, tags: Option::Some(cat) } };
    proof {
        assert(r@ =~~= create_tag_m(cv, tag_name@, ntv));
    }
    Result::Ok(r)
}

/// Deletes a tag: first the cascade removes it from every project's
/// tag set, then it is dropped from the catalog. Deleting a tag the
/// catalog does not hold succeeds as a no-op; with the registry held
/// as one owned sequence no project can vanish mid-cascade, so the
/// internal-consistency failure is unreachable and the result is
/// always the cascaded registry.
pub fn delete_tag(maybe_config: Result<Config, AppError>, tag_name: &str) -> (r: Result<
    Config,
    AppError,
>)
    ensures
        match maybe_config {
            Result::Err(e) => res_view(r) == Result::<ConfigV, AppErrorV>::Err(e@),
            Result::Ok(c) => res_view(r) == Result::<ConfigV, AppErrorV>::Ok(
                delete_tag_m(c@, tag_name@),
            ),
        },
{
    let config = match maybe_config {
        Result::Ok(c) => c,
        Result::Err(e) => {
            return Result::Err(e);
        },
    };
    let ghost cv = config@;
    let Config { projects, settings } = config;
    let ghost orig = projects@;
    let mut projects = projects;
    let mut done: Vec<(String, Project)> = Vec::new();
    while projects.len() > 0
        invariant
            orig.len() == done.len() + projects.len(),
            projects@ =~= orig.skip(done.len() as int),
            forall|j: int|
                0 <= j < done.len() ==> aview(done@)[j] == cascade_p(
                    aview(orig)[j],
                    tag_name@,
                ),
        decreases projects.len(),
    {
        let ghost k = done.len() as int;
        let ghost prev = done@;
        let (key, p) = projects.remove(0);
        proof {
            assert(orig.skip(k)[0] == orig[k]);
        }
        let ghost gkey = key@;
        let ghost pv = p@;
        let Project { name, git, after_clone, after_workon, tags } = p;
        let new_tags = sremove_exec(tags, tag_name);
        let p2 = Project { name, git, after_clone, after_workon, tags: new_tags };
        let ghost p2v = p2@;
        done.push((key, p2));
        proof {
            assert(gkey == orig[k].0@);
            assert(pv == orig[k].1@);
            assert(p2v =~~= ProjectV {
                name: pv.name,
                git: pv.git,
                after_clone: pv.after_clone,
                after_workon: pv.after_workon,
                tags: sremove(pv.tags, tag_name@),
            });
            assert(done@.len() == k + 1 && done@[k].0@ == gkey && done@[k].1@ == p2v);
            assert(aview(orig)[k] == (orig[k].0@, orig[k].1@));
            assert(aview(done@)[k] == (gkey, p2v));
            assert(aview(done@)[k] == cascade_p(aview(orig)[k], tag_name@));
            assert forall|j: int| 0 <= j < done@.len() implies aview(done@)[j] == cascade_p(
                aview(orig)[j],
                tag_name@,
            ) by {
                if j < k {
                    assert(done@[j] == prev[j]);
                    assert(aview(done@)[j] == aview(prev)[j]);
                    assert(aview(prev)[j] == cascade_p(aview(orig)[j], tag_name@));
                }
            }
            assert(orig.skip(k).drop_first() =~= orig.skip(k + 1));
        }
    }
    proof {
        assert(aview(done@) =~= cascade(aview(orig), tag_name@));
    }
    let Settings { workspace, tags } = settings;
    let new_tags = match tags {
        Option::None => Option::None,
        Option::Some(cat) => Option::Some(aremove_exec(cat, tag_name)),
    };
    let r = Config { projects: done, settings: Settings { workspace, tags: new_tags } };
    proof {
        assert(r@ =~~= delete_tag_m(cv, tag_name@));
    }
    Result::Ok(r)
}

/// Associates `tag_name` with the project named `project_name`. The
/// project must exist and the tag must already be defined in the
/// catalog — an association to an undefined tag is never created.
/// Adding an already-present tag is a no-op success.
pub fn add_tag_project(
    maybe_config: Result<Config, AppError>,
    project_name: String,
    tag_name: String,
) -> (r: Result<Config, AppError>)
    ensures
        match maybe_config {
            Result::Err(e) => res_view(r) == Result::<ConfigV, AppErrorV>::Err(e@),
            Result::Ok(c) => res_view(r) == add_tag_m(c@, project_name@, tag_name@),
        },
{
    let config = match maybe_config {
        Result::Ok(c) => c,
        Result::Err(e) => {
            return Result::Err(e);
        },
    };
    let ghost cv = config@;
    let idx = match alist_idx(&config.projects, project_name.as_str()) {
        Option::Some(i) => i,
        Option::None => {
            return Result::Err(AppError::UnknownProject(project_name));
        },
    };
    let tag_known = match &config.settings.tags {
        Option::None => false,
        Option::Some(cat) => alist_idx(cat, tag_name.as_str()).is_some(),
    };
    proof {
        assert(cv.catalog() =~= match config.settings.tags {
            Option::None => Seq::<(Seq<char>, TagV)>::empty(),
            Option::Some(cat) => aview(cat@),
        });
    }
    if !tag_known {
        return Result::Err(AppError::UnknownTag(tag_name));
    }
    let p = &config.projects[idx].1;
    let new_tags = sinsert_exec(clone_names(&p.tags), tag_name);
    let p2 = Project {
        name: p.name.clone(),
        git: p.git.clone(),
        after_clone: clone_opt(&p.after_clone),
        after_workon: clone_opt(&p.after_workon),
        tags: new_tags,
    };
    let ghost pv = cv.projects[idx as int].1;
    proof {
        assert(alookup(cv.projects, project_name@) == Option::Some(pv));
        assert(p2@ =~= ProjectV {
            name: pv.name,
            git: pv.git,
            after_clone: pv.after_clone,
            after_workon: pv.after_workon,
            tags: sinsert(pv.tags, tag_name@),
        });
    }
    let Config { projects, settings } = config;
    let projects = ainsert_exec(projects, project_name, p2);
    let r = Config { projects, settings };
    proof {
        assert(Result::<ConfigV, AppErrorV>::Ok(r@) =~~= add_tag_m(cv, project_name@, tag_name@));
    }
    Result::Ok(r)
}

/// Associates a tag with a project, as `add_tag_project` does.
pub fn add_tag(
    maybe_config: Result<Config, AppError>,
    project_name: String,
    tag_name: String,
) -> (r: Result<Config, AppError>)
    ensures
        match maybe_config {
            Result::Err(e) => res_view(r) == Result::<ConfigV, AppErrorV>::Err(e@),
            Result::Ok(c) => res_view(r) == add_tag_m(c@, project_name@, tag_name@),
        },
{
    add_tag_project(maybe_config, project_name, tag_name)
}

/// Dissociates `tag_name` from the project named `project_name`. The
/// project must exist; removing a tag that is not associated succeeds
/// as a no-op, whatever the catalog holds.
pub fn remove_tag(
    maybe_config: Result<Config, AppError>,
    project_name: String,
    tag_name: &str,
) -> (r: Result<Config, AppError>)
    ensures
        match maybe_config {
            Result::Err(e) => res_view(r) == Result::<ConfigV, AppErrorV>::Err(e@),
            Result::Ok(c) => res_view(r) == remove_tag_m(c@, project_name@, tag_name@),
        },
{
    let config = match maybe_config {
        Result::Ok(c) => c,
        Result::Err(e) => {
            return Result::Err(e);
        },
    };
    let ghost cv = config@;
    let idx = match alist_idx(&config.projects, project_name.as_str()) {
        Option::Some(i) => i,
        Option::None => {
            return Result::Err(AppError::UnknownProject(project_name));
        },
    };
    let p = &config.projects[idx].1;
    let new_tags = sremove_exec(clone_names(&p.tags), tag_name);
    let p2 = Project {
        name: p.name.clone(),
        git: p.git.clone(),
        after_clone: clone_opt(&p.after_clone),
        after_workon: clone_opt(&p.after_workon),
        tags: new_tags,
    };
    let ghost pv = cv.projects[idx as int].1;
    proof {
        assert(alookup(cv.projects, project_name@) == Option::Some(pv));
        assert(p2@ =~= ProjectV {
            name: pv.name,
            git: pv.git,
            after_clone: pv.after_clone,
            after_workon: pv.after_workon,
            tags: sremove(pv.tags, tag_name@),
        });
    }
    let Config { projects, settings } = config;
    let projects = ainsert_exec(projects, project_name, p2);
    let r = Config { projects, settings };
    proof {
        assert(Result::<ConfigV, AppErrorV>::Ok(r@) =~~= remove_tag_m(cv, project_name@, tag_name@));
    }
    Result::Ok(r)
}

/// What `list_all_tags` returns: the catalog's keys in their stored
/// (ascending lexicographic) order.
pub open spec fn list_all_tags_m(c: ConfigV) -> Seq<Seq<char>> {
    crate::config::keys_of(c.catalog())
}

/// What `list_project_tags` returns: the project's tag names in their
/// stored (ascending lexicographic) order, or an unknown-project error.
pub open spec fn list_project_tags_m(c: ConfigV, project_name: Seq<char>) -> Result<
    Seq<Seq<char>>,
    AppErrorV,
> {
    match alookup(c.projects, project_name) {
        Option::None => Result::Err(AppErrorV::UnknownProject(project_name)),
        Option::Some(p) => Result::Ok(p.tags),
    }
}

/// Lists every tag name in the catalog, in ascending lexicographic
/// order.
pub fn list_all_tags(config: &Config) -> (r: Vec<String>)
    ensures
        names_view(r@) == list_all_tags_m(config@),
        config@.wf() ==> crate::config::sorted_names(names_view(r@)),
{
    let mut out: Vec<String> = Vec::new();
    match &config.settings.tags {
        Option::None => {
            proof {
                assert(names_view(out@) =~= list_all_tags_m(config@));
            }
        },
        Option::Some(cat) => {
            let mut i: usize = 0;
            while i < cat.len()
                invariant
                    i <= cat.len(),
                    out.len() == i,
                    forall|j: int| 0 <= j < i ==> out@[j]@ == cat@[j].0@,
                decreases cat.len() - i,
            {
                out.push(cat[i].0.clone());
                i = i + 1;
            }
            proof {
                assert(names_view(out@) =~= list_all_tags_m(config@));
            }
        },
    }
    proof {
        if config@.wf() {
            assert(forall|i: int|
                0 <= i < config@.catalog().len() ==> list_all_tags_m(config@)[i]
                    == config@.catalog()[i].0);
        }
    }
    out
}

/// Lists the tag names of one project, in ascending lexicographic
/// order when the registry is well formed; an unknown project is
/// rejected.
pub fn list_project_tags(config: &Config, project_name: &str) -> (r: Result<Vec<String>, AppError>)
    ensures
        match r {
            Result::Ok(v) => list_project_tags_m(config@, project_name@) == Result::<
                Seq<Seq<char>>,
                AppErrorV,
            >::Ok(names_view(v@)),
            Result::Err(e) => list_project_tags_m(config@, project_name@) == Result::<
                Seq<Seq<char>>,
                AppErrorV,
            >::Err(e@),
        },
{
    match alist_idx(&config.projects, project_name) {
        Option::None => Result::Err(AppError::UnknownProject(String::from_str(project_name))),
        Option::Some(i) => {
            let names = clone_names(&config.projects[i].1.tags);
            proof {
                assert(aview(config.projects@)[i as int].1 == config.projects@[i as int].1@);
            }
            Result::Ok(names)
        },
    }
}

/// Lists tags: with a project name, that project's tags; without one,
/// every tag in the catalog.
pub fn list_tags(
    maybe_config: Result<Config, AppError>,
    maybe_project_name: Option<String>,
) -> (r: Result<Vec<String>, AppError>)
    ensures
        match maybe_config {
            Result::Err(e) => r matches Result::Err(e2) && e2@ == e@,
            Result::Ok(c) => match maybe_project_name {
                Option::Some(p) => match r {
                    Result::Ok(v) => list_project_tags_m(c@, p@) == Result::<
                        Seq<Seq<char>>,
                        AppErrorV,
                    >::Ok(names_view(v@)),
                    Result::Err(e) => list_project_tags_m(c@, p@) == Result::<
                        Seq<Seq<char>>,
                        AppErrorV,
                    >::Err(e@),
                },
                Option::None => r matches Result::Ok(v) && names_view(v@) == list_all_tags_m(c@),
            },
        },
{
    let config = match maybe_config {
        Result::Ok(c) => c,
        Result::Err(e) => {
            return Result::Err(e);
        },
    };
    match maybe_project_name {
        Option::Some(project_name) => list_project_tags(&config, project_name.as_str()),
        Option::None => Result::Ok(list_all_tags(&config)),
    }
}

/// A binding found by lookup sits at some index of the list.
pub proof fn lemma_alookup_index<V>(s: Seq<(Seq<char>, V)>, k: Seq<char>)
    requires
        alookup(s, k) is Some,
    ensures
        exists|i: int|
            0 <= i < s.len() && s[i].0 == k && #[trigger] s[i].1 == alookup(s, k)->Some_0,
    decreases s.len(),
{
    if s.len() > 0 && s[0].0 != k {
        lemma_alookup_index(s.drop_first(), k);
        let d = s.drop_first();
        let i = choose|i: int|
            0 <= i < d.len() && d[i].0 == k && #[trigger] d[i].1 == alookup(d, k)->Some_0;
        assert(s[i + 1].0 == k && s[i + 1].1 == alookup(s, k)->Some_0);
    }
}

/// Idempotence: associating the same tag twice gives the same registry
/// as associating it once.
pub proof fn law_add_tag_idempotent(c: ConfigV, p: Seq<char>, t: Seq<char>, c1: ConfigV)
    requires
        c.wf(),
        add_tag_m(c, p, t) == Result::<ConfigV, AppErrorV>::Ok(c1),
    ensures
        add_tag_m(c1, p, t) == Result::<ConfigV, AppErrorV>::Ok(c1),
{
    let pv = alookup(c.projects, p)->Some_0;
    let pv2 = ProjectV {
        name: pv.name,
        git: pv.git,
        after_clone: pv.after_clone,
        after_workon: pv.after_workon,
        tags: sinsert(pv.tags, t),
    };
    crate::config::lemma_ainsert_lookup(c.projects, p, pv2, p);
    assert(alookup(c1.projects, p) == Option::Some(pv2));
    assert(c1.catalog() == c.catalog());
    lemma_alookup_index(c.projects, p);
    let i = choose|i: int|
        0 <= i < c.projects.len() && c.projects[i].0 == p && #[trigger] c.projects[i].1 == pv;
    assert(crate::config::sorted_names(pv.tags));
    crate::config::lemma_sinsert_sorted(pv.tags, t);
    crate::config::lemma_sinsert_contains(pv.tags, t, t);
    crate::config::lemma_sinsert_member(sinsert(pv.tags, t), t);
    let pv3 = ProjectV {
        name: pv2.name,
        git: pv2.git,
        after_clone: pv2.after_clone,
        after_workon: pv2.after_workon,
        tags: sinsert(pv2.tags, t),
    };
    assert(pv3 =~= pv2);
    crate::config::lemma_ainsert_sorted(c.projects, p, pv2);
    crate::config::lemma_ainsert_same(c1.projects, p, pv2);
    assert(add_tag_m(c1, p, t)->Ok_0 =~= c1);
}

/// Idempotence: dissociating the same tag twice gives the same
/// registry as dissociating it once.
pub proof fn law_remove_tag_idempotent(c: ConfigV, p: Seq<char>, t: Seq<char>, c1: ConfigV)
    requires
        c.wf(),
        remove_tag_m(c, p, t) == Result::<ConfigV, AppErrorV>::Ok(c1),
    ensures
        remove_tag_m(c1, p, t) == Result::<ConfigV, AppErrorV>::Ok(c1),
{
    let pv = alookup(c.projects, p)->Some_0;
    let pv2 = ProjectV {
        name: pv.name,
        git: pv.git,
        after_clone: pv.after_clone,
        after_workon: pv.after_workon,
        tags: sremove(pv.tags, t),
    };
    crate::config::lemma_ainsert_lookup(c.projects, p, pv2, p);
    assert(alookup(c1.projects, p) == Option::Some(pv2));
    crate::config::lemma_sremove_contains(pv.tags, t, t);
    crate::config::lemma_sremove_absent(sremove(pv.tags, t), t);
    let pv3 = ProjectV {
        name: pv2.name,
        git: pv2.git,
        after_clone: pv2.after_clone,
        after_workon: pv2.after_workon,
        tags: sremove(pv2.tags, t),
    };
    assert(pv3 =~= pv2);
    crate::config::lemma_ainsert_sorted(c.projects, p, pv2);
    crate::config::lemma_ainsert_same(c1.projects, p, pv2);
    assert(remove_tag_m(c1, p, t)->Ok_0 =~= c1);
}

/// Cascade completeness: after a tag is deleted, no project references
/// it and the catalog no longer holds it.
pub proof fn law_delete_tag_cascades(c: ConfigV, t: Seq<char>)
    ensures
        forall|i: int|
            0 <= i < delete_tag_m(c, t).projects.len() ==> !(
            #[trigger] delete_tag_m(c, t).projects[i].1.tags.contains(t)),
        alookup(delete_tag_m(c, t).catalog(), t) is None,
{
    let d = delete_tag_m(c, t);
    assert forall|i: int| 0 <= i < d.projects.len() implies !(
    #[trigger] d.projects[i].1.tags.contains(t)) by {
        assert(d.projects[i] == cascade_p(c.projects[i], t));
        crate::config::lemma_sremove_contains(c.projects[i].1.tags, t, t);
    }
    match c.settings.tags {
        Option::None => {
        },
        Option::Some(cat) => {
            crate::config::lemma_aremove_lookup(cat, t, t);
        },
    }
}

/// Referential safety: an association is only ever created to a tag
/// that the catalog already held before the call.
pub proof fn law_add_tag_referential(c: ConfigV, p: Seq<char>, t: Seq<char>)
    ensures
        add_tag_m(c, p, t) is Ok ==> alookup(c.catalog(), t) is Some,
{
}

/// Two sorted association lists with the same lookups are equal: the
/// sorted representation is canonical.
pub proof fn lemma_sorted_unique<V>(a: Seq<(Seq<char>, V)>, b: Seq<(Seq<char>, V)>)
    requires
        crate::config::sorted_keys(a),
        crate::config::sorted_keys(b),
        forall|k: Seq<char>| #[trigger] alookup(a, k) == alookup(b, k),
    ensures
        a == b,
    decreases a.len() + b.len(),
{
    if a.len() == 0 && b.len() == 0 {
        assert(a =~= b);
    } else if a.len() == 0 {
        assert(alookup(b, b[0].0) == Option::Some(b[0].1));
        assert(alookup(a, b[0].0) is None);
    } else if b.len() == 0 {
        assert(alookup(a, a[0].0) == Option::Some(a[0].1));
        assert(alookup(b, a[0].0) is None);
    } else {
        assert(alookup(a, a[0].0) == Option::Some(a[0].1));
        assert(alookup(b, b[0].0) == Option::Some(b[0].1));
        if a[0].0 != b[0].0 {
            lemma_alookup_index(b, a[0].0);
            let ib = choose|n: int|
                0 <= n < b.len() && b[n].0 == a[0].0 && #[trigger] b[n].1 == alookup(
                    b,
                    a[0].0,
                )->Some_0;
            assert(ib > 0);
            assert(crate::order::lex_lt(b[0].0, a[0].0));
            lemma_alookup_index(a, b[0].0);
            let ia = choose|n: int|
                0 <= n < a.len() && a[n].0 == b[0].0 && #[trigger] a[n].1 == alookup(
                    a,
                    b[0].0,
                )->Some_0;
            assert(ia > 0);
            assert(crate::order::lex_lt(a[0].0, b[0].0));
            crate::order::lex_lt_asymmetric(a[0].0, b[0].0);
        }
        assert(a[0].0 == b[0].0);
        assert(a[0].1 == b[0].1);
        let a2 = a.drop_first();
        let b2 = b.drop_first();
        assert(a =~= seq![a[0]] + a2);
        assert(b =~= seq![b[0]] + b2);
        crate::config::lemma_sorted_cons(a[0], a2);
        crate::config::lemma_sorted_cons(b[0], b2);
        assert forall|k: Seq<char>| #[trigger] alookup(a2, k) == alookup(b2, k) by {
            if k == a[0].0 {
                crate::config::lemma_key_below_lookup(k, a2);
                crate::config::lemma_key_below_lookup(k, b2);
            } else {
                assert(alookup(a, k) == alookup(a2, k));
                assert(alookup(b, k) == alookup(b2, k));
            }
        }
        lemma_sorted_unique(a2, b2);
        assert(a[0] == b[0]) by {
            assert(a[0].0 == b[0].0 && a[0].1 == b[0].1);
        }
        assert(a =~= b);
    }
}

/// Ordering is independent of creation order: defining two tags with
/// distinct names yields the same registry in either order.
pub proof fn law_create_tag_commutes(
    c: ConfigV,
    n1: Seq<char>,
    t1: TagV,
    n2: Seq<char>,
    t2: TagV,
)
    requires
        c.wf(),
        n1 != n2,
    ensures
        create_tag_m(create_tag_m(c, n1, t1), n2, t2) == create_tag_m(
            create_tag_m(c, n2, t2),
            n1,
            t1,
        ),
{
    let cat = c.catalog();
    let lhs = ainsert(ainsert(cat, n1, t1), n2, t2);
    let rhs = ainsert(ainsert(cat, n2, t2), n1, t1);
    crate::config::lemma_ainsert_sorted(cat, n1, t1);
    crate::config::lemma_ainsert_sorted(ainsert(cat, n1, t1), n2, t2);
    crate::config::lemma_ainsert_sorted(cat, n2, t2);
    crate::config::lemma_ainsert_sorted(ainsert(cat, n2, t2), n1, t1);
    assert forall|k: Seq<char>| #[trigger] alookup(lhs, k) == alookup(rhs, k) by {
        crate::config::lemma_ainsert_lookup(cat, n1, t1, k);
        crate::config::lemma_ainsert_lookup(ainsert(cat, n1, t1), n2, t2, k);
        crate::config::lemma_ainsert_lookup(cat, n2, t2, k);
        crate::config::lemma_ainsert_lookup(ainsert(cat, n2, t2), n1, t1, k);
    }
    lemma_sorted_unique(lhs, rhs);
    assert(create_tag_m(create_tag_m(c, n1, t1), n2, t2) =~= create_tag_m(
        create_tag_m(c, n2, t2),
        n1,
        t1,
    ));
}

/// Creating a tag preserves well-formedness and referential integrity.
pub proof fn law_create_tag_preserves(c: ConfigV, name: Seq<char>, t: TagV)
    requires
        c.wf(),
        c.tags_defined(),
    ensures
        create_tag_m(c, name, t).wf(),
        create_tag_m(c, name, t).tags_defined(),
{
    let d = create_tag_m(c, name, t);
    crate::config::lemma_ainsert_sorted(c.catalog(), name, t);
    assert forall|i: int, j: int|
        0 <= i < d.projects.len() && 0 <= j < d.projects[i].1.tags.len() implies alookup(
        d.catalog(),
        #[trigger] d.projects[i].1.tags[j],
    ) is Some by {
        crate::config::lemma_ainsert_lookup(c.catalog(), name, t, d.projects[i].1.tags[j]);
        assert(alookup(c.catalog(), d.projects[i].1.tags[j]) is Some);
    }
}

/// Deleting a tag preserves well-formedness and referential integrity.
pub proof fn law_delete_tag_preserves(c: ConfigV, name: Seq<char>)
    requires
        c.wf(),
        c.tags_defined(),
    ensures
        delete_tag_m(c, name).wf(),
        delete_tag_m(c, name).tags_defined(),
{
    let d = delete_tag_m(c, name);
    assert(forall|i: int| 0 <= i < d.projects.len() ==> #[trigger] d.projects[i] == cascade_p(
        c.projects[i],
        name,
    ));
    assert forall|i: int, j: int| 0 <= i < d.projects.len() && 0 <= j < d.projects.len()
        && i < j implies crate::order::lex_lt(d.projects[i].0, d.projects[j].0) by {
        assert(d.projects[i].0 == c.projects[i].0 && d.projects[j].0 == c.projects[j].0);
    }
    assert forall|i: int| 0 <= i < d.projects.len() implies crate::config::sorted_names(
        #[trigger] d.projects[i].1.tags,
    ) by {
        crate::config::lemma_sremove_sorted(c.projects[i].1.tags, name);
    }
    match c.settings.tags {
        Option::None => {
        },
        Option::Some(cat) => {
            crate::config::lemma_aremove_sorted(cat, name);
        },
    }
    assert forall|i: int, j: int|
        0 <= i < d.projects.len() && 0 <= j < d.projects[i].1.tags.len() implies alookup(
        d.catalog(),
        #[trigger] d.projects[i].1.tags[j],
    ) is Some by {
        let x = d.projects[i].1.tags[j];
        crate::config::lemma_sremove_contains(c.projects[i].1.tags, name, x);
        assert(d.projects[i].1.tags.contains(x)) by {
            assert(d.projects[i].1.tags[j] == x);
        }
        assert(x != name && c.projects[i].1.tags.contains(x));
        let m = choose|m: int|
            0 <= m < c.projects[i].1.tags.len() && c.projects[i].1.tags[m] == x;
        assert(alookup(c.catalog(), x) is Some);
        match c.settings.tags {
            Option::None => {
            },
            Option::Some(cat) => {
                crate::config::lemma_aremove_lookup(cat, name, x);
            },
        }
    }
}

/// Associating a tag preserves well-formedness and referential
/// integrity.
pub proof fn law_add_tag_preserves(c: ConfigV, p: Seq<char>, t: Seq<char>, c1: ConfigV)
    requires
        c.wf(),
        c.tags_defined(),
        add_tag_m(c, p, t) == Result::<ConfigV, AppErrorV>::Ok(c1),
    ensures
        c1.wf(),
        c1.tags_defined(),
{
    let pv = alookup(c.projects, p)->Some_0;
    let pv2 = ProjectV {
        name: pv.name,
        git: pv.git,
        after_clone: pv.after_clone,
        after_workon: pv.after_workon,
        tags: sinsert(pv.tags, t),
    };
    lemma_alookup_index(c.projects, p);
    let i0 = choose|i: int|
        0 <= i < c.projects.len() && c.projects[i].0 == p && #[trigger] c.projects[i].1 == pv;
    assert(crate::config::sorted_names(pv.tags));
    crate::config::lemma_ainsert_sorted(c.projects, p, pv2);
    crate::config::lemma_sinsert_sorted(pv.tags, t);
    crate::config::lemma_ainsert_elements(c.projects, p, pv2);
    assert forall|i: int| 0 <= i < c1.projects.len() implies crate::config::sorted_names(
        #[trigger] c1.projects[i].1.tags,
    ) by {
        if c1.projects[i] == (p, pv2) {
        } else {
            let m = choose|m: int|
                0 <= m < c.projects.len() && c.projects[m] == c1.projects[i];
            assert(crate::config::sorted_names(c.projects[m].1.tags));
        }
    }
    assert forall|i: int, j: int|
        0 <= i < c1.projects.len() && 0 <= j < c1.projects[i].1.tags.len() implies alookup(
        c1.catalog(),
        #[trigger] c1.projects[i].1.tags[j],
    ) is Some by {
        let x = c1.projects[i].1.tags[j];
        assert(c1.catalog() == c.catalog());
        if c1.projects[i] == (p, pv2) {
            assert(pv2.tags.contains(x)) by {
                assert(c1.projects[i].1.tags[j] == x);
            }
            crate::config::lemma_sinsert_contains(pv.tags, t, x);
            if x != t {
                assert(pv.tags.contains(x));
                let m = choose|m: int| 0 <= m < pv.tags.len() && pv.tags[m] == x;
                assert(c.projects[i0].1.tags[m] == x);
            }
        } else {
            let m = choose|m: int|
                0 <= m < c.projects.len() && c.projects[m] == c1.projects[i];
            assert(c.projects[m].1.tags[j] == x);
        }
    }
}

/// Dissociating a tag preserves well-formedness and referential
/// integrity.
pub proof fn law_remove_tag_preserves(c: ConfigV, p: Seq<char>, t: Seq<char>, c1: ConfigV)
    requires
        c.wf(),
        c.tags_defined(),
        remove_tag_m(c, p, t) == Result::<ConfigV, AppErrorV>::Ok(c1),
    ensures
        c1.wf(),
        c1.tags_defined(),
{
    let pv = alookup(c.projects, p)->Some_0;
    let pv2 = ProjectV {
        name: pv.name,
        git: pv.git,
        after_clone: pv.after_clone,
        after_workon: pv.after_workon,
        tags: sremove(pv.tags, t),
    };
    lemma_alookup_index(c.projects, p);
    let i0 = choose|i: int|
        0 <= i < c.projects.len() && c.projects[i].0 == p && #[trigger] c.projects[i].1 == pv;
    assert(crate::config::sorted_names(pv.tags));
    crate::config::lemma_ainsert_sorted(c.projects, p, pv2);
    crate::config::lemma_sremove_sorted(pv.tags, t);
    crate::config::lemma_ainsert_elements(c.projects, p, pv2);
    assert forall|i: int| 0 <= i < c1.projects.len() implies crate::config::sorted_names(
        #[trigger] c1.projects[i].1.tags,
    ) by {
        if c1.projects[i] == (p, pv2) {
        } else {
            let m = choose|m: int|
                0 <= m < c.projects.len() && c.projects[m] == c1.projects[i];
            assert(crate::config::sorted_names(c.projects[m].1.tags));
        }
    }
    assert forall|i: int, j: int|
        0 <= i < c1.projects.len() && 0 <= j < c1.projects[i].1.tags.len() implies alookup(
        c1.catalog(),
        #[trigger] c1.projects[i].1.tags[j],
    ) is Some by {
        let x = c1.projects[i].1.tags[j];
        assert(c1.catalog() == c.catalog());
        if c1.projects[i] == (p, pv2) {
            assert(pv2.tags.contains(x)) by {
                assert(c1.projects[i].1.tags[j] == x);
            }
            crate::config::lemma_sremove_contains(pv.tags, t, x);
            assert(pv.tags.contains(x));
            let m = choose|m: int| 0 <= m < pv.tags.len() && pv.tags[m] == x;
            assert(c.projects[i0].1.tags[m] == x);
        } else {
            let m = choose|m: int|
                0 <= m < c.projects.len() && c.projects[m] == c1.projects[i];
            assert(c.projects[m].1.tags[j] == x);
        }
    }
}

/// Ordering: the tag listing is ascending in lexicographic order for
/// any well-formed registry, whatever order the tags were created in.
pub proof fn law_list_all_tags_sorted(c: ConfigV)
    requires
        c.wf(),
    ensures
        crate::config::sorted_names(list_all_tags_m(c)),
{
    assert(forall|i: int|
        0 <= i < c.catalog().len() ==> list_all_tags_m(c)[i] == c.catalog()[i].0);
}

} // verus!
