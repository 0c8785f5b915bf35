//! The registry data model: projects and tags with their invariants,
//! the sorted-association-list representation of every mapping, and
//! project creation.

use vstd::prelude::*;

use crate::errors::AppError;
use crate::errors::AppErrorV;
use crate::order::lex_lt;
use crate::order::lex_lt_asymmetric;
use crate::order::lex_lt_irreflexive;
use crate::order::lex_lt_transitive;
use crate::order::str_eq;
use crate::order::str_lt;

verus! {

/// A tag: default hook commands, an ordering hint and a default
/// workspace, all optional and passed through uninterpreted.
#[derive(Debug, Clone, PartialEq, Eq)]
pub struct Tag {
    pub after_clone: Option<String>,
    pub after_workon: Option<String>,
    pub priority: Option<u8>,
    pub workspace: Option<String>,
}

/// A named git repository entry with optional hook overrides and a set
/// of tag names, kept sorted and duplicate-free.
#[derive(Debug, Clone, PartialEq, Eq)]
pub struct Project {
    pub name: String,
    pub git: String,
    pub after_clone: Option<String>,
    pub after_workon: Option<String>,
    pub tags: Vec<String>,
}

/// Global settings: the default workspace directory and the optional
/// tag catalog, a mapping from tag name to tag kept sorted by name.
#[derive(Debug, Clone, PartialEq, Eq)]
pub struct Settings {
    pub workspace: String,
    pub tags: Option<Vec<(String, Tag)>>,
}

/// The root aggregate: the project mapping, kept sorted by project
/// name, and the global settings.
#[derive(Debug, Clone, PartialEq, Eq)]
pub struct Config {
    pub projects: Vec<(String, Project)>,
    pub settings: Settings,
}

/// The mathematical value of a tag.
#[verifier::ext_equal]
pub struct TagV {
    pub after_clone: Option<Seq<char>>,
    pub after_workon: Option<Seq<char>>,
    pub priority: Option<u8>,
    pub workspace: Option<Seq<char>>,
}

/// The mathematical value of a project.
#[verifier::ext_equal]
pub struct ProjectV {
    pub name: Seq<char>,
    pub git: Seq<char>,
    pub after_clone: Option<Seq<char>>,
    pub after_workon: Option<Seq<char>>,
    pub tags: Seq<Seq<char>>,
}

/// The mathematical value of the settings.
#[verifier::ext_equal]
pub struct SettingsV {
    pub workspace: Seq<char>,
    pub tags: Option<Seq<(Seq<char>, TagV)>>,
}

/// The mathematical value of a registry.
#[verifier::ext_equal]
pub struct ConfigV {
    pub projects: Seq<(Seq<char>, ProjectV)>,
    pub settings: SettingsV,
}

/// The view of an optional string.
pub open spec fn opt_view(o: Option<String>) -> Option<Seq<char>> {
    match o {
        Option::None => Option::None,
        Option::Some(s) => Option::Some(s@),
    }
}

/// The views of a sequence of strings.
pub open spec fn names_view(s: Seq<String>) -> Seq<Seq<char>> {
    s.map_values(|x: String| x@)
}

impl View for Tag {
    type V = TagV;

    open spec fn view(&self) -> TagV {
        TagV {
            after_clone: opt_view(self.after_clone),
            after_workon: opt_view(self.after_workon),
            priority: self.priority,
            workspace: opt_view(self.workspace),
        }
    }
}

impl View for Project {
    type V = ProjectV;

    open spec fn view(&self) -> ProjectV {
        ProjectV {
            name: self.name@,
            git: self.git@,
            after_clone: opt_view(self.after_clone),
            after_workon: opt_view(self.after_workon),
            tags: names_view(self.tags@),
        }
    }
}

/// The views of an association list with string keys.
pub open spec fn aview<V: View>(s: Seq<(String, V)>) -> Seq<(Seq<char>, V::V)> {
    s.map_values(|p: (String, V)| (p.0@, p.1@))
}

/// The views of a project mapping.
pub open spec fn projects_view(s: Seq<(String, Project)>) -> Seq<(Seq<char>, ProjectV)> {
    aview(s)
}

/// The views of a tag catalog.
pub open spec fn tags_view(s: Seq<(String, Tag)>) -> Seq<(Seq<char>, TagV)> {
    aview(s)
}

impl View for Settings {
    type V = SettingsV;

    open spec fn view(&self) -> SettingsV {
        SettingsV {
            workspace: self.workspace@,
            tags: match self.tags {
                Option::None => Option::None,
                Option::Some(ts) => Option::Some(tags_view(ts@)),
            },
        }
    }
}

impl View for Config {
    type V = ConfigV;

    open spec fn view(&self) -> ConfigV {
        ConfigV { projects: projects_view(self.projects@), settings: self.settings@ }
    }
}

/// The keys of an association list, in order.
pub open spec fn keys_of<V>(s: Seq<(Seq<char>, V)>) -> Seq<Seq<char>> {
    s.map_values(|p: (Seq<char>, V)| p.0)
}

/// The keys are strictly ascending, hence also unique.
pub open spec fn sorted_keys<V>(s: Seq<(Seq<char>, V)>) -> bool {
    forall|i: int, j: int| 0 <= i < j < s.len() ==> lex_lt(s[i].0, s[j].0)
}

/// The names are strictly ascending, hence also unique.
pub open spec fn sorted_names(s: Seq<Seq<char>>) -> bool {
    forall|i: int, j: int| 0 <= i < j < s.len() ==> lex_lt(s[i], s[j])
}

/// The value under the first occurrence of a key, if any.
pub open spec fn alookup<V>(s: Seq<(Seq<char>, V)>, k: Seq<char>) -> Option<V>
    decreases s.len(),
{
    if s.len() == 0 {
        Option::None
    } else if s[0].0 == k {
        Option::Some(s[0].1)
    } else {
        alookup(s.drop_first(), k)
    }
}

/// Inserts a binding at its ordered position, replacing the binding of
/// an equal key.
pub open spec fn ainsert<V>(s: Seq<(Seq<char>, V)>, k: Seq<char>, v: V) -> Seq<(Seq<char>, V)>
    decreases s.len(),
{
    if s.len() == 0 {
        seq![(k, v)]
    } else if lex_lt(k, s[0].0) {
        seq![(k, v)] + s
    } else if k == s[0].0 {
        seq![(k, v)] + s.drop_first()
    } else {
        seq![s[0]] + ainsert(s.drop_first(), k, v)
    }
}

/// Drops every binding of a key.
pub open spec fn aremove<V>(s: Seq<(Seq<char>, V)>, k: Seq<char>) -> Seq<(Seq<char>, V)>
    decreases s.len(),
{
    if s.len() == 0 {
        Seq::empty()
    } else if s[0].0 == k {
        aremove(s.drop_first(), k)
    } else {
        seq![s[0]] + aremove(s.drop_first(), k)
    }
}

/// Inserts a name at its ordered position in a sorted name set; a name
/// already present leaves the set unchanged.
pub open spec fn sinsert(s: Seq<Seq<char>>, t: Seq<char>) -> Seq<Seq<char>>
    decreases s.len(),
{
    if s.len() == 0 {
        seq![t]
    } else if lex_lt(t, s[0]) {
        seq![t] + s
    } else if t == s[0] {
        s
    } else {
        seq![s[0]] + sinsert(s.drop_first(), t)
    }
}

/// Drops every occurrence of a name.
pub open spec fn sremove(s: Seq<Seq<char>>, t: Seq<char>) -> Seq<Seq<char>>
    decreases s.len(),
{
    if s.len() == 0 {
        Seq::empty()
    } else if s[0] == t {
        sremove(s.drop_first(), t)
    } else {
        seq![s[0]] + sremove(s.drop_first(), t)
    }
}

impl ConfigV {
    /// The tag catalog, the empty mapping when none is configured.
    pub open spec fn catalog(self) -> Seq<(Seq<char>, TagV)> {
        match self.settings.tags {
            Option::None => Seq::empty(),
            Option::Some(c) => c,
        }
    }

    /// Structural well-formedness: every mapping is sorted by key and
    /// every project's tag set is sorted.
    pub open spec fn wf(self) -> bool {
        &&& sorted_keys(self.projects)
        &&& (forall|i: int| 0 <= i < self.projects.len() ==> sorted_names(
            #[trigger] self.projects[i].1.tags,
        ))
        &&& sorted_keys(self.catalog())
    }

    /// Referential integrity: every tag name referenced by a project
    /// is a key of the tag catalog.
    pub open spec fn tags_defined(self) -> bool {
        forall|i: int, j: int|
            0 <= i < self.projects.len() && 0 <= j < self.projects[i].1.tags.len() ==> alookup(
                self.catalog(),
                #[trigger] self.projects[i].1.tags[j],
            ) is Some
    }
}

/// The view of an operation's outcome.
pub open spec fn res_view(r: Result<Config, AppError>) -> Result<ConfigV, AppErrorV> {
    match r {
        Result::Ok(c) => Result::Ok(c@),
        Result::Err(e) => Result::Err(e@),
    }
}

/// Copies an optional string.
pub fn clone_opt(o: &Option<String>) -> (r: Option<String>)
    ensures
        opt_view(r) == opt_view(*o),
{
    match o {
        Option::None => Option::None,
        Option::Some(s) => Option::Some(s.clone()),
    }
}

/// Copies a vector of strings.
pub fn clone_names(v: &Vec<String>) -> (r: Vec<String>)
    ensures
        names_view(r@) == names_view(v@),
{
    let mut out: Vec<String> = Vec::new();
    let mut i: usize = 0;
    while i < v.len()
        invariant
            i <= v.len(),
            out.len() == i,
            forall|j: int| 0 <= j < i ==> out@[j]@ == v@[j]@,
        decreases v.len() - i,
    {
        out.push(v[i].clone());
        i = i + 1;
    }
    assert(names_view(out@) =~= names_view(v@));
    out
}

/// `p` is a prefix of `s`.
pub open spec fn has_prefix(s: Seq<char>, p: Seq<char>) -> bool {
    p.len() <= s.len() && s.subrange(0, p.len() as int) == p
}

/// A name that looks like a repository URL rather than a project name.
pub open spec fn is_url_like(s: Seq<char>) -> bool {
    has_prefix(s, "http"@) || has_prefix(s, "git@"@)
}

/// Decides `has_prefix` on string slices.
pub fn str_has_prefix(s: &str, p: &str) -> (r: bool)
    ensures
        r == has_prefix(s@, p@),
{
    let sl = s.unicode_len();
    let pl = p.unicode_len();
    if pl > sl {
        return false;
    }
    let mut i: usize = 0;
    while i < pl
        invariant
            i <= pl,
            pl <= sl,
            sl == s@.len(),
            pl == p@.len(),
            forall|j: int| 0 <= j < i ==> s@[j] == p@[j],
        decreases pl - i,
    {
        let cs = s.get_char(i);
        let cp = p.get_char(i);
        if cs as u32 != cp as u32 {
            assert(s@.subrange(0, pl as int) != p@) by {
                assert(s@.subrange(0, pl as int)[i as int] != p@[i as int]);
            }
            return false;
        }
        proof {
            crate::order::char_eq_by_u32(cs, cp);
        }
        i = i + 1;
    }
    assert(s@.subrange(0, pl as int) =~= p@);
    true
}

/// What `add_entry` does: reject URL-like and duplicate names, else
/// bind a fresh project with empty hooks and an empty tag set.
pub open spec fn add_entry_m(c: ConfigV, name: Seq<char>, url: Seq<char>) -> Result<
    ConfigV,
    AppErrorV,
> {
    if is_url_like(name) {
        Result::Err(AppErrorV::InvalidName(name))
    } else if alookup(c.projects, name) is Some {
        Result::Err(AppErrorV::DuplicateProject(name))
    } else {
        Result::Ok(
            ConfigV {
                projects: ainsert(
                    c.projects,
                    name,
                    ProjectV {
                        name: name,
                        git: url,
                        after_clone: Option::None,
                        after_workon: Option::None,
                        tags: Seq::empty(),
                    },
                ),
                settings: c.settings,
            },
        )
    }
}

/// Creates a project under `name` pointing at `url`, with empty hooks
/// and an empty tag set; a URL-like or already-taken name is rejected
/// and the registry is returned unchanged inside the error path.
pub fn add_entry(maybe_config: Result<Config, AppError>, name: &str, url: &str) -> (r: Result<
    Config,
    AppError,
>)
    ensures
        match maybe_config {
            Result::Err(e) => res_view(r) == Result::<ConfigV, AppErrorV>::Err(e@),
            Result::Ok(c) => res_view(r) == add_entry_m(c@, name@, url@),
        },
{
    let config = match maybe_config {
        Result::Ok(c) => c,
        Result::Err(e) => {
            return Result::Err(e);
        },
    };
    if str_has_prefix(name, "http") || str_has_prefix(name, "git@") {
        return Result::Err(AppError::InvalidName(name.to_owned()));
    }
    if alist_idx(&config.projects, name).is_some() {
        return Result::Err(AppError::DuplicateProject(name.to_owned()));
    }
    let Config { projects, settings } = config;
    let fresh = Project {
        name: name.to_owned(),
        git: url.to_owned(),
        after_clone: Option::None,
        after_workon: Option::None,
        tags: Vec::new(),
    };
    assert(fresh@ =~= ProjectV {
        name: name@,
        git: url@,
        after_clone: Option::None,
        after_workon: Option::None,
        tags: Seq::empty(),
    });
    let projects = ainsert_exec(projects, name.to_owned(), fresh);
    Result::Ok(Config { projects, settings })
}

/// Creating a project preserves well-formedness and referential
/// integrity: the fresh project has no tag references at all.
pub proof fn law_add_entry_preserves(c: ConfigV, name: Seq<char>, url: Seq<char>, c1: ConfigV)
    requires
        c.wf(),
        c.tags_defined(),
        add_entry_m(c, name, url) == Result::<ConfigV, AppErrorV>::Ok(c1),
    ensures
        c1.wf(),
        c1.tags_defined(),
{
    let fresh = ProjectV {
        name: name,
        git: url,
        after_clone: Option::None,
        after_workon: Option::None,
        tags: Seq::empty(),
    };
    lemma_ainsert_sorted(c.projects, name, fresh);
    lemma_ainsert_elements(c.projects, name, fresh);
    assert forall|i: int| 0 <= i < c1.projects.len() implies sorted_names(
        #[trigger] c1.projects[i].1.tags,
    ) by {
        if c1.projects[i] != (name, fresh) {
            let m = choose|m: int| 0 <= m < c.projects.len() && c.projects[m] == c1.projects[i];
            assert(sorted_names(c.projects[m].1.tags));
        }
    }
    assert forall|i: int, j: int|
        0 <= i < c1.projects.len() && 0 <= j < c1.projects[i].1.tags.len() implies alookup(
        c1.catalog(),
        #[trigger] c1.projects[i].1.tags[j],
    ) is Some by {
        assert(c1.catalog() == c.catalog());
        if c1.projects[i] != (name, fresh) {
            let m = choose|m: int| 0 <= m < c.projects.len() && c.projects[m] == c1.projects[i];
            assert(c.projects[m].1.tags[j] == c1.projects[i].1.tags[j]);
        }
    }
}

/// A lookup skips any prefix free of the key.
pub proof fn lemma_alookup_skip<V>(s: Seq<(Seq<char>, V)>, k: Seq<char>, i: int)
    requires
        0 <= i <= s.len(),
        forall|j: int| 0 <= j < i ==> s[j].0 != k,
    ensures
        alookup(s, k) == alookup(s.skip(i), k),
    decreases i,
{
    if i > 0 {
        assert(s.drop_first().skip(i - 1) =~= s.skip(i));
        lemma_alookup_skip(s.drop_first(), k, i - 1);
    } else {
        assert(s.skip(0) =~= s);
    }
}

/// Finds the index of the first binding of a key, and relates it to
/// the spec-level lookup.
pub fn alist_idx<V: View>(v: &Vec<(String, V)>, key: &str) -> (r: Option<usize>)
    ensures
        match r {
            Option::Some(i) => i < v.len() && v@[i as int].0@ == key@ && alookup(
                aview(v@),
                key@,
            ) == Option::Some(aview(v@)[i as int].1) && (forall|j: int|
                0 <= j < i ==> v@[j].0@ != key@),
            Option::None => alookup(aview(v@), key@) is None,
        },
{
    let mut i: usize = 0;
    while i < v.len()
        invariant
            i <= v.len(),
            forall|j: int| 0 <= j < i ==> v@[j].0@ != key@,
        decreases v.len() - i,
    {
        if str_eq(v[i].0.as_str(), key) {
            proof {
                assert(forall|j: int| 0 <= j < i ==> aview(v@)[j].0 != key@);
                lemma_alookup_skip(aview(v@), key@, i as int);
                assert(aview(v@).skip(i as int)[0] == aview(v@)[i as int]);
            }
            return Option::Some(i);
        }
        i = i + 1;
    }
    proof {
        assert(forall|j: int| 0 <= j < v@.len() ==> aview(v@)[j].0 != key@);
        lemma_alookup_skip(aview(v@), key@, v@.len() as int);
        assert(aview(v@).skip(v@.len() as int).len() == 0);
    }
    Option::None
}

/// Inserts a binding at its ordered position, replacing the binding of
/// an equal key, as the spec-level `ainsert` does.
pub fn ainsert_exec<V: View>(v: Vec<(String, V)>, key: String, val: V) -> (r: Vec<(String, V)>)
    ensures
        aview(r@) == ainsert(aview(v@), key@, val@),
    decreases v.len(),
{
    let ghost orig = v@;
    let mut v = v;
    if v.len() == 0 {
        v.push((key, val));
        assert(aview(v@) =~= ainsert(aview(orig), key@, val@));
        v
    } else if str_lt(key.as_str(), v[0].0.as_str()) {
        assert(aview(orig)[0].0 == orig[0].0@);
        v.insert(0, (key, val));
        assert(aview(v@) =~= seq![(key@, val@)] + aview(orig));
        assert(aview(v@) =~= ainsert(aview(orig), key@, val@));
        v
    } else if str_eq(key.as_str(), v[0].0.as_str()) {
        assert(aview(orig)[0].0 == orig[0].0@);
        let _ = v.remove(0);
        v.insert(0, (key, val));
        assert(aview(v@) =~= seq![(key@, val@)] + aview(orig).drop_first());
        assert(aview(v@) =~= ainsert(aview(orig), key@, val@));
        v
    } else {
        assert(aview(orig)[0].0 == orig[0].0@);
        let head = v.remove(0);
        assert(v@ =~= orig.drop_first());
        assert(aview(v@) =~= aview(orig).drop_first());
        let mut r = ainsert_exec(v, key, val);
        r.insert(0, head);
        assert(aview(r@) =~= seq![aview(orig)[0]] + ainsert(aview(orig).drop_first(), key@, val@));
        assert(aview(r@) =~= ainsert(aview(orig), key@, val@));
        r
    }
}

/// Drops the binding of a key, as the spec-level `aremove` does.
pub fn aremove_exec<V: View>(v: Vec<(String, V)>, key: &str) -> (r: Vec<(String, V)>)
    ensures
        aview(r@) == aremove(aview(v@), key@),
    decreases v.len(),
{
    let ghost orig = v@;
    let mut v = v;
    if v.len() == 0 {
        assert(aview(v@) =~= aremove(aview(orig), key@));
        v
    } else {
        assert(aview(orig)[0].0 == orig[0].0@);
        let head = v.remove(0);
        assert(aview(v@) =~= aview(orig).drop_first());
        let eq = str_eq(head.0.as_str(), key);
        let r = aremove_exec(v, key);
        if eq {
            assert(aview(r@) =~= aremove(aview(orig), key@));
            r
        } else {
            let mut r = r;
            r.insert(0, head);
            assert(aview(r@) =~= seq![aview(orig)[0]] + aremove(aview(orig).drop_first(), key@));
            assert(aview(r@) =~= aremove(aview(orig), key@));
            r
        }
    }
}

/// Inserts a name at its ordered position in a name set, as the
/// spec-level `sinsert` does.
pub fn sinsert_exec(v: Vec<String>, name: String) -> (r: Vec<String>)
    ensures
        names_view(r@) == sinsert(names_view(v@), name@),
    decreases v.len(),
{
    let ghost orig = v@;
    let mut v = v;
    if v.len() == 0 {
        v.push(name);
        assert(names_view(v@) =~= sinsert(names_view(orig), name@));
        v
    } else if str_lt(name.as_str(), v[0].as_str()) {
        assert(names_view(orig)[0] == orig[0]@);
        v.insert(0, name);
        assert(names_view(v@) =~= seq![name@] + names_view(orig));
        assert(names_view(v@) =~= sinsert(names_view(orig), name@));
        v
    } else if str_eq(name.as_str(), v[0].as_str()) {
        assert(names_view(v@) =~= sinsert(names_view(orig), name@));
        v
    } else {
        assert(names_view(orig)[0] == orig[0]@);
        let head = v.remove(0);
        assert(names_view(v@) =~= names_view(orig).drop_first());
        let mut r = sinsert_exec(v, name);
        r.insert(0, head);
        assert(names_view(r@) =~= seq![names_view(orig)[0]] + sinsert(
            names_view(orig).drop_first(),
            name@,
        ));
        assert(names_view(r@) =~= sinsert(names_view(orig), name@));
        r
    }
}

/// Drops a name from a name set, as the spec-level `sremove` does.
pub fn sremove_exec(v: Vec<String>, name: &str) -> (r: Vec<String>)
    ensures
        names_view(r@) == sremove(names_view(v@), name@),
    decreases v.len(),
{
    let ghost orig = v@;
    let mut v = v;
    if v.len() == 0 {
        assert(names_view(v@) =~= sremove(names_view(orig), name@));
        v
    } else {
        assert(names_view(orig)[0] == orig[0]@);
        let head = v.remove(0);
        assert(names_view(v@) =~= names_view(orig).drop_first());
        let eq = str_eq(head.as_str(), name);
        let r = sremove_exec(v, name);
        if eq {
            assert(names_view(r@) =~= sremove(names_view(orig), name@));
            r
        } else {
            let mut r = r;
            r.insert(0, head);
            assert(names_view(r@) =~= seq![names_view(orig)[0]] + sremove(
                names_view(orig).drop_first(),
                name@,
            ));
            assert(names_view(r@) =~= sremove(names_view(orig), name@));
            r
        }
    }
}

/// `k` comes strictly before every key of `s`.
pub open spec fn key_below<V>(k: Seq<char>, s: Seq<(Seq<char>, V)>) -> bool {
    forall|i: int| 0 <= i < s.len() ==> lex_lt(k, #[trigger] s[i].0)
}

/// `t` comes strictly before every name of `s`.
pub open spec fn name_below(t: Seq<char>, s: Seq<Seq<char>>) -> bool {
    forall|i: int| 0 <= i < s.len() ==> lex_lt(t, #[trigger] s[i])
}

/// Sortedness of a nonempty list splits into a head bound and a sorted
/// tail, and conversely.
pub proof fn lemma_sorted_cons<V>(p: (Seq<char>, V), s: Seq<(Seq<char>, V)>)
    ensures
        sorted_keys(seq![p] + s) <==> sorted_keys(s) && key_below(p.0, s),
{
    let c = seq![p] + s;
    if sorted_keys(c) {
        assert(forall|i: int, j: int|
            0 <= i < j < s.len() ==> lex_lt(s[i].0, s[j].0)) by {
            assert(forall|i: int| 0 <= i < s.len() ==> c[i + 1] == s[i]);
        }
        assert(forall|i: int| 0 <= i < s.len() ==> lex_lt(p.0, #[trigger] s[i].0)) by {
            assert(forall|i: int| 0 <= i < s.len() ==> c[i + 1] == s[i]);
            assert(c[0] == p);
        }
    }
    if sorted_keys(s) && key_below(p.0, s) {
        assert(forall|i: int, j: int| 0 <= i < j < c.len() ==> lex_lt(c[i].0, c[j].0)) by {
            assert(forall|i: int| 0 < i < c.len() ==> c[i] == s[i - 1]);
            assert(c[0] == p);
        }
    }
}

/// A key below every key of a list is not bound in it.
pub proof fn lemma_key_below_lookup<V>(k: Seq<char>, s: Seq<(Seq<char>, V)>)
    requires
        key_below(k, s),
    ensures
        alookup(s, k) is None,
    decreases s.len(),
{
    if s.len() > 0 {
        lex_lt_irreflexive(k);
        assert(s.drop_first() =~= s.skip(1));
        lemma_key_below_lookup(k, s.drop_first());
    }
}

/// Insertion of a larger key keeps a lower bound.
pub proof fn lemma_ainsert_below<V>(s: Seq<(Seq<char>, V)>, k: Seq<char>, v: V, x: Seq<char>)
    requires
        key_below(x, s),
        lex_lt(x, k),
    ensures
        key_below(x, ainsert(s, k, v)),
    decreases s.len(),
{
    if s.len() == 0 {
    } else if lex_lt(k, s[0].0) || k == s[0].0 {
    } else {
        assert(s.drop_first() =~= s.skip(1));
        lemma_ainsert_below(s.drop_first(), k, v, x);
        let r = seq![s[0]] + ainsert(s.drop_first(), k, v);
        assert(forall|i: int|
            0 < i < r.len() ==> r[i] == ainsert(s.drop_first(), k, v)[i - 1]);
    }
}

/// Insertion preserves sortedness.
pub proof fn lemma_ainsert_sorted<V>(s: Seq<(Seq<char>, V)>, k: Seq<char>, v: V)
    requires
        sorted_keys(s),
    ensures
        sorted_keys(ainsert(s, k, v)),
    decreases s.len(),
{
    if s.len() == 0 {
    } else if lex_lt(k, s[0].0) {
        assert(key_below(k, s)) by {
            assert forall|i: int| 0 <= i < s.len() implies lex_lt(k, #[trigger] s[i].0) by {
                if i > 0 {
                    lex_lt_transitive(k, s[0].0, s[i].0);
                }
            }
        }
        lemma_sorted_cons((k, v), s);
    } else if k == s[0].0 {
        assert(s =~= seq![s[0]] + s.drop_first());
        lemma_sorted_cons(s[0], s.drop_first());
        lemma_sorted_cons((k, v), s.drop_first());
    } else {
        crate::order::lex_lt_total(k, s[0].0);
        assert(s =~= seq![s[0]] + s.drop_first());
        lemma_sorted_cons(s[0], s.drop_first());
        lemma_ainsert_sorted(s.drop_first(), k, v);
        lemma_ainsert_below(s.drop_first(), k, v, s[0].0);
        lemma_sorted_cons(s[0], ainsert(s.drop_first(), k, v));
    }
}

/// What a lookup finds after an insertion.
pub proof fn lemma_ainsert_lookup<V>(s: Seq<(Seq<char>, V)>, k: Seq<char>, v: V, k2: Seq<char>)
    ensures
        k2 == k ==> alookup(ainsert(s, k, v), k2) == Option::Some(v),
        k2 != k ==> alookup(ainsert(s, k, v), k2) == alookup(s, k2),
    decreases s.len(),
{
    if s.len() == 0 {
        let r = seq![(k, v)];
        assert(ainsert(s, k, v) == r);
        assert(r[0] == (k, v));
        assert(r.drop_first() =~= Seq::<(Seq<char>, V)>::empty());
        assert(k2 != k ==> alookup(r, k2) == alookup(r.drop_first(), k2));
    } else if lex_lt(k, s[0].0) {
        let r = seq![(k, v)] + s;
        assert(ainsert(s, k, v) == r);
        assert(r[0] == (k, v));
        assert(r.drop_first() =~= s);
        assert(k2 != k ==> alookup(r, k2) == alookup(s, k2));
    } else if k == s[0].0 {
        let r = seq![(k, v)] + s.drop_first();
        assert(ainsert(s, k, v) == r);
        assert(r[0] == (k, v));
        assert(r.drop_first() =~= s.drop_first());
        assert(k2 != k ==> alookup(r, k2) == alookup(s.drop_first(), k2));
        assert(k2 != k ==> alookup(s, k2) == alookup(s.drop_first(), k2));
    } else {
        let r = seq![s[0]] + ainsert(s.drop_first(), k, v);
        assert(ainsert(s, k, v) == r);
        assert(r[0] == s[0]);
        assert(r.drop_first() =~= ainsert(s.drop_first(), k, v));
        lemma_ainsert_lookup(s.drop_first(), k, v, k2);
        if k2 == r[0].0 {
            assert(alookup(r, k2) == Option::Some(s[0].1));
            assert(alookup(s, k2) == Option::Some(s[0].1));
        } else {
            assert(alookup(r, k2) == alookup(ainsert(s.drop_first(), k, v), k2));
            assert(alookup(s, k2) == alookup(s.drop_first(), k2));
        }
    }
}

/// Inserting the binding a sorted list already holds leaves it as it is.
pub proof fn lemma_ainsert_same<V>(s: Seq<(Seq<char>, V)>, k: Seq<char>, v: V)
    requires
        sorted_keys(s),
        alookup(s, k) == Option::Some(v),
    ensures
        ainsert(s, k, v) == s,
    decreases s.len(),
{
    if s.len() == 0 {
    } else if lex_lt(k, s[0].0) {
        assert(key_below(k, s)) by {
            assert forall|i: int| 0 <= i < s.len() implies lex_lt(k, #[trigger] s[i].0) by {
                if i > 0 {
                    lex_lt_transitive(k, s[0].0, s[i].0);
                }
            }
        }
        lemma_key_below_lookup(k, s);
    } else if k == s[0].0 {
        assert(ainsert(s, k, v) =~= s);
    } else {
        assert(s =~= seq![s[0]] + s.drop_first());
        lemma_sorted_cons(s[0], s.drop_first());
        lemma_ainsert_same(s.drop_first(), k, v);
        assert(ainsert(s, k, v) =~= s);
    }
}

/// Removal keeps a lower bound.
pub proof fn lemma_aremove_below<V>(s: Seq<(Seq<char>, V)>, k: Seq<char>, x: Seq<char>)
    requires
        key_below(x, s),
    ensures
        key_below(x, aremove(s, k)),
    decreases s.len(),
{
    if s.len() > 0 {
        assert(s.drop_first() =~= s.skip(1));
        lemma_aremove_below(s.drop_first(), k, x);
        if s[0].0 != k {
            let r = seq![s[0]] + aremove(s.drop_first(), k);
            assert(forall|i: int|
                0 < i < r.len() ==> r[i] == aremove(s.drop_first(), k)[i - 1]);
        }
    }
}

/// Removal preserves sortedness.
pub proof fn lemma_aremove_sorted<V>(s: Seq<(Seq<char>, V)>, k: Seq<char>)
    requires
        sorted_keys(s),
    ensures
        sorted_keys(aremove(s, k)),
    decreases s.len(),
{
    if s.len() > 0 {
        assert(s =~= seq![s[0]] + s.drop_first());
        lemma_sorted_cons(s[0], s.drop_first());
        lemma_aremove_sorted(s.drop_first(), k);
        if s[0].0 != k {
            lemma_aremove_below(s.drop_first(), k, s[0].0);
            lemma_sorted_cons(s[0], aremove(s.drop_first(), k));
        }
    }
}

/// What a lookup finds after a removal.
pub proof fn lemma_aremove_lookup<V>(s: Seq<(Seq<char>, V)>, k: Seq<char>, k2: Seq<char>)
    ensures
        k2 == k ==> alookup(aremove(s, k), k2) == Option::<V>::None,
        k2 != k ==> alookup(aremove(s, k), k2) == alookup(s, k2),
    decreases s.len(),
{
    if s.len() > 0 {
        lemma_aremove_lookup(s.drop_first(), k, k2);
        if s[0].0 != k {
            let r = seq![s[0]] + aremove(s.drop_first(), k);
            assert(r.drop_first() =~= aremove(s.drop_first(), k));
        }
    }
}

/// Every binding of an insertion is the new one or one of the old.
pub proof fn lemma_ainsert_elements<V>(s: Seq<(Seq<char>, V)>, k: Seq<char>, v: V)
    ensures
        forall|n: int|
            0 <= n < ainsert(s, k, v).len() ==> #[trigger] ainsert(s, k, v)[n] == (k, v)
                || s.contains(ainsert(s, k, v)[n]),
    decreases s.len(),
{
    let r = ainsert(s, k, v);
    if s.len() == 0 {
    } else if lex_lt(k, s[0].0) || k == s[0].0 {
        assert forall|n: int| 0 <= n < r.len() implies #[trigger] r[n] == (k, v) || s.contains(
            r[n],
        ) by {
            if n > 0 {
                if lex_lt(k, s[0].0) {
                    assert(r[n] == s[n - 1]);
                } else {
                    assert(r[n] == s.drop_first()[n - 1]);
                    assert(s.drop_first()[n - 1] == s[n]);
                }
            }
        }
    } else {
        lemma_ainsert_elements(s.drop_first(), k, v);
        assert forall|n: int| 0 <= n < r.len() implies #[trigger] r[n] == (k, v) || s.contains(
            r[n],
        ) by {
            if n == 0 {
                assert(r[0] == s[0]);
            } else {
                assert(r[n] == ainsert(s.drop_first(), k, v)[n - 1]);
                if ainsert(s.drop_first(), k, v)[n - 1] == (k, v) {
                } else {
                    let m = choose|m: int|
                        0 <= m < s.drop_first().len() && s.drop_first()[m] == ainsert(
                            s.drop_first(),
                            k,
                            v,
                        )[n - 1];
                    assert(s[m + 1] == r[n]);
                }
            }
        }
    }
}

/// Insertion of a larger name keeps a lower bound.
pub proof fn lemma_sinsert_below(s: Seq<Seq<char>>, t: Seq<char>, x: Seq<char>)
    requires
        name_below(x, s),
        lex_lt(x, t),
    ensures
        name_below(x, sinsert(s, t)),
    decreases s.len(),
{
    if s.len() == 0 {
    } else if lex_lt(t, s[0]) || t == s[0] {
    } else {
        assert(s.drop_first() =~= s.skip(1));
        lemma_sinsert_below(s.drop_first(), t, x);
        let r = seq![s[0]] + sinsert(s.drop_first(), t);
        assert(forall|i: int| 0 < i < r.len() ==> r[i] == sinsert(s.drop_first(), t)[i - 1]);
    }
}

/// Sortedness of a nonempty name set splits at the head.
pub proof fn lemma_sorted_names_cons(t: Seq<char>, s: Seq<Seq<char>>)
    ensures
        sorted_names(seq![t] + s) <==> sorted_names(s) && name_below(t, s),
{
    let c = seq![t] + s;
    if sorted_names(c) {
        assert(forall|i: int, j: int| 0 <= i < j < s.len() ==> lex_lt(s[i], s[j])) by {
            assert(forall|i: int| 0 <= i < s.len() ==> c[i + 1] == s[i]);
        }
        assert(forall|i: int| 0 <= i < s.len() ==> lex_lt(t, #[trigger] s[i])) by {
            assert(forall|i: int| 0 <= i < s.len() ==> c[i + 1] == s[i]);
            assert(c[0] == t);
        }
    }
    if sorted_names(s) && name_below(t, s) {
        assert(forall|i: int, j: int| 0 <= i < j < c.len() ==> lex_lt(c[i], c[j])) by {
            assert(forall|i: int| 0 < i < c.len() ==> c[i] == s[i - 1]);
            assert(c[0] == t);
        }
    }
}

/// Name insertion preserves sortedness.
pub proof fn lemma_sinsert_sorted(s: Seq<Seq<char>>, t: Seq<char>)
    requires
        sorted_names(s),
    ensures
        sorted_names(sinsert(s, t)),
    decreases s.len(),
{
    if s.len() == 0 {
    } else if lex_lt(t, s[0]) {
        assert(name_below(t, s)) by {
            assert forall|i: int| 0 <= i < s.len() implies lex_lt(t, #[trigger] s[i]) by {
                if i > 0 {
                    lex_lt_transitive(t, s[0], s[i]);
                }
            }
        }
        lemma_sorted_names_cons(t, s);
    } else if t == s[0] {
    } else {
        crate::order::lex_lt_total(t, s[0]);
        assert(s =~= seq![s[0]] + s.drop_first());
        lemma_sorted_names_cons(s[0], s.drop_first());
        lemma_sinsert_sorted(s.drop_first(), t);
        lemma_sinsert_below(s.drop_first(), t, s[0]);
        lemma_sorted_names_cons(s[0], sinsert(s.drop_first(), t));
    }
}

/// Membership after a name insertion.
pub proof fn lemma_sinsert_contains(s: Seq<Seq<char>>, t: Seq<char>, x: Seq<char>)
    ensures
        sinsert(s, t).contains(x) == (x == t || s.contains(x)),
    decreases s.len(),
{
    if s.len() == 0 {
        assert(sinsert(s, t) =~= seq![t]);
        if x == t {
            assert(sinsert(s, t)[0] == x);
        }
    } else if lex_lt(t, s[0]) {
        let r = seq![t] + s;
        if x == t {
            assert(r[0] == x);
        }
        if s.contains(x) {
            let i = choose|i: int| 0 <= i < s.len() && s[i] == x;
            assert(r[i + 1] == x);
        }
        if r.contains(x) {
            let i = choose|i: int| 0 <= i < r.len() && r[i] == x;
            if i > 0 {
                assert(s[i - 1] == x);
            }
        }
    } else if t == s[0] {
        if x == t {
            assert(s[0] == x);
        }
    } else {
        lemma_sinsert_contains(s.drop_first(), t, x);
        let r = seq![s[0]] + sinsert(s.drop_first(), t);
        assert(r.drop_first() =~= sinsert(s.drop_first(), t));
        assert(s =~= seq![s[0]] + s.drop_first());
        if x == t || s.contains(x) {
            if x == s[0] {
                assert(r[0] == x);
            } else {
                if s.contains(x) && x != s[0] {
                    let i = choose|i: int| 0 <= i < s.len() && s[i] == x;
                    assert(s.drop_first()[i - 1] == x);
                }
                assert(sinsert(s.drop_first(), t).contains(x));
                let i = choose|i: int|
                    0 <= i < sinsert(s.drop_first(), t).len() && sinsert(s.drop_first(), t)[i]
                        == x;
                assert(r[i + 1] == x);
            }
        }
        if r.contains(x) {
            let i = choose|i: int| 0 <= i < r.len() && r[i] == x;
            if i == 0 {
                assert(s[0] == x);
            } else {
                assert(sinsert(s.drop_first(), t)[i - 1] == x);
                if x != t {
                    let j = choose|j: int|
                        0 <= j < s.drop_first().len() && s.drop_first()[j] == x;
                    assert(s[j + 1] == x);
                }
            }
        }
    }
}

/// Inserting a name a sorted set already holds leaves it as it is.
pub proof fn lemma_sinsert_member(s: Seq<Seq<char>>, t: Seq<char>)
    requires
        sorted_names(s),
        s.contains(t),
    ensures
        sinsert(s, t) == s,
    decreases s.len(),
{
    if s.len() == 0 {
    } else if lex_lt(t, s[0]) {
        let i = choose|i: int| 0 <= i < s.len() && s[i] == t;
        if i == 0 {
            lex_lt_irreflexive(t);
        } else {
            lex_lt_asymmetric(t, s[0]);
        }
    } else if t == s[0] {
    } else {
        let i = choose|i: int| 0 <= i < s.len() && s[i] == t;
        assert(i > 0);
        assert(s.drop_first()[i - 1] == t);
        assert(s =~= seq![s[0]] + s.drop_first());
        lemma_sorted_names_cons(s[0], s.drop_first());
        lemma_sinsert_member(s.drop_first(), t);
        assert(sinsert(s, t) =~= s);
    }
}

/// After a removal the name is gone, and no other name is touched.
pub proof fn lemma_sremove_contains(s: Seq<Seq<char>>, t: Seq<char>, x: Seq<char>)
    ensures
        sremove(s, t).contains(x) == (x != t && s.contains(x)),
    decreases s.len(),
{
    if s.len() == 0 {
    } else {
        lemma_sremove_contains(s.drop_first(), t, x);
        assert(s =~= seq![s[0]] + s.drop_first());
        if s[0] == t {
            if s.contains(x) && x != t {
                let i = choose|i: int| 0 <= i < s.len() && s[i] == x;
                assert(s.drop_first()[i - 1] == x);
            }
        } else {
            let r = seq![s[0]] + sremove(s.drop_first(), t);
            assert(r.drop_first() =~= sremove(s.drop_first(), t));
            if x != t && s.contains(x) {
                if x == s[0] {
                    assert(r[0] == x);
                } else {
                    let i = choose|i: int| 0 <= i < s.len() && s[i] == x;
                    assert(s.drop_first()[i - 1] == x);
                    let j = choose|j: int|
                        0 <= j < sremove(s.drop_first(), t).len() && sremove(
                            s.drop_first(),
                            t,
                        )[j] == x;
                    assert(r[j + 1] == x);
                }
            }
            if r.contains(x) {
                let i = choose|i: int| 0 <= i < r.len() && r[i] == x;
                if i == 0 {
                    assert(s[0] == x);
                } else {
                    assert(sremove(s.drop_first(), t)[i - 1] == x);
                    let j = choose|j: int|
                        0 <= j < s.drop_first().len() && s.drop_first()[j] == x;
                    assert(s[j + 1] == x);
                }
            }
        }
    }
}

/// Removal keeps a lower bound on names.
pub proof fn lemma_sremove_below(s: Seq<Seq<char>>, t: Seq<char>, x: Seq<char>)
    requires
        name_below(x, s),
    ensures
        name_below(x, sremove(s, t)),
    decreases s.len(),
{
    if s.len() > 0 {
        assert(s.drop_first() =~= s.skip(1));
        lemma_sremove_below(s.drop_first(), t, x);
        if s[0] != t {
            let r = seq![s[0]] + sremove(s.drop_first(), t);
            assert(forall|i: int| 0 < i < r.len() ==> r[i] == sremove(s.drop_first(), t)[i - 1]);
        }
    }
}

/// Name removal preserves sortedness.
pub proof fn lemma_sremove_sorted(s: Seq<Seq<char>>, t: Seq<char>)
    requires
        sorted_names(s),
    ensures
        sorted_names(sremove(s, t)),
    decreases s.len(),
{
    if s.len() > 0 {
        assert(s =~= seq![s[0]] + s.drop_first());
        lemma_sorted_names_cons(s[0], s.drop_first());
        lemma_sremove_sorted(s.drop_first(), t);
        if s[0] != t {
            lemma_sremove_below(s.drop_first(), t, s[0]);
            lemma_sorted_names_cons(s[0], sremove(s.drop_first(), t));
        }
    }
}

/// Removing an absent name leaves the set as it is.
pub proof fn lemma_sremove_absent(s: Seq<Seq<char>>, t: Seq<char>)
    requires
        !s.contains(t),
    ensures
        sremove(s, t) == s,
    decreases s.len(),
{
    if s.len() > 0 {
        assert(s[0] != t);
        assert(!s.drop_first().contains(t)) by {
            if s.drop_first().contains(t) {
                let i = choose|i: int| 0 <= i < s.drop_first().len() && s.drop_first()[i] == t;
                assert(s[i + 1] == t);
            }
        }
        lemma_sremove_absent(s.drop_first(), t);
        assert(sremove(s, t) =~= s);
    }
}

} // verus!
