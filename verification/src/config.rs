//! The project configuration (`mkd.toml`): a format version and named build
//! profiles, each with an entry target, an output path and an optional
//! template path.
//!
//! Reading the file and decoding TOML are left to the caller, which builds
//! the values below and then checks them here.

use vstd::prelude::*;
use crate::model::{
    lemma_insert_keeps_texts_sorted, texts_sorted, valid_segment, valid_target_name, IdView, ModulePath, TargetId,
};
use crate::project::first_invalid;
use crate::text::{
    chars_of, decimal, is_whitespace, join, owned, push_decimal, push_str, spec_is_whitespace, split_colons,
    split_colons_chars, text_eq, text_lt, texts,
};

verus! {

/// How a qualified target text such as `platform::launch` resolves: the
/// last `::`-separated piece names the target, the pieces before it name
/// the module.
pub open spec fn qualified_target(text: Seq<char>) -> Result<IdView, Seq<char>> {
    let parts = split_colons(text);
    let name = parts.last();
    let ns = parts.drop_last();
    if !valid_target_name(name) {
        Err("`"@ + name + "` is not a valid target name"@)
    } else if !(forall|i: int| 0 <= i < ns.len() ==> valid_segment(#[trigger] ns[i])) {
        Err("`"@ + first_invalid(ns) + "` is not a valid module path segment"@)
    } else {
        Ok((ns, name))
    }
}

/// Resolves a qualified target text, or says why it is not one.
pub fn parse_qualified(text: &str) -> (r: Result<TargetId, String>)
    ensures
        match qualified_target(text@) {
            Ok(id) => r matches Ok(t) && t@ == id,
            Err(message) => r matches Err(m) && m@ == message,
        },
{
    let chars = chars_of(text);
    let mut parts = split_colons_chars(chars.as_slice());
    proof {
        crate::text::lemma_split_colons_nonempty(text@, seq![]);
    }
    let ghost all = texts(parts@);
    let name = match parts.pop() {
        Some(n) => n,
        None => {
            return Err(String::new());
        },
    };
    assert(texts(parts@) =~= all.drop_last());
    assert(name@ == all.last());
    if !crate::model::is_valid_target_name(name.as_str()) {
        let mut message = owned("`");
        push_str(&mut message, name.as_str());
        push_str(&mut message, "` is not a valid target name");
        return Err(message);
    }
    let ghost ns = texts(parts@);
    let ghost pv = parts@;
    match ModulePath::new(parts) {
        Ok(namespace) => Ok(TargetId::new(namespace, name.as_str())),
        Err(error) => {
            proof {
                let i = choose|i: int| crate::model::first_invalid_segment(ns, i)
                    && error == crate::model::ModulePathError::InvalidSegment(pv[i]);
                let c = choose|c: int| crate::model::first_invalid_segment(ns, c);
                assert(i == c) by {
                    if i < c {
                        assert(valid_segment(ns[i]));
                    } else if c < i {
                        assert(valid_segment(ns[c]));
                    }
                }
            }
            Err(error.to_string())
        },
    }
}

/// The view of a build profile.
pub struct ProfileView {
    pub target: Seq<char>,
    pub output: Seq<char>,
    pub template: Option<Seq<char>>,
}

/// An entry target to build, where to write the artifact, and optionally
/// the template to render it with.
#[derive(Debug)]
pub struct BuildProfile {
    target: String,
    output: String,
    template: Option<String>,
}

impl View for BuildProfile {
    type V = ProfileView;

    closed spec fn view(&self) -> ProfileView {
        ProfileView {
            target: self.target@,
            output: self.output@,
            template: match self.template {
                Some(t) => Some(t@),
                None => None,
            },
        }
    }
}

impl BuildProfile {
    /// A profile as written in the configuration.
    pub fn new(target: String, output: String, template: Option<String>) -> (r: Self)
        ensures
            r@ == (ProfileView {
                target: target@,
                output: output@,
                template: match template {
                    Some(t) => Some(t@),
                    None => None,
                },
            }),
    {
        BuildProfile { target, output, template }
    }

    /// The entry target as written.
    pub fn target(&self) -> (r: &str)
        ensures
            r@ == self@.target,
    {
        self.target.as_str()
    }

    /// The entry target as a checked identity.
    pub fn target_id(&self) -> (r: Result<TargetId, String>)
        ensures
            match qualified_target(self@.target) {
                Ok(id) => r matches Ok(t) && t@ == id,
                Err(message) => r matches Err(m) && m@ == message,
            },
    {
        parse_qualified(self.target.as_str())
    }

    /// The configured template path, relative to the project directory.
    pub fn template(&self) -> (r: Option<&str>)
        ensures
            match r {
                Some(t) => self@.template == Some(t@),
                None => self@.template is None,
            },
    {
        match &self.template {
            Some(t) => Some(t.as_str()),
            None => None,
        }
    }

    /// The configured output path, relative to the project directory.
    pub fn output(&self) -> (r: &str)
        ensures
            r@ == self@.output,
    {
        self.output.as_str()
    }
}

/// The view of the build section.
pub struct BuildView {
    pub default: Option<Seq<char>>,
    pub profiles: Seq<(Seq<char>, ProfileView)>,
}

/// The default profile name and the named profiles, each name once, in
/// name order.
#[derive(Debug)]
pub struct BuildConfig {
    default: Option<String>,
    profiles: Vec<(String, BuildProfile)>,
}

/// The views of named profiles.
pub open spec fn profile_views(v: Seq<(String, BuildProfile)>) -> Seq<(Seq<char>, ProfileView)> {
    v.map_values(|p: (String, BuildProfile)| (p.0@, p.1@))
}

/// The names of named profiles.
pub open spec fn profile_names(p: Seq<(Seq<char>, ProfileView)>) -> Seq<Seq<char>> {
    p.map_values(|e: (Seq<char>, ProfileView)| e.0)
}

/// What a list of named entries defines when a later entry replaces an
/// earlier one of the same name.
pub open spec fn profile_map(entries: Seq<(Seq<char>, ProfileView)>) -> Map<Seq<char>, ProfileView>
    decreases entries.len(),
{
    if entries.len() == 0 {
        Map::empty()
    } else {
        profile_map(entries.drop_last()).insert(entries.last().0, entries.last().1)
    }
}

/// `p` lists the profiles of `m`, each name once, in name order.
pub open spec fn lists_profiles(p: Seq<(Seq<char>, ProfileView)>, m: Map<Seq<char>, ProfileView>) -> bool {
    &&& texts_sorted(profile_names(p))
    &&& forall|i: int| 0 <= i < p.len() ==> m.contains_key(#[trigger] p[i].0) && m[p[i].0] == p[i].1
    &&& forall|k: Seq<char>| #[trigger] m.contains_key(k) ==> exists|i: int| 0 <= i < p.len() && p[i].0 == k
}

impl View for BuildConfig {
    type V = BuildView;

    closed spec fn view(&self) -> BuildView {
        BuildView {
            default: match self.default {
                Some(d) => Some(d@),
                None => None,
            },
            profiles: profile_views(self.profiles@),
        }
    }
}

/// Names in strictly ascending order are pairwise different.
proof fn lemma_sorted_names_differ(k: Seq<Seq<char>>, i: int, j: int)
    requires
        texts_sorted(k),
        0 <= i < k.len(),
        0 <= j < k.len(),
        i != j,
    ensures
        k[i] != k[j],
{
    if i < j {
        assert(text_lt(k[i], k[j]));
    } else {
        assert(text_lt(k[j], k[i]));
    }
    crate::order::lemma_text_lt_irreflexive(k[i]);
}

/// Puts `entry` into `listed` at the place of its name, replacing a profile
/// of the same name.
fn put_profile(
    listed: &mut Vec<(String, BuildProfile)>,
    entry: (String, BuildProfile),
    Ghost(m): Ghost<Map<Seq<char>, ProfileView>>,
)
    requires
        lists_profiles(profile_views(old(listed)@), m),
    ensures
        lists_profiles(profile_views(final(listed)@), m.insert(entry.0@, entry.1@)),
{
    let ghost old_pv = profile_views(listed@);
    let ghost names = profile_names(old_pv);
    let ghost n = entry.0@;
    let ghost e = (entry.0@, entry.1@);
    let mut i: usize = 0;
    while i < listed.len() && crate::text::text_less(listed[i].0.as_str(), entry.0.as_str())
        invariant
            i <= listed.len(),
            listed@ == old(listed)@,
            old_pv == profile_views(listed@),
            names == profile_names(old_pv),
            n == entry.0@,
            forall|j: int| 0 <= j < i ==> text_lt(#[trigger] names[j], n),
        decreases listed.len() - i,
    {
        assert(old_pv[i as int] == (listed@[i as int].0@, listed@[i as int].1@));
        assert(names[i as int] == listed@[i as int].0@);
        i = i + 1;
    }
    let replace = i < listed.len() && text_eq(listed[i].0.as_str(), entry.0.as_str());
    proof {
        if i < listed.len() {
            assert(old_pv[i as int] == (listed@[i as int].0@, listed@[i as int].1@));
            assert(names[i as int] == listed@[i as int].0@);
        }
    }
    if replace {
        listed.remove(i);
        listed.insert(i, entry);
        proof {
            let pv = profile_views(listed@);
            assert(pv =~= old_pv.update(i as int, e));
            assert(profile_names(pv) =~= names.update(i as int, n));
            let m2 = m.insert(n, e.1);
            assert forall|k: int| 0 <= k < pv.len() implies m2.contains_key(#[trigger] pv[k].0) && m2[pv[k].0] == pv[k].1 by {
                if k != i {
                    lemma_sorted_names_differ(names, k, i as int);
                    assert(old_pv[k].0 == names[k]);
                    assert(m.contains_key(old_pv[k].0));
                }
            }
            assert forall|key: Seq<char>| #[trigger] m2.contains_key(key) implies exists|k: int| 0 <= k < pv.len() && pv[k].0 == key by {
                if key == n {
                    assert(pv[i as int].0 == key);
                } else {
                    assert(m.contains_key(key));
                    let k = choose|k: int| 0 <= k < old_pv.len() && old_pv[k].0 == key;
                    assert(pv[k].0 == key);
                }
            }
        }
    } else {
        proof {
            if i < listed.len() {
                crate::order::lemma_text_lt_total(n, names[i as int]);
            }
            lemma_insert_keeps_texts_sorted(names, i as int, n);
            assert forall|k: int| 0 <= k < old_pv.len() implies (#[trigger] old_pv[k]).0 != n by {
                assert(names[k] == old_pv[k].0);
                crate::order::lemma_text_lt_irreflexive(n);
                if k > i {
                    crate::order::lemma_text_lt_transitive(n, names[i as int], names[k]);
                }
            }
        }
        listed.insert(i, entry);
        proof {
            let pv = profile_views(listed@);
            assert(pv =~= old_pv.insert(i as int, e));
            assert(profile_names(pv) =~= names.insert(i as int, n));
            let m2 = m.insert(n, e.1);
            assert forall|k: int| 0 <= k < pv.len() implies m2.contains_key(#[trigger] pv[k].0) && m2[pv[k].0] == pv[k].1 by {
                if k < i {
                    assert(pv[k] == old_pv[k]);
                    assert(m.contains_key(old_pv[k].0));
                } else if k > i {
                    assert(pv[k] == old_pv[k - 1]);
                    assert(m.contains_key(old_pv[k - 1].0));
                }
            }
            assert forall|key: Seq<char>| #[trigger] m2.contains_key(key) implies exists|k: int| 0 <= k < pv.len() && pv[k].0 == key by {
                if key == n {
                    assert(pv[i as int].0 == key);
                } else {
                    assert(m.contains_key(key));
                    let k = choose|k: int| 0 <= k < old_pv.len() && old_pv[k].0 == key;
                    if k < i {
                        assert(pv[k].0 == key);
                    } else {
                        assert(pv[k + 1].0 == key);
                    }
                }
            }
        }
    }
}

impl BuildConfig {
    /// Profile names are listed once each, in ascending order.
    #[verifier::type_invariant]
    spec fn names_in_order(self) -> bool {
        texts_sorted(profile_names(profile_views(self.profiles@)))
    }

    /// A build section from its default profile name and its named profiles;
    /// a later profile replaces an earlier one of the same name, and the
    /// profiles are kept in name order.
    pub fn new(default: Option<String>, profiles: Vec<(String, BuildProfile)>) -> (r: Self)
        ensures
            r@.default == match default {
                Some(d) => Some(d@),
                None => None::<Seq<char>>,
            },
            lists_profiles(r@.profiles, profile_map(profile_views(profiles@))),
    {
        let ghost entries = profile_views(profiles@);
        let mut rest = profiles;
        let mut listed: Vec<(String, BuildProfile)> = Vec::new();
        let ghost mut taken: int = 0;
        proof {
            assert(profile_names(profile_views(listed@)) =~= Seq::<Seq<char>>::empty());
            assert(entries.subrange(0, 0) =~= Seq::<(Seq<char>, ProfileView)>::empty());
            assert(profile_views(rest@) =~= entries.subrange(0, entries.len() as int));
        }
        while rest.len() > 0
            invariant
                0 <= taken <= entries.len(),
                profile_views(rest@) == entries.subrange(taken, entries.len() as int),
                lists_profiles(profile_views(listed@), profile_map(entries.subrange(0, taken))),
            decreases rest.len(),
        {
            let ghost before = rest@;
            proof {
                assert(profile_views(before).len() == before.len());
                assert(taken < entries.len());
            }
            let entry = rest.remove(0);
            proof {
                assert(profile_views(before)[0] == (entry.0@, entry.1@));
                assert(entries.subrange(taken, entries.len() as int)[0] == entries[taken]);
                assert(entries[taken] == (entry.0@, entry.1@));
                let next = entries.subrange(0, taken + 1);
                assert(next.drop_last() =~= entries.subrange(0, taken));
                assert(rest@ =~= before.subrange(1, before.len() as int));
                assert forall|k: int| 0 <= k < rest@.len() implies profile_views(rest@)[k] == entries.subrange(taken + 1, entries.len() as int)[k] by {
                    assert(profile_views(before)[k + 1] == entries.subrange(taken, entries.len() as int)[k + 1]);
                }
                assert(profile_views(rest@) =~= entries.subrange(taken + 1, entries.len() as int));
            }
            put_profile(&mut listed, entry, Ghost(profile_map(entries.subrange(0, taken))));
            proof {
                taken = taken + 1;
            }
        }
        proof {
            assert(entries.subrange(0, taken) =~= entries);
        }
        BuildConfig { default, profiles: listed }
    }

    /// The build section of a configuration without one.
    pub fn empty() -> (r: Self)
        ensures
            r@.default is None,
            r@.profiles == Seq::<(Seq<char>, ProfileView)>::empty(),
    {
        let r = BuildConfig { default: None, profiles: Vec::new() };
        assert(profile_views(r.profiles@) =~= Seq::<(Seq<char>, ProfileView)>::empty());
        r
    }

    /// The default profile name.
    pub fn default_name(&self) -> (r: Option<&str>)
        ensures
            match r {
                Some(d) => self@.default == Some(d@),
                None => self@.default is None,
            },
    {
        match &self.default {
            Some(d) => Some(d.as_str()),
            None => None,
        }
    }

    /// The named profiles, each name once, in name order.
    pub fn profiles(&self) -> (r: &[(String, BuildProfile)])
        ensures
            profile_views(r@) == self@.profiles,
            texts_sorted(profile_names(self@.profiles)),
    {
        proof {
            use_type_invariant(self);
        }
        self.profiles.as_slice()
    }
}

/// The view of a configuration.
pub struct ConfigView {
    pub version: u32,
    pub build: BuildView,
}

/// A format version and named build profiles.
#[derive(Debug)]
pub struct ProjectConfig {
    version: u32,
    build: BuildConfig,
}

impl View for ProjectConfig {
    type V = ConfigView;

    closed spec fn view(&self) -> ConfigView {
        ConfigView { version: self.version, build: self.build@ }
    }
}

/// The first profile called `name`, with its position.
pub open spec fn profile_named(profiles: Seq<(Seq<char>, ProfileView)>, name: Seq<char>) -> Option<int> {
    if exists|i: int| 0 <= i < profiles.len() && (#[trigger] profiles[i]).0 == name {
        Some(choose|i: int| 0 <= i < profiles.len() && (#[trigger] profiles[i]).0 == name
            && forall|j: int| 0 <= j < i ==> (#[trigger] profiles[j]).0 != name)
    } else {
        None
    }
}

/// What the version and the default profile of a configuration are wrong
/// in, if anything.
pub open spec fn settings_problem(c: ConfigView) -> Option<Seq<char>> {
    if c.version != 1 {
        Some("unsupported version "@ + decimal(c.version as nat) + "; expected 1"@)
    } else if c.build.profiles.len() > 0 && c.build.default is None {
        Some("[build] default is required when profiles exist"@)
    } else if c.build.default matches Some(d) && profile_named(c.build.profiles, d) is None {
        Some("default profile `"@ + c.build.default.unwrap() + "` does not exist"@)
    } else {
        None
    }
}

/// Whether a profile name can be used: not empty, without `.` and without
/// white space.
pub open spec fn valid_profile_name(name: Seq<char>) -> bool {
    &&& name.len() > 0
    &&& !crate::text::has_char(name, '.')
    &&& forall|i: int| 0 <= i < name.len() ==> !spec_is_whitespace(#[trigger] name[i])
}

/// Finds the first profile called `name`.
fn find_profile(profiles: &Vec<(String, BuildProfile)>, name: &str) -> (r: Option<usize>)
    ensures
        match r {
            Some(i) => i < profiles@.len() && profile_named(profile_views(profiles@), name@) == Some(i as int)
                && profiles@[i as int].0@ == name@,
            None => profile_named(profile_views(profiles@), name@) is None,
        },
{
    let ghost pv = profile_views(profiles@);
    let mut i: usize = 0;
    while i < profiles.len()
        invariant
            i <= profiles.len(),
            pv == profile_views(profiles@),
            forall|j: int| 0 <= j < i ==> (#[trigger] pv[j]).0 != name@,
        decreases profiles.len() - i,
    {
        assert(pv[i as int].0 == profiles@[i as int].0@);
        if text_eq(profiles[i].0.as_str(), name) {
            proof {
                let c = choose|c: int| 0 <= c < pv.len() && (#[trigger] pv[c]).0 == name@
                    && forall|j: int| 0 <= j < c ==> (#[trigger] pv[j]).0 != name@;
                if c < i {
                    assert(pv[c].0 != name@);
                }
                if c > i {
                    assert(pv[i as int].0 != name@);
                }
            }
            return Some(i);
        }
        i = i + 1;
    }
    None
}

impl ProjectConfig {
    /// A configuration as written.
    pub fn new(version: u32, build: BuildConfig) -> (r: Self)
        ensures
            r@ == (ConfigView { version, build: build@ }),
    {
        ProjectConfig { version, build }
    }

    /// The format version.
    pub fn version(&self) -> (r: u32)
        ensures
            r == self@.version,
    {
        self.version
    }

    /// The build section.
    pub fn build(&self) -> (r: &BuildConfig)
        ensures
            r@ == self@.build,
    {
        &self.build
    }

    /// Checks the version and the default profile: the version must be 1,
    /// profiles need a default, and the default must name a profile.
    pub fn check_settings(&self) -> (r: Result<(), String>)
        ensures
            match settings_problem(self@) {
                Some(message) => r matches Err(m) && m@ == message,
                None => r is Ok,
            },
    {
        if self.version != 1 {
            let mut message = owned("unsupported version ");
            push_decimal(&mut message, self.version as usize);
            push_str(&mut message, "; expected 1");
            return Err(message);
        }
        if self.build.profiles.len() > 0 && self.build.default.is_none() {
            return Err(owned("[build] default is required when profiles exist"));
        }
        match &self.build.default {
            Some(d) => {
                if find_profile(&self.build.profiles, d.as_str()).is_none() {
                    let mut message = owned("default profile `");
                    push_str(&mut message, d.as_str());
                    push_str(&mut message, "` does not exist");
                    return Err(message);
                }
            },
            None => {},
        }
        Ok(())
    }

    /// The profile called `name`, or the default profile when no name is
    /// given.
    pub fn profile(&self, name: Option<&str>) -> (r: Option<(&str, &BuildProfile)>)
        ensures
            ({
                let wanted = match name {
                    Some(n) => Some(n@),
                    None => self@.build.default,
                };
                match wanted {
                    None => r is None,
                    Some(w) => match profile_named(self@.build.profiles, w) {
                        None => r is None,
                        Some(i) => r matches Some(p) && p.0@ == w && p.1@ == self@.build.profiles[i].1,
                    },
                }
            }),
    {
        let wanted: &str = match name {
            Some(n) => n,
            None => match &self.build.default {
                Some(d) => d.as_str(),
                None => {
                    return None;
                },
            },
        };
        match find_profile(&self.build.profiles, wanted) {
            Some(i) => {
                let entry = &self.build.profiles[i];
                assert(profile_views(self.build.profiles@)[i as int] == (entry.0@, entry.1@));
                Some((entry.0.as_str(), &entry.1))
            },
            None => None,
        }
    }
}

/// Checks a profile name.
pub fn is_valid_profile_name(name: &str) -> (r: bool)
    ensures
        r == valid_profile_name(name@),
{
    let chars = chars_of(name);
    if chars.len() == 0 {
        return false;
    }
    if crate::text::contains_char(chars.as_slice(), '.') {
        return false;
    }
    let mut i: usize = 0;
    while i < chars.len()
        invariant
            i <= chars.len(),
            chars@ == name@,
            forall|j: int| 0 <= j < i ==> !spec_is_whitespace(#[trigger] chars@[j]),
        decreases chars.len() - i,
    {
        if is_whitespace(chars[i]) {
            return false;
        }
        i = i + 1;
    }
    true
}

/// The problem with one profile's name and target, if any, as reported
/// with the profile's section name.
pub open spec fn profile_problem(name: Seq<char>, p: ProfileView) -> Option<Seq<char>> {
    if !valid_profile_name(name) {
        Some("invalid profile name `"@ + name + "`"@)
    } else {
        match qualified_target(p.target) {
            Err(message) => Some("[build."@ + name + "] "@ + message),
            Ok(_) => None,
        }
    }
}

/// Checks a profile's name and target.
pub fn check_profile(name: &str, profile: &BuildProfile) -> (r: Result<(), String>)
    ensures
        match profile_problem(name@, profile@) {
            Some(message) => r matches Err(m) && m@ == message,
            None => r is Ok,
        },
{
    if !is_valid_profile_name(name) {
        let mut message = owned("invalid profile name `");
        push_str(&mut message, name);
        push_str(&mut message, "`");
        return Err(message);
    }
    match profile.target_id() {
        Ok(_) => Ok(()),
        Err(problem) => {
            proof {
                reveal_strlit("");
            }
            Err(path_problem(name, "", problem.as_str()))
        },
    }
}

/// A problem with one field of a profile, as reported: `[build.NAME]`, the
/// field name and a colon if there is a field, then the problem.
pub open spec fn field_problem(name: Seq<char>, field: Seq<char>, problem: Seq<char>) -> Seq<char> {
    if field.len() == 0 {
        "[build."@ + name + "] "@ + problem
    } else {
        "[build."@ + name + "] "@ + field + ": "@ + problem
    }
}

/// Reports a problem with one field of a profile.
pub fn path_problem(name: &str, field: &str, problem: &str) -> (r: String)
    ensures
        r@ == field_problem(name@, field@, problem@),
{
    let mut message = owned("[build.");
    push_str(&mut message, name);
    push_str(&mut message, "] ");
    if !field.is_empty() {
        push_str(&mut message, field);
        push_str(&mut message, ": ");
    }
    push_str(&mut message, problem);
    message
}

/// How deep a relative path goes below the directory it starts from, part
/// by part: empty parts and `.` stay, `..` goes up (and escapes at the
/// top), other parts go down; `cur` is the part read so far.
pub open spec fn path_depth_from(s: Seq<char>, cur: Seq<char>, depth: nat) -> Option<nat>
    decreases s.len(),
{
    if s.len() == 0 {
        depth_step(cur, depth)
    } else if s[0] == '/' {
        match depth_step(cur, depth) {
            None => None,
            Some(d) => path_depth_from(s.drop_first(), seq![], d),
        }
    } else {
        path_depth_from(s.drop_first(), cur.push(s[0]), depth)
    }
}

/// The depth after one path part.
pub open spec fn depth_step(part: Seq<char>, depth: nat) -> Option<nat> {
    if part.len() == 0 || part == "."@ {
        Some(depth)
    } else if part == ".."@ {
        if depth > 0 {
            Some((depth - 1) as nat)
        } else {
            None
        }
    } else {
        Some(depth + 1)
    }
}

/// What is wrong with a configured path, if anything: it must be a
/// non-empty relative path that stays inside the project and names
/// something below the project directory.
pub open spec fn relative_path_problem(value: Seq<char>) -> Option<Seq<char>> {
    if value.len() == 0 || value[0] == '/' {
        Some("expected a nonempty project-relative path"@)
    } else {
        match path_depth_from(value, seq![], 0) {
            None => Some("path escapes the project directory"@),
            Some(d) => if d == 0 {
                Some("path must refer to a file inside the project"@)
            } else {
                None
            },
        }
    }
}

/// The depth after one path part, computed.
fn step_depth(part: &Vec<char>, depth: usize) -> (r: Option<usize>)
    requires
        depth + part@.len() <= usize::MAX,
    ensures
        match depth_step(part@, depth as nat) {
            Some(d) => r == Some(d as usize),
            None => r is None,
        },
{
    proof {
        reveal_strlit(".");
        reveal_strlit("..");
    }
    if part.len() == 0 || (part.len() == 1 && part[0] == '.') {
        if part.len() == 1 {
            assert(part@ =~= "."@);
        }
        return Some(depth);
    }
    assert(part@ != "."@) by {
        if part@ == "."@ {
            assert(part@.len() == 1 && part@[0] == '.');
        }
    }
    if part.len() == 2 && part[0] == '.' && part[1] == '.' {
        assert(part@ =~= ".."@);
        if depth > 0 {
            return Some(depth - 1);
        }
        return None;
    }
    assert(part@ != ".."@) by {
        if part@ == ".."@ {
            assert(part@.len() == 2 && part@[0] == '.' && part@[1] == '.');
        }
    }
    Some(depth + 1)
}

/// Checks, without looking at the disk, that a configured path stays inside
/// the project.
pub fn check_relative_path(value: &str) -> (r: Result<(), String>)
    ensures
        match relative_path_problem(value@) {
            Some(message) => r matches Err(m) && m@ == message,
            None => r is Ok,
        },
{
    let s = chars_of(value);
    if s.len() == 0 || s[0] == '/' {
        return Err(owned("expected a nonempty project-relative path"));
    }
    let mut cur: Vec<char> = Vec::new();
    let mut depth: usize = 0;
    let mut i: usize = 0;
    assert(s@.skip(0) =~= s@);
    while i < s.len()
        invariant
            i <= s.len(),
            s@ == value@,
            value@.len() > 0 && value@[0] != '/',
            depth + cur@.len() <= i,
            path_depth_from(value@, seq![], 0) == path_depth_from(s@.skip(i as int), cur@, depth as nat),
        decreases s.len() - i,
    {
        assert(s@.skip(i as int)[0] == s@[i as int]);
        assert(s@.skip(i as int).drop_first() =~= s@.skip(i + 1));
        if s[i] == '/' {
            match step_depth(&cur, depth) {
                None => {
                    return Err(owned("path escapes the project directory"));
                },
                Some(d) => {
                    depth = d;
                },
            }
            cur = Vec::new();
            assert(cur@ =~= Seq::<char>::empty());
        } else {
            cur.push(s[i]);
        }
        i = i + 1;
    }
    assert(s@.skip(i as int) =~= Seq::<char>::empty());
    match step_depth(&cur, depth) {
        None => Err(owned("path escapes the project directory")),
        Some(d) => {
            if d == 0 {
                Err(owned("path must refer to a file inside the project"))
            } else {
                Ok(())
            }
        },
    }
}

/// A target identity written out with `TargetId::to_string` reads back with
/// `parse_target_id` (and in configuration files) as the same identity.
pub proof fn lemma_target_text_round_trip(id: IdView)
    requires
        valid_target_name(id.1),
        forall|i: int| 0 <= i < id.0.len() ==> valid_segment(#[trigger] id.0[i]),
    ensures
        qualified_target(crate::model::id_text(id)) == Ok::<IdView, Seq<char>>(id),
{
    let parts = id.0.push(id.1);
    assert(parts.drop_last() =~= id.0);
    if id.0.len() == 0 {
        assert(parts =~= seq![id.1]);
    }
    assert(crate::model::id_text(id) == join(parts, "::"@));
    assert forall|i: int| 0 <= i < parts.len() implies valid_segment(#[trigger] parts[i]) by {
        if i < id.0.len() {
            assert(parts[i] == id.0[i]);
        }
    }
    crate::model::lemma_module_path_round_trip(parts);
}

} // verus!
