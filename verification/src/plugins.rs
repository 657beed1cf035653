//! Profile plugins: the installed-plugin listing read from a profile's
//! manifest and patch document, enabling and disabling through `disabled:`
//! rows, uninstall cleanup, and the pnpm-facing files and diagnostics the
//! `dsh plugin` flow depends on.

use crate::config::{
    homes_view, opt_view, versions_view, Config, ConfigView, DshHome, DshVersion, HomeView,
    VersionView,
};
use crate::json::{as_text, field, field_of, get_field, get_field_of, text_of, Json};
use crate::order::{insert_sorted_unique, str_lt, strictly_sorted};
use crate::profile::{
    after_last_slash, cordis_id_of, disabled_ids, parse_disabled_ids, set_disabled_row,
    set_disabled_row_text, strip_cordis_rows, strip_cordis_rows_text,
};
use crate::text::{
    append_vec, cat, chars_of, concat_vec, contains, copy_vec, ends_with, join, join_strings, join_vec,
    last_at_most, last_strings, lines, slice_vec, split_lines, starts_with, starts_with_exec,
    str_contains, str_starts_with, string_of, trim, trim_char, trim_char_vec, trim_end_char,
    trim_end_char_vec, trim_vec, vec_eq, view_lines, view_strings,
};
use vstd::prelude::*;

verus! {

/// Public OAuth App client id that raises the anonymous GitHub API quota
/// (an anonymous client-id parameter; no token is involved).
pub const GITHUB_CLIENT_ID: &'static str = "Ov23li6vtlVd83282YL6";

/// A GitHub API URL for `path` with the anonymous client-id quota boost.
pub open spec fn github_api_url_of(path: Seq<char>) -> Seq<char> {
    "https://api.github.com"@ + path + seq![if path.contains('?') { '&' } else { '?' }]
        + "client_id="@ + GITHUB_CLIENT_ID@
}

/// Builds a GitHub API URL with the anonymous client-id quota boost.
pub fn github_api_url(path: &str) -> (r: String)
    ensures
        r@ == github_api_url_of(path@),
{
    let p = chars_of(path);
    let mut u = chars_of("https://api.github.com");
    append_vec(&mut u, &p);
    if crate::text::has_char(&p, '?') {
        u.push('&');
    } else {
        u.push('?');
    }
    append_vec(&mut u, &chars_of("client_id="));
    append_vec(&mut u, &chars_of(GITHUB_CLIENT_ID));
    string_of(&u)
}

// ---------------------------------------------------------------------------
// Types
// ---------------------------------------------------------------------------

/// A plugin installed into a profile.
#[derive(Clone, Debug)]
pub struct InstalledPlugin {
    /// Package name / id (e.g. "@dsh-plugin/dsh-auxiliary").
    pub id: String,
    /// Installed version spec as recorded in the profile manifest.
    pub version: Option<String>,
    /// Whether the plugin is enabled (not disabled in cordis.patch.yml).
    pub enabled: bool,
    /// The cordis plugin id used in cordis.patch.yml.
    pub cordis_id: Option<String>,
}

/// Request to enable or disable plugins of one profile.
#[derive(Clone, Debug)]
pub struct SetPluginsEnabledInput {
    pub home_id: String,
    pub profile: String,
    pub plugin_ids: Vec<String>,
    pub enabled: bool,
}

/// Request to uninstall a plugin from a profile.
#[derive(Clone, Debug)]
pub struct UninstallPluginInput {
    pub home_id: String,
    pub profile: String,
    pub plugin_id: String,
}

// ---------------------------------------------------------------------------
// pnpm diagnostics
// ---------------------------------------------------------------------------

/// The trimmed, non-empty lines of `ls`.
pub open spec fn trimmed_nonempty(ls: Seq<Seq<char>>) -> Seq<Seq<char>>
    decreases ls.len(),
{
    if ls.len() == 0 {
        seq![]
    } else if trim(ls.last()).len() > 0 {
        trimmed_nonempty(ls.drop_last()).push(trim(ls.last()))
    } else {
        trimmed_nonempty(ls.drop_last())
    }
}

/// A command's output reduced to its last three meaningful lines, trimmed
/// and joined with ` | `.
pub open spec fn summarized(out: Seq<char>) -> Seq<char> {
    join(last_at_most(trimmed_nonempty(lines(out)), 3), " | "@)
}

/// Compresses a command's full output into its last meaningful lines for
/// error display.
pub fn summarize_output(out: &str) -> (r: String)
    ensures
        r@ == summarized(out@),
{
    let ls = split_lines(&chars_of(out));
    let mut kept: Vec<String> = Vec::new();
    let mut k: usize = 0;
    while k < ls.len()
        invariant
            k <= ls.len(),
            view_strings(kept@) == trimmed_nonempty(view_lines(ls@).take(k as int)),
        decreases ls.len() - k,
    {
        proof {
            assert(view_lines(ls@).take(k + 1).drop_last() =~= view_lines(ls@).take(k as int));
            assert(view_lines(ls@).take(k + 1).last() == ls@[k as int]@);
        }
        let t = trim_vec(&ls[k]);
        if t.len() > 0 {
            let x = string_of(&t);
            proof {
                assert(view_strings(kept@.push(x)) =~= view_strings(kept@).push(x@));
            }
            kept.push(x);
        }
        k = k + 1;
    }
    assert(view_lines(ls@).take(ls.len() as int) =~= view_lines(ls@));
    join_strings(&last_strings(&kept, 3), " | ")
}

/// pnpm reports that `node_modules` is linked from another store.
pub open spec fn unexpected_store(out: Seq<char>) -> bool {
    contains(out, "ERR_PNPM_UNEXPECTED_STORE"@) || contains(out, "Unexpected store location"@)
}

/// pnpm reports that it ignored dependency build scripts.
pub open spec fn ignored_builds(out: Seq<char>) -> bool {
    contains(out, "ERR_PNPM_IGNORED_BUILDS"@) || contains(out, "Ignored build scripts"@)
}

/// Whether pnpm's output reports a store mismatch.
pub fn mentions_unexpected_store(out: &str) -> (r: bool)
    ensures
        r == unexpected_store(out@),
{
    str_contains(out, "ERR_PNPM_UNEXPECTED_STORE") || str_contains(out, "Unexpected store location")
}

/// Whether pnpm's output reports ignored build scripts.
pub fn mentions_ignored_builds(out: &str) -> (r: bool)
    ensures
        r == ignored_builds(out@),
{
    str_contains(out, "ERR_PNPM_IGNORED_BUILDS") || str_contains(out, "Ignored build scripts")
}

/// Whether some line of a task log reports ignored build scripts.
pub fn logs_mention_ignored_builds(logs: &Vec<String>) -> (r: bool)
    ensures
        r == exists|i: int| 0 <= i < logs@.len() && ignored_builds(#[trigger] logs@[i]@),
{
    let mut k: usize = 0;
    while k < logs.len()
        invariant
            k <= logs.len(),
            forall|i: int| 0 <= i < k ==> !ignored_builds(#[trigger] logs@[i]@),
        decreases logs.len() - k,
    {
        if mentions_ignored_builds(logs[k].as_str()) {
            return true;
        }
        k = k + 1;
    }
    false
}

/// A store path without trailing separators.
pub open spec fn store_norm(s: Seq<char>) -> Seq<char> {
    trim_end_char(s, '/')
}

/// Whether two store paths point at the same store: equal once trailing
/// separators are dropped, or one lies inside the other (pnpm records the
/// versioned `<store>/v11` while the launcher pins the base).
pub open spec fn same_store(a: Seq<char>, b: Seq<char>) -> bool {
    let x = store_norm(a);
    let y = store_norm(b);
    x == y || starts_with(x, y + seq!['/']) || starts_with(y, x + seq!['/'])
}

/// Whether two store paths match or one is an ancestor of the other.
pub fn store_paths_match(a: &str, b: &str) -> (r: bool)
    ensures
        r == same_store(a@, b@),
{
    let x = trim_end_char_vec(&chars_of(a), '/');
    let y = trim_end_char_vec(&chars_of(b), '/');
    let mut ys = copy_vec(&y);
    ys.push('/');
    let mut xs = copy_vec(&x);
    xs.push('/');
    assert(ys@ =~= y@ + seq!['/']);
    assert(xs@ =~= x@ + seq!['/']);
    vec_eq(&x, &y) || starts_with_exec(&x, &ys) || starts_with_exec(&y, &xs)
}

/// Store matching does not depend on the order of the two paths, and a
/// store always matches itself.
pub proof fn lemma_same_store_symmetric(a: Seq<char>, b: Seq<char>)
    ensures
        same_store(a, b) == same_store(b, a),
        same_store(a, a),
{
}

// ---------------------------------------------------------------------------
// The store a profile is linked from
// ---------------------------------------------------------------------------

/// The value of a `storeDir:` line (trimmed, without quotes), if the line
/// is one.
pub open spec fn store_line_value(l: Seq<char>) -> Option<Seq<char>> {
    let t = trim(l);
    if starts_with(t, "storeDir:"@) {
        Some(trim_char(trim_char(trim(t.skip(9)), '"'), '\''))
    } else {
        None
    }
}

/// The first non-empty `storeDir:` value along the lines.
pub open spec fn first_store_line(ls: Seq<Seq<char>>) -> Option<Seq<char>>
    decreases ls.len(),
{
    if ls.len() == 0 {
        None
    } else {
        match store_line_value(ls[0]) {
            Some(v) if v.len() > 0 => Some(v),
            _ => first_store_line(ls.drop_first()),
        }
    }
}

/// The store recorded in `node_modules/.modules.yaml` (`raw`): older pnpm
/// writes a `storeDir: /path` line; pnpm 10+ writes JSON, so when no line
/// names a store, the `storeDir` member of the parsed document (`doc`,
/// present when `raw` is JSON) is used if it is a non-empty string.
pub open spec fn linked_store_of(raw: Seq<char>, doc: Option<Json>) -> Option<Seq<char>> {
    match first_store_line(lines(raw)) {
        Some(v) => Some(v),
        None => match as_text(field_of(doc, "storeDir"@)) {
            Some(v) if v.len() > 0 => Some(v),
            _ => None,
        },
    }
}

/// Reads the store a profile's `node_modules` is linked from (see
/// [`linked_store_of`]).
pub fn linked_store_dir(raw: &str, doc: Option<&Json>) -> (r: Option<String>)
    ensures
        opt_view(r) == linked_store_of(
            raw@,
            match doc {
                Some(d) => Some(*d),
                None => None,
            },
        ),
{
    proof {
        reveal_strlit("storeDir:");
    }
    let ls = split_lines(&chars_of(raw));
    let key = chars_of("storeDir:");
    let ghost all = view_lines(ls@);
    let mut k: usize = 0;
    assert(all.skip(0) =~= all);
    assert(key@.len() == 9);
    while k < ls.len()
        invariant
            k <= ls.len(),
            all == view_lines(ls@),
            all == lines(raw@),
            key@ == "storeDir:"@,
            key@.len() == 9,
            first_store_line(all) == first_store_line(all.skip(k as int)),
        decreases ls.len() - k,
    {
        assert(all.skip(k as int)[0] == ls@[k as int]@);
        assert(all.skip(k as int).drop_first() =~= all.skip(k + 1));
        let t = trim_vec(&ls[k]);
        if starts_with_exec(&t, &key) {
            let rest = slice_vec(&t, 9, t.len());
            assert(rest@ =~= t@.skip(9));
            let v = trim_char_vec(&trim_char_vec(&trim_vec(&rest), '"'), '\'');
            if v.len() > 0 {
                return Some(string_of(&v));
            }
        }
        k = k + 1;
    }
    assert(all.skip(ls.len() as int) =~= Seq::<Seq<char>>::empty());
    match text_of(get_field_of(doc, "storeDir")) {
        Some(v) => {
            if chars_of(v.as_str()).len() > 0 {
                Some(v)
            } else {
                None
            }
        },
        None => None,
    }
}

// ---------------------------------------------------------------------------
// Installed plugins
// ---------------------------------------------------------------------------

/// The core package scope, which never counts as a plugin.
pub open spec fn is_core(name: Seq<char>) -> bool {
    starts_with(name, "@deepseek-ai/"@)
}

/// The members of the manifest's `dependencies` object.
pub open spec fn dependency_entries(doc: Json) -> Seq<(String, Json)> {
    match field(doc, "dependencies"@) {
        Some(Json::Object(es)) => es@,
        _ => seq![],
    }
}

/// The items of the manifest's `dsh.profile.bundles` array.
pub open spec fn bundle_items(doc: Json) -> Seq<Json> {
    match field_of(field_of(Some(doc), "dsh"@), "profile"@) {
        Some(p) => match field(p, "bundles"@) {
            Some(Json::Array(v)) => v@,
            _ => seq![],
        },
        None => seq![],
    }
}

/// The non-core dependency names.
pub open spec fn dep_plugin_names(es: Seq<(String, Json)>) -> Set<Seq<char>>
    decreases es.len(),
{
    if es.len() == 0 {
        Set::empty()
    } else if is_core(es.last().0@) {
        dep_plugin_names(es.drop_last())
    } else {
        dep_plugin_names(es.drop_last()).insert(es.last().0@)
    }
}

/// The non-core bundle names (string items only).
pub open spec fn bundle_plugin_names(items: Seq<Json>) -> Set<Seq<char>>
    decreases items.len(),
{
    if items.len() == 0 {
        Set::empty()
    } else {
        match as_text(Some(items.last())) {
            Some(n) => if is_core(n) {
                bundle_plugin_names(items.drop_last())
            } else {
                bundle_plugin_names(items.drop_last()).insert(n)
            },
            None => bundle_plugin_names(items.drop_last()),
        }
    }
}

/// The plugins of a manifest: its non-core dependencies and non-core
/// bundle names.
pub open spec fn plugin_names(doc: Json) -> Set<Seq<char>> {
    dep_plugin_names(dependency_entries(doc)).union(bundle_plugin_names(bundle_items(doc)))
}

/// The version spec the manifest records for `name`: the text of its last
/// `dependencies` member (empty when that is not a string); none for a
/// bundle-only plugin.
pub open spec fn dependency_spec(es: Seq<(String, Json)>, name: Seq<char>) -> Option<Seq<char>>
    decreases es.len(),
{
    if es.len() == 0 {
        None
    } else if es.last().0@ == name {
        match as_text(Some(es.last().1)) {
            Some(s) => Some(s),
            None => Some(seq![]),
        }
    } else {
        dependency_spec(es.drop_last(), name)
    }
}

pub struct PluginView {
    pub id: Seq<char>,
    pub version: Option<Seq<char>>,
    pub enabled: bool,
    pub cordis_id: Option<Seq<char>>,
}

impl View for InstalledPlugin {
    type V = PluginView;

    open spec fn view(&self) -> PluginView {
        PluginView {
            id: self.id@,
            version: opt_view(self.version),
            enabled: self.enabled,
            cordis_id: opt_view(self.cordis_id),
        }
    }
}

/// What the listing says of the plugin `id`, given the disabled cordis ids.
pub open spec fn plugin_entry(doc: Json, disabled: Set<Seq<char>>, id: Seq<char>) -> PluginView {
    let c = after_last_slash(id);
    PluginView {
        id,
        version: dependency_spec(dependency_entries(doc), id),
        enabled: !disabled.contains(c) && !disabled.contains(id),
        cordis_id: Some(c),
    }
}

fn dependency_spec_exec(es: &Vec<(String, Json)>, name: &String) -> (r: Option<String>)
    ensures
        opt_view(r) == dependency_spec(es@, name@),
{
    let mut j = es.len();
    assert(es@.take(j as int) =~= es@);
    while j > 0
        invariant
            j <= es.len(),
            dependency_spec(es@, name@) == dependency_spec(es@.take(j as int), name@),
        decreases j,
    {
        assert(es@.take(j as int).drop_last() =~= es@.take(j - 1));
        assert(es@.take(j as int).last() == es@[j - 1]);
        if es[j - 1].0 == *name {
            return match text_of(Some(&es[j - 1].1)) {
                Some(s) => Some(s),
                None => Some(String::new()),
            };
        }
        j = j - 1;
    }
    None
}

fn contains_string(v: &Vec<String>, x: &String) -> (r: bool)
    ensures
        r == view_strings(v@).contains(x@),
{
    let mut k: usize = 0;
    while k < v.len()
        invariant
            k <= v.len(),
            forall|i: int| 0 <= i < k ==> view_strings(v@)[i] != x@,
        decreases v.len() - k,
    {
        if v[k] == *x {
            assert(view_strings(v@)[k as int] == x@);
            return true;
        }
        k = k + 1;
    }
    false
}

/// Lists the plugins of a profile manifest (`doc`), excluding the core
/// `@deepseek-ai/*` packages: every dependency and every bundle name, once
/// each, in string order, with the recorded version spec, the cordis id, and
/// whether the patch document (`patch`) leaves it enabled.
pub fn list_installed_plugins(doc: &Json, patch: &str) -> (r: Vec<InstalledPlugin>)
    ensures
        ({
            let ids = r@.map_values(|p: InstalledPlugin| p@.id);
            &&& strictly_sorted(ids)
            &&& ids.to_set() == plugin_names(*doc)
            &&& forall|i: int|
                0 <= i < r@.len() ==> (#[trigger] r@[i])@ == plugin_entry(
                    *doc,
                    disabled_ids(patch@),
                    r@[i]@.id,
                )
        }),
{
    proof {
        reveal_strlit("@deepseek-ai/");
        reveal_strlit("dependencies");
        reveal_strlit("dsh");
        reveal_strlit("profile");
        reveal_strlit("bundles");
    }
    let core = chars_of("@deepseek-ai/");
    let empty_deps: Vec<(String, Json)> = Vec::new();
    let deps: &Vec<(String, Json)> = match get_field(doc, "dependencies") {
        Some(Json::Object(es)) => es,
        _ => &empty_deps,
    };
    assert(deps@ == dependency_entries(*doc));
    let mut ids: Vec<String> = Vec::new();
    let mut k: usize = 0;
    assert(view_strings(ids@).to_set() =~= Set::<Seq<char>>::empty());
    assert(deps@.take(0) =~= Seq::<(String, Json)>::empty());
    while k < deps.len()
        invariant
            k <= deps.len(),
            deps@ == dependency_entries(*doc),
            core@ == "@deepseek-ai/"@,
            strictly_sorted(view_strings(ids@)),
            view_strings(ids@).to_set() == dep_plugin_names(deps@.take(k as int)),
        decreases deps.len() - k,
    {
        assert(deps@.take(k + 1).drop_last() =~= deps@.take(k as int));
        assert(deps@.take(k + 1).last() == deps@[k as int]);
        let name = deps[k].0.clone();
        if !starts_with_exec(&chars_of(name.as_str()), &core) {
            insert_sorted_unique(&mut ids, name);
        }
        k = k + 1;
    }
    assert(deps@.take(deps.len() as int) =~= deps@);
    let empty_items: Vec<Json> = Vec::new();
    let items: &Vec<Json> = match get_field_of(get_field_of(Some(doc), "dsh"), "profile") {
        Some(p) => match get_field(p, "bundles") {
            Some(Json::Array(v)) => v,
            _ => &empty_items,
        },
        None => &empty_items,
    };
    assert(items@ == bundle_items(*doc));
    let ghost dep_set = dep_plugin_names(deps@);
    let mut b: usize = 0;
    assert(items@.take(0) =~= Seq::<Json>::empty());
    assert(dep_set.union(Set::<Seq<char>>::empty()) =~= dep_set);
    while b < items.len()
        invariant
            b <= items.len(),
            items@ == bundle_items(*doc),
            deps@ == dependency_entries(*doc),
            dep_set == dep_plugin_names(deps@),
            core@ == "@deepseek-ai/"@,
            strictly_sorted(view_strings(ids@)),
            view_strings(ids@).to_set() == dep_set.union(bundle_plugin_names(items@.take(b as int))),
        decreases items.len() - b,
    {
        assert(items@.take(b + 1).drop_last() =~= items@.take(b as int));
        assert(items@.take(b + 1).last() == items@[b as int]);
        let ghost before = view_strings(ids@).to_set();
        match text_of(Some(&items[b])) {
            Some(name) => {
                let skip = starts_with_exec(&chars_of(name.as_str()), &core) || contains_string(
                    &ids,
                    &name,
                );
                if !skip {
                    insert_sorted_unique(&mut ids, name);
                }
                proof {
                    let nb = bundle_plugin_names(items@.take(b + 1));
                    if is_core(name@) {
                        assert(nb == bundle_plugin_names(items@.take(b as int)));
                    } else {
                        assert(nb == bundle_plugin_names(items@.take(b as int)).insert(name@));
                        assert(dep_set.union(nb) =~= before.insert(name@));
                        if skip {
                            assert(view_strings(ids@).contains(name@));
                            assert(before.contains(name@));
                            assert(before.insert(name@) =~= before);
                        }
                    }
                }
            },
            None => {},
        }
        b = b + 1;
    }
    assert(items@.take(items.len() as int) =~= items@);
    let disabled = parse_disabled_ids(patch);
    let mut out: Vec<InstalledPlugin> = Vec::new();
    let mut j: usize = 0;
    while j < ids.len()
        invariant
            j <= ids.len(),
            deps@ == dependency_entries(*doc),
            view_strings(disabled@).to_set() == disabled_ids(patch@),
            out@.len() == j,
            forall|i: int| 0 <= i < j ==> (#[trigger] out@[i])@.id == ids@[i]@,
            forall|i: int|
                0 <= i < j ==> (#[trigger] out@[i])@ == plugin_entry(
                    *doc,
                    disabled_ids(patch@),
                    out@[i]@.id,
                ),
        decreases ids.len() - j,
    {
        let id = ids[j].clone();
        let c = cordis_id_of(id.as_str());
        let enabled = !contains_string(&disabled, &c) && !contains_string(&disabled, &id);
        let version = dependency_spec_exec(deps, &id);
        let p = InstalledPlugin { id, version, enabled, cordis_id: Some(c) };
        proof {
            assert(view_strings(disabled@).to_set().contains(c@) == view_strings(
                disabled@,
            ).contains(c@));
            assert(view_strings(disabled@).to_set().contains(ids@[j as int]@) == view_strings(
                disabled@,
            ).contains(ids@[j as int]@));
        }
        out.push(p);
        j = j + 1;
    }
    proof {
        let pids = out@.map_values(|p: InstalledPlugin| p@.id);
        assert(pids =~= view_strings(ids@));
    }
    out
}

/// Whether the manifest depends on a `link:` package (a locally linked
/// plugin checkout). An absent or unparsable manifest (`None`) declares none.
pub open spec fn declares_link(doc: Option<Json>) -> bool {
    match doc {
        Some(d) => exists|i: int|
            0 <= i < dependency_entries(d).len() && #[trigger] is_link_spec(
                dependency_entries(d)[i].1,
            ),
        None => false,
    }
}

/// A dependency spec of the form `link:<path>`.
pub open spec fn is_link_spec(j: Json) -> bool {
    match as_text(Some(j)) {
        Some(s) => starts_with(s, "link:"@),
        None => false,
    }
}

/// Whether the profile manifest (`None` when missing or unparsable)
/// declares a `link:` dependency.
pub fn declares_link_dependency(doc: Option<&Json>) -> (r: bool)
    ensures
        r == declares_link(
            match doc {
                Some(d) => Some(*d),
                None => None,
            },
        ),
{
    proof {
        reveal_strlit("dependencies");
    }
    let d = match doc {
        Some(d) => d,
        None => return false,
    };
    let es: &Vec<(String, Json)> = match get_field(d, "dependencies") {
        Some(Json::Object(es)) => es,
        _ => return false,
    };
    assert(es@ == dependency_entries(*d));
    let link = chars_of("link:");
    let mut k: usize = 0;
    while k < es.len()
        invariant
            k <= es.len(),
            es@ == dependency_entries(*d),
            doc == Some(d),
            link@ == "link:"@,
            forall|i: int| 0 <= i < k ==> !#[trigger] is_link_spec(es@[i].1),
        decreases es.len() - k,
    {
        match text_of(Some(&es[k].1)) {
            Some(s) => {
                if starts_with_exec(&chars_of(s.as_str()), &link) {
                    assert(is_link_spec(dependency_entries(*d)[k as int].1));
                    return true;
                }
            },
            None => {},
        }
        k = k + 1;
    }
    false
}

/// Whether a profile is a DSH web application: its manifest's bundles
/// include `@deepseek-ai/dsh-web-app`.
pub open spec fn web_profile(doc: Option<Json>) -> bool {
    match doc {
        Some(d) => exists|i: int|
            0 <= i < bundle_items(d).len() && #[trigger] is_web_bundle(bundle_items(d)[i]),
        None => false,
    }
}

/// The web-app bundle name as a bundle item.
pub open spec fn is_web_bundle(j: Json) -> bool {
    as_text(Some(j)) == Some("@deepseek-ai/dsh-web-app"@)
}

/// Whether the profile manifest (`None` when missing or unparsable) makes
/// the profile a web application.
pub fn is_web_profile(doc: Option<&Json>) -> (r: bool)
    ensures
        r == web_profile(
            match doc {
                Some(d) => Some(*d),
                None => None,
            },
        ),
{
    proof {
        reveal_strlit("dsh");
        reveal_strlit("profile");
        reveal_strlit("bundles");
    }
    let d = match doc {
        Some(d) => d,
        None => return false,
    };
    let items: &Vec<Json> = match get_field_of(get_field_of(Some(d), "dsh"), "profile") {
        Some(p) => match get_field(p, "bundles") {
            Some(Json::Array(v)) => v,
            _ => return false,
        },
        None => return false,
    };
    assert(items@ == bundle_items(*d));
    let web = chars_of("@deepseek-ai/dsh-web-app");
    let mut k: usize = 0;
    while k < items.len()
        invariant
            k <= items.len(),
            items@ == bundle_items(*d),
            doc == Some(d),
            web@ == "@deepseek-ai/dsh-web-app"@,
            forall|i: int| 0 <= i < k ==> !#[trigger] is_web_bundle(items@[i]),
        decreases items.len() - k,
    {
        match text_of(Some(&items[k])) {
            Some(s) => {
                if vec_eq(&chars_of(s.as_str()), &web) {
                    assert(is_web_bundle(bundle_items(*d)[k as int]));
                    return true;
                }
            },
            None => {},
        }
        k = k + 1;
    }
    false
}


// ---------------------------------------------------------------------------
// The profile `.npmrc`
// ---------------------------------------------------------------------------

/// The `.npmrc` key the launcher pins.
pub const NPMRC_KEY: &'static str = "auto-install-peers";

/// The line that pins it.
pub open spec fn npmrc_pin() -> Seq<char> {
    "auto-install-peers=false"@
}

/// Index of the first `c` in `t`, or -1.
pub open spec fn char_index(t: Seq<char>, c: char) -> int
    decreases t.len(),
{
    if t.len() == 0 {
        -1
    } else {
        let f = char_index(t.drop_last(), c);
        if f >= 0 {
            f
        } else if t.last() == c {
            t.len() - 1
        } else {
            -1
        }
    }
}

pub proof fn lemma_char_index(t: Seq<char>, c: char)
    ensures
        -1 <= char_index(t, c) < t.len(),
        char_index(t, c) >= 0 ==> t[char_index(t, c)] == c,
        forall|i: int| 0 <= i < t.len() && (char_index(t, c) < 0 || i < char_index(t, c)) ==> t[i]
            != c,
    decreases t.len(),
{
    if t.len() > 0 {
        lemma_char_index(t.drop_last(), c);
        let f = char_index(t.drop_last(), c);
        assert forall|i: int| 0 <= i < t.len() - 1 implies t.drop_last()[i] == t[i] by {}
    }
}

/// The key and value of a `key=value` line of `.npmrc` (trimmed line, split
/// at the first `=`); comments (`#`, `;`) and other lines have none.
pub open spec fn npmrc_entry(l: Seq<char>) -> Option<(Seq<char>, Seq<char>)> {
    let t = trim(l);
    if starts_with(t, "#"@) || starts_with(t, ";"@) {
        None
    } else {
        let i = char_index(t, '=');
        if i < 0 {
            None
        } else {
            Some((t.take(i), t.skip(i + 1)))
        }
    }
}

/// A line that sets `auto-install-peers`.
pub open spec fn peers_line(l: Seq<char>) -> bool {
    npmrc_entry(l) matches Some(kv) && trim(kv.0) == NPMRC_KEY@
}

/// A line that sets `auto-install-peers` to something other than `false`.
pub open spec fn peers_line_wrong(l: Seq<char>) -> bool {
    npmrc_entry(l) matches Some(kv) && trim(kv.0) == NPMRC_KEY@ && trim(kv.1) != "false"@
}

/// The comment and setting appended when the key is missing.
pub open spec fn npmrc_appendix() -> Seq<Seq<char>> {
    seq![
        "# DSH: core packages come from the CLI dependency tree;"@,
        "# a profile must never resolve its own copy."@,
        npmrc_pin(),
    ]
}

/// The `.npmrc` text (`raw`, empty when the file is missing) with
/// `auto-install-peers=false` pinned: every line setting the key to another
/// value is rewritten, and when no line sets it the pin is appended after a
/// short rationale (and a blank line if the text does not end with one).
/// `None` when nothing has to change.
pub open spec fn npmrc_pinned(raw: Seq<char>) -> Option<Seq<char>> {
    let ls = lines(raw);
    let found = exists|i: int| 0 <= i < ls.len() && #[trigger] peers_line(ls[i]);
    let wrong = exists|i: int| 0 <= i < ls.len() && #[trigger] peers_line_wrong(ls[i]);
    if found && !wrong {
        None
    } else {
        let fixed = ls.map_values(|l: Seq<char>| if peers_line_wrong(l) { npmrc_pin() } else { l });
        let full = if found {
            fixed
        } else {
            fixed + (if ls.len() > 0 && trim(ls.last()).len() > 0 {
                seq![seq![]]
            } else {
                seq![]
            }) + npmrc_appendix()
        };
        Some(join(full, seq!['\n']) + seq!['\n'])
    }
}

fn npmrc_entry_exec(l: &Vec<char>) -> (r: Option<(Vec<char>, Vec<char>)>)
    ensures
        match r {
            Some(kv) => npmrc_entry(l@) == Some((kv.0@, kv.1@)),
            None => npmrc_entry(l@) is None,
        },
{
    proof {
        reveal_strlit("#");
        reveal_strlit(";");
    }
    let t = trim_vec(l);
    if t.len() > 0 && (t[0] == '#' || t[0] == ';') {
        assert(starts_with(t@, "#"@) || starts_with(t@, ";"@)) by {
            assert(t@.take(1) =~= seq![t@[0]]);
            assert("#"@ =~= seq!['#']);
            assert(";"@ =~= seq![';']);
        }
        return None;
    }
    assert(!starts_with(t@, "#"@) && !starts_with(t@, ";"@)) by {
        if starts_with(t@, "#"@) {
            assert(t@.take(1)[0] == '#');
        }
        if starts_with(t@, ";"@) {
            assert(t@.take(1)[0] == ';');
        }
    }
    let mut i: usize = 0;
    while i < t.len() && t[i] != '='
        invariant
            i <= t.len(),
            forall|m: int| 0 <= m < i ==> t@[m] != '=',
        decreases t.len() - i,
    {
        i = i + 1;
    }
    proof {
        lemma_char_index(t@, '=');
    }
    if i == t.len() {
        assert(char_index(t@, '=') < 0) by {
            if char_index(t@, '=') >= 0 {
                assert(t@[char_index(t@, '=')] == '=');
            }
        }
        return None;
    }
    assert(char_index(t@, '=') == i) by {
        let f = char_index(t@, '=');
        if f < 0 || i < f {
            assert(t@[i as int] != '=');
        } else if f < i {
            assert(t@[f] != '=');
        }
    }
    let k = slice_vec(&t, 0, i);
    let v = slice_vec(&t, i + 1, t.len());
    assert(k@ =~= t@.take(i as int));
    assert(v@ =~= t@.skip(i + 1));
    Some((k, v))
}

/// Pins `auto-install-peers=false` in a profile's `.npmrc` text (see
/// [`npmrc_pinned`]); returns the text to write, or `None` when the file
/// already pins it.
pub fn ensure_profile_npmrc(raw: &str) -> (r: Option<String>)
    ensures
        crate::config::opt_view(r) == npmrc_pinned(raw@),
{
    proof {
        reveal_strlit("auto-install-peers");
        reveal_strlit("false");
    }
    let ls = split_lines(&chars_of(raw));
    let key = chars_of(NPMRC_KEY);
    let fals = chars_of("false");
    let pin = chars_of("auto-install-peers=false");
    let ghost all = view_lines(ls@);
    let mut out: Vec<Vec<char>> = Vec::new();
    let mut found = false;
    let mut wrong = false;
    let mut k: usize = 0;
    while k < ls.len()
        invariant
            k <= ls.len(),
            all == view_lines(ls@),
            all == lines(raw@),
            key@ == NPMRC_KEY@,
            fals@ == "false"@,
            pin@ == npmrc_pin(),
            view_lines(out@) == all.take(k as int).map_values(
                |l: Seq<char>| if peers_line_wrong(l) { npmrc_pin() } else { l },
            ),
            found == exists|i: int| 0 <= i < k && #[trigger] peers_line(all[i]),
            wrong == exists|i: int| 0 <= i < k && #[trigger] peers_line_wrong(all[i]),
        decreases ls.len() - k,
    {
        let mut line = copy_vec(&ls[k]);
        let ghost l = all[k as int];
        let mut is_key = false;
        let mut is_wrong = false;
        match npmrc_entry_exec(&ls[k]) {
            Some(kv) => {
                if vec_eq(&trim_vec(&kv.0), &key) {
                    is_key = true;
                    if !vec_eq(&trim_vec(&kv.1), &fals) {
                        is_wrong = true;
                        line = copy_vec(&pin);
                    }
                }
            },
            None => {},
        }
        assert(is_key == peers_line(l));
        assert(is_wrong == peers_line_wrong(l));
        if is_key {
            found = true;
        }
        if is_wrong {
            wrong = true;
        }
        proof {
            assert(view_lines(out@.push(line)) =~= view_lines(out@).push(line@));
            assert(all.take(k + 1) =~= all.take(k as int).push(l));
        }
        out.push(line);
        k = k + 1;
    }
    assert(all.take(ls.len() as int) =~= all);
    if found && !wrong {
        return None;
    }
    if !found {
        assert(!wrong) by {
            if wrong {
                let i = choose|i: int| 0 <= i < all.len() && #[trigger] peers_line_wrong(all[i]);
                assert(peers_line(all[i]));
            }
        }
        assert(all.map_values(|l: Seq<char>| if peers_line_wrong(l) { npmrc_pin() } else { l })
            =~= all);
        let ghost base = view_lines(out@);
        if ls.len() > 0 && trim_vec(&ls[ls.len() - 1]).len() > 0 {
            out.push(Vec::new());
        }
        let ghost mid = view_lines(out@);
        out.push(chars_of("# DSH: core packages come from the CLI dependency tree;"));
        out.push(chars_of("# a profile must never resolve its own copy."));
        out.push(copy_vec(&pin));
        proof {
            if all.len() > 0 && trim(all.last()).len() > 0 {
                assert(mid =~= base + seq![Seq::<char>::empty()]);
            } else {
                assert(mid =~= base);
            }
            assert(view_lines(out@) =~= mid + npmrc_appendix());
        }
    }
    let mut text = join_vec(&out, &chars_of("\n"));
    text.push('\n');
    proof {
        reveal_strlit("\n");
        assert("\n"@ =~= seq!['\n']);
    }
    Some(string_of(&text))
}


/// A line's `.npmrc` reading depends on the trimmed line only.
proof fn lemma_npmrc_entry_cr(l: Seq<char>)
    ensures
        npmrc_entry(crate::text::strip_cr(l)) == npmrc_entry(l),
        peers_line(crate::text::strip_cr(l)) == peers_line(l),
        peers_line_wrong(crate::text::strip_cr(l)) == peers_line_wrong(l),
{
    crate::text::lemma_trim_strip_cr(l);
}

proof fn lemma_no_ws_trim(t: Seq<char>)
    requires
        t.len() > 0,
        !crate::text::is_ws(t[0]),
        !crate::text::is_ws(t.last()),
    ensures
        trim(t) == t,
{
    crate::text::lemma_trim_start_stop(t);
    crate::text::lemma_trim_end_stop(t);
}

/// The pin line sets the key to `false`; the rationale lines and a blank
/// line set nothing.
proof fn lemma_npmrc_appendix_lines()
    ensures
        peers_line(npmrc_pin()),
        !peers_line_wrong(npmrc_pin()),
        !peers_line(npmrc_appendix()[0]),
        !peers_line(npmrc_appendix()[1]),
        !peers_line(Seq::<char>::empty()),
{
    reveal_strlit("auto-install-peers=false");
    reveal_strlit("auto-install-peers");
    reveal_strlit("false");
    reveal_strlit("#");
    reveal_strlit(";");
    reveal_strlit("# DSH: core packages come from the CLI dependency tree;");
    reveal_strlit("# a profile must never resolve its own copy.");
    let p = npmrc_pin();
    lemma_no_ws_trim(p);
    assert(!starts_with(p, "#"@)) by {
        assert(p.take(1)[0] == 'a');
    }
    assert(!starts_with(p, ";"@)) by {
        assert(p.take(1)[0] == 'a');
    }
    lemma_char_index(p, '=');
    let ci = char_index(p, '=');
    assert(p[18] == '=');
    assert(ci == 18) by {
        if ci < 0 || 18 < ci {
            assert(p[18] != '=');
        } else if ci < 18 {
            assert(p[ci] == '=');
        }
    }
    let key = p.take(18);
    let val = p.skip(19);
    lemma_no_ws_trim(key);
    lemma_no_ws_trim(val);
    assert(key =~= NPMRC_KEY@);
    assert(val =~= "false"@);
    let c0 = npmrc_appendix()[0];
    let c1 = npmrc_appendix()[1];
    lemma_no_ws_trim(c0);
    lemma_no_ws_trim(c1);
    assert(starts_with(c0, "#"@)) by {
        assert(c0.take(1) =~= "#"@);
    }
    assert(starts_with(c1, "#"@)) by {
        assert(c1.take(1) =~= "#"@);
    }
    let e = Seq::<char>::empty();
    assert(trim(e) == e);
    assert(char_index(e, '=') == -1);
}

/// The `.npmrc` text after pinning: the rewritten text, or the text itself
/// when nothing had to change.
pub open spec fn npmrc_after(raw: Seq<char>) -> Seq<char> {
    match npmrc_pinned(raw) {
        Some(o) => o,
        None => raw,
    }
}

/// What pinning leaves in `.npmrc` (see [`npmrc_after`]): some line sets
/// `auto-install-peers`, no line sets it to anything but `false` (lines
/// that are comments set nothing), and every other line of the text stays
/// where it was (one that ends in a `'\r'` that reading drops loses it).
pub proof fn lemma_npmrc_pins(raw: Seq<char>)
    ensures
        lines(npmrc_after(raw)).len() >= lines(raw).len(),
        forall|i: int|
            0 <= i < lines(raw).len() && !peers_line_wrong(#[trigger] lines(raw)[i]) && (
            lines(raw)[i].len() == 0 || lines(raw)[i].last() != '\r') ==> lines(npmrc_after(raw))[i]
                == lines(raw)[i],
        exists|i: int|
            0 <= i < lines(npmrc_after(raw)).len() && #[trigger] peers_line(
                lines(npmrc_after(raw))[i],
            ),
        forall|i: int|
            0 <= i < lines(npmrc_after(raw)).len() ==> !peers_line_wrong(
                #[trigger] lines(npmrc_after(raw))[i],
            ),
{
    if npmrc_pinned(raw) is Some {
        lemma_npmrc_idempotent(raw);
    }
    let out = npmrc_after(raw);
    assert(npmrc_pinned(out) is None);
    let ls = lines(out);
    assert(exists|i: int| 0 <= i < ls.len() && #[trigger] peers_line(ls[i]));
    assert(!exists|i: int| 0 <= i < ls.len() && #[trigger] peers_line_wrong(ls[i]));
    assert forall|i: int| 0 <= i < ls.len() implies !peers_line_wrong(#[trigger] ls[i]) by {
        if peers_line_wrong(ls[i]) {
            assert(exists|j: int| 0 <= j < ls.len() && #[trigger] peers_line_wrong(ls[j]));
        }
    }
    let k = choose|i: int| 0 <= i < ls.len() && #[trigger] peers_line(ls[i]);
    assert(0 <= k < lines(out).len() && peers_line(lines(out)[k]));
}

/// Pinning the `.npmrc` is idempotent: once pinned, the text is left alone.
/// The rewrite keeps every other line where it was.
pub proof fn lemma_npmrc_idempotent(raw: Seq<char>)
    requires
        npmrc_pinned(raw) is Some,
    ensures
        npmrc_pinned(npmrc_pinned(raw)->0) is None,
        lines(npmrc_pinned(raw)->0).len() >= lines(raw).len(),
        forall|i: int|
            0 <= i < lines(raw).len() && !peers_line_wrong(#[trigger] lines(raw)[i]) && (
            lines(raw)[i].len() == 0 || lines(raw)[i].last() != '\r') ==> lines(
                npmrc_pinned(raw)->0,
            )[i] == lines(raw)[i],
{
    let ls = lines(raw);
    let found = exists|i: int| 0 <= i < ls.len() && #[trigger] peers_line(ls[i]);
    let fixed = ls.map_values(|l: Seq<char>| if peers_line_wrong(l) { npmrc_pin() } else { l });
    let sep: Seq<Seq<char>> = if ls.len() > 0 && trim(ls.last()).len() > 0 {
        seq![seq![]]
    } else {
        seq![]
    };
    let full = if found {
        fixed
    } else {
        fixed + sep + npmrc_appendix()
    };
    let out = join(full, seq!['\n']) + seq!['\n'];
    assert(npmrc_pinned(raw) == Some(out));
    lemma_npmrc_appendix_lines();
    crate::text::lemma_lines_single(raw, 0);
    reveal_strlit("auto-install-peers=false");
    reveal_strlit("# DSH: core packages come from the CLI dependency tree;");
    reveal_strlit("# a profile must never resolve its own copy.");
    // Every written line is a single line, and none sets the key wrongly.
    assert forall|i: int| 0 <= i < full.len() implies !(#[trigger] full[i]).contains('\n')
        && !peers_line_wrong(full[i]) by {
        if i < fixed.len() {
            assert(fixed[i] == (if peers_line_wrong(ls[i]) { npmrc_pin() } else { ls[i] }));
            if !peers_line_wrong(ls[i]) {
                assert(!ls[i].contains('\n'));
            } else {
                assert(!npmrc_pin().contains('\n'));
            }
        } else if i < fixed.len() + sep.len() {
            assert(full[i] == Seq::<char>::empty());
        } else {
            let a = i - fixed.len() - sep.len();
            assert(full[i] == npmrc_appendix()[a]);
            assert(!npmrc_appendix()[a].contains('\n'));
            assert(!peers_line(npmrc_appendix()[a]) || a == 2);
        }
    }
    assert(full.len() > 0) by {
        if !found {
            assert(full.len() >= 3);
        } else {
            let i = choose|i: int| 0 <= i < ls.len() && #[trigger] peers_line(ls[i]);
        }
    }
    crate::text::lemma_lines_of_written(full);
    let ls2 = lines(out);
    assert(ls2 == full.map_values(|l: Seq<char>| crate::text::strip_cr(l)));
    // Some written line sets the key.
    let w: int = if found {
        choose|i: int| 0 <= i < ls.len() && #[trigger] peers_line(ls[i])
    } else {
        full.len() - 1
    };
    assert(0 <= w < full.len());
    assert(peers_line(full[w])) by {
        if found {
            assert(fixed[w] == (if peers_line_wrong(ls[w]) { npmrc_pin() } else { ls[w] }));
        } else {
            assert(full[w] == npmrc_pin());
        }
    }
    lemma_npmrc_entry_cr(full[w]);
    assert(ls2[w] == crate::text::strip_cr(full[w]));
    assert(peers_line(ls2[w]));
    assert forall|i: int| 0 <= i < ls2.len() implies !#[trigger] peers_line_wrong(ls2[i]) by {
        assert(ls2[i] == crate::text::strip_cr(full[i]));
        lemma_npmrc_entry_cr(full[i]);
    }
    assert forall|i: int|
        0 <= i < ls.len() && !peers_line_wrong(#[trigger] ls[i]) && (ls[i].len() == 0
            || ls[i].last() != '\r') implies ls2[i] == ls[i] by {
        assert(full[i] == fixed[i]);
        assert(fixed[i] == ls[i]);
        assert(ls2[i] == crate::text::strip_cr(full[i]));
    }
}


// ---------------------------------------------------------------------------
// pnpm-workspace.yaml: build scripts opt-in
// ---------------------------------------------------------------------------

/// The placeholder pnpm 11 writes for a blocked build script.
pub open spec fn build_placeholder() -> Seq<char> {
    "set this to true or false"@
}

/// The document to start from: the existing lines, or a minimal workspace
/// (`packages: [.]`) when the file is missing or blank.
pub open spec fn workspace_base(raw: Seq<char>) -> Seq<Seq<char>> {
    if trim(raw).len() == 0 {
        seq!["packages:"@, "  - ."@]
    } else {
        lines(raw)
    }
}

/// A line with every placeholder approved (`true`).
pub open spec fn approve_line(l: Seq<char>) -> Seq<char> {
    if contains(l, build_placeholder()) {
        crate::text::replace_all(l, build_placeholder(), "true"@)
    } else {
        l
    }
}

/// A line that opens the `allowBuilds:` section.
pub open spec fn allow_builds_line(l: Seq<char>) -> bool {
    starts_with(crate::text::trim_start(l), "allowBuilds:"@)
}

/// Some line opens the `allowBuilds:` section.
pub open spec fn has_allow_line(ls: Seq<Seq<char>>) -> bool {
    exists|i: int| 0 <= i < ls.len() && #[trigger] allow_builds_line(ls[i])
}

/// The base lines with every placeholder approved.
pub open spec fn approved_lines(raw: Seq<char>) -> Seq<Seq<char>> {
    workspace_base(raw).map_values(|l: Seq<char>| approve_line(l))
}

/// Whether the text already carries the legacy `onlyBuiltDependencies` field.
pub open spec fn has_legacy_field(ls: Seq<Seq<char>>) -> bool {
    contains(join(ls, seq!['\n']), "onlyBuiltDependencies"@)
}

/// `ls` with the legacy `onlyBuiltDependencies: ['*']` block appended when
/// missing.
pub open spec fn with_legacy(ls: Seq<Seq<char>>) -> Seq<Seq<char>> {
    if has_legacy_field(ls) {
        ls
    } else {
        ls + seq![seq![], "onlyBuiltDependencies:"@, "  - '*'"@]
    }
}

/// The workspace lines after both steps: placeholders approved, the legacy
/// block added when the text lacks it, and an `allowBuilds:` section added
/// when no line opens one.
pub open spec fn workspace_lines(raw: Seq<char>) -> Seq<Seq<char>> {
    let l2 = with_legacy(approved_lines(raw));
    if has_allow_line(l2) {
        l2
    } else {
        l2 + seq![seq![], "allowBuilds:"@]
    }
}

/// Whether the workspace text needs rewriting: a placeholder to approve or
/// a section to add.
pub open spec fn workspace_changed(raw: Seq<char>) -> bool {
    let base = workspace_base(raw);
    ||| exists|i: int| 0 <= i < base.len() && contains(#[trigger] base[i], build_placeholder())
    ||| !has_legacy_field(approved_lines(raw))
    ||| !has_allow_line(with_legacy(approved_lines(raw)))
}

/// The `pnpm-workspace.yaml` text (`raw`, empty when the file is missing)
/// that opts into dependency build scripts on pnpm 10 and 11 (see
/// [`workspace_lines`]), ending with a line break; `None` when nothing has
/// to change.
pub open spec fn build_scripts_allowed(raw: Seq<char>) -> Option<Seq<char>> {
    if workspace_changed(raw) {
        let out = join(workspace_lines(raw), seq!['\n']);
        Some(
            if ends_with(out, seq!['\n']) {
                out
            } else {
                out + seq!['\n']
            },
        )
    } else {
        None
    }
}

/// Rewrites a profile's `pnpm-workspace.yaml` text so pnpm runs dependency
/// build scripts (see [`build_scripts_allowed`]); `None` when it already
/// does.
pub fn ensure_build_scripts_allowed(raw: &str) -> (r: Option<String>)
    ensures
        crate::config::opt_view(r) == build_scripts_allowed(raw@),
{
    proof {
        reveal_strlit("set this to true or false");
        reveal_strlit("true");
        reveal_strlit("allowBuilds:");
        reveal_strlit("onlyBuiltDependencies");
        reveal_strlit("\n");
        assert("\n"@ =~= seq!['\n']);
    }
    let base: Vec<Vec<char>> = if trim_vec(&chars_of(raw)).len() == 0 {
        let mut b: Vec<Vec<char>> = Vec::new();
        b.push(chars_of("packages:"));
        b.push(chars_of("  - ."));
        proof {
            assert(view_lines(b@) =~= seq!["packages:"@, "  - ."@]);
        }
        b
    } else {
        split_lines(&chars_of(raw))
    };
    let ghost bv = view_lines(base@);
    assert(bv == workspace_base(raw@));
    let ph = String::from_str("set this to true or false");
    let mut lines1: Vec<Vec<char>> = Vec::new();
    let mut placeholder = false;
    let mut k: usize = 0;
    assert(ph@.len() > 0);
    while k < base.len()
        invariant
            k <= base.len(),
            bv == view_lines(base@),
            ph@ == build_placeholder(),
            ph@.len() > 0,
            view_lines(lines1@) == bv.take(k as int).map_values(|l: Seq<char>| approve_line(l)),
            placeholder == exists|i: int|
                0 <= i < k && contains(#[trigger] bv[i], build_placeholder()),
        decreases base.len() - k,
    {
        let line = string_of(&base[k]);
        let fixed: Vec<char> = if str_contains(line.as_str(), ph.as_str()) {
            placeholder = true;
            chars_of(crate::text::replace_str(line.as_str(), ph.as_str(), "true").as_str())
        } else {
            copy_vec(&base[k])
        };
        proof {
            assert(view_lines(lines1@.push(fixed)) =~= view_lines(lines1@).push(fixed@));
            assert(bv.take(k + 1) =~= bv.take(k as int).push(bv[k as int]));
        }
        lines1.push(fixed);
        k = k + 1;
    }
    assert(bv.take(base.len() as int) =~= bv);
    let ghost l1 = view_lines(lines1@);
    let nl = chars_of("\n");
    assert(nl@ =~= seq!['\n']);
    let joined = join_vec(&lines1, &nl);
    let has_legacy = crate::text::contains_exec(&joined, &chars_of("onlyBuiltDependencies"));
    let mut all = lines1;
    if !has_legacy {
        all.push(Vec::new());
        all.push(chars_of("onlyBuiltDependencies:"));
        all.push(chars_of("  - '*'"));
        proof {
            assert(view_lines(all@) =~= l1 + seq![
                Seq::<char>::empty(),
                "onlyBuiltDependencies:"@,
                "  - '*'"@,
            ]);
        }
    }
    let ghost l2 = view_lines(all@);
    let allow = chars_of("allowBuilds:");
    let mut has_allow = false;
    let mut j: usize = 0;
    while j < all.len()
        invariant
            j <= all.len(),
            l2 == view_lines(all@),
            allow@ == "allowBuilds:"@,
            has_allow == exists|i: int| 0 <= i < j && #[trigger] allow_builds_line(l2[i]),
        decreases all.len() - j,
    {
        let ts = crate::text::trim_start_vec(&all[j]);
        assert(l2[j as int] == all@[j as int]@);
        if starts_with_exec(&ts, &allow) {
            has_allow = true;
            assert(allow_builds_line(l2[j as int]));
        }
        j = j + 1;
    }
    if !has_allow {
        all.push(Vec::new());
        all.push(chars_of("allowBuilds:"));
        proof {
            assert(view_lines(all@) =~= l2 + seq![Seq::<char>::empty(), "allowBuilds:"@]);
        }
    }
    proof {
        assert(l1 == approved_lines(raw@));
        assert(joined@ == join(l1, seq!['\n']));
        assert(l2 == with_legacy(l1));
        assert(has_allow == has_allow_line(l2));
        if has_allow {
            assert(view_lines(all@) == l2);
        } else {
            assert(view_lines(all@) == l2 + seq![Seq::<char>::empty(), "allowBuilds:"@]);
        }
        assert(view_lines(all@) == workspace_lines(raw@));
    }
    let changed = placeholder || !has_legacy || !has_allow;
    if !changed {
        return None;
    }
    let mut out = join_vec(&all, &nl);
    if !(out.len() > 0 && out[out.len() - 1] == '\n') {
        out.push('\n');
    }
    proof {
        let o = join(workspace_lines(raw@), seq!['\n']);
        assert(ends_with(o, seq!['\n']) == (o.len() > 0 && o.last() == '\n')) by {
            if o.len() > 0 {
                assert(o.skip(o.len() - 1) =~= seq![o.last()]);
                if o.skip(o.len() - 1) == seq!['\n'] {
                    assert(o.skip(o.len() - 1)[0] == '\n');
                }
            }
        }
    }
    Some(string_of(&out))
}


// ---------------------------------------------------------------------------
// Plugin commands
// ---------------------------------------------------------------------------

/// Index of the first HOME record with the id `id`, or -1.
pub open spec fn home_index(hs: Seq<HomeView>, id: Seq<char>) -> int
    decreases hs.len(),
{
    if hs.len() == 0 {
        -1
    } else {
        let f = home_index(hs.drop_last(), id);
        if f >= 0 {
            f
        } else if hs.last().id == id {
            hs.len() - 1
        } else {
            -1
        }
    }
}

pub proof fn lemma_home_index(hs: Seq<HomeView>, id: Seq<char>)
    ensures
        -1 <= home_index(hs, id) < hs.len(),
        home_index(hs, id) >= 0 ==> hs[home_index(hs, id)].id == id,
    decreases hs.len(),
{
    if hs.len() > 0 {
        lemma_home_index(hs.drop_last(), id);
        let f = home_index(hs.drop_last(), id);
        if f >= 0 {
            assert(hs.drop_last()[f] == hs[f]);
        }
    }
}

proof fn lemma_home_index_prefix(hs: Seq<HomeView>, id: Seq<char>, k: int)
    requires
        0 <= k < hs.len(),
        home_index(hs.take(k), id) == -1,
        hs[k].id == id,
    ensures
        home_index(hs, id) == k,
    decreases hs.len(),
{
    assert(hs.take(k + 1).drop_last() =~= hs.take(k));
    assert(home_index(hs.take(k + 1), id) == k);
    if hs.len() > k + 1 {
        assert(hs.drop_last().take(k) =~= hs.take(k));
        lemma_home_index_prefix(hs.drop_last(), id, k);
    } else {
        assert(hs.take(k + 1) =~= hs);
    }
}

/// Finds the HOME record with the id `id`.
pub fn find_home(homes: &Vec<DshHome>, id: &str) -> (r: Option<usize>)
    ensures
        match r {
            Some(k) => k as int == home_index(homes_view(homes@), id@),
            None => home_index(homes_view(homes@), id@) == -1,
        },
{
    let key = String::from_str(id);
    let mut k: usize = 0;
    while k < homes.len()
        invariant
            k <= homes.len(),
            key@ == id@,
            home_index(homes_view(homes@).take(k as int), id@) == -1,
        decreases homes.len() - k,
    {
        proof {
            assert(homes_view(homes@).take(k + 1).drop_last() =~= homes_view(homes@).take(
                k as int,
            ));
        }
        if homes[k].id == key {
            proof {
                lemma_home_index_prefix(homes_view(homes@), id@, k as int);
            }
            return Some(k);
        }
        k = k + 1;
    }
    assert(homes_view(homes@).take(homes.len() as int) =~= homes_view(homes@));
    None
}

/// Resolves a HOME to (its path, a version directory): plugin file edits
/// need the HOME; `dsh plugin remove` runs through a CLI binary, so any
/// installed version serves (the newest one, last in the list).
pub fn resolve_home_paths(cfg: &Config, home_id: &str) -> (r: Result<(String, String), String>)
    ensures
        ({
            let k = home_index(cfg@.homes, home_id@);
            &&& k < 0 ==> (r matches Err(e) && e@ == "DSH_HOME 不存在"@)
            &&& (k >= 0 && cfg@.versions.len() == 0) ==> (r matches Err(e) && e@
                == "尚未安装任何 DSH 版本"@)
            &&& (k >= 0 && cfg@.versions.len() > 0) ==> (r matches Ok(p) && p.0@
                == cfg@.homes[k].path && p.1@ == cfg@.versions.last().dir)
        }),
{
    let k = match find_home(&cfg.homes, home_id) {
        Some(k) => k,
        None => return Err(String::from_str("DSH_HOME 不存在")),
    };
    proof {
        lemma_home_index(cfg@.homes, home_id@);
    }
    if cfg.versions.len() == 0 {
        return Err(String::from_str("尚未安装任何 DSH 版本"));
    }
    let v = &cfg.versions[cfg.versions.len() - 1];
    Ok((cfg.homes[k].path.clone(), v.dir.clone()))
}

/// The patch document after enabling or disabling each package of
/// `packages` in turn (by its cordis id).
pub open spec fn plugins_enabled_text(raw: Seq<char>, packages: Seq<Seq<char>>, enabled: bool) -> Seq<
    char,
>
    decreases packages.len(),
{
    if packages.len() == 0 {
        raw
    } else {
        set_disabled_row_text(
            plugins_enabled_text(raw, packages.drop_last(), enabled),
            after_last_slash(packages.last()),
            enabled,
        )
    }
}

/// Enables or disables a batch of plugins in a patch document (`raw`, empty
/// when the file is missing) by adding or removing `disabled: true` rows.
pub fn set_plugins_enabled(raw: &str, plugin_ids: &Vec<String>, enabled: bool) -> (r: String)
    ensures
        r@ == plugins_enabled_text(raw@, view_strings(plugin_ids@), enabled),
{
    let mut text = String::from_str(raw);
    let ghost ps = view_strings(plugin_ids@);
    let mut k: usize = 0;
    assert(ps.take(0) =~= Seq::<Seq<char>>::empty());
    while k < plugin_ids.len()
        invariant
            k <= plugin_ids.len(),
            ps == view_strings(plugin_ids@),
            text@ == plugins_enabled_text(raw@, ps.take(k as int), enabled),
        decreases plugin_ids.len() - k,
    {
        assert(ps.take(k + 1).drop_last() =~= ps.take(k as int));
        assert(ps.take(k + 1).last() == plugin_ids@[k as int]@);
        let c = cordis_id_of(plugin_ids[k].as_str());
        text = set_disabled_row(text.as_str(), c.as_str(), enabled);
        k = k + 1;
    }
    assert(ps.take(plugin_ids.len() as int) =~= ps);
    text
}

/// Whether every package of a batch has a cordis id a disable row can be
/// written for: non-empty, one line, without surrounding whitespace.
pub open spec fn writable_ids(packages: Seq<Seq<char>>) -> bool {
    forall|i: int|
        0 <= i < packages.len() ==> {
            let x = after_last_slash(#[trigger] packages[i]);
            x.len() > 0 && trim(x) == x && !x.contains('\n')
        }
}

/// Whether `x` is the cordis id of some package of the batch.
pub open spec fn in_batch(packages: Seq<Seq<char>>, x: Seq<char>) -> bool {
    exists|i: int| 0 <= i < packages.len() && after_last_slash(#[trigger] packages[i]) == x
}

/// A batch rewrite keeps the blocks of `y` canonical.
proof fn lemma_batch_canonical(raw: Seq<char>, packages: Seq<Seq<char>>, enabled: bool, y: Seq<char>)
    requires
        crate::profile::canonical_blocks(lines(raw), y),
        !enabled ==> writable_ids(packages),
    ensures
        crate::profile::canonical_blocks(lines(plugins_enabled_text(raw, packages, enabled)), y),
    decreases packages.len(),
{
    if packages.len() > 0 {
        let p = packages.drop_last();
        assert(!enabled ==> writable_ids(p)) by {
            if !enabled {
                assert forall|i: int| 0 <= i < p.len() implies {
                    let x = after_last_slash(#[trigger] p[i]);
                    x.len() > 0 && trim(x) == x && !x.contains('\n')
                } by {
                    assert(p[i] == packages[i]);
                }
            }
        }
        lemma_batch_canonical(raw, p, enabled, y);
        let last = after_last_slash(packages.last());
        assert(!enabled ==> {
            let x = after_last_slash(packages[packages.len() - 1]);
            x.len() > 0 && trim(x) == x && !x.contains('\n')
        });
        crate::profile::lemma_canonical_kept(plugins_enabled_text(raw, p, enabled), last, enabled, y);
    }
}

/// Enabling or disabling a batch of plugins changes exactly the batch:
/// after `set_plugins_enabled(raw, packages, enabled)` the disabled-row
/// reader reports every cordis id of the batch as `enabled` says, and every
/// other id as it did of `raw`, whenever the id rows of each cordis id of
/// the batch are exactly the lines that open its blocks (and, to disable,
/// each such id is non-empty, one line and without surrounding whitespace).
pub proof fn lemma_batch_reads(raw: Seq<char>, packages: Seq<Seq<char>>, enabled: bool, z: Seq<char>)
    requires
        forall|i: int|
            0 <= i < packages.len() ==> crate::profile::canonical_blocks(
                lines(raw),
                after_last_slash(#[trigger] packages[i]),
            ),
        !enabled ==> writable_ids(packages),
    ensures
        disabled_ids(plugins_enabled_text(raw, packages, enabled)).contains(z) == if in_batch(
            packages,
            z,
        ) {
            !enabled
        } else {
            disabled_ids(raw).contains(z)
        },
    decreases packages.len(),
{
    if packages.len() > 0 {
        let p = packages.drop_last();
        let last = after_last_slash(packages.last());
        assert(packages.last() == packages[packages.len() - 1]);
        assert forall|i: int| 0 <= i < p.len() implies crate::profile::canonical_blocks(
            lines(raw),
            after_last_slash(#[trigger] p[i]),
        ) by {
            assert(p[i] == packages[i]);
        }
        assert(!enabled ==> writable_ids(p)) by {
            if !enabled {
                assert forall|i: int| 0 <= i < p.len() implies {
                    let x = after_last_slash(#[trigger] p[i]);
                    x.len() > 0 && trim(x) == x && !x.contains('\n')
                } by {
                    assert(p[i] == packages[i]);
                }
            }
        }
        lemma_batch_reads(raw, p, enabled, z);
        let prev = plugins_enabled_text(raw, p, enabled);
        lemma_batch_canonical(raw, p, enabled, last);
        if enabled {
            crate::profile::lemma_enable_reads(prev, last);
        } else {
            crate::profile::lemma_disable_reads(prev, last);
        }
        if in_batch(p, z) {
            let i = choose|i: int| 0 <= i < p.len() && after_last_slash(#[trigger] p[i]) == z;
            assert(packages[i] == p[i]);
        }
        if in_batch(packages, z) && !in_batch(p, z) {
            let i = choose|i: int| 0 <= i < packages.len() && after_last_slash(#[trigger] packages[i]) == z;
            if i < p.len() {
                assert(p[i] == packages[i]);
            }
            assert(z == last);
        }
        if z == last {
            assert(in_batch(packages, z));
        }
    }
}

/// The patch document without the uninstalled plugin's rows; `None` when
/// the document has none (nothing to write).
pub fn uninstall_cleanup(raw: &str, plugin_id: &str) -> (r: Option<String>)
    ensures
        ({
            let cleaned = strip_cordis_rows_text(raw@, after_last_slash(plugin_id@), plugin_id@);
            &&& cleaned == raw@ ==> r is None
            &&& cleaned != raw@ ==> (r matches Some(t) && t@ == cleaned)
        }),
{
    let c = cordis_id_of(plugin_id);
    let cleaned = strip_cordis_rows(raw, c.as_str(), plugin_id);
    if vec_eq(&chars_of(cleaned.as_str()), &chars_of(raw)) {
        None
    } else {
        Some(cleaned)
    }
}

/// The error when the profile to uninstall from does not exist.
pub fn missing_profile_error(profile: &str) -> (r: String)
    ensures
        r@ == "Profile「"@ + profile@ + "」不存在"@,
{
    let mut m = chars_of("Profile「");
    append_vec(&mut m, &chars_of(profile));
    append_vec(&mut m, &chars_of("」不存在"));
    string_of(&m)
}

/// What a failed `dsh plugin` attempt leads to.
#[derive(Clone, Debug)]
pub enum PluginRetry {
    /// pnpm blocked build scripts: approve them and run the command again.
    AllowBuilds,
    /// pnpm found node_modules linked from another store: relink and rerun.
    Relink,
    /// Give up with this error.
    Fail(String),
}

/// The step after a failed `dsh plugin <subcommand>` attempt (`attempt`
/// counts from 1) whose full output is `out`: on the first attempt ignored
/// build scripts are approved, or a store mismatch is relinked, and the
/// command runs again; otherwise the error is reported with the output's
/// last meaningful lines.
pub fn plugin_retry(attempt: u32, subcommand: &str, out: &str) -> (r: PluginRetry)
    ensures
        attempt == 1 && ignored_builds(out@) ==> r is AllowBuilds,
        attempt == 1 && !ignored_builds(out@) && unexpected_store(out@) ==> r is Relink,
        !(attempt == 1 && (ignored_builds(out@) || unexpected_store(out@))) ==> (r matches PluginRetry::Fail(
            e,
        ) && e@ == "dsh plugin "@ + subcommand@ + " 失败: "@ + summarized(out@)),
{
    if attempt == 1 && mentions_ignored_builds(out) {
        return PluginRetry::AllowBuilds;
    }
    if attempt == 1 && mentions_unexpected_store(out) {
        return PluginRetry::Relink;
    }
    let mut m = chars_of("dsh plugin ");
    append_vec(&mut m, &chars_of(subcommand));
    append_vec(&mut m, &chars_of(" 失败: "));
    append_vec(&mut m, &chars_of(summarize_output(out).as_str()));
    PluginRetry::Fail(string_of(&m))
}

/// Whether a profile must be relinked before `dsh plugin` runs: its
/// `node_modules` is linked from a store other than the launcher's.
pub fn needs_relink(linked: &Option<String>, store_dir: &str) -> (r: bool)
    ensures
        r == (linked matches Some(l) && !same_store(l@, store_dir@)),
{
    match linked {
        Some(l) => !store_paths_match(l.as_str(), store_dir),
        None => false,
    }
}

/// The failure text of a command: its stdout and stderr joined by a line
/// break, or the exit status when both are blank.
pub fn command_failure_text(stdout: &str, stderr: &str, status: &str) -> (r: String)
    ensures
        ({
            let combined = stdout@ + seq!['\n'] + stderr@;
            r@ == (if trim(combined).len() == 0 {
                "退出码 "@ + status@
            } else {
                combined
            })
        }),
{
    let mut c = chars_of(stdout);
    c.push('\n');
    append_vec(&mut c, &chars_of(stderr));
    assert(c@ =~= stdout@ + seq!['\n'] + stderr@);
    if trim_vec(&c).len() == 0 {
        cat("退出码 ", status)
    } else {
        string_of(&c)
    }
}


// ---------------------------------------------------------------------------
// The workspace rewrite settles after one run
// ---------------------------------------------------------------------------

proof fn lemma_allow_line_strip_cr(l: Seq<char>)
    requires
        allow_builds_line(l),
    ensures
        allow_builds_line(crate::text::strip_cr(l)),
{
    reveal_strlit("allowBuilds:");
    let a = "allowBuilds:"@;
    assert(a.len() == 12 && a[11] == ':');
    if l.len() > 0 && l.last() == '\r' {
        let m = l.drop_last();
        assert(l =~= m.push('\r'));
        if crate::text::all_ws(m) {
            assert(crate::text::all_ws(l)) by {
                assert forall|i: int| 0 <= i < l.len() implies crate::text::is_ws(#[trigger] l[i]) by {
                    if i < m.len() {
                        assert(l[i] == m[i]);
                    }
                }
            }
            crate::text::lemma_all_ws_trim_start(l);
            assert(false);
        }
        crate::text::lemma_trim_start_push(m, '\r');
        let tm = crate::text::trim_start(m);
        assert(crate::text::trim_start(l) == tm.push('\r'));
        if tm.len() < 12 {
            assert(tm.push('\r').take(12)[tm.len() as int] == '\r');
            assert(a[tm.len() as int] != '\r');
            assert(false);
        }
        assert(tm.take(12) =~= tm.push('\r').take(12));
    }
}

/// `strip_cr(l)` keeps an occurrence of `x` that does not end in `'\r'`,
/// and adds none.
proof fn lemma_strip_cr_contains(l: Seq<char>, x: Seq<char>)
    requires
        x.len() > 0,
        x.last() != '\r',
    ensures
        contains(crate::text::strip_cr(l), x) <==> contains(l, x),
{
    if l.len() > 0 && l.last() == '\r' {
        let m = l.drop_last();
        assert(l =~= m.push('\r'));
        assert(m + seq!['\r'] =~= l);
        if contains(m, x) {
            crate::text::lemma_contains_extend(m, seq!['\r'], x);
        }
        if contains(l, x) {
            crate::text::lemma_contains_before_last(m, '\r', x);
        }
    }
}

proof fn lemma_no_placeholder_in_short(l: Seq<char>)
    requires
        l.len() < 25,
    ensures
        !contains(l, build_placeholder()),
{
    reveal_strlit("set this to true or false");
    assert(build_placeholder().len() == 25);
}

proof fn lemma_workspace_constants()
    ensures
        !"packages:"@.contains('\n'),
        !"  - ."@.contains('\n'),
        !"onlyBuiltDependencies:"@.contains('\n'),
        !"  - '*'"@.contains('\n'),
        !"allowBuilds:"@.contains('\n'),
        !"true"@.contains('\n'),
        "packages:"@.len() == 9,
        "  - ."@.len() == 5,
        "onlyBuiltDependencies:"@.len() == 22,
        "  - '*'"@.len() == 7,
        "allowBuilds:"@.len() == 12,
        contains("onlyBuiltDependencies:"@, "onlyBuiltDependencies"@),
        "onlyBuiltDependencies"@.len() == 21,
        "onlyBuiltDependencies"@.last() == 's',
        !"onlyBuiltDependencies"@.contains('\n'),
        allow_builds_line("allowBuilds:"@),
{
    reveal_strlit("packages:");
    reveal_strlit("  - .");
    reveal_strlit("onlyBuiltDependencies:");
    reveal_strlit("onlyBuiltDependencies");
    reveal_strlit("  - '*'");
    reveal_strlit("allowBuilds:");
    reveal_strlit("true");
    let o = "onlyBuiltDependencies:"@;
    assert(o.subrange(0, 21) =~= "onlyBuiltDependencies"@);
    assert(crate::text::occurs_at(o, "onlyBuiltDependencies"@, 0));
    crate::text::lemma_trim_start_stop("allowBuilds:"@);
    assert("allowBuilds:"@.take(12) =~= "allowBuilds:"@);
}

/// The rewritten workspace lines: single lines, no placeholder left (when
/// approving removed them), a line naming the legacy field and a line
/// opening `allowBuilds:`.
proof fn lemma_workspace_lines_facts(raw: Seq<char>)
    requires
        forall|i: int|
            0 <= i < workspace_base(raw).len() ==> !contains(
                approve_line(#[trigger] workspace_base(raw)[i]),
                build_placeholder(),
            ),
    ensures
        ({
            let w = workspace_lines(raw);
            &&& w.len() > 0
            &&& crate::text::single_lines(w)
            &&& forall|i: int| 0 <= i < w.len() ==> !contains(#[trigger] w[i], build_placeholder())
            &&& exists|i: int| 0 <= i < w.len() && #[trigger] allow_builds_line(w[i])
            &&& exists|i: int|
                0 <= i < w.len() && contains(#[trigger] w[i], "onlyBuiltDependencies"@)
        }),
{
    lemma_workspace_constants();
    reveal_strlit("set this to true or false");
    let base = workspace_base(raw);
    let a = approved_lines(raw);
    let l2 = with_legacy(a);
    let w = workspace_lines(raw);
    let x = "onlyBuiltDependencies"@;
    // Base lines are single lines.
    assert(crate::text::single_lines(base)) by {
        if trim(raw).len() == 0 {
            assert(base =~= seq!["packages:"@, "  - ."@]);
        } else {
            crate::text::lemma_lines_single(raw, 0);
        }
    }
    assert(crate::text::single_lines(a)) by {
        assert forall|i: int| 0 <= i < a.len() implies !(#[trigger] a[i]).contains('\n') by {
            assert(a[i] == approve_line(base[i]));
            assert(!base[i].contains('\n'));
            if contains(base[i], build_placeholder()) {
                crate::text::lemma_replace_all_no_char(base[i], build_placeholder(), "true"@, '\n');
            }
        }
    }
    assert forall|i: int| 0 <= i < a.len() implies !contains(#[trigger] a[i], build_placeholder()) by {
        assert(a[i] == approve_line(base[i]));
    }
    let tail_l: Seq<Seq<char>> = seq![seq![], "onlyBuiltDependencies:"@, "  - '*'"@];
    let tail_a: Seq<Seq<char>> = seq![seq![], "allowBuilds:"@];
    // The legacy block.
    assert(crate::text::single_lines(l2) && forall|i: int|
        0 <= i < l2.len() ==> !contains(#[trigger] l2[i], build_placeholder())) by {
        if !has_legacy_field(a) {
            assert(l2 == a + tail_l);
            assert forall|i: int| 0 <= i < l2.len() implies !(#[trigger] l2[i]).contains('\n')
                && !contains(l2[i], build_placeholder()) by {
                if i < a.len() {
                    assert(l2[i] == a[i]);
                } else {
                    assert(l2[i] == tail_l[i - a.len()]);
                    lemma_no_placeholder_in_short(l2[i]);
                    if i - a.len() == 0 {
                        assert(!l2[i].contains('\n'));
                    }
                }
            }
        }
    }
    assert(exists|i: int| 0 <= i < l2.len() && contains(#[trigger] l2[i], x)) by {
        if has_legacy_field(a) {
            crate::text::lemma_join_locate(a, x);
        } else {
            assert(l2[a.len() as int + 1] == "onlyBuiltDependencies:"@);
            assert(contains(l2[a.len() as int + 1], x));
        }
    }
    if has_allow_line(l2) {
        assert(w == l2);
    } else {
        assert(w == l2 + tail_a);
        assert forall|i: int| 0 <= i < w.len() implies !(#[trigger] w[i]).contains('\n')
            && !contains(w[i], build_placeholder()) by {
            if i < l2.len() {
                assert(w[i] == l2[i]);
            } else {
                assert(w[i] == tail_a[i - l2.len()]);
                lemma_no_placeholder_in_short(w[i]);
                if i - l2.len() == 0 {
                    assert(!w[i].contains('\n'));
                }
            }
        }
        assert(allow_builds_line(w[l2.len() as int + 1]));
        let k = choose|k: int| 0 <= k < l2.len() && contains(#[trigger] l2[k], x);
        assert(w[k] == l2[k]);
    }
    assert(w.len() > 0) by {
        let k = choose|k: int| 0 <= k < l2.len() && contains(#[trigger] l2[k], x);
        assert(w.len() >= l2.len());
    }
}


/// Allowing build scripts settles after one run: the text it writes needs
/// no further change. This holds whenever approving a line removes its
/// placeholders (a line like `set this to set this to true or false or
/// false` is approved into a fresh placeholder).
/// What the build-script opt-in leaves in `pnpm-workspace.yaml` (the
/// rewritten text, or the text itself when nothing had to change): no
/// `set this to true or false` placeholder, the legacy
/// `onlyBuiltDependencies` field, and a line opening `allowBuilds:`;
/// whenever approving a line removes its placeholders (see
/// [`lemma_build_scripts_idempotent`]).
pub proof fn lemma_build_scripts_settle(raw: Seq<char>)
    requires
        forall|i: int|
            0 <= i < workspace_base(raw).len() ==> !contains(
                approve_line(#[trigger] workspace_base(raw)[i]),
                build_placeholder(),
            ),
    ensures
        ({
            let out = match build_scripts_allowed(raw) {
                Some(o) => o,
                None => raw,
            };
            &&& forall|i: int|
                0 <= i < workspace_base(out).len() ==> !contains(
                    #[trigger] workspace_base(out)[i],
                    build_placeholder(),
                )
            &&& has_legacy_field(approved_lines(out))
            &&& has_allow_line(with_legacy(approved_lines(out)))
        }),
{
    lemma_build_scripts_idempotent(raw);
}

pub proof fn lemma_build_scripts_idempotent(raw: Seq<char>)
    requires
        forall|i: int|
            0 <= i < workspace_base(raw).len() ==> !contains(
                approve_line(#[trigger] workspace_base(raw)[i]),
                build_placeholder(),
            ),
    ensures
        build_scripts_allowed(raw) matches Some(out) ==> build_scripts_allowed(out) is None,
{
    if build_scripts_allowed(raw) is None {
        return;
    }
    lemma_workspace_lines_facts(raw);
    lemma_workspace_constants();
    reveal_strlit("set this to true or false");
    let nl = seq!['\n'];
    let x = "onlyBuiltDependencies"@;
    let p = build_placeholder();
    let w = workspace_lines(raw);
    let jw = join(w, nl);
    let out = build_scripts_allowed(raw)->0;
    // The written lines.
    let v = if ends_with(jw, nl) {
        w.drop_last()
    } else {
        w
    };
    if ends_with(jw, nl) {
        crate::text::lemma_join_ends_nl(w);
        assert(out == join(v, nl) + nl);
    } else {
        assert(out == join(v, nl) + nl);
    }
    let ia = choose|i: int| 0 <= i < w.len() && #[trigger] allow_builds_line(w[i]);
    let ix = choose|i: int| 0 <= i < w.len() && contains(#[trigger] w[i], x);
    assert(w[ia].len() > 0) by {
        crate::text::lemma_trim_start_len(w[ia]);
    }
    assert(w[ix].len() > 0) by {
        let q = choose|q: int| crate::text::occurs_at(w[ix], x, q);
    }
    assert(ia < v.len() && ix < v.len() && v.len() > 0);
    assert(forall|i: int| 0 <= i < v.len() ==> #[trigger] v[i] == w[i]);
    assert(crate::text::single_lines(v));
    crate::text::lemma_lines_of_written(v);
    let ls = lines(out);
    assert(ls == v.map_values(|l: Seq<char>| crate::text::strip_cr(l)));
    assert(ls.len() == v.len());
    // No placeholder survives in the written lines.
    assert forall|i: int| 0 <= i < ls.len() implies !contains(#[trigger] ls[i], p) by {
        assert(ls[i] == crate::text::strip_cr(v[i]));
        lemma_strip_cr_contains(v[i], p);
    }
    assert(allow_builds_line(ls[ia])) by {
        lemma_allow_line_strip_cr(v[ia]);
    }
    assert(contains(ls[ix], x)) by {
        lemma_strip_cr_contains(v[ix], x);
    }
    // The written text is not blank.
    assert(trim(out).len() > 0) by {
        if trim(out).len() == 0 {
            crate::text::lemma_trim_empty_all_ws(out);
            let l = v[ia];
            if crate::text::all_ws(l) {
                crate::text::lemma_all_ws_trim_start(l);
                assert(false);
            }
            let k = choose|k: int| 0 <= k < l.len() && !crate::text::is_ws(#[trigger] l[k]);
            crate::text::lemma_join_embeds(v, nl, ia);
            let o = choose|o: int| crate::text::occurs_at(join(v, nl), v[ia], o);
            assert(join(v, nl).subrange(o, o + l.len())[k] == l[k]);
            assert(out[o + k] == join(v, nl)[o + k]);
            assert(crate::text::is_ws(out[o + k]));
            assert(false);
        }
    }
    assert(workspace_base(out) == ls);
    assert(approved_lines(out) =~= ls) by {
        assert forall|i: int| 0 <= i < ls.len() implies #[trigger] approved_lines(out)[i]
            == ls[i] by {
            assert(approved_lines(out)[i] == approve_line(ls[i]));
        }
    }
    assert(has_legacy_field(ls)) by {
        crate::text::lemma_join_embeds(ls, nl, ix);
        let o = choose|o: int| crate::text::occurs_at(join(ls, nl), ls[ix], o);
        crate::text::lemma_contains_within(join(ls, nl), ls[ix], o, x);
    }
    assert(with_legacy(approved_lines(out)) == ls);
    assert(has_allow_line(ls));
    assert(!workspace_changed(out));
}

} // verus!
