//! The edits and checks behind the launcher's commands: HOME records,
//! versions, instances, profiles, settings, external links and instance
//! terminals. Each function decides or edits; the application performs
//! the filesystem and OS work around it.

use crate::config::{
    distinct_paths, find_instance, find_same_path, has_home, homes_view, instance_index,
    instances_view, is_new_id, lemma_instance_index, new_id, opt_view, paths_equal, same_path,
    sanitize_name, sanitized, versions_view, Config, ConfigView, DshHome, DshInstance, DshVersion,
    HomeView, InstanceView, LauncherSettings, RemoteVersion, SettingsPatch, SettingsView,
    VersionView,
};
use crate::paths::{join_path, normalize_dir_path, normalized_dir, path_join};
use crate::plugins::{find_home, home_index, lemma_home_index};
use crate::process::{find_version_by_id, lemma_version_id_index, version_id_index};
use crate::text::{
    append_vec, cat, chars_of, contains, join, join_strings, starts_with, str_starts_with,
    string_of, trim, trim_vec, vec_eq, view_strings,
};
use vstd::prelude::*;

verus! {

/// The upstream repository whose `dsh-v<version>` tags carry releases.
pub const DSH_REPO: &'static str = "deepseek-ai/deepseek-harness";

// ---------------------------------------------------------------------------
// HOME records
// ---------------------------------------------------------------------------

/// What creating a HOME record comes to.
#[derive(Clone, Debug)]
pub enum HomePlan {
    /// A record already points at the (normalised) path: it is reused.
    Existing(DshHome),
    /// A new record with this name and normalised path is to be created
    /// (after its directory is).
    Create { name: String, path: String },
}

/// Index of the first record whose path is the same as `p`, in the sense
/// the filesystem resolves paths.
fn same_path_home(homes: &Vec<DshHome>, p: &String) -> (r: Option<usize>)
    ensures
        match r {
            Some(k) => k as int == find_same_path(homes_view(homes@), p@),
            None => find_same_path(homes_view(homes@), p@) == -1,
        },
{
    let mut k: usize = 0;
    while k < homes.len()
        invariant
            k <= homes.len(),
            find_same_path(homes_view(homes@).take(k as int), p@) == -1,
        decreases homes.len() - k,
    {
        proof {
            assert(homes_view(homes@).take(k + 1).drop_last() =~= homes_view(homes@).take(k as int));
        }
        if paths_equal(homes[k].path.as_str(), p.as_str()) {
            proof {
                crate::config::lemma_find_same_path_prefix(homes_view(homes@), p@, k as int);
            }
            return Some(k);
        }
        k = k + 1;
    }
    assert(homes_view(homes@).take(homes.len() as int) =~= homes_view(homes@));
    None
}

/// Validates a HOME request: the trimmed name must not be empty and the
/// path must normalise (see [`normalized_dir`]; `home` is the user's home
/// directory). A record whose path is the same as the normalised path is
/// reused, so `~/.dsh` and `/Users/me/.dsh` never become two records.
pub fn plan_home_record(cfg: &Config, name: &str, path: &str, home: Option<String>) -> (r: Result<
    HomePlan,
    String,
>)
    ensures
        trim(name@).len() == 0 ==> (r matches Err(e) && e@ == "名称不能为空"@),
        trim(name@).len() > 0 ==> match normalized_dir(path@, opt_view(home)) {
            Err(e) => r matches Err(m) && m@ == e,
            Ok(p) => {
                let k = find_same_path(cfg@.homes, p);
                &&& k >= 0 ==> (r matches Ok(HomePlan::Existing(h)) && h@ == cfg@.homes[k])
                &&& k < 0 ==> (r matches Ok(HomePlan::Create { name: n, path: q }) && n@ == trim(
                    name@,
                ) && q@ == p)
            },
        },
{
    let n = trim_vec(&chars_of(name));
    if n.len() == 0 {
        return Err(String::from_str("名称不能为空"));
    }
    let p = match normalize_dir_path(path, home) {
        Ok(p) => p,
        Err(e) => return Err(e),
    };
    match same_path_home(&cfg.homes, &p) {
        Some(k) => {
            proof {
                crate::config::lemma_find_same_path(homes_view(cfg.homes@), p@);
            }
            Ok(HomePlan::Existing(cfg.homes[k].copy()))
        },
        None => Ok(HomePlan::Create { name: string_of(&n), path: p }),
    }
}

/// Appends a HOME record with a fresh `h-` id.
pub fn add_home(cfg: &mut Config, name: String, path: String) -> (r: DshHome)
    ensures
        is_new_id(r@.id, "h"@),
        r@.name == name@,
        r@.path == path@,
        final(cfg)@ == (ConfigView { homes: old(cfg)@.homes.push(r@), ..old(cfg)@ }),
{
    let h = DshHome { id: new_id("h"), name, path };
    let ghost before = cfg.homes@;
    cfg.homes.push(h.copy());
    assert(homes_view(cfg.homes@) =~= homes_view(before).push(h@));
    h
}

/// Adding a record only for a path no record has keeps every path unique.
pub proof fn lemma_add_home_keeps_paths_distinct(homes: Seq<HomeView>, h: HomeView)
    requires
        distinct_paths(homes),
        find_same_path(homes, h.path) < 0,
    ensures
        distinct_paths(homes.push(h)),
{
    let hs = homes.push(h);
    assert forall|i: int, j: int| 0 <= i < j < hs.len() implies !same_path(
        #[trigger] hs[i].path,
        #[trigger] hs[j].path,
    ) by {
        if j == homes.len() {
            crate::config::lemma_find_same_path(homes, h.path);
            assert(hs[i] == homes[i]);
        } else {
            assert(hs[i] == homes[i] && hs[j] == homes[j]);
        }
    }
}

/// The default path of a dedicated HOME for `name`:
/// `<data_dir>/homes/<sanitized name>`.
pub fn default_dedicated_home_path(data_dir: &str, name: &str) -> (r: String)
    ensures
        r@ == path_join(path_join(data_dir@, "homes"@), sanitized(name@)),
{
    let root = join_path(data_dir, "homes");
    join_path(root.as_str(), sanitize_name(name).as_str())
}

/// Whether some instance refers to the HOME `id`.
pub open spec fn home_in_use(insts: Seq<InstanceView>, id: Seq<char>) -> bool {
    exists|i: int| 0 <= i < insts.len() && (#[trigger] insts[i]).home_id == id
}

/// The HOME records without those whose id is `id`.
pub open spec fn homes_without(hs: Seq<HomeView>, id: Seq<char>) -> Seq<HomeView>
    decreases hs.len(),
{
    if hs.len() == 0 {
        seq![]
    } else if hs.last().id == id {
        homes_without(hs.drop_last(), id)
    } else {
        homes_without(hs.drop_last(), id).push(hs.last())
    }
}

/// Removes a HOME record; refused while an instance still refers to it.
pub fn remove_home(cfg: &mut Config, id: &str) -> (r: Result<(), String>)
    ensures
        home_in_use(old(cfg)@.instances, id@) ==> (r matches Err(e) && e@
            == "该 DSH_HOME 仍被实例引用，无法删除"@) && final(cfg)@ == old(cfg)@,
        !home_in_use(old(cfg)@.instances, id@) ==> r is Ok && final(cfg)@ == (ConfigView {
            homes: homes_without(old(cfg)@.homes, id@),
            ..old(cfg)@
        }),
{
    let key = String::from_str(id);
    let mut k: usize = 0;
    while k < cfg.instances.len()
        invariant
            k <= cfg.instances.len(),
            key@ == id@,
            forall|i: int| 0 <= i < k ==> instances_view(cfg.instances@)[i].home_id != id@,
        decreases cfg.instances.len() - k,
    {
        if cfg.instances[k].home_id == key {
            assert(instances_view(cfg.instances@)[k as int].home_id == id@);
            return Err(String::from_str("该 DSH_HOME 仍被实例引用，无法删除"));
        }
        k = k + 1;
    }
    let ghost hv = homes_view(cfg.homes@);
    let mut kept: Vec<DshHome> = Vec::new();
    let mut j: usize = 0;
    assert(hv.take(0) =~= Seq::<HomeView>::empty());
    while j < cfg.homes.len()
        invariant
            j <= cfg.homes.len(),
            key@ == id@,
            hv == homes_view(cfg.homes@),
            homes_view(kept@) == homes_without(hv.take(j as int), id@),
        decreases cfg.homes.len() - j,
    {
        assert(hv.take(j + 1).drop_last() =~= hv.take(j as int));
        assert(hv.take(j + 1).last() == cfg.homes@[j as int]@);
        if cfg.homes[j].id != key {
            let h = cfg.homes[j].copy();
            let ghost before = homes_view(kept@);
            kept.push(h);
            assert(homes_view(kept@) =~= before.push(cfg.homes@[j as int]@));
        }
        j = j + 1;
    }
    assert(hv.take(cfg.homes.len() as int) =~= hv);
    cfg.homes = kept;
    Ok(())
}

// ---------------------------------------------------------------------------
// Versions
// ---------------------------------------------------------------------------

/// The ids of the instances of version `vid`, in order.
pub open spec fn instance_ids_of_version(insts: Seq<InstanceView>, vid: Seq<char>) -> Seq<Seq<char>>
    decreases insts.len(),
{
    if insts.len() == 0 {
        seq![]
    } else if insts.last().version_id == vid {
        instance_ids_of_version(insts.drop_last(), vid).push(insts.last().id)
    } else {
        instance_ids_of_version(insts.drop_last(), vid)
    }
}

/// What removing version `id` involves: its record and the ids of its
/// instances (to stop first). Refused for an unknown version.
pub fn version_removal(cfg: &Config, id: &str) -> (r: Result<(DshVersion, Vec<String>), String>)
    ensures
        ({
            let k = version_id_index(cfg@.versions, id@);
            &&& k < 0 ==> (r matches Err(e) && e@ == "版本不存在"@)
            &&& k >= 0 ==> (r matches Ok(p) && p.0@ == cfg@.versions[k] && view_strings(p.1@)
                == instance_ids_of_version(cfg@.instances, id@))
        }),
{
    let k = match find_version_by_id(&cfg.versions, id) {
        Some(k) => k,
        None => return Err(String::from_str("版本不存在")),
    };
    proof {
        lemma_version_id_index(cfg@.versions, id@);
    }
    let key = String::from_str(id);
    let ghost iv = cfg@.instances;
    let mut ids: Vec<String> = Vec::new();
    let mut j: usize = 0;
    assert(iv.take(0) =~= Seq::<InstanceView>::empty());
    while j < cfg.instances.len()
        invariant
            j <= cfg.instances.len(),
            key@ == id@,
            iv == cfg@.instances,
            view_strings(ids@) == instance_ids_of_version(iv.take(j as int), id@),
        decreases cfg.instances.len() - j,
    {
        assert(iv.take(j + 1).drop_last() =~= iv.take(j as int));
        assert(iv.take(j + 1).last() == cfg.instances@[j as int]@);
        if cfg.instances[j].version_id == key {
            let x = cfg.instances[j].id.clone();
            let ghost before = view_strings(ids@);
            ids.push(x);
            assert(view_strings(ids@) =~= before.push(cfg.instances@[j as int]@.id));
        }
        j = j + 1;
    }
    assert(iv.take(cfg.instances.len() as int) =~= iv);
    Ok((cfg.versions[k].copy(), ids))
}

/// The instances not of version `vid`.
pub open spec fn instances_without_version(insts: Seq<InstanceView>, vid: Seq<char>) -> Seq<
    InstanceView,
>
    decreases insts.len(),
{
    if insts.len() == 0 {
        seq![]
    } else if insts.last().version_id == vid {
        instances_without_version(insts.drop_last(), vid)
    } else {
        instances_without_version(insts.drop_last(), vid).push(insts.last())
    }
}

/// The version records without those whose id is `vid`.
pub open spec fn versions_without(vs: Seq<VersionView>, vid: Seq<char>) -> Seq<VersionView>
    decreases vs.len(),
{
    if vs.len() == 0 {
        seq![]
    } else if vs.last().id == vid {
        versions_without(vs.drop_last(), vid)
    } else {
        versions_without(vs.drop_last(), vid).push(vs.last())
    }
}

/// Whether some instance has the id `id`.
pub open spec fn has_instance_id(insts: Seq<InstanceView>, id: Seq<char>) -> bool {
    exists|i: int| 0 <= i < insts.len() && (#[trigger] insts[i]).id == id
}

/// Drops version `vid` and its instances from the configuration; the last
/// used instance is forgotten when it was one of them.
pub fn drop_version_records(cfg: &mut Config, vid: &str)
    ensures
        ({
            let insts = instances_without_version(old(cfg)@.instances, vid@);
            let last = old(cfg)@.settings.last_instance_id;
            &&& final(cfg)@.homes == old(cfg)@.homes
            &&& final(cfg)@.instances == insts
            &&& final(cfg)@.versions == versions_without(old(cfg)@.versions, vid@)
            &&& final(cfg)@.settings == (SettingsView {
                last_instance_id: match last {
                    Some(l) => if has_instance_id(insts, l) {
                        Some(l)
                    } else {
                        None
                    },
                    None => None,
                },
                ..old(cfg)@.settings
            })
        }),
{
    let key = String::from_str(vid);
    let ghost iv = cfg@.instances;
    let mut insts: Vec<DshInstance> = Vec::new();
    let mut j: usize = 0;
    assert(iv.take(0) =~= Seq::<InstanceView>::empty());
    while j < cfg.instances.len()
        invariant
            j <= cfg.instances.len(),
            key@ == vid@,
            iv == cfg@.instances,
            instances_view(insts@) == instances_without_version(iv.take(j as int), vid@),
        decreases cfg.instances.len() - j,
    {
        assert(iv.take(j + 1).drop_last() =~= iv.take(j as int));
        assert(iv.take(j + 1).last() == cfg.instances@[j as int]@);
        if cfg.instances[j].version_id != key {
            let x = cfg.instances[j].copy();
            let ghost before = instances_view(insts@);
            insts.push(x);
            assert(instances_view(insts@) =~= before.push(cfg.instances@[j as int]@));
        }
        j = j + 1;
    }
    assert(iv.take(cfg.instances.len() as int) =~= iv);
    let ghost vv = cfg@.versions;
    let mut vers: Vec<DshVersion> = Vec::new();
    let mut m: usize = 0;
    assert(vv.take(0) =~= Seq::<VersionView>::empty());
    while m < cfg.versions.len()
        invariant
            m <= cfg.versions.len(),
            key@ == vid@,
            vv == cfg@.versions,
            versions_view(vers@) == versions_without(vv.take(m as int), vid@),
        decreases cfg.versions.len() - m,
    {
        assert(vv.take(m + 1).drop_last() =~= vv.take(m as int));
        assert(vv.take(m + 1).last() == cfg.versions@[m as int]@);
        if cfg.versions[m].id != key {
            let x = cfg.versions[m].copy();
            let ghost before = versions_view(vers@);
            vers.push(x);
            assert(versions_view(vers@) =~= before.push(cfg.versions@[m as int]@));
        }
        m = m + 1;
    }
    assert(vv.take(cfg.versions.len() as int) =~= vv);
    cfg.instances = insts;
    let keep_last = match &cfg.settings.last_instance_id {
        Some(l) => {
            let f = find_instance(&cfg.instances, l.as_str());
            proof {
                lemma_instance_index(cfg@.instances, l@);
            }
            assert(f.is_some() == has_instance_id(cfg@.instances, l@)) by {
                if has_instance_id(cfg@.instances, l@) {
                    let i = choose|i: int|
                        0 <= i < cfg@.instances.len() && (#[trigger] cfg@.instances[i]).id == l@;
                    assert(cfg@.instances[i].id == l@);
                }
            }
            f.is_some()
        },
        None => true,
    };
    if !keep_last {
        cfg.settings.last_instance_id = None;
    }
    cfg.versions = vers;
}

// ---------------------------------------------------------------------------
// Instances
// ---------------------------------------------------------------------------

/// Whether an instance other than `id` is named `name`.
pub open spec fn name_taken(insts: Seq<InstanceView>, name: Seq<char>, id: Seq<char>) -> bool {
    exists|i: int| 0 <= i < insts.len() && (#[trigger] insts[i]).name == name && insts[i].id != id
}

/// Whether some version record carries the id `id`.
pub open spec fn has_version_id(vs: Seq<VersionView>, id: Seq<char>) -> bool {
    exists|i: int| 0 <= i < vs.len() && (#[trigger] vs[i]).id == id
}

/// Saves an edited instance: the trimmed name must not be empty nor taken
/// by another instance, the version and HOME must exist, and the instance
/// must exist. The stored icon and port are kept (they have their own
/// commands); everything else comes from `input`.
pub fn update_instance(cfg: &mut Config, input: DshInstance) -> (r: Result<DshInstance, String>)
    ensures
        ({
            let c = old(cfg)@;
            let name = trim(input@.name);
            let k = instance_index(c.instances, input@.id);
            &&& name.len() == 0 ==> (r matches Err(e) && e@ == "实例名称不能为空"@)
            &&& name.len() > 0 && name_taken(c.instances, name, input@.id) ==> (r matches Err(e)
                && e@ == "同名实例已存在"@)
            &&& name.len() > 0 && !name_taken(c.instances, name, input@.id) && !has_version_id(
                c.versions,
                input@.version_id,
            ) ==> (r matches Err(e) && e@ == "DSH 版本不存在"@)
            &&& name.len() > 0 && !name_taken(c.instances, name, input@.id) && has_version_id(
                c.versions,
                input@.version_id,
            ) && !has_home(c.homes, input@.home_id) ==> (r matches Err(e) && e@
                == "DSH_HOME 不存在"@)
            &&& name.len() > 0 && !name_taken(c.instances, name, input@.id) && has_version_id(
                c.versions,
                input@.version_id,
            ) && has_home(c.homes, input@.home_id) && k < 0 ==> (r matches Err(e) && e@
                == "实例不存在"@)
            &&& r is Err ==> final(cfg)@ == c
            &&& r matches Ok(u) ==> {
                &&& u@ == (InstanceView {
                    name,
                    icon: c.instances[k].icon,
                    port: c.instances[k].port,
                    ..input@
                })
                &&& final(cfg)@ == (ConfigView { instances: c.instances.update(k, u@), ..c })
            }
        }),
{
    let n = trim_vec(&chars_of(input.name.as_str()));
    if n.len() == 0 {
        return Err(String::from_str("实例名称不能为空"));
    }
    let name = string_of(&n);
    let mut k: usize = 0;
    while k < cfg.instances.len()
        invariant
            k <= cfg.instances.len(),
            cfg@ == old(cfg)@,
            name@ == trim(input@.name),
            name@.len() > 0,
            forall|i: int|
                0 <= i < k ==> !(instances_view(cfg.instances@)[i].name == name@ && instances_view(
                    cfg.instances@,
                )[i].id != input@.id),
        decreases cfg.instances.len() - k,
    {
        if cfg.instances[k].name == name && cfg.instances[k].id != input.id {
            assert(instances_view(cfg.instances@)[k as int].name == name@);
            assert(instances_view(cfg.instances@)[k as int].id != input@.id);
            assert(name_taken(cfg@.instances, name@, input@.id));
            return Err(String::from_str("同名实例已存在"));
        }
        k = k + 1;
    }
    assert(!name_taken(cfg@.instances, name@, input@.id));
    match find_version_by_id(&cfg.versions, input.version_id.as_str()) {
        Some(_) => {
            proof {
                lemma_version_id_index(cfg@.versions, input@.version_id);
            }
        },
        None => {
            proof {
                if has_version_id(cfg@.versions, input@.version_id) {
                    let i = choose|i: int|
                        0 <= i < cfg@.versions.len() && (#[trigger] cfg@.versions[i]).id
                            == input@.version_id;
                    lemma_version_id_absent(cfg@.versions, input@.version_id, i);
                }
            }
            return Err(String::from_str("DSH 版本不存在"));
        },
    }
    match find_home(&cfg.homes, input.home_id.as_str()) {
        Some(_) => {
            proof {
                lemma_home_index(cfg@.homes, input@.home_id);
            }
        },
        None => {
            proof {
                if has_home(cfg@.homes, input@.home_id) {
                    let i = choose|i: int|
                        0 <= i < cfg@.homes.len() && (#[trigger] cfg@.homes[i]).id
                            == input@.home_id;
                    lemma_home_absent(cfg@.homes, input@.home_id, i);
                }
            }
            return Err(String::from_str("DSH_HOME 不存在"));
        },
    }
    let pos = match find_instance(&cfg.instances, input.id.as_str()) {
        Some(p) => p,
        None => return Err(String::from_str("实例不存在")),
    };
    proof {
        lemma_instance_index(cfg@.instances, input@.id);
    }
    let mut updated = input;
    updated.name = name;
    updated.icon = crate::config::copy_opt_string(&cfg.instances[pos].icon);
    updated.port = cfg.instances[pos].port;
    let ghost before = cfg.instances@;
    cfg.instances.set(pos, updated.copy());
    assert(instances_view(cfg.instances@) =~= instances_view(before).update(
        pos as int,
        updated@,
    ));
    Ok(updated)
}

proof fn lemma_version_id_absent(vs: Seq<VersionView>, id: Seq<char>, i: int)
    requires
        0 <= i < vs.len(),
        vs[i].id == id,
    ensures
        version_id_index(vs, id) >= 0,
    decreases vs.len(),
{
    if i < vs.len() - 1 {
        assert(vs.drop_last()[i] == vs[i]);
        lemma_version_id_absent(vs.drop_last(), id, i);
    }
}

proof fn lemma_home_absent(hs: Seq<HomeView>, id: Seq<char>, i: int)
    requires
        0 <= i < hs.len(),
        hs[i].id == id,
    ensures
        home_index(hs, id) >= 0,
    decreases hs.len(),
{
    if i < hs.len() - 1 {
        assert(hs.drop_last()[i] == hs[i]);
        lemma_home_absent(hs.drop_last(), id, i);
    }
}

/// The stored form of a requested web port: 1–65535 pins it; anything else
/// (empty, 0, negative, too large) means a random port (`None`).
pub open spec fn port_setting(port: Option<i64>) -> Option<u16> {
    match port {
        Some(p) => if 1 <= p <= 65535 {
            Some(p as u16)
        } else {
            None
        },
        None => None,
    }
}

/// The stored form of a requested web port (see [`port_setting`]).
pub fn normalize_port(port: Option<i64>) -> (r: Option<u16>)
    ensures
        r == port_setting(port),
{
    match port {
        Some(p) => {
            if 1 <= p && p <= 65535 {
                Some(p as u16)
            } else {
                None
            }
        },
        None => None,
    }
}

/// Sets an instance's preferred web port (see [`port_setting`]); refused for
/// an unknown instance.
pub fn set_instance_port(cfg: &mut Config, instance_id: &str, port: Option<i64>) -> (r: Result<
    DshInstance,
    String,
>)
    ensures
        ({
            let c = old(cfg)@;
            let k = instance_index(c.instances, instance_id@);
            &&& k < 0 ==> (r matches Err(e) && e@ == "实例不存在"@) && final(cfg)@ == c
            &&& k >= 0 ==> (r matches Ok(u) && u@ == (InstanceView {
                port: port_setting(port),
                ..c.instances[k]
            }) && final(cfg)@ == (ConfigView { instances: c.instances.update(k, u@), ..c }))
        }),
{
    let p = normalize_port(port);
    let k = match find_instance(&cfg.instances, instance_id) {
        Some(k) => k,
        None => return Err(String::from_str("实例不存在")),
    };
    proof {
        lemma_instance_index(cfg@.instances, instance_id@);
    }
    let mut inst = cfg.instances[k].copy();
    inst.port = p;
    let ghost before = cfg.instances@;
    cfg.instances.set(k, inst.copy());
    assert(instances_view(cfg.instances@) =~= instances_view(before).update(k as int, inst@));
    Ok(inst)
}

/// Remembers the profile an instance was last started with.
pub fn set_last_profile(cfg: &mut Config, instance_id: &str, profile: String)
    ensures
        ({
            let c = old(cfg)@;
            let k = instance_index(c.instances, instance_id@);
            &&& k < 0 ==> final(cfg)@ == c
            &&& k >= 0 ==> final(cfg)@ == (ConfigView {
                instances: c.instances.update(
                    k,
                    InstanceView { last_profile: Some(profile@), ..c.instances[k] },
                ),
                ..c
            })
        }),
{
    match find_instance(&cfg.instances, instance_id) {
        Some(k) => {
            proof {
                lemma_instance_index(cfg@.instances, instance_id@);
            }
            let mut inst = cfg.instances[k].copy();
            inst.last_profile = Some(profile);
            let ghost before = cfg.instances@;
            cfg.instances.set(k, inst.copy());
            assert(instances_view(cfg.instances@) =~= instances_view(before).update(
                k as int,
                inst@,
            ));
        },
        None => {},
    }
}

/// The HOME path, version directory and version string of an instance.
pub fn resolve_instance_paths(cfg: &Config, instance_id: &str) -> (r: Result<
    (String, String, String),
    String,
>)
    ensures
        ({
            let c = cfg@;
            let k = instance_index(c.instances, instance_id@);
            let h = if k >= 0 {
                home_index(c.homes, c.instances[k].home_id)
            } else {
                -1
            };
            let v = if k >= 0 {
                version_id_index(c.versions, c.instances[k].version_id)
            } else {
                -1
            };
            &&& k < 0 ==> (r matches Err(e) && e@ == "实例不存在"@)
            &&& k >= 0 && h < 0 ==> (r matches Err(e) && e@ == "DSH_HOME 不存在"@)
            &&& k >= 0 && h >= 0 && v < 0 ==> (r matches Err(e) && e@ == "版本不存在"@)
            &&& k >= 0 && h >= 0 && v >= 0 ==> (r matches Ok(t) && t.0@ == c.homes[h].path && t.1@
                == c.versions[v].dir && t.2@ == c.versions[v].version)
        }),
{
    let k = match find_instance(&cfg.instances, instance_id) {
        Some(k) => k,
        None => return Err(String::from_str("实例不存在")),
    };
    proof {
        lemma_instance_index(cfg@.instances, instance_id@);
    }
    let h = match find_home(&cfg.homes, cfg.instances[k].home_id.as_str()) {
        Some(h) => h,
        None => return Err(String::from_str("DSH_HOME 不存在")),
    };
    proof {
        lemma_home_index(cfg@.homes, cfg@.instances[k as int].home_id);
    }
    let v = match find_version_by_id(&cfg.versions, cfg.instances[k].version_id.as_str()) {
        Some(v) => v,
        None => return Err(String::from_str("版本不存在")),
    };
    proof {
        lemma_version_id_index(cfg@.versions, cfg@.instances[k as int].version_id);
    }
    Ok((cfg.homes[h].path.clone(), cfg.versions[v].dir.clone(), cfg.versions[v].version.clone()))
}


// ---------------------------------------------------------------------------
// Profiles
// ---------------------------------------------------------------------------

/// An instance after its HOME's profile `old` was renamed to `new`: its
/// default and last profile follow the rename.
pub open spec fn renamed_refs(i: InstanceView, home_id: Seq<char>, old: Seq<char>, new: Seq<char>) -> InstanceView {
    if i.home_id != home_id {
        i
    } else {
        InstanceView {
            default_profile: if i.default_profile == Some(old) {
                Some(new)
            } else {
                i.default_profile
            },
            last_profile: if i.last_profile == Some(old) {
                Some(new)
            } else {
                i.last_profile
            },
            ..i
        }
    }
}

/// An instance after its HOME's profile `name` was deleted: references to
/// it are cleared.
pub open spec fn cleared_refs(i: InstanceView, home_id: Seq<char>, name: Seq<char>) -> InstanceView {
    if i.home_id != home_id {
        i
    } else {
        InstanceView {
            default_profile: if i.default_profile == Some(name) {
                None
            } else {
                i.default_profile
            },
            last_profile: if i.last_profile == Some(name) {
                None
            } else {
                i.last_profile
            },
            ..i
        }
    }
}

fn opt_is(o: &Option<String>, s: &str) -> (r: bool)
    ensures
        r == (opt_view(*o) == Some(s@)),
{
    match o {
        Some(x) => vec_eq(&chars_of(x.as_str()), &chars_of(s)),
        None => false,
    }
}

/// Keeps the instances' default/last profile references in sync with a
/// profile renamed in HOME `home_id`.
pub fn rename_profile_refs(cfg: &mut Config, home_id: &str, old_name: &str, new_name: &str)
    ensures
        final(cfg)@ == (ConfigView {
            instances: old(cfg)@.instances.map_values(
                |i: InstanceView| renamed_refs(i, home_id@, old_name@, new_name@),
            ),
            ..old(cfg)@
        }),
{
    let ghost c0 = cfg@;
    let key = String::from_str(home_id);
    let mut k: usize = 0;
    while k < cfg.instances.len()
        invariant
            k <= cfg.instances.len(),
            key@ == home_id@,
            cfg@.homes == c0.homes,
            cfg@.versions == c0.versions,
            cfg@.settings == c0.settings,
            cfg@.instances.len() == c0.instances.len(),
            forall|i: int|
                0 <= i < k ==> cfg@.instances[i] == renamed_refs(
                    c0.instances[i],
                    home_id@,
                    old_name@,
                    new_name@,
                ),
            forall|i: int| k <= i < cfg@.instances.len() ==> cfg@.instances[i] == c0.instances[i],
        decreases cfg.instances.len() - k,
    {
        if cfg.instances[k].home_id == key {
            let mut inst = cfg.instances[k].copy();
            if opt_is(&inst.default_profile, old_name) {
                inst.default_profile = Some(String::from_str(new_name));
            }
            if opt_is(&inst.last_profile, old_name) {
                inst.last_profile = Some(String::from_str(new_name));
            }
            let ghost before = cfg.instances@;
            cfg.instances.set(k, inst);
            assert(instances_view(cfg.instances@) =~= instances_view(before).update(
                k as int,
                renamed_refs(c0.instances[k as int], home_id@, old_name@, new_name@),
            ));
        }
        k = k + 1;
    }
    assert(cfg@.instances =~= c0.instances.map_values(
        |i: InstanceView| renamed_refs(i, home_id@, old_name@, new_name@),
    ));
}

/// Clears the instances' default/last profile references to a profile
/// deleted from HOME `home_id`.
pub fn clear_profile_refs(cfg: &mut Config, home_id: &str, name: &str)
    ensures
        final(cfg)@ == (ConfigView {
            instances: old(cfg)@.instances.map_values(
                |i: InstanceView| cleared_refs(i, home_id@, name@),
            ),
            ..old(cfg)@
        }),
{
    let ghost c0 = cfg@;
    let key = String::from_str(home_id);
    let mut k: usize = 0;
    while k < cfg.instances.len()
        invariant
            k <= cfg.instances.len(),
            key@ == home_id@,
            cfg@.homes == c0.homes,
            cfg@.versions == c0.versions,
            cfg@.settings == c0.settings,
            cfg@.instances.len() == c0.instances.len(),
            forall|i: int|
                0 <= i < k ==> cfg@.instances[i] == cleared_refs(c0.instances[i], home_id@, name@),
            forall|i: int| k <= i < cfg@.instances.len() ==> cfg@.instances[i] == c0.instances[i],
        decreases cfg.instances.len() - k,
    {
        if cfg.instances[k].home_id == key {
            let mut inst = cfg.instances[k].copy();
            if opt_is(&inst.default_profile, name) {
                inst.default_profile = None;
            }
            if opt_is(&inst.last_profile, name) {
                inst.last_profile = None;
            }
            let ghost before = cfg.instances@;
            cfg.instances.set(k, inst);
            assert(instances_view(cfg.instances@) =~= instances_view(before).update(
                k as int,
                cleared_refs(c0.instances[k as int], home_id@, name@),
            ));
        }
        k = k + 1;
    }
    assert(cfg@.instances =~= c0.instances.map_values(
        |i: InstanceView| cleared_refs(i, home_id@, name@),
    ));
}

/// The error for a profile that does not exist.
pub fn profile_missing_error(name: &str) -> (r: String)
    ensures
        r@ == "Profile「"@ + name@ + "」不存在"@,
{
    crate::plugins::missing_profile_error(name)
}

/// The error for a profile name already taken.
pub fn profile_exists_error(name: &str) -> (r: String)
    ensures
        r@ == "Profile「"@ + name@ + "」已存在"@,
{
    let mut m = chars_of("Profile「");
    append_vec(&mut m, &chars_of(name));
    append_vec(&mut m, &chars_of("」已存在"));
    string_of(&m)
}

/// Whether a profile may be deleted: the template and `node_modules` are
/// reserved.
pub fn delete_profile_check(name: &str) -> (r: Result<(), String>)
    ensures
        (name@ == "__temp__"@ || name@ == "node_modules"@) ==> (r matches Err(e) && e@ == "「"@
            + name@ + "」为保留名称，不能删除"@),
        !(name@ == "__temp__"@ || name@ == "node_modules"@) ==> r is Ok,
{
    let n = chars_of(name);
    if vec_eq(&n, &chars_of("__temp__")) || vec_eq(&n, &chars_of("node_modules")) {
        let mut m = chars_of("「");
        append_vec(&mut m, &n);
        append_vec(&mut m, &chars_of("」为保留名称，不能删除"));
        return Err(string_of(&m));
    }
    Ok(())
}

/// The profiles of a HOME from its `profiles/` entries (name, is a
/// directory): directories other than the template and `node_modules`, in
/// string order.
pub fn list_profiles(entries: &Vec<(String, bool)>) -> (r: Vec<String>)
    ensures
        crate::order::sorted(view_strings(r@)),
        view_strings(r@).to_multiset() == profile_names(entries@).to_multiset(),
{
    let ghost es = entries@;
    let mut out: Vec<String> = Vec::new();
    let mut k: usize = 0;
    assert(profile_names(es.take(0)) =~= Seq::<Seq<char>>::empty());
    assert(view_strings(out@) =~= Seq::<Seq<char>>::empty());
    while k < entries.len()
        invariant
            k <= entries.len(),
            es == entries@,
            crate::order::sorted(view_strings(out@)),
            view_strings(out@).to_multiset() == profile_names(es.take(k as int)).to_multiset(),
        decreases entries.len() - k,
    {
        assert(es.take(k + 1).drop_last() =~= es.take(k as int));
        assert(es.take(k + 1).last() == es[k as int]);
        let name = &entries[k].0;
        let skip = vec_eq(&chars_of(name.as_str()), &chars_of("node_modules")) || vec_eq(
            &chars_of(name.as_str()),
            &chars_of("__temp__"),
        );
        if !skip && entries[k].1 {
            crate::order::insert_sorted(&mut out, name.clone());
            proof {
                broadcast use vstd::seq_lib::to_multiset_build;
            }
        }
        k = k + 1;
    }
    assert(es.take(entries.len() as int) =~= es);
    out
}

/// The profile directory names among the entries, in order.
pub open spec fn profile_names(es: Seq<(String, bool)>) -> Seq<Seq<char>>
    decreases es.len(),
{
    if es.len() == 0 {
        seq![]
    } else {
        let n = es.last().0@;
        if n != "node_modules"@ && n != "__temp__"@ && es.last().1 {
            profile_names(es.drop_last()).push(n)
        } else {
            profile_names(es.drop_last())
        }
    }
}

/// Where a new profile's template comes from.
#[derive(Clone, Copy, Debug, PartialEq, Eq, Structural)]
pub enum TemplateSource {
    /// The HOME's own `profiles/__temp__`.
    OwnTemplate,
    /// Copy the HOME's `web` profile to `__temp__` (port pin scrubbed) first.
    FromWebProfile,
    /// Look for a `__temp__` in the launcher's dedicated HOMEs.
    DedicatedHomes,
}

/// The template a new profile is copied from: never the user's default
/// `~/.dsh` (its `__temp__` is never created or overwritten), otherwise the
/// HOME's own template, else its `web` profile, else a dedicated HOME's.
pub fn template_source(is_user_default: bool, temp_is_dir: bool, web_is_dir: bool) -> (r:
    TemplateSource)
    ensures
        r == (if !is_user_default && temp_is_dir {
            TemplateSource::OwnTemplate
        } else if !is_user_default && web_is_dir {
            TemplateSource::FromWebProfile
        } else {
            TemplateSource::DedicatedHomes
        }),
{
    if !is_user_default && temp_is_dir {
        TemplateSource::OwnTemplate
    } else if !is_user_default && web_is_dir {
        TemplateSource::FromWebProfile
    } else {
        TemplateSource::DedicatedHomes
    }
}

/// Path equality as `Path`'s `==` decides it (component by component).
pub uninterp spec fn same_components(a: Seq<char>, b: Seq<char>) -> bool;

/// `Path::new(a) == Path::new(b)`: compares the two paths component by
/// component.
#[verifier::external_body]
fn path_eq(a: &str, b: &str) -> (r: bool)
    ensures
        r == same_components(a@, b@),
{
    std::path::Path::new(a) == std::path::Path::new(b)
}

/// Whether a HOME is the user's default `~/.dsh`: the record the launcher
/// adds for it, or a record whose path is `$HOME/.dsh` (`home` is `$HOME`).
pub fn is_user_default_home(home_id: &str, home_path: &str, home: Option<String>) -> (r: bool)
    ensures
        r == (home_id@ == "home-user-dsh"@ || (home matches Some(h) && same_components(
            home_path@,
            path_join(h@, ".dsh"@),
        ))),
{
    if vec_eq(&chars_of(home_id), &chars_of("home-user-dsh")) {
        return true;
    }
    match home {
        Some(h) => {
            let d = join_path(h.as_str(), ".dsh");
            path_eq(home_path, d.as_str())
        },
        None => false,
    }
}

// ---------------------------------------------------------------------------
// Settings
// ---------------------------------------------------------------------------

/// The autostart state to switch the OS registration to, when the patch
/// changes it.
pub fn autostart_change(settings: &LauncherSettings, patch: &SettingsPatch) -> (r: Option<bool>)
    ensures
        r == (match patch.autostart {
            Some(v) => if v != settings.autostart {
                Some(v)
            } else {
                None
            },
            None => None,
        }),
{
    match patch.autostart {
        Some(v) => {
            if v != settings.autostart {
                Some(v)
            } else {
                None
            }
        },
        None => None,
    }
}

/// A log level name the runtime log accepts: `debug`, `info`, `warn` or
/// `error`, compared trimmed and without ASCII case.
pub open spec fn log_level_name(v: Seq<char>) -> Option<Seq<char>> {
    let n = crate::process::ascii_lowercase(trim(v));
    if n == "debug"@ || n == "info"@ || n == "warn"@ || n == "error"@ {
        Some(n)
    } else {
        None
    }
}

/// The log levels the runtime accepts are `debug`, `info` (the default),
/// `warn` and `error`: any ASCII-case spelling of one of them, with any
/// whitespace around it, is accepted and stored as the lowercase name.
pub proof fn lemma_log_level_spellings(w1: Seq<char>, s: Seq<char>, w2: Seq<char>)
    requires
        crate::text::all_ws(w1),
        crate::text::all_ws(w2),
        ({
            let n = crate::process::ascii_lowercase(s);
            n == "debug"@ || n == "info"@ || n == "warn"@ || n == "error"@
        }),
    ensures
        log_level_name(w1 + s + w2) == Some(crate::process::ascii_lowercase(s)),
{
    reveal_strlit("debug");
    reveal_strlit("info");
    reveal_strlit("warn");
    reveal_strlit("error");
    let n = crate::process::ascii_lowercase(s);
    assert(s.len() == n.len() && n.len() > 0);
    assert(crate::process::ascii_lower(s[0]) == n[0]);
    assert(crate::process::ascii_lower(s.last()) == n[n.len() - 1]);
    assert(!crate::text::is_ws(s[0]));
    assert(!crate::text::is_ws(s.last()));
    let x = w1 + s + w2;
    assert(x.take(w1.len() as int) =~= w1);
    crate::text::lemma_trim_start_skip(x, w1.len() as int);
    assert(x.skip(w1.len() as int) =~= s + w2);
    crate::text::lemma_trim_start_stop(s + w2);
    assert((s + w2).skip(s.len() as int) =~= w2);
    crate::text::lemma_trim_end_take(s + w2, s.len() as int);
    assert((s + w2).take(s.len() as int) =~= s);
    crate::text::lemma_trim_end_stop(s);
    assert(trim(x) == s);
}

/// What a log level is stored as is one of the four names, and is accepted
/// again as itself.
pub proof fn lemma_log_level_stored(v: Seq<char>)
    ensures
        log_level_name(v) matches Some(n) ==> (n == "debug"@ || n == "info"@ || n == "warn"@ || n
            == "error"@) && log_level_name(n) == Some(n),
{
    if let Some(n) = log_level_name(v) {
        reveal_strlit("debug");
        reveal_strlit("info");
        reveal_strlit("warn");
        reveal_strlit("error");
        assert(crate::process::ascii_lowercase(n) =~= n);
        let e = Seq::<char>::empty();
        lemma_log_level_spellings(e, n, e);
        assert(e + n + e =~= n);
    }
}

/// The stored form of a log level, if it is one (see [`log_level_name`]).
pub fn parse_log_level(v: &str) -> (r: Option<String>)
    ensures
        opt_view(r) == log_level_name(v@),
{
    let t = trim_vec(&chars_of(v));
    let mut low: Vec<char> = Vec::new();
    let mut k: usize = 0;
    while k < t.len()
        invariant
            k <= t.len(),
            low@ == crate::process::ascii_lowercase(t@.take(k as int)),
        decreases t.len() - k,
    {
        low.push(crate::process::ascii_lower_exec(t[k]));
        assert(low@ =~= crate::process::ascii_lowercase(t@.take(k + 1)));
        k = k + 1;
    }
    assert(t@.take(t.len() as int) =~= t@);
    if vec_eq(&low, &chars_of("debug")) || vec_eq(&low, &chars_of("info")) || vec_eq(
        &low,
        &chars_of("warn"),
    ) || vec_eq(&low, &chars_of("error")) {
        Some(string_of(&low))
    } else {
        None
    }
}

/// The stored proxy URL for a submitted one: trimmed, without trailing
/// `/`; `None` keeps the current URL (blank submission).
pub open spec fn proxy_url_setting(v: Seq<char>) -> Option<Seq<char>> {
    let u = crate::text::trim_end_char(trim(v), '/');
    if u.len() == 0 {
        None
    } else {
        Some(u)
    }
}

/// The settings after the fields a patch sets before the autostart switch:
/// locale and tray behaviour.
pub open spec fn patch_front(s: SettingsView, patch: SettingsPatch) -> SettingsView {
    SettingsView {
        locale: match patch.locale {
            Some(v) => v@,
            None => s.locale,
        },
        minimize_to_tray: match patch.minimize_to_tray {
            Some(v) => v,
            None => s.minimize_to_tray,
        },
        ..s
    }
}

/// The settings after the autostart switch (its registration succeeded)
/// and the last used instance.
pub open spec fn patch_middle(s: SettingsView, patch: SettingsPatch) -> SettingsView {
    SettingsView {
        autostart: match patch.autostart {
            Some(v) => v,
            None => s.autostart,
        },
        last_instance_id: match patch.last_instance_id {
            Some(v) => Some(v@),
            None => s.last_instance_id,
        },
        ..s
    }
}

/// Whether a patch's theme, if it has one, is `light`, `dark` or `system`.
pub open spec fn theme_ok(patch: SettingsPatch) -> bool {
    patch.theme matches Some(t) ==> (t@ == "light"@ || t@ == "dark"@ || t@ == "system"@)
}

/// Whether a patch's log level, if it has one, is a known level.
pub open spec fn level_ok(patch: SettingsPatch) -> bool {
    patch.log_level matches Some(l) ==> log_level_name(l@) is Some
}

/// Whether a patch's terminal, if it has one, is `system` or `ghostty`.
pub open spec fn terminal_ok(patch: SettingsPatch) -> bool {
    patch.terminal matches Some(t) ==> (t@ == "system"@ || t@ == "ghostty"@)
}

/// Whether every checked field of a patch is acceptable.
pub open spec fn patch_valid(patch: SettingsPatch) -> bool {
    theme_ok(patch) && level_ok(patch) && terminal_ok(patch)
}

/// The settings with the patch's theme and log level (both acceptable).
pub open spec fn patch_style(s: SettingsView, patch: SettingsPatch) -> SettingsView {
    SettingsView {
        theme: match patch.theme {
            Some(t) => t@,
            None => s.theme,
        },
        log_level: match patch.log_level {
            Some(l) => log_level_name(l@)->0,
            None => s.log_level,
        },
        ..s
    }
}

/// The settings with the patch's proxy fields: the switch, the URL (see
/// [`proxy_url_setting`]), the port, the trimmed bypass list and the DSH
/// switch.
pub open spec fn patch_proxy(s: SettingsView, patch: SettingsPatch) -> SettingsView {
    SettingsView {
        proxy_enabled: match patch.proxy_enabled {
            Some(v) => v,
            None => s.proxy_enabled,
        },
        proxy_url: match patch.proxy_url {
            Some(u) => match proxy_url_setting(u@) {
                Some(x) => x,
                None => s.proxy_url,
            },
            None => s.proxy_url,
        },
        proxy_port: match patch.proxy_port {
            Some(p) => p,
            None => s.proxy_port,
        },
        no_proxy: match patch.no_proxy {
            Some(n) => trim(n@),
            None => s.no_proxy,
        },
        proxy_apply_dsh: match patch.proxy_apply_dsh {
            Some(v) => v,
            None => s.proxy_apply_dsh,
        },
        ..s
    }
}

/// The settings with the patch's terminal.
pub open spec fn patch_terminal(s: SettingsView, patch: SettingsPatch) -> SettingsView {
    SettingsView {
        terminal: match patch.terminal {
            Some(t) => t@,
            None => s.terminal,
        },
        ..s
    }
}

/// The settings after the remaining fields of a valid patch.
pub open spec fn patch_back(s: SettingsView, patch: SettingsPatch) -> SettingsView {
    patch_terminal(patch_proxy(patch_style(s, patch), patch), patch)
}

/// What a refused patch leaves of the remaining fields: the fields before
/// the first refused one stay applied.
pub open spec fn patch_partial(s: SettingsView, patch: SettingsPatch) -> SettingsView {
    if !theme_ok(patch) {
        s
    } else if !level_ok(patch) {
        SettingsView {
            theme: match patch.theme {
                Some(t) => t@,
                None => s.theme,
            },
            ..s
        }
    } else {
        patch_proxy(patch_style(s, patch), patch)
    }
}

/// The first refusal among the checked fields, in order: theme, log level,
/// terminal.
pub open spec fn patch_error(patch: SettingsPatch) -> Option<Seq<char>> {
    if !theme_ok(patch) {
        Some("无效的主题: "@ + patch.theme->0@)
    } else if !level_ok(patch) {
        Some("无效的日志等级: "@ + patch.log_level->0@)
    } else if !terminal_ok(patch) {
        Some("无效的终端: "@ + patch.terminal->0@)
    } else {
        None
    }
}

fn apply_style(settings: &mut LauncherSettings, patch: &SettingsPatch) -> (r: Result<(), String>)
    ensures
        theme_ok(*patch) && level_ok(*patch) ==> r is Ok && final(settings)@ == patch_style(
            old(settings)@,
            *patch,
        ),
        !(theme_ok(*patch) && level_ok(*patch)) ==> (r matches Err(e) && Some(e@) == patch_error(
            *patch,
        )) && final(settings)@ == patch_partial(old(settings)@, *patch),
{
    if let Some(v) = &patch.theme {
        let c = chars_of(v.as_str());
        if vec_eq(&c, &chars_of("light")) || vec_eq(&c, &chars_of("dark")) || vec_eq(
            &c,
            &chars_of("system"),
        ) {
            settings.theme = v.clone();
        } else {
            return Err(cat("无效的主题: ", v.as_str()));
        }
    }
    if let Some(v) = &patch.log_level {
        match parse_log_level(v.as_str()) {
            Some(l) => {
                settings.log_level = l;
            },
            None => {
                return Err(cat("无效的日志等级: ", v.as_str()));
            },
        }
    }
    Ok(())
}

fn apply_proxy(settings: &mut LauncherSettings, patch: &SettingsPatch)
    ensures
        final(settings)@ == patch_proxy(old(settings)@, *patch),
{
    if let Some(v) = patch.proxy_enabled {
        settings.proxy_enabled = v;
    }
    if let Some(v) = &patch.proxy_url {
        let u = crate::text::trim_end_char_vec(&trim_vec(&chars_of(v.as_str())), '/');
        if u.len() > 0 {
            settings.proxy_url = string_of(&u);
        }
    }
    if let Some(v) = patch.proxy_port {
        settings.proxy_port = v;
    }
    if let Some(v) = &patch.no_proxy {
        settings.no_proxy = string_of(&trim_vec(&chars_of(v.as_str())));
    }
    if let Some(v) = patch.proxy_apply_dsh {
        settings.proxy_apply_dsh = v;
    }
}

fn apply_terminal(settings: &mut LauncherSettings, patch: &SettingsPatch) -> (r: Result<(), String>)
    ensures
        terminal_ok(*patch) ==> r is Ok && final(settings)@ == patch_terminal(old(settings)@, *patch),
        !terminal_ok(*patch) ==> (r matches Err(e) && e@ == "无效的终端: "@ + patch.terminal->0@)
            && final(settings)@ == old(settings)@,
{
    if let Some(v) = &patch.terminal {
        let c = chars_of(v.as_str());
        if vec_eq(&c, &chars_of("system")) || vec_eq(&c, &chars_of("ghostty")) {
            settings.terminal = v.clone();
        } else {
            return Err(cat("无效的终端: ", v.as_str()));
        }
    }
    Ok(())
}

fn apply_back(settings: &mut LauncherSettings, patch: &SettingsPatch) -> (r: Result<(), String>)
    ensures
        patch_valid(*patch) ==> r is Ok && final(settings)@ == patch_back(old(settings)@, *patch),
        !patch_valid(*patch) ==> (r matches Err(e) && Some(e@) == patch_error(*patch))
            && final(settings)@ == patch_partial(old(settings)@, *patch),
{
    match apply_style(settings, patch) {
        Ok(()) => {},
        Err(e) => {
            return Err(e);
        },
    }
    apply_proxy(settings, patch);
    apply_terminal(settings, patch)
}

/// The settings after a whole patch went through (autostart registration
/// and every checked field accepted).
pub open spec fn patch_applied(s: SettingsView, patch: SettingsPatch) -> SettingsView {
    patch_back(patch_middle(patch_front(s, patch), patch), patch)
}

/// Re-submitting a settings patch that went through changes nothing: the
/// autostart switch already has the requested state, so no registration is
/// attempted, and every field is already at the patched value.
pub proof fn lemma_settings_patch_idempotent(s: SettingsView, patch: SettingsPatch)
    requires
        patch_valid(patch),
    ensures
        patch.autostart matches Some(v) ==> patch_applied(s, patch).autostart == v,
        patch_applied(patch_applied(s, patch), patch) == patch_applied(s, patch),
{
}

/// Applies a settings patch, field by field in this order: locale, tray,
/// autostart (its OS registration result is `autostart`: on failure the
/// stored flag stays and the patch stops with the error), last instance,
/// then theme, log level, proxy switch, proxy URL, port, bypass list, proxy
/// for DSH and terminal (see [`patch_back`]); an invalid theme, log level or
/// terminal stops the patch with [`patch_error`].
pub fn apply_settings_patch(
    settings: &mut LauncherSettings,
    patch: SettingsPatch,
    autostart: Result<(), String>,
) -> (r: Result<(), String>)
    ensures
        ({
            let s1 = patch_front(old(settings)@, patch);
            let toggles = patch.autostart matches Some(v) && v != old(settings)@.autostart;
            &&& toggles && autostart is Err ==> (r matches Err(e) && e@ == "设置开机自启失败: "@
                + autostart->Err_0@) && final(settings)@ == s1
            &&& !(toggles && autostart is Err) && patch_valid(patch) ==> r is Ok
                && final(settings)@ == patch_applied(old(settings)@, patch)
            &&& !(toggles && autostart is Err) && !patch_valid(patch)
                ==> (r matches Err(e) && Some(e@) == patch_error(patch))
                && final(settings)@ == patch_partial(patch_middle(s1, patch), patch)
        }),
{
    if let Some(v) = &patch.locale {
        settings.locale = v.clone();
    }
    if let Some(v) = patch.minimize_to_tray {
        settings.minimize_to_tray = v;
    }
    if let Some(v) = patch.autostart {
        if v != settings.autostart {
            match &autostart {
                Ok(()) => {
                    settings.autostart = v;
                },
                Err(m) => {
                    return Err(cat("设置开机自启失败: ", m.as_str()));
                },
            }
        }
    }
    if let Some(v) = &patch.last_instance_id {
        settings.last_instance_id = Some(v.clone());
    }
    apply_back(settings, &patch)
}

// ---------------------------------------------------------------------------
// External links and terminals
// ---------------------------------------------------------------------------

/// The URL to open in the system browser: the trimmed input, which must be
/// an http(s) link.
pub fn external_url(url: &str) -> (r: Result<String, String>)
    ensures
        ({
            let u = trim(url@);
            &&& (starts_with(u, "https://"@) || starts_with(u, "http://"@)) ==> (r matches Ok(x)
                && x@ == u)
            &&& !(starts_with(u, "https://"@) || starts_with(u, "http://"@)) ==> (r matches Err(e)
                && e@ == "仅允许打开 http(s) 链接: "@ + u)
        }),
{
    let u = string_of(&trim_vec(&chars_of(url)));
    if str_starts_with(u.as_str(), "https://") || str_starts_with(u.as_str(), "http://") {
        Ok(u)
    } else {
        Err(cat("仅允许打开 http(s) 链接: ", u.as_str()))
    }
}

/// `v` single-quoted for `sh`: each `'` becomes `'\''`.
pub open spec fn shell_quoted(v: Seq<char>) -> Seq<char> {
    seq!['\''] + crate::text::replace_all(v, seq!['\''], "'\\''"@) + seq!['\'']
}

/// Single-quotes a value for `sh -c` / AppleScript `do script` embedding.
pub fn shell_quote(v: &str) -> (r: String)
    ensures
        r@ == shell_quoted(v@),
{
    proof {
        reveal_strlit("'");
        assert("'"@ =~= seq!['\'']);
    }
    let inner = crate::text::replace_str(v, "'", "'\\''");
    let mut m = chars_of("'");
    append_vec(&mut m, &chars_of(inner.as_str()));
    m.push('\'');
    string_of(&m)
}

/// The `export` lines of a terminal script.
pub open spec fn export_lines(env: Seq<(Seq<char>, Seq<char>)>) -> Seq<char>
    decreases env.len(),
{
    if env.len() == 0 {
        seq![]
    } else {
        export_lines(env.drop_last()) + "export "@ + env.last().0 + "="@ + shell_quoted(
            env.last().1,
        ) + "\n"@
    }
}

/// The shell script an instance terminal runs: the PATH prefix (when there
/// are directories to prepend), the exports, then `cd` into the HOME,
/// `clear`, and an interactive login shell.
pub open spec fn terminal_script_text(
    path_dirs: Seq<Seq<char>>,
    env: Seq<(Seq<char>, Seq<char>)>,
    home: Seq<char>,
    shell: Seq<char>,
) -> Seq<char> {
    "#!/bin/sh\n"@ + (if path_dirs.len() > 0 {
        "export PATH=\""@ + join(path_dirs, ":"@) + ":$PATH\"\n"@
    } else {
        seq![]
    }) + export_lines(env) + "cd "@ + shell_quoted(home) + "\nclear\nexec "@ + shell + " -l\n"@
}

/// Builds an instance terminal's script (see [`terminal_script_text`]).
pub fn terminal_script(
    path_dirs: &Vec<String>,
    env: &Vec<(String, String)>,
    home: &str,
    shell: &str,
) -> (r: String)
    ensures
        r@ == terminal_script_text(
            view_strings(path_dirs@),
            crate::config::pairs_view(env@),
            home@,
            shell@,
        ),
{
    let mut m = chars_of("#!/bin/sh\n");
    if path_dirs.len() > 0 {
        append_vec(&mut m, &chars_of("export PATH=\""));
        append_vec(&mut m, &chars_of(join_strings(path_dirs, ":").as_str()));
        append_vec(&mut m, &chars_of(":$PATH\"\n"));
    }
    let ghost head = m@;
    let ghost ev = crate::config::pairs_view(env@);
    let mut k: usize = 0;
    assert(ev.take(0) =~= Seq::<(Seq<char>, Seq<char>)>::empty());
    assert(head + export_lines(ev.take(0)) =~= head);
    while k < env.len()
        invariant
            k <= env.len(),
            ev == crate::config::pairs_view(env@),
            m@ == head + export_lines(ev.take(k as int)),
        decreases env.len() - k,
    {
        assert(ev.take(k + 1).drop_last() =~= ev.take(k as int));
        assert(ev.take(k + 1).last() == (env@[k as int].0@, env@[k as int].1@));
        let ghost before = m@;
        append_vec(&mut m, &chars_of("export "));
        append_vec(&mut m, &chars_of(env[k].0.as_str()));
        append_vec(&mut m, &chars_of("="));
        append_vec(&mut m, &chars_of(shell_quote(env[k].1.as_str()).as_str()));
        append_vec(&mut m, &chars_of("\n"));
        assert(m@ =~= head + export_lines(ev.take(k + 1)));
        k = k + 1;
    }
    assert(ev.take(env.len() as int) =~= ev);
    append_vec(&mut m, &chars_of("cd "));
    append_vec(&mut m, &chars_of(shell_quote(home).as_str()));
    append_vec(&mut m, &chars_of("\nclear\nexec "));
    append_vec(&mut m, &chars_of(shell));
    append_vec(&mut m, &chars_of(" -l\n"));
    string_of(&m)
}

/// A text as an AppleScript string literal holds it: backslashes and double
/// quotes escaped with a backslash.
pub open spec fn applescript_escaped(s: Seq<char>) -> Seq<char> {
    crate::text::replace_all(crate::text::replace_all(s, "\\"@, "\\\\"@), "\""@, "\\\""@)
}

/// The AppleScript that opens `script_path` in Terminal.app. A cold-started
/// Terminal always opens a default window, so on cold start the script
/// waits for that window (up to 2 s) and runs in it, instead of opening a
/// second one.
pub open spec fn terminal_applescript_of(script_path: Seq<char>) -> Seq<char> {
    let e = applescript_escaped(script_path);
    "tell application \"Terminal\"\nset wasRunning to running\nif not wasRunning then\nactivate\nrepeat 20 times\nif (count of windows) > 0 then exit repeat\ndelay 0.1\nend repeat\nif (count of windows) > 0 then\ndo script \"exec \\\""@
        + e + "\\\"\" in tab 1 of front window\nreturn\nend if\nend if\ndo script \"exec \\\""@ + e
        + "\\\"\"\nactivate\nend tell"@
}

/// The AppleScript that opens an instance's terminal script in Terminal.app
/// (see [`terminal_applescript_of`]).
pub fn terminal_applescript(script_path: &str) -> (r: String)
    ensures
        r@ == terminal_applescript_of(script_path@),
{
    proof {
        reveal_strlit("\\");
        reveal_strlit("\"");
    }
    let e1 = crate::text::replace_str(script_path, "\\", "\\\\");
    let e = crate::text::replace_str(e1.as_str(), "\"", "\\\"");
    let mut m = chars_of(
        "tell application \"Terminal\"\nset wasRunning to running\nif not wasRunning then\nactivate\nrepeat 20 times\nif (count of windows) > 0 then exit repeat\ndelay 0.1\nend repeat\nif (count of windows) > 0 then\ndo script \"exec \\\"",
    );
    append_vec(&mut m, &chars_of(e.as_str()));
    append_vec(
        &mut m,
        &chars_of("\\\"\" in tab 1 of front window\nreturn\nend if\nend if\ndo script \"exec \\\""),
    );
    append_vec(&mut m, &chars_of(e.as_str()));
    append_vec(&mut m, &chars_of("\\\"\"\nactivate\nend tell"));
    string_of(&m)
}

/// The label of an instance terminal: `DSH <name> (<home>)`.
pub fn terminal_label(name: &str, home: &str) -> (r: String)
    ensures
        r@ == "DSH "@ + name@ + " ("@ + home@ + ")"@,
{
    let mut m = chars_of("DSH ");
    append_vec(&mut m, &chars_of(name));
    append_vec(&mut m, &chars_of(" ("));
    append_vec(&mut m, &chars_of(home));
    append_vec(&mut m, &chars_of(")"));
    string_of(&m)
}

/// The script file of an instance terminal: `<data_dir>/scripts/term_<id>.sh`.
pub fn terminal_script_path(data_dir: &str, instance_id: &str) -> (r: String)
    ensures
        r@ == path_join(path_join(data_dir@, "scripts"@), "term_"@ + instance_id@ + ".sh"@),
{
    let dir = join_path(data_dir, "scripts");
    let mut f = chars_of("term_");
    append_vec(&mut f, &chars_of(instance_id));
    append_vec(&mut f, &chars_of(".sh"));
    join_path(dir.as_str(), string_of(&f).as_str())
}

// ---------------------------------------------------------------------------
// Remote versions
// ---------------------------------------------------------------------------

/// The version a GitHub release names, if it is an installable one: not a
/// draft, tagged `dsh-v<version>` with a valid version string.
pub fn github_release_version(draft: bool, tag: Option<String>) -> (r: Option<String>)
    ensures
        match tag {
            Some(t) => if !draft && starts_with(t@, "dsh-v"@) && crate::tasks::valid_version(
                t@.skip(5),
            ) {
                r matches Some(v) && v@ == t@.skip(5)
            } else {
                r is None
            },
            None => r is None,
        },
{
    if draft {
        return None;
    }
    let t = match tag {
        Some(t) => t,
        None => return None,
    };
    let c = chars_of(t.as_str());
    if !crate::text::starts_with_exec(&c, &chars_of("dsh-v")) {
        return None;
    }
    proof {
        reveal_strlit("dsh-v");
    }
    let v = string_of(&crate::text::slice_vec(&c, 5, c.len()));
    assert(v@ =~= t@.skip(5));
    if !crate::tasks::valid_version_string(v.as_str()) {
        return None;
    }
    Some(v)
}

/// A remote version record as plain values: version, release date, source.
pub open spec fn remote_view(r: RemoteVersion) -> (Seq<char>, Option<Seq<char>>, Option<Seq<char>>) {
    (r.version@, opt_view(r.released_at), opt_view(r.source))
}

pub open spec fn remotes_view(v: Seq<RemoteVersion>) -> Seq<
    (Seq<char>, Option<Seq<char>>, Option<Seq<char>>),
> {
    v.map_values(|r: RemoteVersion| remote_view(r))
}

/// Whether some record of `m` is for version `v`.
pub open spec fn lists_version(m: Seq<(Seq<char>, Option<Seq<char>>, Option<Seq<char>>)>, v: Seq<
    char,
>) -> bool {
    exists|i: int| 0 <= i < m.len() && (#[trigger] m[i]).0 == v
}

/// The versions offered: the registry's records, then each GitHub record
/// whose version is not listed yet, in order.
pub open spec fn merged_records(
    npm: Seq<(Seq<char>, Option<Seq<char>>, Option<Seq<char>>)>,
    github: Seq<(Seq<char>, Option<Seq<char>>, Option<Seq<char>>)>,
) -> Seq<(Seq<char>, Option<Seq<char>>, Option<Seq<char>>)>
    decreases github.len(),
{
    if github.len() == 0 {
        npm
    } else {
        let m = merged_records(npm, github.drop_last());
        if lists_version(m, github.last().0) {
            m
        } else {
            m.push(github.last())
        }
    }
}

/// The versions offered are exactly those of the registry and of GitHub:
/// the registry's records come first, unchanged; every record of the merge
/// is a registry or a GitHub record; and a version is listed in the merge
/// exactly when the registry or GitHub lists it, so every GitHub-only
/// version is offered.
pub proof fn lemma_merged_versions(
    npm: Seq<(Seq<char>, Option<Seq<char>>, Option<Seq<char>>)>,
    github: Seq<(Seq<char>, Option<Seq<char>>, Option<Seq<char>>)>,
)
    ensures
        merged_records(npm, github).take(npm.len() as int) == npm,
        forall|i: int|
            0 <= i < merged_records(npm, github).len() ==> npm.contains(
                #[trigger] merged_records(npm, github)[i],
            ) || github.contains(merged_records(npm, github)[i]),
        forall|v: Seq<char>|
            #[trigger] lists_version(merged_records(npm, github), v) == (lists_version(npm, v)
                || lists_version(github, v)),
        forall|i: int|
            0 <= i < github.len() ==> exists|j: int|
                0 <= j < merged_records(npm, github).len() && (#[trigger] merged_records(
                    npm,
                    github,
                )[j]).0 == (#[trigger] github[i]).0,
    decreases github.len(),
{
    lemma_merged_versions_listed(npm, github);
    let m = merged_records(npm, github);
    assert forall|i: int| 0 <= i < github.len() implies exists|j: int|
        0 <= j < m.len() && (#[trigger] m[j]).0 == (#[trigger] github[i]).0 by {
        assert(lists_version(github, github[i].0));
        assert(lists_version(m, github[i].0));
    }
}

/// The merge only adds versions the registry does not list, each once.
pub proof fn lemma_merged_adds_each_version_once(
    npm: Seq<(Seq<char>, Option<Seq<char>>, Option<Seq<char>>)>,
    github: Seq<(Seq<char>, Option<Seq<char>>, Option<Seq<char>>)>,
)
    ensures
        merged_records(npm, github).len() >= npm.len(),
        forall|i: int|
            npm.len() <= i < merged_records(npm, github).len() ==> forall|k: int|
                0 <= k < npm.len() ==> (#[trigger] npm[k]).0 != (
                #[trigger] merged_records(npm, github)[i]).0,
        forall|i: int, j: int|
            npm.len() <= i < j < merged_records(npm, github).len() ==> (
            #[trigger] merged_records(npm, github)[i]).0 != (#[trigger] merged_records(
                npm,
                github,
            )[j]).0,
    decreases github.len(),
{
    lemma_merged_len(npm, github);
    if github.len() > 0 {
        let g = github.drop_last();
        let x = github.last();
        lemma_merged_adds_each_version_once(npm, g);
        lemma_merged_versions_listed(npm, g);
        let m0 = merged_records(npm, g);
        let m = merged_records(npm, github);
        if !lists_version(m0, x.0) {
            assert(m == m0.push(x));
            assert forall|k: int| 0 <= k < npm.len() implies (#[trigger] npm[k]).0 != x.0 by {
                assert(m0.take(npm.len() as int)[k] == m0[k]);
                if npm[k].0 == x.0 {
                    assert(m0[k].0 == x.0);
                }
            }
            assert forall|i: int| npm.len() <= i < m.len() implies forall|k: int|
                0 <= k < npm.len() ==> (#[trigger] npm[k]).0 != (#[trigger] m[i]).0 by {
                if i < m0.len() {
                    assert(m[i] == m0[i]);
                } else {
                    assert(m[i] == x);
                }
            }
            assert forall|i: int, j: int| npm.len() <= i < j < m.len() implies (#[trigger] m[i]).0
                != (#[trigger] m[j]).0 by {
                assert(m[i] == m0[i]);
                if j < m0.len() {
                    assert(m[j] == m0[j]);
                } else {
                    assert(m[j] == x);
                    if m0[i].0 == x.0 {
                        assert(lists_version(m0, x.0));
                    }
                }
            }
        }
    }
}

proof fn lemma_merged_versions_listed(
    npm: Seq<(Seq<char>, Option<Seq<char>>, Option<Seq<char>>)>,
    github: Seq<(Seq<char>, Option<Seq<char>>, Option<Seq<char>>)>,
)
    ensures
        merged_records(npm, github).take(npm.len() as int) == npm,
        forall|i: int|
            0 <= i < merged_records(npm, github).len() ==> npm.contains(
                #[trigger] merged_records(npm, github)[i],
            ) || github.contains(merged_records(npm, github)[i]),
        forall|v: Seq<char>|
            #[trigger] lists_version(merged_records(npm, github), v) == (lists_version(npm, v)
                || lists_version(github, v)),
    decreases github.len(),
{
    let m = merged_records(npm, github);
    if github.len() == 0 {
        assert(m.take(npm.len() as int) =~= npm);
        assert forall|i: int| 0 <= i < m.len() implies npm.contains(#[trigger] m[i]) || github.contains(
            m[i],
        ) by {
            assert(npm[i] == m[i]);
        }
        assert forall|v: Seq<char>| #[trigger] lists_version(m, v) == (lists_version(npm, v)
            || lists_version(github, v)) by {}
    } else {
        let g = github.drop_last();
        let x = github.last();
        lemma_merged_versions_listed(npm, g);
        let m0 = merged_records(npm, g);
        assert(github[github.len() - 1] == x);
        assert forall|r| g.contains(r) implies github.contains(r) by {
            let k = choose|k: int| 0 <= k < g.len() && g[k] == r;
            assert(github[k] == g[k]);
        }
        assert forall|v: Seq<char>| #[trigger] lists_version(github, v) == (lists_version(g, v)
            || x.0 == v) by {
            if lists_version(github, v) {
                let k = choose|k: int| 0 <= k < github.len() && (#[trigger] github[k]).0 == v;
                if k < g.len() {
                    assert(g[k] == github[k]);
                }
            }
            if lists_version(g, v) {
                let k = choose|k: int| 0 <= k < g.len() && (#[trigger] g[k]).0 == v;
                assert(github[k] == g[k]);
            }
        }
        if lists_version(m0, x.0) {
            assert(m == m0);
            assert forall|v: Seq<char>| #[trigger] lists_version(m, v) == (lists_version(npm, v)
                || lists_version(github, v)) by {
                assert(lists_version(m0, v) == (lists_version(npm, v) || lists_version(g, v)));
                assert(lists_version(github, v) == (lists_version(g, v) || x.0 == v));
            }
            assert forall|i: int| 0 <= i < m.len() implies npm.contains(#[trigger] m[i])
                || github.contains(m[i]) by {
                if !npm.contains(m0[i]) {
                    assert(g.contains(m0[i]));
                }
            }
        } else {
            assert(m == m0.push(x));
            lemma_merged_len(npm, g);
            assert(m.take(npm.len() as int) =~= m0.take(npm.len() as int));
            assert forall|v: Seq<char>| #[trigger] lists_version(m, v) == (lists_version(m0, v)
                || x.0 == v) by {
                if lists_version(m, v) {
                    let k = choose|k: int| 0 <= k < m.len() && (#[trigger] m[k]).0 == v;
                    if k < m0.len() {
                        assert(m0[k] == m[k]);
                    }
                }
                if lists_version(m0, v) {
                    let k = choose|k: int| 0 <= k < m0.len() && (#[trigger] m0[k]).0 == v;
                    assert(m[k] == m0[k]);
                }
                if x.0 == v {
                    assert(m[m0.len() as int] == x);
                }
            }
            assert forall|v: Seq<char>| #[trigger] lists_version(m, v) == (lists_version(npm, v)
                || lists_version(github, v)) by {
                assert(lists_version(m0, v) == (lists_version(npm, v) || lists_version(g, v)));
                assert(lists_version(github, v) == (lists_version(g, v) || x.0 == v));
            }
            assert forall|i: int| 0 <= i < m.len() implies npm.contains(#[trigger] m[i])
                || github.contains(m[i]) by {
                if i < m0.len() {
                    assert(m[i] == m0[i]);
                    if !npm.contains(m0[i]) {
                        assert(g.contains(m0[i]));
                    }
                } else {
                    assert(m[i] == x);
                    assert(github[github.len() - 1] == x);
                }
            }
        }
    }
}

proof fn lemma_merged_len(
    npm: Seq<(Seq<char>, Option<Seq<char>>, Option<Seq<char>>)>,
    github: Seq<(Seq<char>, Option<Seq<char>>, Option<Seq<char>>)>,
)
    ensures
        merged_records(npm, github).len() >= npm.len(),
    decreases github.len(),
{
    if github.len() > 0 {
        lemma_merged_len(npm, github.drop_last());
    }
}

/// Merges GitHub-only versions into the registry's list (see
/// [`merged_records`]).
pub fn merge_remote_versions(npm: Vec<RemoteVersion>, github: Vec<RemoteVersion>) -> (r: Vec<
    RemoteVersion,
>)
    ensures
        remotes_view(r@) == merged_records(remotes_view(npm@), remotes_view(github@)),
{
    let ghost nv = remotes_view(npm@);
    let ghost gv = remotes_view(github@);
    let mut out = npm;
    let mut k: usize = 0;
    assert(gv.take(0) =~= Seq::<(Seq<char>, Option<Seq<char>>, Option<Seq<char>>)>::empty());
    while k < github.len()
        invariant
            k <= github.len(),
            gv == remotes_view(github@),
            remotes_view(out@) == merged_records(nv, gv.take(k as int)),
        decreases github.len() - k,
    {
        assert(gv.take(k + 1).drop_last() =~= gv.take(k as int));
        assert(gv.take(k + 1).last() == remote_view(github@[k as int]));
        let mut present = false;
        let mut j: usize = 0;
        while j < out.len()
            invariant
                j <= out.len(),
                k < github.len(),
                present == exists|i: int|
                    0 <= i < j && (#[trigger] remotes_view(out@)[i]).0 == github@[k as int].version@,
            decreases out.len() - j,
        {
            assert(remotes_view(out@)[j as int] == remote_view(out@[j as int]));
            if out[j].version == github[k].version {
                present = true;
            }
            j = j + 1;
        }
        assert(present == lists_version(remotes_view(out@), github@[k as int].version@));
        if !present {
            let r = RemoteVersion {
                version: github[k].version.clone(),
                released_at: crate::config::copy_opt_string(&github[k].released_at),
                source: crate::config::copy_opt_string(&github[k].source),
            };
            let ghost before = remotes_view(out@);
            assert(remote_view(r) == remote_view(github@[k as int]));
            out.push(r);
            assert(remotes_view(out@) =~= before.push(remote_view(github@[k as int])));
        }
        k = k + 1;
    }
    assert(gv.take(github.len() as int) =~= gv);
    out
}

/// The list of strings a JSON text holds, as `serde_json` reads it into a
/// `Vec<String>`; `None` when the text is not a JSON array of strings.
pub uninterp spec fn json_string_list(text: Seq<char>) -> Option<Seq<Seq<char>>>;

/// `serde_json::from_str::<Vec<String>>`: the list, or serde_json's error
/// message. The contract names the list ([`json_string_list`]) and states
/// that an error comes exactly when there is none; the error's wording is
/// serde_json's and is left unsaid.
#[verifier::external_body]
fn json_strings(text: &str) -> (r: Result<Vec<String>, String>)
    ensures
        match r {
            Ok(v) => json_string_list(text@) == Some(view_strings(v@)),
            Err(_) => json_string_list(text@) is None,
        },
{
    serde_json::from_str::<Vec<String>>(text).map_err(|e| e.to_string())
}

/// The version list of `npm view <pkg> versions --json`; refused, with
/// serde_json's reason, when the output is not a JSON array of strings.
pub fn parse_version_list(text: &str) -> (r: Result<Vec<String>, String>)
    ensures
        match r {
            Ok(v) => json_string_list(text@) == Some(view_strings(v@)),
            Err(m) => json_string_list(text@) is None && starts_with(m@, "解析版本列表失败: "@),
        },
{
    match json_strings(text) {
        Ok(v) => Ok(v),
        Err(e) => {
            let m = cat("解析版本列表失败: ", e.as_str());
            proof {
                let p = "解析版本列表失败: "@;
                assert(m@.take(p.len() as int) =~= p);
            }
            Err(m)
        },
    }
}

/// The registry's versions with their publish dates (`times` is npm's
/// `time` object).
pub fn npm_remote_versions(versions: &Vec<String>, times: &crate::json::Json) -> (r: Vec<
    RemoteVersion,
>)
    ensures
        r@.len() == versions@.len(),
        forall|i: int|
            0 <= i < r@.len() ==> (#[trigger] r@[i]).version@ == versions@[i]@ && opt_view(
                r@[i].released_at,
            ) == crate::json::as_text(crate::json::field(*times, versions@[i]@)) && r@[i].source
                is None,
{
    let mut out: Vec<RemoteVersion> = Vec::new();
    let mut k: usize = 0;
    while k < versions.len()
        invariant
            k <= versions.len(),
            out@.len() == k,
            forall|i: int|
                0 <= i < k ==> (#[trigger] out@[i]).version@ == versions@[i]@ && opt_view(
                    out@[i].released_at,
                ) == crate::json::as_text(crate::json::field(*times, versions@[i]@))
                    && out@[i].source is None,
        decreases versions.len() - k,
    {
        let at = crate::json::text_of(crate::json::get_field(times, versions[k].as_str()));
        out.push(RemoteVersion { version: versions[k].clone(), released_at: at, source: None });
        k = k + 1;
    }
    out
}

} // verus!
