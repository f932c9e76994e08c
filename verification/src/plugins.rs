//! The plugin registry: plugin manifests and the lifecycle of each plugin
//! (loaded, initialized, running, stopped, or failed).
use vstd::prelude::*;
use crate::error::{error_detail, error_prefix, NovaError, NovaResult};
use crate::ids::new_id;

verus! {

/// `serde_json::Value`, the type of a plugin setting. The registry carries the
/// values without reading them.
#[verifier::external_type_specification]
#[verifier::external_body]
pub struct ExJsonValue(serde_json::Value);

/// Where a plugin is in its lifecycle.
#[derive(Debug, Clone, PartialEq, Eq)]
pub enum PluginStatus {
    Loaded,
    Initialized,
    Running,
    Stopped,
    Error(String),
}

#[derive(Debug, Clone)]
pub struct PluginPermissions {
    pub resource_access: Vec<String>,
    pub event_access: Vec<String>,
    pub network_access: bool,
    pub file_system_access: bool,
}

/// A plugin's manifest.
#[derive(Debug, Clone)]
pub struct PluginConfig {
    pub name: String,
    pub version: String,
    pub author: String,
    pub description: String,
    pub dependencies: Vec<String>,
    pub permissions: PluginPermissions,
    pub settings: std::collections::HashMap<String, serde_json::Value>,
}

/// A registered plugin.
pub struct PluginRecord {
    pub id: u128,
    pub config: PluginConfig,
    pub status: PluginStatus,
    pub load_time: u64,
}

/// A plugin shipped with the engine, which only reports its identity.
pub struct SamplePlugin {
    pub name: String,
    pub version: String,
    pub description: String,
}

impl SamplePlugin {
    pub fn new(name: &str, version: &str, description: &str) -> (p: Self)
        ensures
            p.name@ == name@,
            p.version@ == version@,
            p.description@ == description@,
    {
        SamplePlugin {
            name: String::from_str(name),
            version: String::from_str(version),
            description: String::from_str(description),
        }
    }
}

/// Whether a plugin of that name is registered.
pub open spec fn has_plugin(rs: Seq<PluginRecord>, name: Seq<char>) -> bool {
    exists|i: int| 0 <= i < rs.len() && (#[trigger] rs[i]).config.name@ == name
}

/// The status a failed call leaves: the error as it is shown.
pub open spec fn failed_status(e: NovaError) -> Seq<char> {
    error_prefix(e) + error_detail(e)
}

/// The error of a missing plugin.
pub open spec fn plugin_error(r: NovaResult<()>, msg: Seq<char>) -> bool {
    r == Err::<(), NovaError>(NovaError::Plugin(r->Err_0->Plugin_0)) && r->Err_0->Plugin_0@ == msg
}

/// The records after the one at `i` gets the status `s`.
pub open spec fn with_status(rs: Seq<PluginRecord>, i: int, s: PluginStatus) -> Seq<PluginRecord> {
    rs.update(i, PluginRecord { status: s, ..rs[i] })
}

/// The plugin registry.
pub struct PluginManager {
    plugins: Vec<PluginRecord>,
    plugin_directory: String,
    auto_load: bool,
    hot_reload: bool,
    engine_version: String,
}

impl PluginManager {
    /// The registered plugins, in the order of their first registration.
    pub closed spec fn records(&self) -> Seq<PluginRecord> {
        self.plugins@
    }

    pub closed spec fn directory(&self) -> Seq<char> {
        self.plugin_directory@
    }

    pub closed spec fn auto_load_spec(&self) -> bool {
        self.auto_load
    }

    pub closed spec fn hot_reload_spec(&self) -> bool {
        self.hot_reload
    }

    pub closed spec fn engine_version_spec(&self) -> Seq<char> {
        self.engine_version@
    }

    /// Plugin names are unique.
    pub closed spec fn wf(&self) -> bool {
        forall|i: int, j: int|
            0 <= i < j < self.plugins@.len() ==> #[trigger] self.plugins@[i].config.name@
                != #[trigger] self.plugins@[j].config.name@
    }

    pub open spec fn same_settings(&self, other: &Self) -> bool {
        &&& self.directory() == other.directory()
        &&& self.auto_load_spec() == other.auto_load_spec()
        &&& self.hot_reload_spec() == other.hot_reload_spec()
        &&& self.engine_version_spec() == other.engine_version_spec()
    }

    pub fn new(plugin_directory: String, auto_load: bool, hot_reload: bool, engine_version: String) -> (m: Self)
        ensures
            m.wf(),
            m.records().len() == 0,
            m.directory() == plugin_directory@,
            m.auto_load_spec() == auto_load,
            m.hot_reload_spec() == hot_reload,
            m.engine_version_spec() == engine_version@,
    {
        PluginManager { plugins: Vec::new(), plugin_directory, auto_load, hot_reload, engine_version }
    }

    pub fn plugin_directory(&self) -> (d: &String)
        ensures
            d@ == self.directory(),
    {
        &self.plugin_directory
    }

    pub fn auto_load(&self) -> (b: bool)
        ensures
            b == self.auto_load_spec(),
    {
        self.auto_load
    }

    pub fn hot_reload(&self) -> (b: bool)
        ensures
            b == self.hot_reload_spec(),
    {
        self.hot_reload
    }

    pub fn engine_version(&self) -> (v: &String)
        ensures
            v@ == self.engine_version_spec(),
    {
        &self.engine_version
    }

    /// The index of the plugin with that name.
    fn position(&self, name: &str) -> (r: Option<usize>)
        requires
            self.wf(),
        ensures
            match r {
                Some(i) => i < self.plugins@.len() && self.plugins@[i as int].config.name@ == name@,
                None => !has_plugin(self.plugins@, name@),
            },
    {
        let key = String::from_str(name);
        let mut i: usize = 0;
        while i < self.plugins.len()
            invariant
                i <= self.plugins@.len(),
                key@ == name@,
                forall|j: int| 0 <= j < i ==> self.plugins@[j].config.name@ != name@,
            decreases self.plugins@.len() - i,
        {
            if self.plugins[i].config.name == key {
                return Some(i);
            }
            i = i + 1;
        }
        None
    }

    /// Fails with the first dependency that is not registered.
    pub fn check_dependencies(&self, dependencies: &Vec<String>) -> (r: NovaResult<()>)
        requires
            self.wf(),
        ensures
            r is Ok <==> forall|k: int| 0 <= k < dependencies@.len() ==> has_plugin(self.records(), (#[trigger] dependencies@[k])@),
            r is Err ==> exists|k: int| 0 <= k < dependencies@.len()
                && !has_plugin(self.records(), (#[trigger] dependencies@[k])@)
                && (forall|l: int| 0 <= l < k ==> has_plugin(self.records(), dependencies@[l]@))
                && plugin_error(r, "Missing dependency: "@ + dependencies@[k]@),
    {
        let mut k: usize = 0;
        while k < dependencies.len()
            invariant
                self.wf(),
                k <= dependencies@.len(),
                forall|l: int| 0 <= l < k ==> has_plugin(self.records(), (#[trigger] dependencies@[l])@),
            decreases dependencies@.len() - k,
        {
            let dep = &dependencies[k];
            if self.position(dep.as_str()).is_none() {
                let msg = String::from_str("Missing dependency: ").concat(dep.as_str());
                return Err(NovaError::Plugin(msg));
            }
            k = k + 1;
        }
        Ok(())
    }

    /// Registers a loaded plugin from its manifest once its dependencies are
    /// registered; a plugin of the same name is replaced. Returns the new id.
    pub fn register_plugin(&mut self, config: PluginConfig, now: u64) -> (r: NovaResult<u128>)
        requires
            old(self).wf(),
        ensures
            final(self).wf(),
            final(self).same_settings(old(self)),
            (forall|k: int| 0 <= k < config.dependencies@.len() ==> has_plugin(old(self).records(), (#[trigger] config.dependencies@[k])@))
                <==> r is Ok,
            r is Err ==> final(self).records() == old(self).records() && exists|k: int|
                0 <= k < config.dependencies@.len() && !has_plugin(old(self).records(), (#[trigger] config.dependencies@[k])@)
                && (forall|l: int| 0 <= l < k ==> has_plugin(old(self).records(), config.dependencies@[l]@))
                && r == Err::<u128, NovaError>(NovaError::Plugin(r->Err_0->Plugin_0))
                && r->Err_0->Plugin_0@ == "Missing dependency: "@ + config.dependencies@[k]@,
            r is Ok ==> {
                let rec = PluginRecord { id: r->Ok_0, config, status: PluginStatus::Loaded, load_time: now };
                if has_plugin(old(self).records(), config.name@) {
                    exists|i: int| 0 <= i < old(self).records().len()
                        && (#[trigger] old(self).records()[i]).config.name@ == config.name@
                        && final(self).records() == old(self).records().update(i, rec)
                } else {
                    final(self).records() == old(self).records().push(rec)
                }
            },
    {
        match self.check_dependencies(&config.dependencies) {
            Ok(()) => {},
            Err(e) => {
                return Err(e);
            },
        }
        let id = new_id();
        let name_pos = self.position(config.name.as_str());
        let ghost cfg = config;
        let rec = PluginRecord { id, config, status: PluginStatus::Loaded, load_time: now };
        match name_pos {
            Some(i) => {
                let mut slot = rec;
                self.plugins.set_and_swap(i, &mut slot);
                proof {
                    assert forall|a: int, b: int| 0 <= a < b < self.plugins@.len()
                        implies #[trigger] self.plugins@[a].config.name@ != #[trigger] self.plugins@[b].config.name@ by {
                        assert(old(self).plugins@[a].config.name@ != old(self).plugins@[b].config.name@);
                    }
                }
            },
            None => {
                self.plugins.push(rec);
                proof {
                    assert forall|a: int, b: int| 0 <= a < b < self.plugins@.len()
                        implies #[trigger] self.plugins@[a].config.name@ != #[trigger] self.plugins@[b].config.name@ by {
                        if b < old(self).plugins@.len() {
                            assert(old(self).plugins@[a].config.name@ != old(self).plugins@[b].config.name@);
                        } else {
                            assert(self.plugins@[b].config.name@ == cfg.name@);
                            assert(self.plugins@[a] == old(self).plugins@[a]);
                        }
                    }
                }
            },
        }
        Ok(id)
    }

    fn not_found(plugin_name: &str) -> (e: NovaError)
        ensures
            e == NovaError::Plugin(e->Plugin_0),
            e->Plugin_0@ == "Plugin "@ + plugin_name@ + " not found"@,
    {
        NovaError::Plugin(String::from_str("Plugin ").concat(plugin_name).concat(" not found"))
    }

    /// Checks that a plugin can be initialized: it is registered and loaded.
    pub fn begin_initialize(&self, plugin_name: &str) -> (r: NovaResult<()>)
        requires
            self.wf(),
        ensures
            !has_plugin(self.records(), plugin_name@) ==> plugin_error(r, "Plugin "@ + plugin_name@ + " not found"@),
            has_plugin(self.records(), plugin_name@) ==> exists|i: int|
                0 <= i < self.records().len() && (#[trigger] self.records()[i]).config.name@ == plugin_name@
                && if self.records()[i].status is Loaded {
                    r is Ok
                } else {
                    plugin_error(r, "Plugin "@ + plugin_name@ + " is not in loaded state"@)
                },
    {
        match self.position(plugin_name) {
            None => Err(Self::not_found(plugin_name)),
            Some(i) => {
                match &self.plugins[i].status {
                    PluginStatus::Loaded => Ok(()),
                    _ => Err(NovaError::Plugin(
                        String::from_str("Plugin ").concat(plugin_name).concat(" is not in loaded state"),
                    )),
                }
            },
        }
    }

    /// Records the outcome of a plugin's initialization: `Initialized`, or the
    /// error as its status, which is then returned.
    pub fn finish_initialize(&mut self, plugin_name: &str, outcome: NovaResult<()>) -> (r: NovaResult<()>)
        requires
            old(self).wf(),
        ensures
            final(self).wf(),
            final(self).same_settings(old(self)),
            !has_plugin(old(self).records(), plugin_name@) ==> final(self).records() == old(self).records()
                && plugin_error(r, "Plugin "@ + plugin_name@ + " not found"@),
            has_plugin(old(self).records(), plugin_name@) ==> exists|i: int|
                0 <= i < old(self).records().len() && (#[trigger] old(self).records()[i]).config.name@ == plugin_name@
                && final(self).records() == with_status(old(self).records(), i, final(self).records()[i].status)
                && match outcome {
                    Ok(()) => r is Ok && final(self).records()[i].status is Initialized,
                    Err(e) => r == Err::<(), NovaError>(e) && final(self).records()[i].status is Error
                        && final(self).records()[i].status->Error_0@ == failed_status(e),
                },
    {
        self.finish_call(plugin_name, outcome, PluginStatus::Initialized)
    }

    /// Checks that a plugin can be stopped: it is registered.
    pub fn begin_stop(&self, plugin_name: &str) -> (r: NovaResult<()>)
        requires
            self.wf(),
        ensures
            r is Ok <==> has_plugin(self.records(), plugin_name@),
            r is Err ==> plugin_error(r, "Plugin "@ + plugin_name@ + " not found"@),
    {
        match self.position(plugin_name) {
            None => Err(Self::not_found(plugin_name)),
            Some(_) => Ok(()),
        }
    }

    /// Records the outcome of a plugin's shutdown: `Stopped`, or the error as
    /// its status, which is then returned.
    pub fn finish_stop(&mut self, plugin_name: &str, outcome: NovaResult<()>) -> (r: NovaResult<()>)
        requires
            old(self).wf(),
        ensures
            final(self).wf(),
            final(self).same_settings(old(self)),
            !has_plugin(old(self).records(), plugin_name@) ==> final(self).records() == old(self).records()
                && plugin_error(r, "Plugin "@ + plugin_name@ + " not found"@),
            has_plugin(old(self).records(), plugin_name@) ==> exists|i: int|
                0 <= i < old(self).records().len() && (#[trigger] old(self).records()[i]).config.name@ == plugin_name@
                && final(self).records() == with_status(old(self).records(), i, final(self).records()[i].status)
                && match outcome {
                    Ok(()) => r is Ok && final(self).records()[i].status is Stopped,
                    Err(e) => r == Err::<(), NovaError>(e) && final(self).records()[i].status is Error
                        && final(self).records()[i].status->Error_0@ == failed_status(e),
                },
    {
        self.finish_call(plugin_name, outcome, PluginStatus::Stopped)
    }

    fn finish_call(&mut self, plugin_name: &str, outcome: NovaResult<()>, success: PluginStatus) -> (r: NovaResult<()>)
        requires
            old(self).wf(),
        ensures
            final(self).wf(),
            final(self).same_settings(old(self)),
            !has_plugin(old(self).records(), plugin_name@) ==> final(self).records() == old(self).records()
                && plugin_error(r, "Plugin "@ + plugin_name@ + " not found"@),
            has_plugin(old(self).records(), plugin_name@) ==> exists|i: int|
                0 <= i < old(self).records().len() && (#[trigger] old(self).records()[i]).config.name@ == plugin_name@
                && final(self).records() == with_status(old(self).records(), i, final(self).records()[i].status)
                && match outcome {
                    Ok(()) => r is Ok && final(self).records()[i].status == success,
                    Err(e) => r == Err::<(), NovaError>(e) && final(self).records()[i].status is Error
                        && final(self).records()[i].status->Error_0@ == failed_status(e),
                },
    {
        match self.position(plugin_name) {
            None => Err(Self::not_found(plugin_name)),
            Some(i) => {
                let (status, r) = match outcome {
                    Ok(()) => (success, Ok(())),
                    Err(e) => (PluginStatus::Error(e.to_message()), Err(e)),
                };
                self.set_status(i, status);
                r
            },
        }
    }

    fn set_status(&mut self, i: usize, status: PluginStatus)
        requires
            old(self).wf(),
            i < old(self).records().len(),
        ensures
            final(self).wf(),
            final(self).same_settings(old(self)),
            final(self).records() == with_status(old(self).records(), i as int, status),
    {
        let mut rec = self.plugins.remove(i);
        rec.status = status;
        self.plugins.insert(i, rec);
        proof {
            assert(self.plugins@ =~= with_status(old(self).plugins@, i as int, status));
            assert forall|a: int, b: int| 0 <= a < b < self.plugins@.len()
                implies #[trigger] self.plugins@[a].config.name@ != #[trigger] self.plugins@[b].config.name@ by {
                assert(old(self).plugins@[a].config.name@ != old(self).plugins@[b].config.name@);
            }
        }
    }

    /// Starts an initialized plugin.
    pub fn start_plugin(&mut self, plugin_name: &str) -> (r: NovaResult<()>)
        requires
            old(self).wf(),
        ensures
            final(self).wf(),
            final(self).same_settings(old(self)),
            !has_plugin(old(self).records(), plugin_name@) ==> final(self).records() == old(self).records()
                && plugin_error(r, "Plugin "@ + plugin_name@ + " not found"@),
            has_plugin(old(self).records(), plugin_name@) ==> exists|i: int|
                0 <= i < old(self).records().len() && (#[trigger] old(self).records()[i]).config.name@ == plugin_name@
                && if old(self).records()[i].status is Initialized {
                    r is Ok && final(self).records() == with_status(old(self).records(), i, PluginStatus::Running)
                } else {
                    final(self).records() == old(self).records()
                        && plugin_error(r, "Plugin "@ + plugin_name@ + " is not initialized"@)
                },
    {
        match self.position(plugin_name) {
            None => Err(Self::not_found(plugin_name)),
            Some(i) => {
                let initialized = match &self.plugins[i].status {
                    PluginStatus::Initialized => true,
                    _ => false,
                };
                if !initialized {
                    return Err(NovaError::Plugin(
                        String::from_str("Plugin ").concat(plugin_name).concat(" is not initialized"),
                    ));
                }
                self.set_status(i, PluginStatus::Running);
                Ok(())
            },
        }
    }

    /// Records the outcome of a running plugin's update: a failure becomes its status.
    pub fn finish_update(&mut self, plugin_name: &str, outcome: &NovaResult<()>)
        requires
            old(self).wf(),
        ensures
            final(self).wf(),
            final(self).same_settings(old(self)),
            (outcome is Ok || !has_plugin(old(self).records(), plugin_name@)) ==> final(self).records() == old(self).records(),
            (outcome is Err && has_plugin(old(self).records(), plugin_name@)) ==> exists|i: int|
                0 <= i < old(self).records().len() && (#[trigger] old(self).records()[i]).config.name@ == plugin_name@
                && final(self).records() == with_status(old(self).records(), i, final(self).records()[i].status)
                && final(self).records()[i].status is Error
                && final(self).records()[i].status->Error_0@ == failed_status(outcome->Err_0),
    {
        match outcome {
            Ok(()) => {},
            Err(e) => {
                match self.position(plugin_name) {
                    None => {},
                    Some(i) => {
                        self.set_status(i, PluginStatus::Error(e.to_message()));
                    },
                }
            },
        }
    }

    /// Unregisters a plugin.
    pub fn unload_plugin(&mut self, plugin_name: &str) -> (r: NovaResult<()>)
        requires
            old(self).wf(),
        ensures
            final(self).wf(),
            final(self).same_settings(old(self)),
            !has_plugin(old(self).records(), plugin_name@) ==> final(self).records() == old(self).records()
                && plugin_error(r, "Plugin "@ + plugin_name@ + " not found"@),
            has_plugin(old(self).records(), plugin_name@) ==> r is Ok && exists|i: int|
                0 <= i < old(self).records().len() && (#[trigger] old(self).records()[i]).config.name@ == plugin_name@
                && final(self).records() == old(self).records().remove(i),
            !has_plugin(final(self).records(), plugin_name@),
    {
        match self.position(plugin_name) {
            None => Err(Self::not_found(plugin_name)),
            Some(i) => {
                self.plugins.remove(i);
                proof {
                    assert forall|a: int, b: int| 0 <= a < b < self.plugins@.len()
                        implies #[trigger] self.plugins@[a].config.name@ != #[trigger] self.plugins@[b].config.name@ by {
                        let a0 = if a < i { a } else { a + 1 };
                        let b0 = if b < i { b } else { b + 1 };
                        assert(old(self).plugins@[a0].config.name@ != old(self).plugins@[b0].config.name@);
                    }
                    assert forall|a: int| 0 <= a < self.plugins@.len()
                        implies (#[trigger] self.plugins@[a]).config.name@ != plugin_name@ by {
                        let a0 = if a < i { a } else { a + 1 };
                        assert(old(self).plugins@[a0].config.name@ != old(self).plugins@[i as int].config.name@);
                    }
                }
                Ok(())
            },
        }
    }

    /// The status of a plugin.
    pub fn get_plugin_status(&self, plugin_name: &str) -> (r: Option<PluginStatus>)
        requires
            self.wf(),
        ensures
            !has_plugin(self.records(), plugin_name@) ==> r is None,
            has_plugin(self.records(), plugin_name@) ==> exists|i: int|
                0 <= i < self.records().len() && (#[trigger] self.records()[i]).config.name@ == plugin_name@
                && r == Some(self.records()[i].status),
    {
        match self.position(plugin_name) {
            None => None,
            Some(i) => Some(copy_status(&self.plugins[i].status)),
        }
    }

    /// The names of the registered plugins.
    pub fn list_plugins(&self) -> (names: Vec<String>)
        ensures
            names@.len() == self.records().len(),
            forall|i: int| 0 <= i < names@.len() ==> (#[trigger] names@[i])@ == self.records()[i].config.name@,
    {
        let mut names: Vec<String> = Vec::new();
        let mut i: usize = 0;
        while i < self.plugins.len()
            invariant
                i <= self.plugins@.len(),
                names@.len() == i,
                forall|j: int| 0 <= j < i ==> (#[trigger] names@[j])@ == self.plugins@[j].config.name@,
            decreases self.plugins@.len() - i,
        {
            names.push(self.plugins[i].config.name.clone());
            i = i + 1;
        }
        names
    }

    /// The names of the running plugins, in registration order.
    pub fn running_plugins(&self) -> (names: Vec<String>)
        ensures
            forall|i: int| 0 <= i < names@.len() ==> has_running(self.records(), (#[trigger] names@[i])@),
            forall|j: int| 0 <= j < self.records().len() && (#[trigger] self.records()[j]).status is Running
                ==> exists|i: int| 0 <= i < names@.len() && (#[trigger] names@[i])@ == self.records()[j].config.name@,
            names@.map_values(|n: String| n@) == running_names(self.records()),
    {
        let mut names: Vec<String> = Vec::new();
        let mut i: usize = 0;
        while i < self.plugins.len()
            invariant
                i <= self.plugins@.len(),
                forall|k: int| 0 <= k < names@.len() ==> has_running(self.plugins@, (#[trigger] names@[k])@),
                forall|j: int| 0 <= j < i && (#[trigger] self.plugins@[j]).status is Running
                    ==> exists|k: int| 0 <= k < names@.len() && (#[trigger] names@[k])@ == self.plugins@[j].config.name@,
                names@.map_values(|n: String| n@) == running_names(self.plugins@.subrange(0, i as int)),
            decreases self.plugins@.len() - i,
        {
            let ghost pre = self.plugins@.subrange(0, i + 1);
            assert(pre.drop_last() =~= self.plugins@.subrange(0, i as int));
            assert(pre.last() == self.plugins@[i as int]);
            let ghost before_view = names@.map_values(|n: String| n@);
            let running = match &self.plugins[i].status {
                PluginStatus::Running => true,
                _ => false,
            };
            if running {
                let ghost before = names@;
                names.push(self.plugins[i].config.name.clone());
                proof {
                    assert(names@[names@.len() - 1]@ == self.plugins@[i as int].config.name@);
                    assert forall|j: int| 0 <= j <= i && (#[trigger] self.plugins@[j]).status is Running
                        implies exists|k: int| 0 <= k < names@.len() && (#[trigger] names@[k])@ == self.plugins@[j].config.name@ by {
                        if j < i {
                            let k0 = choose|k: int| 0 <= k < before.len() && (#[trigger] before[k])@ == self.plugins@[j].config.name@;
                            assert(names@[k0] == before[k0]);
                        } else {
                            assert(names@[names@.len() - 1]@ == self.plugins@[j].config.name@);
                        }
                    }
                }
            }
            assert(names@.map_values(|n: String| n@) =~= running_names(pre));
            i = i + 1;
        }
        assert(self.plugins@.subrange(0, self.plugins@.len() as int) =~= self.plugins@);
        names
    }
}

/// Each name stands for at most one plugin in a well-formed registry.
pub proof fn lemma_names_unique(m: &PluginManager, i: int, j: int)
    requires
        m.wf(),
        0 <= i < m.records().len(),
        0 <= j < m.records().len(),
        m.records()[i].config.name@ == m.records()[j].config.name@,
    ensures
        i == j,
{
    if i < j {
        assert(m.plugins@[i].config.name@ != m.plugins@[j].config.name@);
    } else if j < i {
        assert(m.plugins@[j].config.name@ != m.plugins@[i].config.name@);
    }
}

/// The names of the running plugins, each once, in registration order.
pub open spec fn running_names(rs: Seq<PluginRecord>) -> Seq<Seq<char>>
    decreases rs.len(),
{
    if rs.len() == 0 {
        Seq::empty()
    } else if rs.last().status is Running {
        running_names(rs.drop_last()).push(rs.last().config.name@)
    } else {
        running_names(rs.drop_last())
    }
}

/// Whether a plugin of that name is registered and running.
pub open spec fn has_running(rs: Seq<PluginRecord>, name: Seq<char>) -> bool {
    exists|i: int| 0 <= i < rs.len() && (#[trigger] rs[i]).config.name@ == name && rs[i].status is Running
}

/// A copy of a status.
pub fn copy_status(s: &PluginStatus) -> (r: PluginStatus)
    ensures
        r == *s,
{
    match s {
        PluginStatus::Loaded => PluginStatus::Loaded,
        PluginStatus::Initialized => PluginStatus::Initialized,
        PluginStatus::Running => PluginStatus::Running,
        PluginStatus::Stopped => PluginStatus::Stopped,
        PluginStatus::Error(m) => PluginStatus::Error(m.clone()),
    }
}

} // verus!
