//! The resource manager: a registry of shared resources with reference
//! counts, memory accounting against a heap limit, and a path cache.
use vstd::prelude::*;
use std::sync::Arc;
use crate::error::{NovaError, NovaResult};
use crate::ids::new_id;
use crate::ieee::{ratio_exceeds, ratio_exceeds_bits};
use crate::memsize::{memory_size, parse_memory_size};
use crate::text::{
    ascii_lower, ascii_upper, file_extension, file_extension_of, is_ascii_text, lower_text, lowercase_of, path_extension,
    same_text, trimmed, uppercase_of,
};

verus! {

/// A resource that the manager can hold.
pub trait Resource {
    /// Whether `k` is the name of the resource's type. A resource that says
    /// nothing of itself may report any name.
    open spec fn reports_type(&self, k: Seq<char>) -> bool {
        true
    }

    /// Whether `n` is the size the resource reports. A resource that says
    /// nothing of itself may report any size.
    open spec fn size_is(&self, n: usize) -> bool {
        true
    }

    /// The name of the resource's type.
    fn resource_type(&self) -> (k: &'static str)
        ensures
            self.reports_type(k@),
    ;

    /// The memory the resource takes, in bytes.
    fn size(&self) -> (n: usize)
        ensures
            self.size_is(n),
    ;
}

/// Loads resources of type `T` from files.
pub trait ResourceLoader<T> {
    /// Whether `r` is a result the loader may give for the file at `path`. A
    /// loader that says nothing of itself may give any result.
    open spec fn loads(&self, path: Seq<char>, r: NovaResult<T>) -> bool {
        true
    }

    fn load(&self, path: &str) -> (r: NovaResult<T>)
        ensures
            self.loads(path@, r),
    ;

    fn can_load(&self, path: &str) -> bool;
}

/// The loaders of a resource manager, by lower-case file extension.
pub struct LoaderRegistry<L> {
    loaders: Vec<(String, L)>,
}

/// Whether some loader is registered for the extension.
pub open spec fn has_loader<L>(ls: Seq<(String, L)>, ext: Seq<char>) -> bool {
    exists|i: int| 0 <= i < ls.len() && (#[trigger] ls[i]).0@ == ext
}

impl<L> LoaderRegistry<L> {
    /// The loaders with their extensions, in registration order.
    pub closed spec fn view(&self) -> Seq<(String, L)> {
        self.loaders@
    }

    /// Each extension has at most one loader.
    pub closed spec fn wf(&self) -> bool {
        forall|i: int, j: int| 0 <= i < j < self.loaders@.len() ==> #[trigger] self.loaders@[i].0@ != #[trigger] self.loaders@[j].0@
    }

    pub fn new() -> (r: Self)
        ensures
            r.wf(),
            r@.len() == 0,
    {
        LoaderRegistry { loaders: Vec::new() }
    }

    /// Registers a loader for an extension, in lower case; it replaces the
    /// loader registered for that extension before.
    pub fn register_loader(&mut self, extension: &str, loader: L)
        requires
            old(self).wf(),
        ensures
            final(self).wf(),
            has_loader(old(self)@, lowercase_of(extension@)) ==> exists|i: int|
                0 <= i < old(self)@.len() && (#[trigger] old(self)@[i]).0@ == lowercase_of(extension@)
                && final(self)@.len() == old(self)@.len()
                && final(self)@[i].0@ == lowercase_of(extension@) && final(self)@[i].1 == loader
                && forall|j: int| 0 <= j < old(self)@.len() && j != i ==> #[trigger] final(self)@[j] == old(self)@[j],
            !has_loader(old(self)@, lowercase_of(extension@)) ==> final(self)@.len() == old(self)@.len() + 1
                && final(self)@.drop_last() == old(self)@
                && final(self)@.last().0@ == lowercase_of(extension@) && final(self)@.last().1 == loader,
            is_ascii_text(extension@) ==> lowercase_of(extension@) == ascii_lower(extension@),
    {
        let key = lower_text(extension);
        let mut i: usize = 0;
        while i < self.loaders.len()
            invariant
                self.wf(),
                *self == *old(self),
                i <= self.loaders@.len(),
                key@ == lowercase_of(extension@),
                is_ascii_text(extension@) ==> lowercase_of(extension@) == ascii_lower(extension@),
                forall|j: int| 0 <= j < i ==> self.loaders@[j].0@ != key@,
            decreases self.loaders@.len() - i,
        {
            if same_text(self.loaders[i].0.as_str(), key.as_str()) {
                let mut slot = (key, loader);
                self.loaders.set_and_swap(i, &mut slot);
                proof {
                    assert forall|a: int, b: int| 0 <= a < b < self.loaders@.len()
                        implies #[trigger] self.loaders@[a].0@ != #[trigger] self.loaders@[b].0@ by {
                        assert(old(self).loaders@[a].0@ != old(self).loaders@[b].0@);
                    }
                }
                return;
            }
            i = i + 1;
        }
        let ghost l0 = self.loaders@;
        self.loaders.push((key, loader));
        proof {
            assert(self.loaders@.drop_last() =~= l0);
            assert forall|a: int, b: int| 0 <= a < b < self.loaders@.len()
                implies #[trigger] self.loaders@[a].0@ != #[trigger] self.loaders@[b].0@ by {
                if b < l0.len() {
                    assert(l0[a].0@ != l0[b].0@);
                }
            }
        }
    }

    /// The loader registered for an extension (compared as given).
    pub fn find(&self, extension: &str) -> (r: Option<&L>)
        requires
            self.wf(),
        ensures
            !has_loader(self@, extension@) ==> r is None,
            has_loader(self@, extension@) ==> exists|i: int|
                0 <= i < self@.len() && (#[trigger] self@[i]).0@ == extension@ && r == Some(&self@[i].1),
    {
        let mut i: usize = 0;
        while i < self.loaders.len()
            invariant
                i <= self.loaders@.len(),
                forall|j: int| 0 <= j < i ==> self.loaders@[j].0@ != extension@,
            decreases self.loaders@.len() - i,
        {
            if same_text(self.loaders[i].0.as_str(), extension) {
                return Some(&self.loaders[i].1);
            }
            i = i + 1;
        }
        None
    }
}

/// A handle to a resource held by a manager.
#[derive(Debug, Clone, Copy, PartialEq, Eq, Hash)]
pub struct ResourceHandle {
    id: u128,
}

impl ResourceHandle {
    pub closed spec fn view(&self) -> u128 {
        self.id
    }

    pub fn id(&self) -> (r: u128)
        ensures
            r == self@,
    {
        self.id
    }
}

/// A resource in the manager with its bookkeeping.
pub struct ResourceEntry<R> {
    pub id: u128,
    pub resource: Arc<R>,
    pub resource_kind: String,
    pub size: usize,
    pub ref_count: usize,
    pub last_accessed: u64,
    pub dependencies: Vec<u128>,
}

/// A cached path and the resource loaded from it.
pub struct CacheEntry {
    pub path: String,
    pub id: u128,
}

/// Memory statistics of a resource manager.
#[derive(Debug, Clone, Copy, PartialEq, Eq)]
pub struct MemoryStats {
    pub total_allocated: usize,
    pub total_used: usize,
    pub resource_count: usize,
    pub cache_hits: u64,
    pub cache_misses: u64,
    pub gc_runs: u64,
}

/// Nanoseconds in a second.
pub const NANOS_PER_SECOND: u64 = 1_000_000_000;

/// An unreferenced resource is collected once it has been idle longer than
/// this many whole seconds.
pub const IDLE_SECONDS: u64 = 60;

/// The sum of the sizes of the entries.
pub open spec fn sizes_total<R>(es: Seq<ResourceEntry<R>>) -> nat
    decreases es.len(),
{
    if es.len() == 0 {
        0
    } else {
        sizes_total(es.drop_last()) + es.last().size as nat
    }
}

/// Whether some entry has the id.
pub open spec fn holds_id<R>(es: Seq<ResourceEntry<R>>, id: u128) -> bool {
    exists|i: int| 0 <= i < es.len() && (#[trigger] es[i]).id == id
}

/// Whether an entry would be collected at time `now` (in nanoseconds).
pub open spec fn collectable<R>(e: ResourceEntry<R>, now: u64) -> bool {
    e.ref_count == 0 && (if now >= e.last_accessed {
        now - e.last_accessed
    } else {
        0int
    }) / (NANOS_PER_SECOND as int) > IDLE_SECONDS
}

/// Whether adding `size` bytes runs out of memory: usage over the threshold
/// that stays over the heap limit.
pub open spec fn out_of_memory(used: nat, size: nat, max: nat, threshold: u32) -> bool {
    ratio_exceeds(used + size, max, threshold) && used + size > max
}

pub proof fn lemma_total_push<R>(es: Seq<ResourceEntry<R>>, e: ResourceEntry<R>)
    ensures
        sizes_total(es.push(e)) == sizes_total(es) + e.size,
{
    assert(es.push(e).drop_last() =~= es);
}

pub proof fn lemma_total_remove<R>(es: Seq<ResourceEntry<R>>, i: int)
    requires
        0 <= i < es.len(),
    ensures
        sizes_total(es.remove(i)) + es[i].size == sizes_total(es),
    decreases es.len(),
{
    if i == es.len() - 1 {
        assert(es.remove(i) =~= es.drop_last());
    } else {
        lemma_total_remove(es.drop_last(), i);
        assert(es.remove(i).drop_last() =~= es.drop_last().remove(i));
        assert(es.remove(i).last() == es.last());
    }
}

pub proof fn lemma_total_update<R>(es: Seq<ResourceEntry<R>>, i: int, e: ResourceEntry<R>)
    requires
        0 <= i < es.len(),
        e.size == es[i].size,
    ensures
        sizes_total(es.update(i, e)) == sizes_total(es),
    decreases es.len(),
{
    if i == es.len() - 1 {
        assert(es.update(i, e).drop_last() =~= es.drop_last());
    } else {
        lemma_total_update(es.drop_last(), i, e);
        assert(es.update(i, e).drop_last() =~= es.drop_last().update(i, e));
    }
}

/// `new` is `old` with one more resource: `resource` under `id`, of `size`
/// bytes, referenced once and last accessed at `now`. The memory in use and
/// the resource count grow by it; the heap, the threshold and the other
/// counters stay.
pub open spec fn adds<R>(old: ResourceManager<R>, new: ResourceManager<R>, id: u128, resource: R, size: nat, now: u64) -> bool {
    let e = new.entries().last();
    &&& !holds_id(old.entries(), id)
    &&& new.entries() == old.entries().push(e)
    &&& e.id == id
    &&& *e.resource == resource
    &&& e.size == size
    &&& e.ref_count == 1
    &&& e.last_accessed == now
    &&& e.dependencies@.len() == 0
    &&& new.stats_view().total_used == old.stats_view().total_used + size
    &&& new.stats_view().resource_count == old.stats_view().resource_count + 1
    &&& new.stats_view().total_allocated == old.stats_view().total_allocated
    &&& new.stats_view().cache_hits == old.stats_view().cache_hits
    &&& new.stats_view().gc_runs == old.stats_view().gc_runs
    &&& new.max_memory() == old.max_memory()
    &&& new.threshold() == old.threshold()
    &&& new.lost_bytes() == old.lost_bytes()
    &&& new.lost_count() == old.lost_count()
}

/// `new` is `old` where the resource held under `id` is replaced by
/// `resource`, of `size` bytes, referenced once and last accessed at `now`.
/// As for a fresh id, the memory in use grows by `size` and the count by one:
/// the replaced resource stays counted.
pub open spec fn replaces<R>(old: ResourceManager<R>, new: ResourceManager<R>, id: u128, resource: R, size: nat, now: u64) -> bool {
    exists|i: int|
        0 <= i < old.entries().len() && (#[trigger] old.entries()[i]).id == id && {
            let e = new.entries().last();
            &&& new.entries() == old.entries().remove(i).push(e)
            &&& e.id == id
            &&& *e.resource == resource
            &&& e.size == size
            &&& e.ref_count == 1
            &&& e.last_accessed == now
            &&& e.dependencies@.len() == 0
            &&& new.stats_view().total_used == old.stats_view().total_used + size
            &&& new.stats_view().resource_count == old.stats_view().resource_count + 1
            &&& new.stats_view().total_allocated == old.stats_view().total_allocated
            &&& new.stats_view().cache_hits == old.stats_view().cache_hits
            &&& new.stats_view().gc_runs == old.stats_view().gc_runs
            &&& new.max_memory() == old.max_memory()
            &&& new.threshold() == old.threshold()
            &&& new.lost_bytes() == old.lost_bytes() + old.entries()[i].size
            &&& new.lost_count() == old.lost_count() + 1
        }
}

/// Whether `size` more bytes do not fit: the sum overflows, or usage goes over
/// the threshold and over the heap.
pub open spec fn refused<R>(m: ResourceManager<R>, size: nat) -> bool {
    m.stats_view().total_used + size > usize::MAX
        || out_of_memory(m.stats_view().total_used as nat, size, m.max_memory(), m.threshold())
}

/// `r` is the error of the given kind with the given message.
pub open spec fn resource_error<T>(r: NovaResult<T>, msg: Seq<char>) -> bool {
    &&& r is Err
    &&& r->Err_0 is Resource
    &&& r->Err_0->Resource_0@ == msg
}

/// The outcome of adding `resource` of `size` bytes under a freshly drawn id:
/// refused as out of memory with nothing changed; otherwise added under the
/// id, replacing the resource held under it if there is one.
pub open spec fn insert_outcome<R>(old: ResourceManager<R>, new: ResourceManager<R>, r: NovaResult<ResourceHandle>, resource: R, size: nat, now: u64) -> bool {
    if refused(old, size) {
        new == old && resource_error(r, "Out of memory"@)
    } else {
        &&& r is Ok
        &&& adds(old, new, r->Ok_0@, resource, size, now) || replaces(old, new, r->Ok_0@, resource, size, now)
        &&& new.cache_view() == old.cache_view()
        &&& new.stats_view().cache_misses == old.stats_view().cache_misses
    }
}

/// The cache `new` is `old` with `path` recorded for `id`: its entry is
/// replaced when the path was cached, else appended.
pub open spec fn records(old: Seq<CacheEntry>, new: Seq<CacheEntry>, path: Seq<char>, id: u128) -> bool {
    if caches_path(old, path) {
        exists|i: int| 0 <= i < old.len()
            && (#[trigger] old[i]).path@ == path
            && new.len() == old.len()
            && new[i].path@ == path
            && new[i].id == id
            && forall|j: int| 0 <= j < old.len() && j != i ==> #[trigger] new[j] == old[j]
    } else {
        &&& new.len() == old.len() + 1
        &&& new.drop_last() == old
        &&& new.last().path@ == path
        &&& new.last().id == id
    }
}

/// As `insert_outcome`, where an added resource is also cached for `path` and
/// counted as a cache miss.
pub open spec fn loaded_outcome<R>(old: ResourceManager<R>, new: ResourceManager<R>, r: NovaResult<ResourceHandle>, path: Seq<char>, resource: R, size: nat, now: u64) -> bool {
    if refused(old, size) {
        new == old && resource_error(r, "Out of memory"@)
    } else {
        &&& r is Ok
        &&& adds(old, new, r->Ok_0@, resource, size, now) || replaces(old, new, r->Ok_0@, resource, size, now)
        &&& records(old.cache_view(), new.cache_view(), path, r->Ok_0@)
        &&& new.stats_view().cache_misses == old.stats_view().cache_misses + 1
    }
}

/// `new` is `old` where the resource `id` is taken once more: its reference
/// count grows by one and it was last accessed at `now`; nothing else changes.
pub open spec fn takes<R>(old: ResourceManager<R>, new: ResourceManager<R>, id: u128, now: u64) -> bool {
    exists|i: int|
        0 <= i < old.entries().len() && (#[trigger] old.entries()[i]).id == id && {
            let e = old.entries()[i];
            &&& new.entries() == old.entries().update(i, ResourceEntry {
                ref_count: (e.ref_count + 1) as usize,
                last_accessed: now,
                ..e
            })
            &&& new.stats_view() == old.stats_view()
            &&& new.cache_view() == old.cache_view()
        }
}

/// `new` is `old` where one reference to the resource `id` is released: the
/// last reference removes it and frees its memory; an earlier one only lowers
/// its count.
pub open spec fn releases<R>(old: ResourceManager<R>, new: ResourceManager<R>, id: u128) -> bool {
    exists|i: int|
        0 <= i < old.entries().len() && (#[trigger] old.entries()[i]).id == id && {
            let e = old.entries()[i];
            &&& new.cache_view() == old.cache_view()
            &&& if e.ref_count == 1 {
                &&& new.entries() == old.entries().remove(i)
                &&& new.stats_view() == (MemoryStats {
                    total_used: (old.stats_view().total_used - e.size) as usize,
                    resource_count: (old.stats_view().resource_count - 1) as usize,
                    ..old.stats_view()
                })
            } else {
                &&& new.entries() == old.entries().update(i, ResourceEntry { ref_count: (e.ref_count - 1) as usize, ..e })
                &&& new.stats_view() == old.stats_view()
            }
        }
}

/// `m` is `base` with one more resource, `id`, last in creation order, held
/// `c` times; its memory and count are added to those of `base`.
pub open spec fn holding<R>(base: ResourceManager<R>, m: ResourceManager<R>, id: u128, c: nat) -> bool {
    &&& m.entries().len() == base.entries().len() + 1
    &&& m.entries().drop_last() == base.entries()
    &&& m.entries().last().id == id
    &&& m.entries().last().ref_count == c
    &&& !holds_id(base.entries(), id)
    &&& m.stats_view().total_used == base.stats_view().total_used + m.entries().last().size
    &&& m.stats_view().resource_count == base.stats_view().resource_count + 1
    &&& m.stats_view().total_allocated == base.stats_view().total_allocated
}

/// The resource manager. Resources are kept in the order of their creation.
pub struct ResourceManager<R> {
    resources: Vec<ResourceEntry<R>>,
    max_memory: usize,
    gc_threshold: u32,
    stats: MemoryStats,
    cache: Vec<CacheEntry>,
    /// The bytes of the resources that were replaced by one added under the
    /// same id; the statistics keep counting them.
    overwritten_bytes: Ghost<nat>,
    /// How many resources were replaced that way.
    overwritten_count: Ghost<nat>,
}

impl<R> ResourceManager<R> {
    pub closed spec fn entries(&self) -> Seq<ResourceEntry<R>> {
        self.resources@
    }

    pub closed spec fn cache_view(&self) -> Seq<CacheEntry> {
        self.cache@
    }

    pub closed spec fn max_memory(&self) -> nat {
        self.max_memory as nat
    }

    /// The bit pattern of the single-precision GC threshold.
    pub closed spec fn threshold(&self) -> u32 {
        self.gc_threshold
    }

    pub closed spec fn stats_view(&self) -> MemoryStats {
        self.stats
    }

    /// The bytes of the resources replaced by another added under their id;
    /// the memory in use still counts them.
    pub closed spec fn lost_bytes(&self) -> nat {
        self.overwritten_bytes@
    }

    /// How many resources were replaced by another added under their id; the
    /// resource count still counts them.
    pub closed spec fn lost_count(&self) -> nat {
        self.overwritten_count@
    }

    /// The manager's invariant: ids are unique, every held resource is
    /// referenced, the statistics account for the held resources and those
    /// that were replaced, and each path is cached once.
    pub closed spec fn wf(&self) -> bool {
        &&& forall|i: int, j: int|
            0 <= i < j < self.resources@.len() ==> #[trigger] self.resources@[i].id
                != #[trigger] self.resources@[j].id
        &&& forall|i: int| 0 <= i < self.resources@.len() ==> #[trigger] self.resources@[i].ref_count >= 1
        &&& self.stats.total_used == sizes_total(self.resources@) + self.overwritten_bytes@
        &&& self.stats.resource_count == self.resources@.len() + self.overwritten_count@
        &&& self.stats.total_allocated == self.max_memory
        &&& forall|i: int, j: int|
            0 <= i < j < self.cache@.len() ==> #[trigger] self.cache@[i].path@
                != #[trigger] self.cache@[j].path@
    }

    /// A manager for a heap of the given size ("1GB", "512MB", ...) whose
    /// collector runs when usage would exceed `gc_threshold` of the heap.
    pub fn new(max_memory_str: &str, gc_threshold: u32) -> (r: NovaResult<Self>)
        ensures
            match memory_size(uppercase_of(trimmed(max_memory_str@))) {
                None => r == Err::<Self, NovaError>(NovaError::Config(r->Err_0->Config_0))
                    && r->Err_0->Config_0@ == "Invalid memory size format"@,
                Some(v) => r is Ok && {
                    let m = r->Ok_0;
                    &&& m.wf()
                    &&& m.max_memory() == v
                    &&& m.threshold() == gc_threshold
                    &&& m.entries().len() == 0
                    &&& m.cache_view().len() == 0
                    &&& m.lost_bytes() == 0
                    &&& m.lost_count() == 0
                    &&& m.stats_view() == (MemoryStats {
                        total_allocated: v as usize,
                        total_used: 0,
                        resource_count: 0,
                        cache_hits: 0,
                        cache_misses: 0,
                        gc_runs: 0,
                    })
                },
            },
            is_ascii_text(trimmed(max_memory_str@)) ==> uppercase_of(trimmed(max_memory_str@)) == ascii_upper(
                trimmed(max_memory_str@),
            ),
    {
        let max_memory = parse_memory_size(max_memory_str)?;
        let m = ResourceManager {
            resources: Vec::new(),
            max_memory,
            gc_threshold,
            stats: MemoryStats {
                total_allocated: max_memory,
                total_used: 0,
                resource_count: 0,
                cache_hits: 0,
                cache_misses: 0,
                gc_runs: 0,
            },
            cache: Vec::new(),
            overwritten_bytes: Ghost(0),
            overwritten_count: Ghost(0),
        };
        assert(sizes_total(m.resources@) == 0);
        Ok(m)
    }

    /// The reference count of the resource with the handle's id, if held.
    pub fn ref_count_of(&self, handle: &ResourceHandle) -> (r: Option<usize>)
        requires
            self.wf(),
        ensures
            !holds_id(self.entries(), handle@) ==> r is None,
            holds_id(self.entries(), handle@) ==> exists|i: int|
                0 <= i < self.entries().len() && (#[trigger] self.entries()[i]).id == handle@
                && r == Some(self.entries()[i].ref_count),
    {
        let mut i: usize = 0;
        while i < self.resources.len()
            invariant
                i <= self.resources@.len(),
                forall|j: int| 0 <= j < i ==> self.resources@[j].id != handle@,
            decreases self.resources@.len() - i,
        {
            if self.resources[i].id == handle.id {
                return Some(self.resources[i].ref_count);
            }
            i = i + 1;
        }
        None
    }

    /// The memory statistics.
    pub fn get_memory_stats(&self) -> (s: MemoryStats)
        ensures
            s == self.stats_view(),
    {
        self.stats
    }

    /// Collects the unreferenced resources that have been idle for more than
    /// a minute. A resource leaves the manager as soon as its last reference is
    /// released, so the invariant rules out any unreferenced one: nothing is
    /// collected, no run is counted, and the manager stays as it is.
    pub fn garbage_collect(&mut self, now: u64) -> (r: NovaResult<()>)
        requires
            old(self).wf(),
        ensures
            r is Ok,
            final(self).wf(),
            *final(self) == *old(self),
            forall|i: int| 0 <= i < old(self).entries().len() ==> !collectable(#[trigger] old(self).entries()[i], now),
            final(self).entries() == old(self).entries(),
            final(self).cache_view() == old(self).cache_view(),
            final(self).stats_view() == old(self).stats_view(),
            final(self).max_memory() == old(self).max_memory(),
            final(self).threshold() == old(self).threshold(),
    {
        proof {
            assert forall|i: int| 0 <= i < self.resources@.len() implies !collectable(#[trigger] self.resources@[i], now) by {
                assert(self.resources@[i].ref_count >= 1);
            }
        }
        Ok(())
    }

    /// Checks that `size` more bytes fit: when usage would exceed the
    /// threshold, the collector runs and usage must then stay within the heap.
    fn check_memory_limits(&mut self, size: usize, now: u64) -> (r: NovaResult<()>)
        requires
            old(self).wf(),
            old(self).stats_view().total_used + size <= usize::MAX,
        ensures
            *final(self) == *old(self),
            out_of_memory(old(self).stats_view().total_used as nat, size as nat, old(self).max_memory(), old(self).threshold())
                ==> r == Err::<(), NovaError>(NovaError::Resource(r->Err_0->Resource_0))
                && r->Err_0->Resource_0@ == "Out of memory"@,
            !out_of_memory(old(self).stats_view().total_used as nat, size as nat, old(self).max_memory(), old(self).threshold())
                ==> r is Ok,
    {
        let projected = self.stats.total_used + size;
        if ratio_exceeds_bits(projected, self.max_memory, self.gc_threshold) {
            let _ = self.garbage_collect(now);
            let new_projected = self.stats.total_used + size;
            if new_projected > self.max_memory {
                return Err(NovaError::resource("Out of memory"));
            }
        }
        Ok(())
    }

    /// Adds a resource of the given size and type name under the given id,
    /// referenced once: refused as out of memory; otherwise added, replacing
    /// the resource held under the id if there is one.
    pub fn insert_with_id(&mut self, resource: R, size: usize, resource_kind: &str, now: u64, id: u128) -> (r: NovaResult<ResourceHandle>)
        requires
            old(self).wf(),
            old(self).stats_view().resource_count < usize::MAX,
            old(self).stats_view().total_used + size <= usize::MAX,
        ensures
            final(self).wf(),
            refused(*old(self), size as nat) ==> *final(self) == *old(self) && resource_error(r, "Out of memory"@),
            !refused(*old(self), size as nat) ==> {
                &&& r is Ok
                &&& r->Ok_0@ == id
                &&& !holds_id(old(self).entries(), id) ==> adds(*old(self), *final(self), id, resource, size as nat, now)
                &&& holds_id(old(self).entries(), id) ==> replaces(*old(self), *final(self), id, resource, size as nat, now)
                &&& final(self).entries().last().resource_kind@ == resource_kind@
                &&& final(self).cache_view() == old(self).cache_view()
                &&& final(self).stats_view().cache_misses == old(self).stats_view().cache_misses
            },
    {
        self.check_memory_limits(size, now)?;
        let mut i: usize = 0;
        while i < self.resources.len()
            invariant
                self.wf(),
                *self == *old(self),
                i <= self.resources@.len(),
                !refused(*old(self), size as nat),
                forall|j: int| 0 <= j < i ==> self.resources@[j].id != id,
            ensures
                self.wf(),
                *self == *old(self),
                i <= self.resources@.len(),
                forall|j: int| 0 <= j < i ==> self.resources@[j].id != id,
                i < self.resources@.len() ==> self.resources@[i as int].id == id,
            decreases self.resources@.len() - i,
        {
            if self.resources[i].id == id {
                break;
            }
            i = i + 1;
        }
        let found = i < self.resources.len();
        if found {
            let gone = self.resources.remove(i);
            proof {
                lemma_total_remove(old(self).resources@, i as int);
                self.overwritten_bytes = Ghost(self.overwritten_bytes@ + gone.size as nat);
                self.overwritten_count = Ghost(self.overwritten_count@ + 1);
                assert forall|a: int, b: int| 0 <= a < b < self.resources@.len()
                    implies #[trigger] self.resources@[a].id != #[trigger] self.resources@[b].id by {
                    let a0 = if a < i { a } else { a + 1 };
                    let b0 = if b < i { b } else { b + 1 };
                    assert(old(self).resources@[a0].id != old(self).resources@[b0].id);
                }
                assert forall|a: int| 0 <= a < self.resources@.len() implies self.resources@[a].id != id by {
                    let a0 = if a < i { a } else { a + 1 };
                    if a0 < i {
                        assert(old(self).resources@[a0].id != old(self).resources@[i as int].id);
                    } else {
                        assert(old(self).resources@[i as int].id != old(self).resources@[a0].id);
                    }
                }
                assert forall|a: int| 0 <= a < self.resources@.len()
                    implies #[trigger] self.resources@[a].ref_count >= 1 by {
                    let a0 = if a < i { a } else { a + 1 };
                    assert(self.resources@[a] == old(self).resources@[a0]);
                }
            }
        }
        let ghost mid = self.resources@;
        let entry = ResourceEntry {
            id,
            resource: Arc::new(resource),
            resource_kind: String::from_str(resource_kind),
            size,
            ref_count: 1,
            last_accessed: now,
            dependencies: Vec::new(),
        };
        proof {
            lemma_total_push(self.resources@, entry);
        }
        self.resources.push(entry);
        self.stats.total_used = self.stats.total_used + size;
        self.stats.resource_count = self.stats.resource_count + 1;
        let h = ResourceHandle { id };
        proof {
            assert(self.resources@.drop_last() =~= mid);
            if found {
                assert(mid =~= old(self).resources@.remove(i as int));
                assert(old(self).entries()[i as int].id == id);
                assert(replaces(*old(self), *self, id, resource, size as nat, now));
            } else {
                assert(mid =~= old(self).resources@);
            }
        }
        Ok(h)
    }

    /// Adds a resource of the given size and type name under a fresh random
    /// id, referenced once.
    pub fn insert_resource(&mut self, resource: R, size: usize, resource_kind: &str, now: u64) -> (r: NovaResult<ResourceHandle>)
        requires
            old(self).wf(),
            old(self).stats_view().resource_count < usize::MAX,
            old(self).stats_view().total_used + size <= usize::MAX,
        ensures
            final(self).wf(),
            insert_outcome(*old(self), *final(self), r, resource, size as nat, now),
            r is Ok ==> final(self).entries().last().resource_kind@ == resource_kind@,
    {
        let id = new_id();
        self.insert_with_id(resource, size, resource_kind, now, id)
    }

    /// Returns the resource and takes one more reference to it.
    pub fn get_resource(&mut self, handle: &ResourceHandle, now: u64) -> (r: NovaResult<Arc<R>>)
        requires
            old(self).wf(),
            forall|i: int| 0 <= i < old(self).entries().len() && (#[trigger] old(self).entries()[i]).id == handle@
                ==> old(self).entries()[i].ref_count < usize::MAX,
        ensures
            final(self).wf(),
            final(self).cache_view() == old(self).cache_view(),
            final(self).max_memory() == old(self).max_memory(),
            final(self).threshold() == old(self).threshold(),
            final(self).stats_view() == old(self).stats_view(),
            !holds_id(old(self).entries(), handle@) ==> {
                &&& r == Err::<Arc<R>, NovaError>(NovaError::Resource(r->Err_0->Resource_0))
                &&& r->Err_0->Resource_0@ == "Resource not found"@
                &&& final(self).entries() == old(self).entries()
            },
            holds_id(old(self).entries(), handle@) ==> exists|i: int|
                0 <= i < old(self).entries().len() && (#[trigger] old(self).entries()[i]).id == handle@ && {
                    let e = old(self).entries()[i];
                    &&& r is Ok
                    &&& *r->Ok_0 == *e.resource
                    &&& final(self).entries() == old(self).entries().update(i, ResourceEntry {
                        ref_count: (e.ref_count + 1) as usize,
                        last_accessed: now,
                        ..e
                    })
                },
            holds_id(old(self).entries(), handle@) ==> takes(*old(self), *final(self), handle@, now),
    {
        assert(self.resources@ == old(self).entries());
        let mut i: usize = 0;
        while i < self.resources.len()
            invariant
                self.wf(),
                *self == *old(self),
                i <= self.resources@.len(),
                forall|j: int| 0 <= j < i ==> self.resources@[j].id != handle@,
                forall|j: int| 0 <= j < self.resources@.len() && (#[trigger] self.resources@[j]).id == handle@
                    ==> self.resources@[j].ref_count < usize::MAX,
            decreases self.resources@.len() - i,
        {
            if self.resources[i].id == handle.id {
                let mut e = self.resources.remove(i);
                let shared = share(&e.resource);
                e.ref_count = e.ref_count + 1;
                e.last_accessed = now;
                let ghost e_new = e;
                self.resources.insert(i, e);
                proof {
                    assert(self.resources@ =~= old(self).resources@.update(i as int, e_new));
                    lemma_total_update(old(self).resources@, i as int, e_new);
                    assert forall|a: int, b: int| 0 <= a < b < self.resources@.len()
                        implies #[trigger] self.resources@[a].id != #[trigger] self.resources@[b].id by {
                        assert(old(self).resources@[a].id != old(self).resources@[b].id);
                    }
                }
                return Ok(shared);
            }
            i = i + 1;
        }
        Err(NovaError::resource("Resource not found"))
    }

    /// Releases one reference; the resource leaves the manager, and its memory
    /// is accounted free, when its last reference is released.
    pub fn unload_resource(&mut self, handle: ResourceHandle) -> (r: NovaResult<()>)
        requires
            old(self).wf(),
        ensures
            final(self).wf(),
            final(self).cache_view() == old(self).cache_view(),
            final(self).max_memory() == old(self).max_memory(),
            final(self).threshold() == old(self).threshold(),
            !holds_id(old(self).entries(), handle@) ==> {
                &&& r == Err::<(), NovaError>(NovaError::Resource(r->Err_0->Resource_0))
                &&& r->Err_0->Resource_0@ == "Resource not found"@
                &&& *final(self) == *old(self)
            },
            holds_id(old(self).entries(), handle@) ==> r is Ok && exists|i: int|
                0 <= i < old(self).entries().len() && (#[trigger] old(self).entries()[i]).id == handle@ && {
                    let e = old(self).entries()[i];
                    if e.ref_count == 1 {
                        &&& final(self).entries() == old(self).entries().remove(i)
                        &&& final(self).stats_view() == (MemoryStats {
                            total_used: (old(self).stats_view().total_used - e.size) as usize,
                            resource_count: (old(self).stats_view().resource_count - 1) as usize,
                            ..old(self).stats_view()
                        })
                    } else {
                        &&& final(self).entries() == old(self).entries().update(i, ResourceEntry {
                            ref_count: (e.ref_count - 1) as usize,
                            ..e
                        })
                        &&& final(self).stats_view() == old(self).stats_view()
                    }
                },
            holds_id(old(self).entries(), handle@) ==> releases(*old(self), *final(self), handle@),
    {
        let mut i: usize = 0;
        while i < self.resources.len()
            invariant
                self.wf(),
                *self == *old(self),
                i <= self.resources@.len(),
                forall|j: int| 0 <= j < i ==> self.resources@[j].id != handle@,
            decreases self.resources@.len() - i,
        {
            if self.resources[i].id == handle.id {
                let mut e = self.resources.remove(i);
                e.ref_count = e.ref_count.saturating_sub(1);
                if e.ref_count == 0 {
                    proof {
                        lemma_total_remove(old(self).resources@, i as int);
                        assert forall|a: int, b: int| 0 <= a < b < self.resources@.len()
                            implies #[trigger] self.resources@[a].id != #[trigger] self.resources@[b].id by {
                            let a0 = if a < i { a } else { a + 1 };
                            let b0 = if b < i { b } else { b + 1 };
                            assert(old(self).resources@[a0].id != old(self).resources@[b0].id);
                        }
                        assert forall|a: int| 0 <= a < self.resources@.len()
                            implies #[trigger] self.resources@[a].ref_count >= 1 by {
                            let a0 = if a < i { a } else { a + 1 };
                            assert(self.resources@[a] == old(self).resources@[a0]);
                        }
                    }
                    self.stats.total_used = self.stats.total_used - e.size;
                    self.stats.resource_count = self.stats.resource_count - 1;
                } else {
                    let ghost e_new = e;
                    self.resources.insert(i, e);
                    proof {
                        assert(self.resources@ =~= old(self).resources@.update(i as int, e_new));
                        lemma_total_update(old(self).resources@, i as int, e_new);
                        assert forall|a: int, b: int| 0 <= a < b < self.resources@.len()
                            implies #[trigger] self.resources@[a].id != #[trigger] self.resources@[b].id by {
                            assert(old(self).resources@[a].id != old(self).resources@[b].id);
                        }
                    }
                }
                return Ok(());
            }
            i = i + 1;
        }
        Err(NovaError::resource("Resource not found"))
    }
}

/// Whether some cache entry is for the path.
pub open spec fn caches_path(c: Seq<CacheEntry>, path: Seq<char>) -> bool {
    exists|i: int| 0 <= i < c.len() && (#[trigger] c[i]).path@ == path
}

impl<R: Resource> ResourceManager<R> {
    /// Adds a resource, referenced once, with the size and type name it
    /// reports, under a fresh random id.
    pub fn create_resource(&mut self, resource: R, now: u64) -> (r: NovaResult<ResourceHandle>)
        requires
            old(self).wf(),
            old(self).stats_view().resource_count < usize::MAX,
        ensures
            final(self).wf(),
            exists|n: usize| #[trigger] resource.size_is(n) && insert_outcome(*old(self), *final(self), r, resource, n as nat, now),
            r is Ok ==> resource.reports_type(final(self).entries().last().resource_kind@),
    {
        let size = resource.size();
        let kind = resource.resource_type();
        if size > usize::MAX - self.stats.total_used {
            let r = Err(NovaError::resource("Out of memory"));
            assert(insert_outcome(*old(self), *self, r, resource, size as nat, now));
            return r;
        }
        let r = self.insert_resource(resource, size, kind, now);
        assert(insert_outcome(*old(self), *self, r, resource, size as nat, now));
        r
    }

    /// The resource cached for a path, counting a cache hit when there is one.
    pub fn cached_handle(&mut self, path: &str) -> (r: Option<ResourceHandle>)
        requires
            old(self).wf(),
            old(self).stats_view().cache_hits < u64::MAX,
        ensures
            final(self).wf(),
            final(self).entries() == old(self).entries(),
            final(self).cache_view() == old(self).cache_view(),
            final(self).max_memory() == old(self).max_memory(),
            final(self).threshold() == old(self).threshold(),
            !caches_path(old(self).cache_view(), path@) ==> r is None && *final(self) == *old(self),
            caches_path(old(self).cache_view(), path@) ==> exists|i: int|
                0 <= i < old(self).cache_view().len() && (#[trigger] old(self).cache_view()[i]).path@ == path@
                    && r is Some && r->Some_0@ == old(self).cache_view()[i].id
                    && final(self).stats_view() == (MemoryStats {
                    cache_hits: (old(self).stats_view().cache_hits + 1) as u64,
                    ..old(self).stats_view()
                }),
    {
        let key = String::from_str(path);
        let mut i: usize = 0;
        while i < self.cache.len()
            invariant
                *self == *old(self),
                self.wf(),
                self.stats.cache_hits < u64::MAX,
                i <= self.cache@.len(),
                key@ == path@,
                forall|j: int| 0 <= j < i ==> self.cache@[j].path@ != path@,
            decreases self.cache@.len() - i,
        {
            if self.cache[i].path == key {
                let id = self.cache[i].id;
                self.stats.cache_hits = self.stats.cache_hits + 1;
                return Some(ResourceHandle { id });
            }
            i = i + 1;
        }
        None
    }

    /// Adds a resource loaded from a path and caches the path for it,
    /// counting a cache miss.
    pub fn insert_loaded(&mut self, path: &str, resource: R, now: u64) -> (r: NovaResult<ResourceHandle>)
        requires
            old(self).wf(),
            old(self).stats_view().resource_count < usize::MAX,
            old(self).stats_view().cache_misses < u64::MAX,
        ensures
            final(self).wf(),
            exists|n: usize| #[trigger] resource.size_is(n) && loaded_outcome(*old(self), *final(self), r, path@, resource, n as nat, now),
            r is Ok ==> resource.reports_type(final(self).entries().last().resource_kind@),
    {
        let ghost m0 = *self;
        let h = match self.create_resource(resource, now) {
            Ok(h) => h,
            Err(e) => {
                let r = Err(e);
                proof {
                    let n = choose|n: usize| #[trigger] resource.size_is(n) && insert_outcome(m0, *self, r, resource, n as nat, now);
                    assert(loaded_outcome(m0, *self, r, path@, resource, n as nat, now));
                }
                return r;
            },
        };
        let ghost m1 = *self;
        record_in_cache(&mut self.cache, path, h.id);
        self.stats.cache_misses = self.stats.cache_misses + 1;
        let r = Ok(h);
        proof {
            let n = choose|n: usize| #[trigger] resource.size_is(n) && insert_outcome(m0, m1, Ok::<ResourceHandle, NovaError>(h), resource, n as nat, now);
            assert(records(m0.cache_view(), self.cache_view(), path@, h@));
            assert(adds(m0, m1, h@, resource, n as nat, now) ==> adds(m0, *self, h@, resource, n as nat, now));
            assert(replaces(m0, m1, h@, resource, n as nat, now) ==> replaces(m0, *self, h@, resource, n as nat, now));
            assert(loaded_outcome(m0, *self, r, path@, resource, n as nat, now));
        }
        r
    }
}

impl<R: Resource> ResourceManager<R> {
    /// Loads a resource from a file: a cached path gives its resource back;
    /// otherwise the loader registered for the path's extension, in lower case,
    /// loads it and the resource is added and cached.
    pub fn load_resource<L: ResourceLoader<R>>(&mut self, path: &str, loaders: &LoaderRegistry<L>, now: u64) -> (r: NovaResult<ResourceHandle>)
        requires
            old(self).wf(),
            old(self).stats_view().resource_count < usize::MAX,
            loaders.wf(),
            old(self).stats_view().cache_hits < u64::MAX,
            old(self).stats_view().cache_misses < u64::MAX,
        ensures
            final(self).wf(),
            final(self).max_memory() == old(self).max_memory(),
            final(self).threshold() == old(self).threshold(),
            caches_path(old(self).cache_view(), path@) ==> exists|i: int|
                0 <= i < old(self).cache_view().len() && (#[trigger] old(self).cache_view()[i]).path@ == path@
                && r is Ok && r->Ok_0@ == old(self).cache_view()[i].id
                && final(self).entries() == old(self).entries()
                && final(self).cache_view() == old(self).cache_view()
                && final(self).stats_view() == (MemoryStats {
                    cache_hits: (old(self).stats_view().cache_hits + 1) as u64,
                    ..old(self).stats_view()
                }),
            !caches_path(old(self).cache_view(), path@) && path_extension(path@) is None ==> {
                &&& *final(self) == *old(self)
                &&& r == Err::<ResourceHandle, NovaError>(NovaError::Resource(r->Err_0->Resource_0))
                &&& r->Err_0->Resource_0@ == "No file extension found"@
            },
            !caches_path(old(self).cache_view(), path@) && path_extension(path@) is Some
                && !has_loader(loaders@, lowercase_of(path_extension(path@)->Some_0)) ==> {
                &&& *final(self) == *old(self)
                &&& r == Err::<ResourceHandle, NovaError>(NovaError::Resource(r->Err_0->Resource_0))
                &&& r->Err_0->Resource_0@ == "No loader registered for extension: "@ + lowercase_of(path_extension(path@)->Some_0)
            },
            !caches_path(old(self).cache_view(), path@) && path_extension(path@) is Some
                && has_loader(loaders@, lowercase_of(path_extension(path@)->Some_0)) ==> exists|i: int, lr: NovaResult<R>|
                #![trigger loaders@[i].1.loads(path@, lr)]
                0 <= i < loaders@.len() && loaders@[i].0@ == lowercase_of(path_extension(path@)->Some_0)
                && loaders@[i].1.loads(path@, lr)
                && match lr {
                    Err(e) => r == Err::<ResourceHandle, NovaError>(e) && *final(self) == *old(self),
                    Ok(res) => exists|n: usize| #[trigger] res.size_is(n)
                        && loaded_outcome(*old(self), *final(self), r, path@, res, n as nat, now),
                },
            !caches_path(old(self).cache_view(), path@) ==> path_extension(path@) == file_extension_of(path@),
            !caches_path(old(self).cache_view(), path@) && path_extension(path@) is Some && is_ascii_text(
                path_extension(path@)->Some_0,
            ) ==> lowercase_of(path_extension(path@)->Some_0) == ascii_lower(path_extension(path@)->Some_0),
    {
        if let Some(h) = self.cached_handle(path) {
            return Ok(h);
        }
        let ext = match file_extension(path) {
            Some(e) => e,
            None => {
                return Err(NovaError::resource("No file extension found"));
            },
        };
        let lower = lower_text(ext.as_str());
        let loader = match loaders.find(lower.as_str()) {
            Some(l) => l,
            None => {
                let msg = String::from_str("No loader registered for extension: ").concat(lower.as_str());
                return Err(NovaError::Resource(msg));
            },
        };
        let lr = loader.load(path);
        match lr {
            Err(e) => {
                return Err(e);
            },
            Ok(resource) => {
                let r = self.insert_loaded(path, resource, now);
                r
            },
        }
    }
}

/// Records that `path` was loaded as the resource `id`, replacing what the
/// cache held for that path.
fn record_in_cache(cache: &mut Vec<CacheEntry>, path: &str, id: u128)
    requires
        forall|a: int, b: int|
            0 <= a < b < old(cache)@.len() ==> #[trigger] old(cache)@[a].path@ != #[trigger] old(cache)@[b].path@,
    ensures
        forall|a: int, b: int|
            0 <= a < b < final(cache)@.len() ==> #[trigger] final(cache)@[a].path@ != #[trigger] final(cache)@[b].path@,
        records(old(cache)@, final(cache)@, path@, id),
{
    let key = String::from_str(path);
    let ghost c0 = cache@;
    let mut i: usize = 0;
    while i < cache.len()
        invariant
            cache@ == c0,
            c0 == old(cache)@,
            forall|a: int, b: int| 0 <= a < b < c0.len() ==> #[trigger] c0[a].path@ != #[trigger] c0[b].path@,
            i <= cache@.len(),
            key@ == path@,
            forall|j: int| 0 <= j < i ==> cache@[j].path@ != path@,
        decreases cache@.len() - i,
    {
        if cache[i].path == key {
            let mut entry = CacheEntry { path: key, id };
            cache.set_and_swap(i, &mut entry);
            proof {
                assert(c0[i as int].path@ == path@);
                assert forall|a: int, b: int| 0 <= a < b < cache@.len()
                    implies #[trigger] cache@[a].path@ != #[trigger] cache@[b].path@ by {
                    assert(c0[a].path@ != c0[b].path@);
                }
            }
            return;
        }
        i = i + 1;
    }
    cache.push(CacheEntry { path: key, id });
    proof {
        assert(cache@.drop_last() =~= c0);
        assert forall|a: int, b: int| 0 <= a < b < cache@.len()
            implies #[trigger] cache@[a].path@ != #[trigger] cache@[b].path@ by {
            if b < c0.len() {
                assert(c0[a].path@ != c0[b].path@);
            }
        }
    }
}

/// The statistics of a well-formed manager account for its resources: the
/// memory in use is the sum of their sizes and the count is their number, plus
/// what the resources replaced under a reused id took; with none replaced,
/// they account for exactly the held resources.
pub proof fn lemma_stats_match_entries<R>(m: &ResourceManager<R>)
    requires
        m.wf(),
    ensures
        m.stats_view().total_used == sizes_total(m.entries()) + m.lost_bytes(),
        m.stats_view().resource_count == m.entries().len() + m.lost_count(),
        m.lost_count() == 0 ==> m.stats_view().resource_count == m.entries().len(),
        m.lost_bytes() == 0 ==> m.stats_view().total_used == sizes_total(m.entries()),
        m.stats_view().total_allocated == m.max_memory(),
        forall|i: int| 0 <= i < m.entries().len() ==> (#[trigger] m.entries()[i]).ref_count >= 1,
        forall|i: int| 0 <= i < m.entries().len() ==> !collectable(#[trigger] m.entries()[i], 0),
{
}

/// A resource just added is the only one with its id, so looking up its
/// handle finds it.
pub proof fn lemma_added_is_found<R>(es: Seq<ResourceEntry<R>>, e: ResourceEntry<R>)
    requires
        !holds_id(es, e.id),
    ensures
        holds_id(es.push(e), e.id),
        forall|i: int| 0 <= i < es.push(e).len() && (#[trigger] es.push(e)[i]).id == e.id ==> i == es.len(),
{
    assert(es.push(e)[es.len() as int] == e);
    assert forall|i: int| 0 <= i < es.push(e).len() && (#[trigger] es.push(e)[i]).id == e.id implies i == es.len() by {
        if i < es.len() {
            assert(es.push(e)[i] == es[i]);
        }
    }
}

/// A resource just added is held once.
pub proof fn lemma_added_is_held<R>(base: ResourceManager<R>, m: ResourceManager<R>, id: u128, resource: R, size: nat, now: u64)
    requires
        base.wf(),
        adds(base, m, id, resource, size, now),
    ensures
        holding(base, m, id, 1),
{
    assert(m.entries().drop_last() =~= base.entries());
}

/// Taking a held resource once more raises its count by one and keeps the
/// memory in use.
pub proof fn lemma_take_held<R>(base: ResourceManager<R>, m: ResourceManager<R>, m2: ResourceManager<R>, id: u128, c: nat, now: u64)
    requires
        m.wf(),
        holding(base, m, id, c),
        c < usize::MAX,
        takes(m, m2, id, now),
    ensures
        holding(base, m2, id, c + 1),
        *m2.entries().last().resource == *m.entries().last().resource,
        m2.entries().last().size == m.entries().last().size,
{
    let i = choose|i: int| 0 <= i < m.entries().len() && (#[trigger] m.entries()[i]).id == id && {
        let e = m.entries()[i];
        &&& m2.entries() == m.entries().update(i, ResourceEntry { ref_count: (e.ref_count + 1) as usize, last_accessed: now, ..e })
        &&& m2.stats_view() == m.stats_view()
        &&& m2.cache_view() == m.cache_view()
    };
    let last = m.entries().len() - 1;
    if i != last {
        assert(m.resources@[i].id != m.resources@[last].id);
    }
    assert(m2.entries().drop_last() =~= m.entries().drop_last());
}

/// Releasing a resource held more than once lowers its count by one and keeps
/// the memory in use.
pub proof fn lemma_release_held<R>(base: ResourceManager<R>, m: ResourceManager<R>, m2: ResourceManager<R>, id: u128, c: nat)
    requires
        m.wf(),
        holding(base, m, id, c),
        c > 1,
        releases(m, m2, id),
    ensures
        holding(base, m2, id, (c - 1) as nat),
        *m2.entries().last().resource == *m.entries().last().resource,
        m2.entries().last().size == m.entries().last().size,
{
    let i = choose|i: int| 0 <= i < m.entries().len() && (#[trigger] m.entries()[i]).id == id && {
        let e = m.entries()[i];
        &&& m2.cache_view() == m.cache_view()
        &&& if e.ref_count == 1 {
            &&& m2.entries() == m.entries().remove(i)
            &&& m2.stats_view() == (MemoryStats {
                total_used: (m.stats_view().total_used - e.size) as usize,
                resource_count: (m.stats_view().resource_count - 1) as usize,
                ..m.stats_view()
            })
        } else {
            &&& m2.entries() == m.entries().update(i, ResourceEntry { ref_count: (e.ref_count - 1) as usize, ..e })
            &&& m2.stats_view() == m.stats_view()
        }
    };
    let last = m.entries().len() - 1;
    if i != last {
        assert(m.resources@[i].id != m.resources@[last].id);
    }
    assert(m2.entries().drop_last() =~= m.entries().drop_last());
}

/// Releasing the last reference to a resource removes it and gives back the
/// resources, the memory in use and the count of the manager before it was
/// added; its handle then finds nothing.
pub proof fn lemma_release_last<R>(base: ResourceManager<R>, m: ResourceManager<R>, m2: ResourceManager<R>, id: u128)
    requires
        m.wf(),
        holding(base, m, id, 1),
        releases(m, m2, id),
    ensures
        m2.entries() == base.entries(),
        !holds_id(m2.entries(), id),
        m2.stats_view().total_used == base.stats_view().total_used,
        m2.stats_view().resource_count == base.stats_view().resource_count,
{
    let i = choose|i: int| 0 <= i < m.entries().len() && (#[trigger] m.entries()[i]).id == id && {
        let e = m.entries()[i];
        &&& m2.cache_view() == m.cache_view()
        &&& if e.ref_count == 1 {
            &&& m2.entries() == m.entries().remove(i)
            &&& m2.stats_view() == (MemoryStats {
                total_used: (m.stats_view().total_used - e.size) as usize,
                resource_count: (m.stats_view().resource_count - 1) as usize,
                ..m.stats_view()
            })
        } else {
            &&& m2.entries() == m.entries().update(i, ResourceEntry { ref_count: (e.ref_count - 1) as usize, ..e })
            &&& m2.stats_view() == m.stats_view()
        }
    };
    let last = m.entries().len() - 1;
    if i != last {
        assert(m.resources@[i].id != m.resources@[last].id);
    }
    assert(m.entries().remove(last) =~= m.entries().drop_last());
}

/// The states `ms[0..=j]` of a take-and-release cycle: after `j` takes the
/// resource added in `ms[0]` is held `j + 1` times, unchanged.
#[verifier::spinoff_prover]
#[verifier::rlimit(40)]
proof fn lemma_cycle_takes<R>(base: ResourceManager<R>, ms: Seq<ResourceManager<R>>, id: u128, k: nat, nows: Seq<u64>, j: nat)
    requires
        ms.len() == 2 * k + 2,
        nows.len() == k,
        k + 1 < usize::MAX,
        j <= k,
        forall|i: int| 0 <= i < ms.len() ==> (#[trigger] ms[i]).wf(),
        holding(base, ms[0], id, 1),
        forall|i: int| 0 <= i < k ==> takes(#[trigger] ms[i], ms[i + 1], id, nows[i]),
    ensures
        holding(base, ms[j as int], id, j + 1),
        *ms[j as int].entries().last().resource == *ms[0].entries().last().resource,
        ms[j as int].entries().last().size == ms[0].entries().last().size,
    decreases j,
{
    if j > 0 {
        lemma_cycle_takes(base, ms, id, k, nows, (j - 1) as nat);
        let p = j - 1;
        assert(takes(ms[p], ms[p + 1], id, nows[p]));
        lemma_take_held(base, ms[p], ms[j as int], id, j, nows[p]);
    }
}

/// The states `ms[k..=k + j]` of a take-and-release cycle: held `k + 1`
/// times in `ms[k]`, after `j <= k` releases the resource is held
/// `k + 1 - j` times, unchanged.
#[verifier::spinoff_prover]
#[verifier::rlimit(40)]
proof fn lemma_cycle_releases<R>(base: ResourceManager<R>, ms: Seq<ResourceManager<R>>, id: u128, k: nat, j: nat)
    requires
        ms.len() == 2 * k + 2,
        k + 1 < usize::MAX,
        j <= k,
        forall|i: int| 0 <= i < ms.len() ==> (#[trigger] ms[i]).wf(),
        holding(base, ms[k as int], id, k + 1),
        *ms[k as int].entries().last().resource == *ms[0].entries().last().resource,
        ms[k as int].entries().last().size == ms[0].entries().last().size,
        forall|i: int| k <= i <= 2 * k ==> releases(#[trigger] ms[i], ms[i + 1], id),
    ensures
        holding(base, ms[(k + j) as int], id, (k + 1 - j) as nat),
        *ms[(k + j) as int].entries().last().resource == *ms[0].entries().last().resource,
        ms[(k + j) as int].entries().last().size == ms[0].entries().last().size,
    decreases j,
{
    if j > 0 {
        lemma_cycle_releases(base, ms, id, k, (j - 1) as nat);
        let p = k + j - 1;
        assert(releases(ms[p], ms[p + 1], id));
        lemma_release_held(base, ms[p], ms[(k + j) as int], id, (k + 2 - j) as nat);
    }
}

/// A resource added to a manager and then taken `k` times (each take a
/// successful `get_resource`) stays stored, with its memory and count, through
/// `k` releases; the release after those removes it and gives back the
/// resources, the memory in use and the count that the manager had before it
/// was added, and its handle then finds nothing to release.
pub proof fn lemma_take_release_cycle<R>(
    base: ResourceManager<R>,
    ms: Seq<ResourceManager<R>>,
    id: u128,
    resource: R,
    size: nat,
    now0: u64,
    k: nat,
    nows: Seq<u64>,
)
    requires
        base.wf(),
        ms.len() == 2 * k + 2,
        nows.len() == k,
        k + 1 < usize::MAX,
        forall|i: int| 0 <= i < ms.len() ==> (#[trigger] ms[i]).wf(),
        adds(base, ms[0], id, resource, size, now0),
        forall|i: int| 0 <= i < k ==> takes(#[trigger] ms[i], ms[i + 1], id, nows[i]),
        forall|i: int| k <= i <= 2 * k ==> releases(#[trigger] ms[i], ms[i + 1], id),
    ensures
        forall|i: int|
            0 <= i <= 2 * k ==> {
                &&& holds_id((#[trigger] ms[i]).entries(), id)
                &&& ms[i].entries().last().id == id
                &&& *ms[i].entries().last().resource == resource
                &&& ms[i].stats_view().total_used == base.stats_view().total_used + size
                &&& ms[i].stats_view().resource_count == base.stats_view().resource_count + 1
            },
        ms[(2 * k + 1) as int].entries() == base.entries(),
        !holds_id(ms[(2 * k + 1) as int].entries(), id),
        ms[(2 * k + 1) as int].stats_view().total_used == base.stats_view().total_used,
        ms[(2 * k + 1) as int].stats_view().resource_count == base.stats_view().resource_count,
        forall|m: ResourceManager<R>| !#[trigger] releases(ms[(2 * k + 1) as int], m, id),
{
    lemma_added_is_held(base, ms[0], id, resource, size, now0);
    assert forall|i: int| 0 <= i <= 2 * k implies {
        &&& holds_id((#[trigger] ms[i]).entries(), id)
        &&& ms[i].entries().last().id == id
        &&& *ms[i].entries().last().resource == resource
        &&& ms[i].stats_view().total_used == base.stats_view().total_used + size
        &&& ms[i].stats_view().resource_count == base.stats_view().resource_count + 1
    } by {
        if i <= k {
            lemma_cycle_takes(base, ms, id, k, nows, i as nat);
        } else {
            lemma_cycle_takes(base, ms, id, k, nows, k);
            lemma_cycle_releases(base, ms, id, k, (i - k) as nat);
            assert(k + (i - k) as nat == i);
        }
        let es = ms[i].entries();
        assert(es[es.len() - 1].id == id);
    }
    lemma_cycle_takes(base, ms, id, k, nows, k);
    lemma_cycle_releases(base, ms, id, k, k);
    assert(releases(ms[(2 * k) as int], ms[(2 * k + 1) as int], id));
    lemma_release_last(base, ms[(2 * k) as int], ms[(2 * k + 1) as int], id);
}

/// `Arc::clone`: another pointer to the same allocation, hence the same value.
#[verifier::external_body]
fn share<T>(a: &Arc<T>) -> (r: Arc<T>)
    ensures
        *r == **a,
{
    Arc::clone(a)
}

} // verus!
