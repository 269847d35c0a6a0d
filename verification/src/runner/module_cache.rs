//! The compiled components that a runner keeps.
use std::collections::VecDeque;

use vstd::hash_map::StringHashMap;
use vstd::prelude::*;
use vstd::string::*;
use wasmtime::component::Component;
use wasmtime::Engine;

use crate::module_queue;
use crate::text;

verus! {

/// The engine that components are compiled for.
#[verifier::external_type_specification]
#[verifier::external_body]
pub struct ExEngine(wasmtime::Engine);

/// A compiled component.
#[verifier::external_type_specification]
#[verifier::external_body]
pub struct ExComponent(wasmtime::component::Component);

/// Why a module could not be compiled.
#[verifier::external_type_specification]
#[verifier::external_body]
pub struct ExWasmError(wasmtime::Error);

/// The bytes that a component holds in compiled form.
pub uninterp spec fn compiled_from(component: Component) -> Seq<u8>;

/// The engine that a component was compiled by.
pub uninterp spec fn engine_of(component: Component) -> Engine;

/// The engine and the bytes of the compilation that ended in an error.
pub uninterp spec fn attempt_of(cause: wasmtime::Error) -> (Engine, Seq<u8>);

/// `wasmtime::component::Component::new`: compiles the bytes of a component with
/// an engine, or says why that failed. A component that comes out holds the bytes
/// that went in and belongs to the engine; an error is about just this engine and
/// these bytes. When it succeeds is left open: besides the bytes and the
/// configuration of the engine it takes memory that can be mapped and made
/// executable, and the lack of it is an error too.
#[verifier::external_body]
fn compile(engine: &Engine, wasm_bytes: &[u8]) -> (r: Result<Component, wasmtime::Error>)
    ensures
        match r {
            Ok(component) => {
                &&& compiled_from(component) == wasm_bytes@
                &&& engine_of(component) == *engine
            },
            Err(cause) => attempt_of(cause) == (*engine, wasm_bytes@),
        },
{
    Component::new(engine, wasm_bytes)
}

/// `<Component as Clone>::clone`: another handle on the same component.
#[verifier::external_body]
fn share(component: &Component) -> (r: Component)
    ensures
        r == *component,
{
    component.clone()
}

/// Why a component could not be had.
#[derive(Debug)]
pub struct CompileError {
    pub cause: wasmtime::Error,
}

/// What a cache holds.
#[verifier::ext_equal]
pub ghost struct CacheState {
    /// The services whose components are held, oldest first.
    pub order: Seq<Seq<char>>,
    pub components: Map<Seq<char>, Component>,
    pub capacity: nat,
}

impl CacheState {
    /// Each service in the order has a component and no other has; none stands
    /// twice; and there are no more than the capacity.
    pub open spec fn well_formed(self) -> bool {
        &&& module_queue::distinct(self.order)
        &&& forall|id: Seq<char>| #[trigger]
            self.order.contains(id) <==> self.components.contains_key(id)
        &&& self.order.len() <= self.capacity
    }

    /// After the component of a service has been used.
    pub open spec fn used(self, id: Seq<char>) -> CacheState {
        CacheState { order: module_queue::without(self.order, id).push(id), ..self }
    }

    /// After the oldest component has been evicted, where there is no room.
    pub open spec fn made_room(self) -> CacheState {
        if self.order.len() == self.capacity && self.order.len() > 0 {
            CacheState {
                order: self.order.drop_first(),
                components: self.components.remove(self.order[0]),
                ..self
            }
        } else {
            self
        }
    }

    /// After a component that was not held has been taken in. A cache without
    /// capacity takes none in.
    pub open spec fn admitted(self, id: Seq<char>, component: Component) -> CacheState {
        if self.capacity == 0 {
            self
        } else {
            let room = self.made_room();
            CacheState {
                order: room.order.push(id),
                components: room.components.insert(id, component),
                ..self
            }
        }
    }
}

/// A cache after services have been used one after the other, each of which
/// brings a component that is taken in where none is held.
pub open spec fn after_uses(
    cache: CacheState,
    used: Seq<Seq<char>>,
    brought: Seq<Component>,
) -> CacheState
    decreases used.len(),
{
    if used.len() == 0 {
        cache
    } else {
        let next = if cache.components.contains_key(used[0]) {
            cache.used(used[0])
        } else {
            cache.admitted(used[0], brought[0])
        };
        after_uses(next, used.drop_first(), brought.drop_first())
    }
}

/// A bounded FIFO cache of compiled components keyed by service id. With a
/// capacity of 0 it keeps none.
///
/// Mirrors the dispatcher's queue of loaded modules: when the cache is full, the
/// oldest entry is evicted to make room for the new one. Components that are
/// already cached are moved to the back (most recently used).
pub struct ModuleCache {
    engine: Engine,
    order: VecDeque<String>,
    components: StringHashMap<Component>,
    capacity: usize,
}

impl View for ModuleCache {
    type V = CacheState;

    closed spec fn view(&self) -> CacheState {
        CacheState {
            order: module_queue::names(self.order@),
            components: self.components@,
            capacity: self.capacity as nat,
        }
    }
}

impl ModuleCache {
    /// The engine that the cache compiles for.
    pub closed spec fn spec_engine(&self) -> Engine {
        self.engine
    }

    pub fn new(engine: Engine, capacity: usize) -> (cache: Self)
        ensures
            cache@ == (CacheState {
                order: Seq::empty(),
                components: Map::empty(),
                capacity: capacity as nat,
            }),
            cache@.well_formed(),
            cache.spec_engine() == engine,
    {
        let cache = ModuleCache {
            engine,
            order: VecDeque::new(),
            components: StringHashMap::new(),
            capacity,
        };
        assert(cache@.order =~= Seq::empty());
        cache
    }

    pub fn engine(&self) -> (engine: &Engine)
        ensures
            *engine == self.spec_engine(),
    {
        &self.engine
    }

    /// Gets a component from the cache, if it is there.
    pub fn get(&mut self, service_id: &str) -> (r: Option<Component>)
        ensures
            final(self).spec_engine() == old(self).spec_engine(),
            if old(self)@.components.contains_key(service_id@) {
                &&& r == Some(old(self)@.components[service_id@])
                &&& final(self)@ == old(self)@.used(service_id@)
            } else {
                r is None && final(self)@ == old(self)@
            },
    {
        let component = match self.components.get(service_id) {
            Some(component) => share(component),
            None => return None,
        };
        module_queue::take_out(&mut self.order, service_id);
        let ghost rest = self.order@;
        self.order.push_back(service_id.to_owned());
        assert(self@.order =~= module_queue::names(rest).push(service_id@));
        Some(component)
    }

    /// Takes a component in, evicting the oldest where there is no room. A cache
    /// without capacity is left as it is.
    pub fn insert(&mut self, service_id: &str, component: Component)
        ensures
            final(self).spec_engine() == old(self).spec_engine(),
            final(self)@ == old(self)@.admitted(service_id@, component),
    {
        if self.capacity == 0 {
            return;
        }
        if self.order.len() == self.capacity {
            if let Some(evicted) = self.order.pop_front() {
                self.components.remove(evicted.as_str());
                assert(self@.order =~= old(self)@.order.drop_first());
            }
        }
        assert(self@ == old(self)@.made_room());
        let ghost room = self.order@;
        self.order.push_back(service_id.to_owned());
        assert(self@.order =~= module_queue::names(room).push(service_id@));
        self.components.insert(service_id.to_owned(), component);
    }

    /// Takes in what came of compiling the component of a service: a component is
    /// inserted and given back, and an error leaves the cache as it was.
    pub fn settle(
        &mut self,
        service_id: &str,
        compiled: Result<Component, wasmtime::Error>,
    ) -> (r: Result<Component, CompileError>)
        ensures
            final(self).spec_engine() == old(self).spec_engine(),
            match compiled {
                Ok(component) => {
                    &&& r matches Ok(given)
                    &&& given == component
                    &&& final(self)@ == old(self)@.admitted(service_id@, component)
                },
                Err(cause) => {
                    &&& r matches Err(e)
                    &&& e.cause == cause
                    &&& final(self)@ == old(self)@
                },
            },
    {
        match compiled {
            Ok(component) => {
                self.insert(service_id, share(&component));
                Ok(component)
            },
            Err(cause) => Err(CompileError { cause }),
        }
    }

    /// Gets a compiled component from the cache, or compiles and inserts it. It
    /// fails only where the component is not cached and compiling these bytes with
    /// the engine of the cache failed.
    pub fn get_or_compile(
        &mut self,
        service_id: &str,
        wasm_bytes: &[u8],
    ) -> (r: Result<Component, CompileError>)
        ensures
            final(self).spec_engine() == old(self).spec_engine(),
            old(self)@.components.contains_key(service_id@) ==> {
                &&& r matches Ok(component)
                &&& component == old(self)@.components[service_id@]
                &&& final(self)@ == old(self)@.used(service_id@)
            },
            !old(self)@.components.contains_key(service_id@) ==> match r {
                Ok(component) => {
                    &&& compiled_from(component) == wasm_bytes@
                    &&& engine_of(component) == old(self).spec_engine()
                    &&& final(self)@ == old(self)@.admitted(service_id@, component)
                },
                Err(e) => {
                    &&& attempt_of(e.cause) == (old(self).spec_engine(), wasm_bytes@)
                    &&& final(self)@ == old(self)@
                },
            },
            old(self)@.well_formed() ==> final(self)@.well_formed(),
    {
        let ghost before = self@;
        if let Some(component) = self.get(service_id) {
            proof {
                if before.well_formed() {
                    law_cache_stays_well_formed(before, service_id@, component);
                }
            }
            return Ok(component);
        }
        let compiled = compile(&self.engine, wasm_bytes);
        proof {
            if before.well_formed() && compiled is Ok {
                law_cache_stays_well_formed(before, service_id@, compiled->Ok_0);
            }
        }
        self.settle(service_id, compiled)
    }
}

/// Using a component keeps a cache well formed, and so does taking one in that
/// was not held.
pub proof fn law_cache_stays_well_formed(cache: CacheState, id: Seq<char>, component: Component)
    requires
        cache.well_formed(),
    ensures
        cache.components.contains_key(id) ==> cache.used(id).well_formed(),
        !cache.components.contains_key(id) ==> cache.admitted(id, component).well_formed(),
{
    module_queue::lemma_without(cache.order, id);
    if cache.components.contains_key(id) {
        assert(cache.order.contains(id));
        module_queue::lemma_push(module_queue::without(cache.order, id), id);
    } else {
        assert(!cache.order.contains(id));
        let room = cache.made_room();
        if cache.order.len() == cache.capacity && cache.order.len() > 0 {
            module_queue::lemma_evicted(cache.order);
        }
        module_queue::lemma_push(room.order, id);
    }
}

/// The services in a cache follow the same rule as the dispatcher's queue of
/// loaded modules: using a service has the same effect on both.
pub proof fn law_cache_mirrors_queue(cache: CacheState, id: Seq<char>, component: Component)
    requires
        cache.well_formed(),
    ensures
        cache.components.contains_key(id) ==> cache.used(id).order == module_queue::after_use(
            cache.order,
            cache.capacity,
            id,
        ),
        !cache.components.contains_key(id) ==> cache.admitted(id, component).order
            == module_queue::after_use(cache.order, cache.capacity, id),
{
    module_queue::lemma_without(cache.order, id);
    assert(cache.order.contains(id) <==> cache.components.contains_key(id));
}

/// However long a runner is used, the services in its cache are those in the
/// dispatcher's queue of loaded modules for it, in the same order.
pub proof fn law_cache_keeps_mirroring_queue(
    cache: CacheState,
    used: Seq<Seq<char>>,
    brought: Seq<Component>,
)
    requires
        cache.well_formed(),
    ensures
        after_uses(cache, used, brought).order == module_queue::after_uses(
            cache.order,
            cache.capacity,
            used,
        ),
        after_uses(cache, used, brought).well_formed(),
    decreases used.len(),
{
    if used.len() > 0 {
        let id = used[0];
        law_cache_mirrors_queue(cache, id, brought[0]);
        law_cache_stays_well_formed(cache, id, brought[0]);
        let next = if cache.components.contains_key(id) {
            cache.used(id)
        } else {
            cache.admitted(id, brought[0])
        };
        law_cache_keeps_mirroring_queue(next, used.drop_first(), brought.drop_first());
    }
}

/// A component that a cache with capacity has taken in is what it gives for the
/// service, and the components of other services stay what they were, but for one
/// that may be evicted.
pub proof fn law_cache_gives_back(
    cache: CacheState,
    id: Seq<char>,
    component: Component,
    other: Seq<char>,
)
    requires
        cache.well_formed(),
        cache.capacity > 0,
        !cache.components.contains_key(id),
    ensures
        ({
            let after = cache.admitted(id, component);
            &&& after.components.contains_key(id)
            &&& after.components[id] == component
            &&& other != id && after.components.contains_key(other)
                ==> cache.components.contains_key(other) && after.components[other]
                == cache.components[other]
            &&& other != id && cache.components.contains_key(other) && other != cache.order[0]
                ==> after.components.contains_key(other)
        }),
{
}

/// Using a component changes none, only its place: it stands last, and the services
/// before it keep their order.
pub proof fn law_use_changes_only_the_order(
    before: Seq<Seq<char>>,
    id: Seq<char>,
    behind: Seq<Seq<char>>,
    components: Map<Seq<char>, Component>,
    capacity: nat,
)
    requires
        !before.contains(id),
    ensures
        ({
            let cache = CacheState { order: before.push(id) + behind, components, capacity };
            &&& cache.used(id).components == components
            &&& cache.used(id).capacity == capacity
            &&& cache.used(id).order == (before + behind).push(id)
        }),
{
    let order = before.push(id) + behind;
    module_queue::law_used_name_moves_to_the_back(before, id, behind, order.len());
    assert(order[before.len() as int] == id);
    let cache = CacheState { order, components, capacity };
    text::lemma_position(order, id);
    assert(cache.used(id).order =~= (before + behind).push(id));
}

/// A component that is taken in evicts the oldest exactly where the cache is full,
/// and no other; one without capacity takes none in.
pub proof fn law_what_is_evicted(
    cache: CacheState,
    id: Seq<char>,
    component: Component,
    other: Seq<char>,
)
    requires
        cache.well_formed(),
        !cache.components.contains_key(id),
        cache.components.contains_key(other),
    ensures
        ({
            let after = cache.admitted(id, component);
            &&& after.capacity == cache.capacity
            &&& cache.capacity == 0 ==> after == cache
            &&& cache.order.len() < cache.capacity ==> after.components.contains_key(other)
                && after.order == cache.order.push(id)
            &&& cache.order.len() == cache.capacity && cache.capacity > 0 ==> (
            after.components.contains_key(other) <==> other != cache.order[0]) && after.order
                == cache.order.drop_first().push(id)
        }),
{
    assert(cache.order.contains(other));
}

/// A cache in order holds a component for each service in its order and for no
/// other, none twice, and no more than its capacity.
pub proof fn law_what_well_formed_means(cache: CacheState, id: Seq<char>, i: int, j: int)
    requires
        cache.well_formed(),
    ensures
        cache.order.len() <= cache.capacity,
        cache.components.contains_key(id) <==> exists|k: int|
            0 <= k < cache.order.len() && #[trigger] cache.order[k] == id,
        0 <= i < j < cache.order.len() ==> cache.order[i] != cache.order[j],
{
    assert(cache.order.contains(id) <==> cache.components.contains_key(id));
}

} // verus!
