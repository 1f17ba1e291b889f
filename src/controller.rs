use crate::color::{frame_bytes, pack_colors, Color};
use crate::config::{build_strip, strip_from, EffectConfig, LedstripConfig, LedstripEffectConfig};
use crate::ledstrip::{strip_ok, EffectInterval, LedStrip, LedStripView, overwritten};
use std::collections::HashMap;
use vstd::prelude::*;

verus! {

broadcast use vstd::std_specs::hash::group_hash_axioms;

/// The two families of effects. An effect and the settings it is linked to
/// must belong to the same family.
#[derive(Clone, Copy, Debug, PartialEq, Eq, Structural)]
pub enum EffectKind {
    Lua,
    Native,
}

/// The kinds of device connection.
#[derive(Clone, Copy, Debug, PartialEq, Eq, Structural)]
pub enum ConnectionKind {
    Tcp,
    Usb,
}

/// One effect to run during a tick: paint LEDs `first..=last` of a strip.
#[derive(Clone, Copy, Debug, PartialEq, Eq, Structural)]
pub struct TickJob {
    pub strip_id: usize,
    pub effect_id: usize,
    pub settings_id: usize,
    pub first: usize,
    pub last: usize,
    pub kind: EffectKind,
}

/// An effect was linked to settings of the other family.
#[derive(Clone, Copy, Debug, PartialEq, Eq, Structural)]
pub struct KindMismatch {
    pub strip_id: usize,
    pub effect_id: usize,
}

/// One frame to hand to a connection.
#[derive(Debug)]
pub struct Frame {
    pub strip_id: usize,
    pub connection_id: usize,
    pub bytes: Vec<u8>,
}

/// The registry as mathematical values.
pub struct ControllerView {
    pub settings: Map<usize, EffectKind>,
    pub effects: Map<usize, EffectKind>,
    pub effect_settings: Map<usize, usize>,
    pub connections: Map<usize, ConnectionKind>,
    pub strips: Map<usize, LedStripView>,
    /// Strip ids in the order the strips were first added.
    pub order: Seq<usize>,
    pub strip_connections: Map<usize, usize>,
}

/// The job for one segment of strip `sid`, when the effect, its link and the
/// linked settings all exist.
pub open spec fn job_for(v: ControllerView, sid: usize, seg: (usize, EffectInterval)) -> Option<
    TickJob,
> {
    let eid = seg.0;
    if v.effects.contains_key(eid) && v.effect_settings.contains_key(eid)
        && v.settings.contains_key(v.effect_settings[eid]) {
        Some(
            TickJob {
                strip_id: sid,
                effect_id: eid,
                settings_id: v.effect_settings[eid],
                first: seg.1.0,
                last: seg.1.1,
                kind: v.effects[eid],
            },
        )
    } else {
        None
    }
}

/// The segment's effect and its settings exist but belong to different families.
pub open spec fn mismatched(v: ControllerView, seg: (usize, EffectInterval)) -> bool {
    kinds_differ(v, seg.0)
}

/// Effect `eid`, its link and its settings exist, and the effect and the
/// settings belong to different families.
pub open spec fn kinds_differ(v: ControllerView, eid: usize) -> bool {
    v.effects.contains_key(eid) && v.effect_settings.contains_key(eid) && v.settings.contains_key(
        v.effect_settings[eid],
    ) && v.effects[eid] != v.settings[v.effect_settings[eid]]
}

/// Jobs of one strip, segment by segment.
pub open spec fn strip_jobs(v: ControllerView, sid: usize, segs: Seq<(usize, EffectInterval)>) -> Seq<
    TickJob,
>
    decreases segs.len(),
{
    if segs.len() == 0 {
        Seq::empty()
    } else {
        let rest = strip_jobs(v, sid, segs.drop_last());
        match job_for(v, sid, segs.last()) {
            Some(j) => rest.push(j),
            None => rest,
        }
    }
}

/// Jobs of the strips in `order`, strip by strip.
pub open spec fn all_jobs(v: ControllerView, order: Seq<usize>) -> Seq<TickJob>
    decreases order.len(),
{
    if order.len() == 0 {
        Seq::empty()
    } else {
        all_jobs(v, order.drop_last()) + strip_jobs(v, order.last(), v.strips[order.last()].segments)
    }
}

/// Some segment of a strip in `order` has an effect whose settings are of the other family.
pub open spec fn has_mismatch(v: ControllerView, order: Seq<usize>) -> bool {
    exists|i: int, k: int|
        0 <= i < order.len() && 0 <= k < v.strips[order[i]].segments.len() && #[trigger] mismatched(
            v,
            v.strips[order[i]].segments[k],
        )
}

/// The bindings that survive a send: strip and connection both exist.
pub open spec fn live_bindings(v: ControllerView) -> Map<usize, usize> {
    Map::new(
        |k: usize|
            v.strips.contains_key(k) && v.strip_connections.contains_key(k)
                && v.connections.contains_key(v.strip_connections[k]),
        |k: usize| v.strip_connections[k],
    )
}

/// The strips of `order` that have a live binding, in that order.
pub open spec fn bound_in(order: Seq<usize>, live: Map<usize, usize>) -> Seq<usize>
    decreases order.len(),
{
    if order.len() == 0 {
        Seq::empty()
    } else if live.contains_key(order.last()) {
        bound_in(order.drop_last(), live).push(order.last())
    } else {
        bound_in(order.drop_last(), live)
    }
}

/// The registry after `add_connection(id, kind)`.
pub open spec fn with_connection(v: ControllerView, id: usize, kind: ConnectionKind) -> ControllerView {
    ControllerView { connections: v.connections.insert(id, kind), ..v }
}

/// The registry of settings, effects, strips and connections, and the links
/// between them.
pub struct Controller {
    settings: HashMap<usize, EffectKind>,
    effects: HashMap<usize, EffectKind>,
    effect_settings: HashMap<usize, usize>,
    connections: HashMap<usize, ConnectionKind>,
    led_strips: HashMap<usize, LedStrip>,
    strip_order: Vec<usize>,
    led_strip_connections: HashMap<usize, usize>,
    effects_registry: Vec<(String, Vec<usize>)>,
}

/// Ids registered under `path`: those of the last entry for it.
pub open spec fn ids_for(reg: Seq<(Seq<char>, Seq<usize>)>, path: Seq<char>) -> Seq<usize>
    decreases reg.len(),
{
    if reg.len() == 0 {
        Seq::empty()
    } else if reg.last().0 == path {
        reg.last().1
    } else {
        ids_for(reg.drop_last(), path)
    }
}

impl View for Controller {
    type V = ControllerView;

    closed spec fn view(&self) -> ControllerView {
        ControllerView {
            settings: self.settings@,
            effects: self.effects@,
            effect_settings: self.effect_settings@,
            connections: self.connections@,
            strips: self.led_strips@.map_values(|s: LedStrip| s@),
            order: self.strip_order@,
            strip_connections: self.led_strip_connections@,
        }
    }
}

/// Registry entries as mathematical values.
pub open spec fn registry_view(reg: Seq<(String, Vec<usize>)>) -> Seq<(Seq<char>, Seq<usize>)> {
    reg.map_values(|e: (String, Vec<usize>)| (e.0@, e.1@))
}

impl Controller {
    /// The registry's invariant: every strip is well formed and small enough
    /// that its frame fits in memory, and `order` lists each strip id once.
    pub closed spec fn wf(&self) -> bool {
        &&& forall|k: usize| #[trigger]
            self.led_strips@.contains_key(k) ==> self.led_strips@[k].wf() && 3
                * self.led_strips@[k]@.size <= usize::MAX
        &&& self.strip_order@.no_duplicates()
        &&& forall|k: usize| #[trigger]
            self.led_strips@.contains_key(k) <==> self.strip_order@.contains(k)
        &&& forall|i: int, j: int|
            0 <= i < j < self.effects_registry@.len() ==> (#[trigger] self.effects_registry@[i]).0@
                != (#[trigger] self.effects_registry@[j]).0@
    }

    /// `order` lists every strip of the registry exactly once.
    pub proof fn lemma_order_lists_strips(&self)
        requires
            self.wf(),
        ensures
            self@.order.no_duplicates(),
            forall|k: usize| self@.strips.contains_key(k) <==> #[trigger] self@.order.contains(k),
    {
        assert forall|k: usize| self@.strips.contains_key(k) <==> #[trigger] self@.order.contains(k) by {
            assert(self.led_strips@.contains_key(k) <==> self.strip_order@.contains(k));
        }
    }

    /// Effect ids registered under a canonical path, for hot reload.
    pub closed spec fn registered(&self, path: Seq<char>) -> Seq<usize> {
        ids_for(registry_view(self.effects_registry@), path)
    }

    /// An empty registry.
    pub fn new() -> (c: Controller)
        ensures
            c.wf(),
            c@.settings.is_empty(),
            c@.effects.is_empty(),
            c@.effect_settings.is_empty(),
            c@.connections.is_empty(),
            c@.strips.is_empty(),
            c@.order.len() == 0,
            c@.strip_connections.is_empty(),
            forall|p: Seq<char>| c.registered(p).len() == 0,
    {
        let c = Controller {
            settings: HashMap::new(),
            effects: HashMap::new(),
            effect_settings: HashMap::new(),
            connections: HashMap::new(),
            led_strips: HashMap::new(),
            strip_order: Vec::new(),
            led_strip_connections: HashMap::new(),
            effects_registry: Vec::new(),
        };
        proof {
            assert(c@.strips =~= Map::empty());
            assert forall|p: Seq<char>| c.registered(p).len() == 0 by {
                assert(registry_view(c.effects_registry@).len() == 0);
            }
        }
        c
    }

    /// Stores settings under `id`, replacing any earlier ones.
    pub fn add_settings(&mut self, id: usize, kind: EffectKind)
        requires
            old(self).wf(),
        ensures
            final(self).wf(),
            final(self)@ == (ControllerView { settings: old(self)@.settings.insert(id, kind), ..old(self)@ }),
            forall|p: Seq<char>| final(self).registered(p) == old(self).registered(p),
    {
        self.settings.insert(id, kind);
    }

    /// Links an effect to settings. Succeeds only when the settings exist.
    pub fn link_effect_to_settings(&mut self, effect_id: usize, settings_id: usize) -> (linked: bool)
        requires
            old(self).wf(),
        ensures
            final(self).wf(),
            linked == old(self)@.settings.contains_key(settings_id),
            linked ==> final(self)@ == (ControllerView {
                effect_settings: old(self)@.effect_settings.insert(effect_id, settings_id),
                ..old(self)@
            }),
            !linked ==> final(self)@ == old(self)@,
            forall|p: Seq<char>| final(self).registered(p) == old(self).registered(p),
    {
        if self.settings.contains_key(&settings_id) {
            self.effect_settings.insert(effect_id, settings_id);
            true
        } else {
            false
        }
    }

    /// Stores a connection under `id`, replacing any earlier one.
    pub fn add_connection(&mut self, id: usize, kind: ConnectionKind)
        requires
            old(self).wf(),
        ensures
            final(self).wf(),
            final(self)@ == with_connection(old(self)@, id, kind),
            forall|p: Seq<char>| final(self).registered(p) == old(self).registered(p),
    {
        self.connections.insert(id, kind);
    }

    /// The connection `id` exists.
    pub fn has_connection(&self, id: usize) -> (r: bool)
        ensures
            r == self@.connections.contains_key(id),
    {
        self.connections.contains_key(&id)
    }

    /// Stores a strip under `id`, replacing any earlier one.
    pub fn add_led_strip(&mut self, id: usize, strip: LedStrip)
        requires
            old(self).wf(),
            strip.wf(),
            3 * strip@.size <= usize::MAX,
        ensures
            final(self).wf(),
            final(self)@.strips == old(self)@.strips.insert(id, strip@),
            final(self)@.order == (if old(self)@.strips.contains_key(id) {
                old(self)@.order
            } else {
                old(self)@.order.push(id)
            }),
            final(self)@ == (ControllerView {
                strips: final(self)@.strips,
                order: final(self)@.order,
                ..old(self)@
            }),
            forall|p: Seq<char>| final(self).registered(p) == old(self).registered(p),
    {
        if !self.led_strips.contains_key(&id) {
            proof {
                assert(!self.strip_order@.contains(id));
            }
            self.strip_order.push(id);
        }
        let ghost sv = strip@;
        self.led_strips.insert(id, strip);
        proof {
            assert(self@.strips =~= old(self)@.strips.insert(id, sv));
            assert forall|k: usize| #[trigger]
                self.led_strips@.contains_key(k) <==> self.strip_order@.contains(k) by {
                let o = old(self).strip_order@;
                let n = self.strip_order@;
                assert(n == o || n == o.push(id));
                assert(old(self).led_strips@.contains_key(k) <==> o.contains(k));
                if o.contains(k) {
                    let j = choose|j: int| 0 <= j < o.len() && o[j] == k;
                    assert(n[j] == k);
                }
                if n.contains(k) && k != id {
                    let j = choose|j: int| 0 <= j < n.len() && n[j] == k;
                    assert(j < o.len());
                    assert(o[j] == k);
                }
                if k == id && n != o {
                    assert(n[n.len() - 1] == id);
                }
            }
        }
    }

    /// Binds a strip to a connection. Succeeds only when the connection exists.
    pub fn link_led_strip_to_connection(&mut self, strip_id: usize, connection_id: usize) -> (linked: bool)
        requires
            old(self).wf(),
        ensures
            final(self).wf(),
            linked == old(self)@.connections.contains_key(connection_id),
            linked ==> final(self)@ == (ControllerView {
                strip_connections: old(self)@.strip_connections.insert(strip_id, connection_id),
                ..old(self)@
            }),
            !linked ==> final(self)@ == old(self)@,
            forall|p: Seq<char>| final(self).registered(p) == old(self).registered(p),
    {
        if self.connections.contains_key(&connection_id) {
            self.led_strip_connections.insert(strip_id, connection_id);
            true
        } else {
            false
        }
    }
}

/// Every id in `ids` names an effect of family `kind`.
pub open spec fn all_of_kind(v: ControllerView, ids: Seq<usize>, kind: EffectKind) -> bool {
    forall|i: int|
        0 <= i < ids.len() ==> v.effects.contains_key(#[trigger] ids[i]) && v.effects[ids[i]] == kind
}

/// The family in which effects loaded from one file are reloaded: script
/// effects when all are scripted, else native when all are native.
pub open spec fn family_of(v: ControllerView, ids: Seq<usize>) -> Option<EffectKind> {
    if all_of_kind(v, ids, EffectKind::Lua) {
        Some(EffectKind::Lua)
    } else if all_of_kind(v, ids, EffectKind::Native) {
        Some(EffectKind::Native)
    } else {
        None
    }
}

proof fn lemma_ids_for_update(
    reg: Seq<(Seq<char>, Seq<usize>)>,
    i: int,
    p: Seq<char>,
    x: Seq<usize>,
)
    requires
        0 <= i < reg.len(),
        reg[i].0 == p,
        forall|j: int| i < j < reg.len() ==> (#[trigger] reg[j]).0 != p,
    ensures
        forall|q: Seq<char>| #[trigger]
            ids_for(reg.update(i, (p, x)), q) == if q == p {
                x
            } else {
                ids_for(reg, q)
            },
    decreases reg.len(),
{
    let u = reg.update(i, (p, x));
    assert(u.drop_last() =~= if i == reg.len() - 1 {
        reg.drop_last()
    } else {
        reg.drop_last().update(i, (p, x))
    });
    if i < reg.len() - 1 {
        lemma_ids_for_update(reg.drop_last(), i, p, x);
    }
    assert forall|q: Seq<char>| #[trigger]
        ids_for(u, q) == if q == p {
            x
        } else {
            ids_for(reg, q)
        } by {
        if i < reg.len() - 1 {
            assert(reg[reg.len() - 1].0 != p);
            assert(u.last() == reg.last());
            let d = reg.drop_last().update(i, (p, x));
            assert(u.drop_last() == d);
            assert(ids_for(d, q) == if q == p {
                x
            } else {
                ids_for(reg.drop_last(), q)
            });
            if q != reg.last().0 {
                assert(ids_for(u, q) == ids_for(d, q));
                assert(ids_for(reg, q) == ids_for(reg.drop_last(), q));
            }
        } else {
            assert(u.last() == (p, x));
            assert(reg.last().0 == p);
        }
    }
}

proof fn lemma_ids_for_absent(reg: Seq<(Seq<char>, Seq<usize>)>, p: Seq<char>)
    requires
        forall|j: int| 0 <= j < reg.len() ==> (#[trigger] reg[j]).0 != p,
    ensures
        ids_for(reg, p).len() == 0,
    decreases reg.len(),
{
    if reg.len() > 0 {
        assert(reg[reg.len() - 1].0 != p);
        lemma_ids_for_absent(reg.drop_last(), p);
    }
}

fn copy_ids(ids: &Vec<usize>) -> (r: Vec<usize>)
    ensures
        r@ == ids@,
{
    let mut r: Vec<usize> = Vec::new();
    let mut i: usize = 0;
    while i < ids.len()
        invariant
            i <= ids.len(),
            r@ == ids@.take(i as int),
        decreases ids.len() - i,
    {
        r.push(ids[i]);
        proof {
            assert(r@ =~= ids@.take(i + 1));
        }
        i = i + 1;
    }
    proof {
        assert(ids@.take(ids.len() as int) =~= ids@);
    }
    r
}

impl Controller {
    /// Index of the last registry entry for `path`, if any.
    fn find_path(&self, path: &String) -> (r: Option<usize>)
        ensures
            match r {
                Some(i) => i < self.effects_registry@.len() && self.effects_registry@[i as int].0@
                    == path@ && forall|j: int|
                    i < j < self.effects_registry@.len() ==> (#[trigger] self.effects_registry@[j]).0@
                        != path@,
                None => forall|j: int|
                    0 <= j < self.effects_registry@.len() ==> (#[trigger] self.effects_registry@[j]).0@
                        != path@,
            },
    {
        let mut i: usize = self.effects_registry.len();
        while i > 0
            invariant
                i <= self.effects_registry@.len(),
                forall|j: int|
                    i <= j < self.effects_registry@.len() ==> (#[trigger] self.effects_registry@[j]).0@
                        != path@,
            decreases i,
        {
            if self.effects_registry[i - 1].0 == *path {
                return Some(i - 1);
            }
            i = i - 1;
        }
        None
    }

    /// Effect ids registered under a canonical path.
    pub fn effects_for_path(&self, path: &String) -> (r: Vec<usize>)
        ensures
            r@ == self.registered(path@),
    {
        let ghost reg = registry_view(self.effects_registry@);
        match self.find_path(path) {
            Some(i) => {
                proof {
                    assert(reg.update(i as int, (path@, reg[i as int].1)) =~= reg);
                    lemma_ids_for_update(reg, i as int, path@, reg[i as int].1);
                }
                copy_ids(&self.effects_registry[i].1)
            },
            None => {
                proof {
                    lemma_ids_for_absent(reg, path@);
                }
                Vec::new()
            },
        }
    }

    /// Adds an effect of family `kind` loaded from the canonical `path`.
    /// Refuses, changing nothing, when `id` is already taken; otherwise also
    /// records `id` under `path` for hot reload.
    pub fn add_effect(&mut self, id: usize, path: &String, kind: EffectKind) -> (added: bool)
        requires
            old(self).wf(),
        ensures
            final(self).wf(),
            added == !old(self)@.effects.contains_key(id),
            added ==> final(self)@ == (ControllerView {
                effects: old(self)@.effects.insert(id, kind),
                ..old(self)@
            }),
            added ==> forall|q: Seq<char>| #[trigger]
                final(self).registered(q) == if q == path@ {
                    old(self).registered(q).push(id)
                } else {
                    old(self).registered(q)
                },
            !added ==> final(self)@ == old(self)@,
            !added ==> forall|q: Seq<char>| final(self).registered(q) == old(self).registered(q),
    {
        if self.effects.contains_key(&id) {
            return false;
        }
        self.effects.insert(id, kind);
        let ghost reg = registry_view(self.effects_registry@);
        match self.find_path(path) {
            Some(i) => {
                let mut ids = copy_ids(&self.effects_registry[i].1);
                ids.push(id);
                let entry_path = self.effects_registry[i].0.clone();
                let ghost x = ids@;
                self.effects_registry.set(i, (entry_path, ids));
                proof {
                    assert(registry_view(self.effects_registry@) =~= reg.update(i as int, (path@, x)));
                    lemma_ids_for_update(reg, i as int, path@, x);
                    assert(reg.update(i as int, (path@, reg[i as int].1)) =~= reg);
                    lemma_ids_for_update(reg, i as int, path@, reg[i as int].1);
                }
            },
            None => {
                let mut ids: Vec<usize> = Vec::new();
                ids.push(id);
                let ghost x = ids@;
                self.effects_registry.push((path.clone(), ids));
                proof {
                    assert(registry_view(self.effects_registry@) =~= reg.push((path@, x)));
                    assert(reg.push((path@, x)).drop_last() =~= reg);
                    lemma_ids_for_absent(reg, path@);
                    assert(x =~= Seq::<usize>::empty().push(id));
                }
            },
        }
        true
    }

    /// The family in which the effects `ids`, loaded from one file, are
    /// reloaded; `None` when they are of mixed families.
    pub fn reload_family(&self, ids: &Vec<usize>) -> (r: Option<EffectKind>)
        ensures
            r == family_of(self@, ids@),
    {
        let mut all_lua = true;
        let mut all_native = true;
        let mut i: usize = 0;
        while i < ids.len()
            invariant
                i <= ids.len(),
                all_lua == all_of_kind(self@, ids@.take(i as int), EffectKind::Lua),
                all_native == all_of_kind(self@, ids@.take(i as int), EffectKind::Native),
            decreases ids.len() - i,
        {
            let id = ids[i];
            let ghost t = ids@.take(i + 1);
            proof {
                assert(t[i as int] == id);
                assert forall|j: int| 0 <= j < i implies t[j] == ids@.take(i as int)[j] by {}
            }
            match self.effects.get(&id) {
                Some(k) => {
                    if *k != EffectKind::Lua {
                        all_lua = false;
                    }
                    if *k != EffectKind::Native {
                        all_native = false;
                    }
                },
                None => {
                    all_lua = false;
                    all_native = false;
                },
            }
            i = i + 1;
        }
        proof {
            assert(ids@.take(ids.len() as int) =~= ids@);
        }
        if all_lua {
            Some(EffectKind::Lua)
        } else if all_native {
            Some(EffectKind::Native)
        } else {
            None
        }
    }
}

impl Controller {
    /// The jobs of one tick: for every strip, in the order strips were added,
    /// and every segment of it, in order, the segment's effect with its
    /// settings. A segment whose effect, link or settings is missing is
    /// skipped. Fails when an effect is linked to settings of the other family.
    fn plan_tick(&self) -> (r: Result<Vec<TickJob>, KindMismatch>)
        requires
            self.wf(),
        ensures
            r is Err <==> has_mismatch(self@, self@.order),
            r matches Ok(jobs) ==> jobs@ == all_jobs(self@, self@.order),
            r matches Err(e) ==> kinds_differ(self@, e.effect_id) && self@.strips.contains_key(
                e.strip_id,
            ),
    {
        let ghost v = self@;
        let mut jobs: Vec<TickJob> = Vec::new();
        let mut i: usize = 0;
        while i < self.strip_order.len()
            invariant
                self.wf(),
                v == self@,
                i <= v.order.len(),
                jobs@ == all_jobs(v, v.order.take(i as int)),
                forall|a: int, k: int|
                    0 <= a < i && 0 <= k < v.strips[v.order[a]].segments.len() ==> !#[trigger] mismatched(
                        v,
                        v.strips[v.order[a]].segments[k],
                    ),
            decreases v.order.len() - i,
        {
            let sid = self.strip_order[i];
            proof {
                assert(v.order.contains(sid)) by {
                    assert(v.order[i as int] == sid);
                }
            }
            let strip = match self.led_strips.get(&sid) {
                Some(s) => s,
                None => {
                    proof {
                        assert(false);
                    }
                    return Err(KindMismatch { strip_id: sid, effect_id: 0 });
                },
            };
            let segs = strip.effects();
            let ghost before = jobs@;
            let mut k: usize = 0;
            while k < segs.len()
                invariant
                    v == self@,
                    v.strips[sid] == strip@,
                    segs@ == strip@.segments,
                    v.strips.contains_key(sid),
                    i < v.order.len(),
                    v.order[i as int] == sid,
                    k <= segs.len(),
                    jobs@ == before + strip_jobs(v, sid, segs@.take(k as int)),
                    forall|b: int| 0 <= b < k ==> !#[trigger] mismatched(v, segs@[b]),
                decreases segs.len() - k,
            {
                let seg = segs[k];
                let eid = seg.0;
                proof {
                    assert(segs@.take(k + 1).drop_last() =~= segs@.take(k as int));
                    assert(segs@.take(k + 1).last() == seg);
                }
                if let Some(kind) = self.effects.get(&eid) {
                    if let Some(settings_id) = self.effect_settings.get(&eid) {
                        if let Some(settings_kind) = self.settings.get(settings_id) {
                            if *kind != *settings_kind {
                                proof {
                                    assert(mismatched(v, v.strips[v.order[i as int]].segments[k as int]));
                                }
                                return Err(KindMismatch { strip_id: sid, effect_id: eid });
                            }
                            jobs.push(
                                TickJob {
                                    strip_id: sid,
                                    effect_id: eid,
                                    settings_id: *settings_id,
                                    first: seg.1.0,
                                    last: seg.1.1,
                                    kind: *kind,
                                },
                            );
                        }
                    }
                }
                proof {
                    assert(jobs@ =~= before + strip_jobs(v, sid, segs@.take(k + 1)));
                }
                k = k + 1;
            }
            proof {
                assert(segs@.take(segs.len() as int) =~= segs@);
                assert(v.order.take(i + 1).drop_last() =~= v.order.take(i as int));
                assert(v.order.take(i + 1).last() == sid);
                assert(jobs@ =~= all_jobs(v, v.order.take(i + 1)));
            }
            i = i + 1;
        }
        proof {
            assert(v.order.take(v.order.len() as int) =~= v.order);
        }
        Ok(jobs)
    }

    /// Looks for an effect linked to settings of the other family, among the
    /// segments of all strips.
    pub fn find_mismatch(&self) -> (r: Option<KindMismatch>)
        requires
            self.wf(),
        ensures
            r is Some <==> has_mismatch(self@, self@.order),
            r matches Some(e) ==> kinds_differ(self@, e.effect_id) && self@.strips.contains_key(
                e.strip_id,
            ),
    {
        match self.plan_tick() {
            Ok(_) => None,
            Err(e) => Some(e),
        }
    }

    /// The jobs of one tick: for every strip, in the order strips were added,
    /// and every segment of it, in order, the segment's effect with its
    /// settings. A segment whose effect, link or settings is missing is
    /// skipped. An effect linked to settings of the other family is a
    /// programming error that callers rule out first (`find_mismatch`).
    pub fn update_led_strips(&self) -> (jobs: Vec<TickJob>)
        requires
            self.wf(),
            !has_mismatch(self@, self@.order),
        ensures
            jobs@ == all_jobs(self@, self@.order),
            self@.order.no_duplicates(),
            forall|k: usize| self@.strips.contains_key(k) <==> #[trigger] self@.order.contains(k),
    {
        proof {
            self.lemma_order_lists_strips();
        }
        match self.plan_tick() {
            Ok(jobs) => jobs,
            Err(_) => {
                proof {
                    assert(false);
                }
                Vec::new()
            },
        }
    }

    /// Writes `colors` into strip `strip_id` from LED `first` on. Does nothing
    /// and answers false when the strip is missing or the colours would not fit.
    pub fn write_strip_segment(&mut self, strip_id: usize, first: usize, colors: &Vec<Color>) -> (written: bool)
        requires
            old(self).wf(),
        ensures
            final(self).wf(),
            written == (old(self)@.strips.contains_key(strip_id) && first + colors@.len()
                <= old(self)@.strips[strip_id].size),
            written ==> final(self)@ == (ControllerView {
                strips: old(self)@.strips.insert(
                    strip_id,
                    LedStripView {
                        colors: overwritten(old(self)@.strips[strip_id].colors, first as int, colors@),
                        ..old(self)@.strips[strip_id]
                    },
                ),
                ..old(self)@
            }),
            !written ==> final(self)@ == old(self)@,
            forall|p: Seq<char>| final(self).registered(p) == old(self).registered(p),
    {
        let mut strip = match self.led_strips.remove(&strip_id) {
            Some(s) => s,
            None => {
                proof {
                    assert(self.led_strips@ =~= old(self).led_strips@);
                    assert(self@.strips =~= old(self)@.strips);
                }
                return false;
            },
        };
        let ghost sv = strip@;
        if first > strip.size() || colors.len() > strip.size() - first {
            self.led_strips.insert(strip_id, strip);
            proof {
                assert(self.led_strips@ =~= old(self).led_strips@);
            }
            return false;
        }
        strip.write_segment(first, colors);
        let ghost nv = strip@;
        self.led_strips.insert(strip_id, strip);
        proof {
            assert(self@.strips =~= old(self)@.strips.insert(strip_id, nv));
            assert forall|k: usize| #[trigger]
                self.led_strips@.contains_key(k) <==> self.strip_order@.contains(k) by {
                assert(old(self).led_strips@.contains_key(k) <==> old(self).strip_order@.contains(k));
            }
        }
        true
    }

    /// The frames of one tick: one for each strip, in the order strips were
    /// added, whose binding names an existing connection, holding the strip's
    /// colours as packed bytes. Bindings whose strip or connection is gone are
    /// dropped.
    pub fn send_ledstrip_colors(&mut self) -> (frames: Vec<Frame>)
        requires
            old(self).wf(),
        ensures
            final(self).wf(),
            final(self)@ == (ControllerView { strip_connections: live_bindings(old(self)@), ..old(self)@ }),
            frames@.len() == bound_in(old(self)@.order, live_bindings(old(self)@)).len(),
            bound_in(old(self)@.order, live_bindings(old(self)@)).no_duplicates(),
            forall|k: usize|
                live_bindings(old(self)@).contains_key(k) <==> #[trigger] bound_in(
                    old(self)@.order,
                    live_bindings(old(self)@),
                ).contains(k),
            forall|i: int|
                0 <= i < frames@.len() ==> {
                    let sid = bound_in(old(self)@.order, live_bindings(old(self)@))[i];
                    &&& (#[trigger] frames@[i]).strip_id == sid
                    &&& frames@[i].connection_id == live_bindings(old(self)@)[sid]
                    &&& frames@[i].bytes@ == frame_bytes(old(self)@.strips[sid].colors)
                },
            forall|p: Seq<char>| final(self).registered(p) == old(self).registered(p),
    {
        let ghost v = self@;
        let ghost live = live_bindings(v);
        proof {
            self.lemma_order_lists_strips();
            lemma_one_frame_per_binding(v.order, live);
        }
        let mut kept: HashMap<usize, usize> = HashMap::new();
        let mut frames: Vec<Frame> = Vec::new();
        let mut i: usize = 0;
        while i < self.strip_order.len()
            invariant
                self.wf(),
                v == self@,
                live == live_bindings(v),
                i <= v.order.len(),
                forall|k: usize| #[trigger]
                    kept@.contains_key(k) <==> (v.order.take(i as int).contains(k) && live.contains_key(k)),
                forall|k: usize| #[trigger] kept@.contains_key(k) ==> kept@[k] == live[k],
                frames@.len() == bound_in(v.order.take(i as int), live).len(),
                forall|j: int|
                    0 <= j < frames@.len() ==> {
                        let sid = bound_in(v.order.take(i as int), live)[j];
                        &&& (#[trigger] frames@[j]).strip_id == sid
                        &&& frames@[j].connection_id == live[sid]
                        &&& frames@[j].bytes@ == frame_bytes(v.strips[sid].colors)
                    },
            decreases v.order.len() - i,
        {
            let sid = self.strip_order[i];
            let ghost pre = v.order.take(i as int);
            let ghost post = v.order.take(i + 1);
            proof {
                assert(post.drop_last() =~= pre);
                assert(post.last() == sid);
                assert(v.order.contains(sid)) by {
                    assert(v.order[i as int] == sid);
                }
                assert(!pre.contains(sid)) by {
                    if pre.contains(sid) {
                        let j = choose|j: int| 0 <= j < pre.len() && pre[j] == sid;
                        assert(v.order[j] == v.order[i as int]);
                    }
                }
            }
            let ghost old_frames = frames@;
            if let Some(cid) = self.led_strip_connections.get(&sid) {
                if self.connections.contains_key(cid) {
                    if let Some(strip) = self.led_strips.get(&sid) {
                        let bytes = pack_colors(strip.colors());
                        frames.push(Frame { strip_id: sid, connection_id: *cid, bytes });
                        kept.insert(sid, *cid);
                    }
                }
            }
            proof {
                assert forall|k: usize| #[trigger]
                    kept@.contains_key(k) <==> (post.contains(k) && live.contains_key(k)) by {
                    if k != sid {
                        if pre.contains(k) {
                            let j = choose|j: int| 0 <= j < pre.len() && pre[j] == k;
                            assert(post[j] == k);
                        }
                        if post.contains(k) {
                            let j = choose|j: int| 0 <= j < post.len() && post[j] == k;
                            assert(pre[j] == k);
                        }
                    } else {
                        assert(post[i as int] == sid);
                    }
                }
                assert forall|j: int|
                    0 <= j < frames@.len() implies {
                        let s = bound_in(post, live)[j];
                        &&& (#[trigger] frames@[j]).strip_id == s
                        &&& frames@[j].connection_id == live[s]
                        &&& frames@[j].bytes@ == frame_bytes(v.strips[s].colors)
                    } by {
                    if j < old_frames.len() {
                        assert(frames@[j] == old_frames[j]);
                    }
                }
            }
            i = i + 1;
        }
        proof {
            assert(v.order.take(v.order.len() as int) =~= v.order);
            assert(kept@ =~= live);
        }
        self.led_strip_connections = kept;
        proof {
            assert(self@ =~= (ControllerView { strip_connections: live, ..v }));
        }
        frames
    }

    /// A frame could not be handed to its connection: the connection is
    /// evicted and the strip unbound.
    pub fn report_send_failure(&mut self, strip_id: usize, connection_id: usize)
        requires
            old(self).wf(),
        ensures
            final(self).wf(),
            final(self)@ == (ControllerView {
                connections: old(self)@.connections.remove(connection_id),
                strip_connections: old(self)@.strip_connections.remove(strip_id),
                ..old(self)@
            }),
            forall|p: Seq<char>| final(self).registered(p) == old(self).registered(p),
    {
        self.connections.remove(&connection_id);
        self.led_strip_connections.remove(&strip_id);
    }
}

impl Controller {
    /// A copy of LEDs `first..=last` of strip `strip_id`, or `None` when the
    /// strip is missing or the range does not lie in it.
    pub fn strip_colors(&self, strip_id: usize, first: usize, last: usize) -> (r: Option<Vec<Color>>)
        requires
            self.wf(),
        ensures
            r is Some <==> (self@.strips.contains_key(strip_id) && first <= last + 1 && last
                < self@.strips[strip_id].size),
            r matches Some(v) ==> v@ == self@.strips[strip_id].colors.subrange(first as int, last + 1),
    {
        match self.led_strips.get(&strip_id) {
            Some(strip) => {
                if first > last && first - last != 1 || last >= strip.size() {
                    None
                } else {
                    Some(strip.segment_colors(first, last))
                }
            },
            None => None,
        }
    }
}

/// The paths, in order and each once, under which effects are registered.
pub open spec fn paths_to_reload(c: &Controller, paths: Seq<Seq<char>>) -> Seq<Seq<char>>
    decreases paths.len(),
{
    if paths.len() == 0 {
        Seq::empty()
    } else {
        let rest = paths_to_reload(c, paths.drop_last());
        if c.registered(paths.last()).len() > 0 && !paths.drop_last().contains(paths.last()) {
            rest.push(paths.last())
        } else {
            rest
        }
    }
}

/// The effects loaded from one changed file, to be reloaded together.
pub struct ReloadBatch {
    pub path: String,
    pub effect_ids: Vec<usize>,
    /// The family to reload them in; `None` when they are of mixed families
    /// and the reload must be skipped.
    pub family: Option<EffectKind>,
}

impl Controller {
    /// Groups changed files (canonical paths) into reload batches: one per
    /// distinct path that has effects registered, in the order of first
    /// appearance.
    pub fn reload_batches(&self, paths: &Vec<String>) -> (r: Vec<ReloadBatch>)
        ensures
            r@.len() == paths_to_reload(self, paths@.map_values(|p: String| p@)).len(),
            forall|i: int|
                0 <= i < r@.len() ==> {
                    let p = paths_to_reload(self, paths@.map_values(|p: String| p@))[i];
                    &&& (#[trigger] r@[i]).path@ == p
                    &&& r@[i].effect_ids@ == self.registered(p)
                    &&& r@[i].family == family_of(self@, self.registered(p))
                },
    {
        let ghost ps = paths@.map_values(|p: String| p@);
        let mut r: Vec<ReloadBatch> = Vec::new();
        let mut i: usize = 0;
        while i < paths.len()
            invariant
                i <= paths@.len(),
                ps == paths@.map_values(|p: String| p@),
                r@.len() == paths_to_reload(self, ps.take(i as int)).len(),
                forall|j: int|
                    0 <= j < r@.len() ==> {
                        let p = paths_to_reload(self, ps.take(i as int))[j];
                        &&& (#[trigger] r@[j]).path@ == p
                        &&& r@[j].effect_ids@ == self.registered(p)
                        &&& r@[j].family == family_of(self@, self.registered(p))
                    },
            decreases paths@.len() - i,
        {
            let path = &paths[i];
            proof {
                assert(ps.take(i + 1).drop_last() =~= ps.take(i as int));
                assert(ps.take(i + 1).last() == path@);
            }
            let mut seen = false;
            let mut k: usize = 0;
            while k < i
                invariant
                    k <= i,
                    i < paths@.len(),
                    ps == paths@.map_values(|p: String| p@),
                    path@ == ps[i as int],
                    seen == exists|x: int| 0 <= x < k && ps[x] == path@,
                decreases i - k,
            {
                let ghost was = seen;
                if paths[k] == *path {
                    seen = true;
                }
                proof {
                    if ps[k as int] == path@ {
                        assert(0 <= k < k + 1 && ps[k as int] == path@);
                    } else if was {
                        let x = choose|x: int| 0 <= x < k && ps[x] == path@;
                        assert(0 <= x < k + 1 && ps[x] == path@);
                    }
                }
                k = k + 1;
            }
            proof {
                let pre = ps.take(i as int);
                assert(seen == pre.contains(path@)) by {
                    if seen {
                        let x = choose|x: int| 0 <= x < i && ps[x] == path@;
                        assert(pre[x] == path@);
                    }
                    if pre.contains(path@) {
                        let x = choose|x: int| 0 <= x < pre.len() && pre[x] == path@;
                        assert(ps[x] == path@);
                    }
                }
            }
            if !seen {
                let ids = self.effects_for_path(path);
                if ids.len() > 0 {
                    let family = self.reload_family(&ids);
                    let ghost old_r = r@;
                    r.push(ReloadBatch { path: path.clone(), effect_ids: ids, family });
                    proof {
                        assert forall|j: int|
                            0 <= j < r@.len() implies {
                                let p = paths_to_reload(self, ps.take(i + 1))[j];
                                &&& (#[trigger] r@[j]).path@ == p
                                &&& r@[j].effect_ids@ == self.registered(p)
                                &&& r@[j].family == family_of(self@, self.registered(p))
                            } by {
                            if j < old_r.len() {
                                assert(r@[j] == old_r[j]);
                            }
                        }
                    }
                }
            }
            i = i + 1;
        }
        proof {
            assert(ps.take(paths@.len() as int) =~= ps);
        }
        r
    }
}

/// A configuration that the registry refuses.
#[derive(Clone, Copy, Debug, PartialEq, Eq, Structural)]
pub enum LoadControllerError {
    Invalid,
}

/// A strip configuration as plain values: id, connection id, size, segments.
pub type StripSpec = (usize, usize, usize, Seq<LedstripEffectConfig>);

/// The strip configurations as plain values.
pub open spec fn strip_specs(configs: Seq<LedstripConfig>) -> Seq<StripSpec> {
    configs.map_values(|c: LedstripConfig| (c.id, c.connection_id, c.size, c.effects@))
}

/// A strip configuration that can be loaded: its segments fit, its frame fits
/// in memory, and its connection exists.
pub open spec fn strip_loadable(v: ControllerView, c: StripSpec) -> bool {
    &&& strip_from(c.2 as nat, c.3) is Some
    &&& 3 * c.2 <= usize::MAX
    &&& v.connections.contains_key(c.1)
}

/// The registry after the strips of `cs` are added and bound, in order.
pub open spec fn strips_loaded(v: ControllerView, cs: Seq<StripSpec>) -> ControllerView
    decreases cs.len(),
{
    if cs.len() == 0 {
        v
    } else {
        let w = strips_loaded(v, cs.drop_last());
        let c = cs.last();
        ControllerView {
            strips: w.strips.insert(c.0, strip_from(c.2 as nat, c.3)->Some_0),
            order: if w.strips.contains_key(c.0) {
                w.order
            } else {
                w.order.push(c.0)
            },
            strip_connections: w.strip_connections.insert(c.0, c.1),
            ..w
        }
    }
}

/// The registry after each effect of `es` is linked to its settings, in order.
pub open spec fn effects_linked(v: ControllerView, es: Seq<(usize, usize)>) -> ControllerView
    decreases es.len(),
{
    if es.len() == 0 {
        v
    } else {
        let w = effects_linked(v, es.drop_last());
        ControllerView {
            effect_settings: w.effect_settings.insert(es.last().0, es.last().1),
            ..w
        }
    }
}

proof fn lemma_strips_loaded_keeps(v: ControllerView, cs: Seq<StripSpec>)
    ensures
        strips_loaded(v, cs).connections == v.connections,
        strips_loaded(v, cs).settings == v.settings,
        strips_loaded(v, cs).effects == v.effects,
        strips_loaded(v, cs).effect_settings == v.effect_settings,
    decreases cs.len(),
{
    if cs.len() > 0 {
        lemma_strips_loaded_keeps(v, cs.drop_last());
    }
}

proof fn lemma_effects_linked_keeps(v: ControllerView, es: Seq<(usize, usize)>)
    ensures
        effects_linked(v, es) == (ControllerView { effect_settings: effects_linked(v, es).effect_settings, ..v }),
    decreases es.len(),
{
    if es.len() > 0 {
        lemma_effects_linked_keeps(v, es.drop_last());
    }
}

impl Controller {
    /// Adds and binds the configured strips, in order. Fails when one of them
    /// cannot be loaded (see `strip_loadable`); it leaves the registry part
    /// way then, to be dropped.
    pub fn load_strips(&mut self, configs: &Vec<LedstripConfig>) -> (r: Result<(), LoadControllerError>)
        requires
            old(self).wf(),
        ensures
            final(self).wf(),
            r is Ok <==> forall|i: int|
                0 <= i < configs@.len() ==> strip_loadable(old(self)@, #[trigger] strip_specs(configs@)[i]),
            r is Ok ==> final(self)@ == strips_loaded(old(self)@, strip_specs(configs@)),
            forall|p: Seq<char>| final(self).registered(p) == old(self).registered(p),
    {
        let ghost v = self@;
        let ghost cs = strip_specs(configs@);
        let mut i: usize = 0;
        while i < configs.len()
            invariant
                self.wf(),
                i <= configs@.len(),
                cs == strip_specs(configs@),
                v == old(self)@,
                self@ == strips_loaded(v, cs.take(i as int)),
                forall|j: int| 0 <= j < i ==> strip_loadable(v, #[trigger] cs[j]),
                forall|p: Seq<char>| self.registered(p) == old(self).registered(p),
            decreases configs@.len() - i,
        {
            let config = &configs[i];
            proof {
                assert(cs.take(i + 1).drop_last() =~= cs.take(i as int));
                assert(cs.take(i + 1).last() == cs[i as int]);
                lemma_strips_loaded_keeps(v, cs.take(i as int));
                assert(cs[i as int] == (config.id, config.connection_id, config.size, config.effects@));
            }
            let fits = config.size <= usize::MAX / 3;
            let strip = if fits { build_strip(config) } else { None };
            let connected = self.connections.contains_key(&config.connection_id);
            match strip {
                Some(strip) => {
                    proof {
                        crate::config::lemma_strip_from_size(config.size as nat, config.effects@);
                    }
                    if !connected {
                        proof {
                            assert(!strip_loadable(old(self)@, strip_specs(configs@)[i as int]));
                        }
                        return Err(LoadControllerError::Invalid);
                    }
                    self.add_led_strip(config.id, strip);
                    let linked = self.link_led_strip_to_connection(config.id, config.connection_id);
                    proof {
                        assert(linked);
                        assert(self@ =~= strips_loaded(v, cs.take(i + 1)));
                    }
                },
                None => {
                    proof {
                        assert(!strip_loadable(old(self)@, strip_specs(configs@)[i as int]));
                    }
                    return Err(LoadControllerError::Invalid);
                },
            }
            i = i + 1;
        }
        proof {
            assert(cs.take(configs@.len() as int) =~= cs);
        }
        Ok(())
    }

    /// Links each configured effect to its settings, in order. Fails when
    /// some effect names settings that do not exist.
    pub fn link_effects(&mut self, configs: &Vec<EffectConfig>) -> (r: Result<(), LoadControllerError>)
        requires
            old(self).wf(),
        ensures
            final(self).wf(),
            r is Ok <==> forall|i: int|
                0 <= i < configs@.len() ==> old(self)@.settings.contains_key(
                    #[trigger] configs@[i].settings_id,
                ),
            r is Ok ==> final(self)@ == effects_linked(
                old(self)@,
                configs@.map_values(|c: EffectConfig| (c.effect_id, c.settings_id)),
            ),
            forall|p: Seq<char>| final(self).registered(p) == old(self).registered(p),
    {
        let ghost v = self@;
        let ghost es = configs@.map_values(|c: EffectConfig| (c.effect_id, c.settings_id));
        let mut i: usize = 0;
        while i < configs.len()
            invariant
                self.wf(),
                i <= configs@.len(),
                es == configs@.map_values(|c: EffectConfig| (c.effect_id, c.settings_id)),
                v == old(self)@,
                self@ == effects_linked(v, es.take(i as int)),
                forall|j: int| 0 <= j < i ==> v.settings.contains_key(#[trigger] configs@[j].settings_id),
                forall|p: Seq<char>| self.registered(p) == old(self).registered(p),
            decreases configs@.len() - i,
        {
            proof {
                assert(es.take(i + 1).drop_last() =~= es.take(i as int));
                assert(es.take(i + 1).last() == es[i as int]);
                lemma_effects_linked_keeps(v, es.take(i as int));
            }
            if !self.link_effect_to_settings(configs[i].effect_id, configs[i].settings_id) {
                proof {
                    assert(!old(self)@.settings.contains_key(configs@[i as int].settings_id));
                }
                return Err(LoadControllerError::Invalid);
            }
            i = i + 1;
        }
        proof {
            assert(es.take(configs@.len() as int) =~= es);
        }
        Ok(())
    }
}

/// With every live binding's strip listed once in `order`, the frames of a
/// send name each live binding exactly once.
pub proof fn lemma_one_frame_per_binding(order: Seq<usize>, live: Map<usize, usize>)
    requires
        order.no_duplicates(),
        forall|k: usize| live.contains_key(k) ==> #[trigger] order.contains(k),
    ensures
        bound_in(order, live).no_duplicates(),
        forall|k: usize| live.contains_key(k) <==> #[trigger] bound_in(order, live).contains(k),
{
    lemma_bound_in(order, live);
    assert forall|k: usize| live.contains_key(k) <==> #[trigger] bound_in(order, live).contains(k) by {
        if live.contains_key(k) {
            assert(order.contains(k));
            let i = choose|i: int| 0 <= i < order.len() && order[i] == k;
            assert(bound_in(order, live).contains(order[i]));
        }
    }
}

proof fn lemma_bound_in(order: Seq<usize>, live: Map<usize, usize>)
    requires
        order.no_duplicates(),
    ensures
        bound_in(order, live).no_duplicates(),
        forall|k: usize| #[trigger]
            bound_in(order, live).contains(k) ==> order.contains(k) && live.contains_key(k),
        forall|i: int|
            0 <= i < order.len() && live.contains_key(order[i]) ==> #[trigger] bound_in(order, live).contains(
                order[i],
            ),
    decreases order.len(),
{
    if order.len() > 0 {
        let rest = order.drop_last();
        let last = order.last();
        assert(rest.no_duplicates()) by {
            assert forall|a: int, b: int| 0 <= a < rest.len() && 0 <= b < rest.len() && a != b implies rest[a]
                != rest[b] by {
                assert(rest[a] == order[a] && rest[b] == order[b]);
            }
        }
        lemma_bound_in(rest, live);
        let r = bound_in(rest, live);
        assert(!rest.contains(last)) by {
            if rest.contains(last) {
                let a = choose|a: int| 0 <= a < rest.len() && rest[a] == last;
                assert(order[a] == order[order.len() - 1]);
            }
        }
        assert forall|k: usize| #[trigger]
            bound_in(order, live).contains(k) implies order.contains(k) && live.contains_key(k) by {
            let b = bound_in(order, live);
            let x = choose|x: int| 0 <= x < b.len() && b[x] == k;
            if x < r.len() && (live.contains_key(last) || true) {
                if live.contains_key(last) {
                    assert(b[x] == r[x]);
                }
                assert(r.contains(k));
                let a = choose|a: int| 0 <= a < rest.len() && rest[a] == k;
                assert(order[a] == k);
            } else {
                assert(order[order.len() - 1] == k);
            }
        }
        assert forall|i: int|
            0 <= i < order.len() && live.contains_key(order[i]) implies #[trigger] bound_in(order, live).contains(
                order[i],
            ) by {
            let b = bound_in(order, live);
            if i < rest.len() {
                assert(rest[i] == order[i]);
                assert(r.contains(rest[i]));
                let x = choose|x: int| 0 <= x < r.len() && r[x] == rest[i];
                if live.contains_key(last) {
                    assert(b[x] == r[x]);
                }
            } else {
                assert(b[b.len() - 1] == last);
            }
        }
        if live.contains_key(last) {
            let b = bound_in(order, live);
            assert forall|a: int, c: int| 0 <= a < b.len() && 0 <= c < b.len() && a != c implies b[a] != b[c] by {
                if a < r.len() && c < r.len() {
                    assert(b[a] == r[a] && b[c] == r[c]);
                } else if a < r.len() {
                    assert(b[a] == r[a]);
                    assert(r.contains(r[a]));
                } else {
                    assert(b[c] == r[c]);
                    assert(r.contains(r[c]));
                }
            }
        }
    }
}

/// Adding the same connection twice leaves the registry as one addition does.
pub proof fn lemma_add_connection_twice(v: ControllerView, id: usize, kind: ConnectionKind)
    ensures
        with_connection(with_connection(v, id, kind), id, kind) == with_connection(v, id, kind),
{
    assert(v.connections.insert(id, kind).insert(id, kind) =~= v.connections.insert(id, kind));
}

} // verus!
