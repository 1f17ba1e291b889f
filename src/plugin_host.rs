use vstd::prelude::*;

verus! {

/// A step that the host asks its caller to carry out on loaded code.
#[derive(Clone, Copy, Debug, PartialEq, Eq, Structural)]
pub enum HostAction {
    /// Call the instance destructor through the library's table.
    Destroy { library: u64, instance: u64 },
    /// Call the library's `unload`, then close the shared object.
    Unload { library: u64 },
}

/// A loaded library as mathematical values.
pub struct LibEntry {
    pub id: u64,
    pub path: Seq<char>,
    /// Still the one handed out for its path.
    pub cached: bool,
}

/// A live instance as mathematical values.
pub struct InstEntry {
    pub id: u64,
    pub library: u64,
    pub path: Seq<char>,
}

/// The host's bookkeeping as mathematical values.
pub struct HostView {
    pub libs: Seq<LibEntry>,
    pub insts: Seq<InstEntry>,
    pub next_id: u64,
}

/// Library `lib` is loaded.
pub open spec fn has_lib(v: HostView, lib: u64) -> bool {
    exists|m: int| 0 <= m < v.libs.len() && (#[trigger] v.libs[m]).id == lib
}

/// Some live instance was made from library `lib`.
pub open spec fn has_instances(v: HostView, lib: u64) -> bool {
    exists|k: int| 0 <= k < v.insts.len() && (#[trigger] v.insts[k]).library == lib
}

/// Every live instance comes from a loaded library, with the same path, and
/// every id in use is below `next_id`.
pub open spec fn host_ok(v: HostView) -> bool {
    &&& forall|k: int| 0 <= k < v.insts.len() ==> has_lib(v, (#[trigger] v.insts[k]).library)
    &&& forall|k: int, m: int|
        0 <= k < v.insts.len() && 0 <= m < v.libs.len() && (#[trigger] v.insts[k]).library == (
        #[trigger] v.libs[m]).id ==> v.insts[k].path == v.libs[m].path
    &&& forall|k: int| 0 <= k < v.insts.len() ==> (#[trigger] v.insts[k]).id < v.next_id
    &&& forall|m: int| 0 <= m < v.libs.len() ==> (#[trigger] v.libs[m]).id < v.next_id
    &&& libs_sorted(v.libs)
    &&& insts_sorted(v.insts)
}

/// Library ids increase along the table.
pub open spec fn libs_sorted(libs: Seq<LibEntry>) -> bool {
    forall|m1: int, m2: int|
        0 <= m1 < m2 < libs.len() ==> (#[trigger] libs[m1]).id < (#[trigger] libs[m2]).id
}

/// Instance ids increase along the table.
pub open spec fn insts_sorted(insts: Seq<InstEntry>) -> bool {
    forall|k1: int, k2: int|
        0 <= k1 < k2 < insts.len() ==> (#[trigger] insts[k1]).id < (#[trigger] insts[k2]).id
}

/// The id that an action concerns.
pub open spec fn action_library(a: HostAction) -> u64 {
    match a {
        HostAction::Destroy { library, .. } => library,
        HostAction::Unload { library } => library,
    }
}

/// Once a library is unloaded, no later action touches it.
pub open spec fn nothing_after_unload(acts: Seq<HostAction>) -> bool {
    forall|i: int, j: int|
        0 <= i < j < acts.len() && (#[trigger] acts[i]) is Unload ==> action_library(
            #[trigger] acts[j],
        ) != action_library(acts[i])
}

/// Every instance that was live before, from a library that the actions
/// unload, is destroyed by an earlier action.
pub open spec fn destroys_precede_unload(before: HostView, acts: Seq<HostAction>) -> bool {
    forall|j: int, k: int|
        0 <= j < acts.len() && 0 <= k < before.insts.len() && #[trigger] acts[j] == (HostAction::Unload {
            library: (#[trigger] before.insts[k]).library,
        }) ==> exists|i: int|
            0 <= i < j && #[trigger] acts[i] == (HostAction::Destroy {
                library: before.insts[k].library,
                instance: before.insts[k].id,
            })
}

/// After the actions, no library they unloaded is loaded or has an instance.
pub open spec fn unloaded_gone(after: HostView, acts: Seq<HostAction>) -> bool {
    forall|j: int|
        0 <= j < acts.len() && (#[trigger] acts[j]) is Unload ==> !has_lib(
            after,
            action_library(acts[j]),
        ) && !has_instances(after, action_library(acts[j]))
}

/// The ordering that the host guarantees for every batch of actions it hands out.
pub open spec fn lifecycle_ordered(before: HostView, after: HostView, acts: Seq<HostAction>) -> bool {
    &&& nothing_after_unload(acts)
    &&& destroys_precede_unload(before, acts)
    &&& unloaded_gone(after, acts)
}

/// The library handed out for `path`: the last cached one loaded from it.
pub open spec fn cached_for(libs: Seq<LibEntry>, path: Seq<char>) -> Option<u64>
    decreases libs.len(),
{
    if libs.len() == 0 {
        None
    } else if libs.last().cached && libs.last().path == path {
        Some(libs.last().id)
    } else {
        cached_for(libs.drop_last(), path)
    }
}

/// The instances not made from a library loaded from `path`.
pub open spec fn insts_not_at(insts: Seq<InstEntry>, path: Seq<char>) -> Seq<InstEntry>
    decreases insts.len(),
{
    if insts.len() == 0 {
        insts
    } else if insts.last().path == path {
        insts_not_at(insts.drop_last(), path)
    } else {
        insts_not_at(insts.drop_last(), path).push(insts.last())
    }
}

/// The destructor calls for the instances made from `path`, in order.
pub open spec fn destroys_at(insts: Seq<InstEntry>, path: Seq<char>) -> Seq<HostAction>
    decreases insts.len(),
{
    if insts.len() == 0 {
        Seq::empty()
    } else if insts.last().path == path {
        destroys_at(insts.drop_last(), path).push(
            HostAction::Destroy { library: insts.last().library, instance: insts.last().id },
        )
    } else {
        destroys_at(insts.drop_last(), path)
    }
}

/// The libraries not loaded from `path`.
pub open spec fn libs_not_at(libs: Seq<LibEntry>, path: Seq<char>) -> Seq<LibEntry>
    decreases libs.len(),
{
    if libs.len() == 0 {
        libs
    } else if libs.last().path == path {
        libs_not_at(libs.drop_last(), path)
    } else {
        libs_not_at(libs.drop_last(), path).push(libs.last())
    }
}

/// The unload calls for the libraries loaded from `path`, in order.
pub open spec fn unloads_at(libs: Seq<LibEntry>, path: Seq<char>) -> Seq<HostAction>
    decreases libs.len(),
{
    if libs.len() == 0 {
        Seq::empty()
    } else if libs.last().path == path {
        unloads_at(libs.drop_last(), path).push(HostAction::Unload { library: libs.last().id })
    } else {
        unloads_at(libs.drop_last(), path)
    }
}

struct LibraryRecord {
    id: u64,
    path: String,
    cached: bool,
}

struct InstanceRecord {
    id: u64,
    library: u64,
    path: String,
}

spec fn lib_entry(r: LibraryRecord) -> LibEntry {
    LibEntry { id: r.id, path: r.path@, cached: r.cached }
}

spec fn inst_entry(r: InstanceRecord) -> InstEntry {
    InstEntry { id: r.id, library: r.library, path: r.path@ }
}

/// Bookkeeping of loaded plugin libraries and the instances made from them.
///
/// The host never touches loaded code itself: it decides, and hands back the
/// destructor and unload calls for its caller to make, in order. An instance
/// always keeps its library loaded; a library is unloaded only after every
/// instance made from it has been destroyed.
pub struct PluginHost {
    libraries: Vec<LibraryRecord>,
    instances: Vec<InstanceRecord>,
    next_id: u64,
}

impl View for PluginHost {
    type V = HostView;

    closed spec fn view(&self) -> HostView {
        HostView {
            libs: self.libraries@.map_values(|r: LibraryRecord| lib_entry(r)),
            insts: self.instances@.map_values(|r: InstanceRecord| inst_entry(r)),
            next_id: self.next_id,
        }
    }
}

impl PluginHost {
    /// A host with nothing loaded.
    pub fn new() -> (h: PluginHost)
        ensures
            host_ok(h@),
            h@.libs.len() == 0,
            h@.insts.len() == 0,
    {
        PluginHost { libraries: Vec::new(), instances: Vec::new(), next_id: 0 }
    }

    /// Ids are still available for another library or instance.
    pub fn has_free_id(&self) -> (r: bool)
        ensures
            r == (self@.next_id < u64::MAX),
    {
        self.next_id < u64::MAX
    }

    /// The library to use for `path`: the cached one, or a fresh id that the
    /// caller must load (second component true). A fresh library is cached.
    pub fn acquire(&mut self, path: &String) -> (r: (u64, bool))
        requires
            host_ok(old(self)@),
            old(self)@.next_id < u64::MAX,
        ensures
            host_ok(final(self)@),
            match cached_for(old(self)@.libs, path@) {
                Some(lib) => r == (lib, false) && final(self)@ == old(self)@,
                None => r == (old(self)@.next_id, true) && final(self)@ == (HostView {
                    libs: old(self)@.libs.push(
                        LibEntry { id: old(self)@.next_id, path: path@, cached: true },
                    ),
                    next_id: (old(self)@.next_id + 1) as u64,
                    ..old(self)@
                }),
            },
    {
        let ghost v = self@;
        let mut i: usize = self.libraries.len();
        proof {
            assert(v.libs.take(i as int) =~= v.libs);
        }
        while i > 0
            invariant
                v == self@,
                host_ok(v),
                i <= v.libs.len(),
                cached_for(v.libs, path@) == cached_for(v.libs.take(i as int), path@),
            decreases i,
        {
            let ghost t = v.libs.take(i as int);
            proof {
                assert(t.drop_last() =~= v.libs.take(i - 1));
                assert(t.last() == lib_entry(self.libraries@[i - 1]));
            }
            if self.libraries[i - 1].cached && self.libraries[i - 1].path == *path {
                return (self.libraries[i - 1].id, false);
            }
            i = i - 1;
        }
        let id = self.next_id;
        self.libraries.push(LibraryRecord { id, path: path.clone(), cached: true });
        self.next_id = self.next_id + 1;
        proof {
            assert(self@.libs =~= v.libs.push(LibEntry { id, path: path@, cached: true }));
            let w = self@;
            assert forall|k: int| 0 <= k < w.insts.len() implies has_lib(w, (#[trigger] w.insts[k]).library) by {
                assert(has_lib(v, v.insts[k].library));
                let m = choose|m: int| 0 <= m < v.libs.len() && (#[trigger] v.libs[m]).id == v.insts[k].library;
                assert(w.libs[m] == v.libs[m]);
            }
            assert forall|m1: int, m2: int|
                0 <= m1 < m2 < w.libs.len() implies (#[trigger] w.libs[m1]).id < (#[trigger] w.libs[m2]).id by {
                assert(w.libs[m1] == v.libs[m1]);
                if m2 < v.libs.len() {
                    assert(w.libs[m2] == v.libs[m2]);
                }
            }
            assert forall|k: int, m: int|
                0 <= k < w.insts.len() && 0 <= m < w.libs.len() && (#[trigger] w.insts[k]).library == (
                #[trigger] w.libs[m]).id implies w.insts[k].path == w.libs[m].path by {
                if m < v.libs.len() {
                    assert(w.libs[m] == v.libs[m]);
                } else {
                    assert(v.insts[k].id < v.next_id);
                    assert(has_lib(v, v.insts[k].library));
                    let m0 = choose|m0: int| 0 <= m0 < v.libs.len() && (#[trigger] v.libs[m0]).id == v.insts[k].library;
                    assert(v.libs[m0].id < v.next_id);
                }
            }
        }
        (id, true)
    }
}

proof fn lemma_libs_not_at(libs: Seq<LibEntry>, p: Seq<char>)
    ensures
        forall|x: int|
            0 <= x < libs_not_at(libs, p).len() ==> exists|m: int|
                0 <= m < libs.len() && #[trigger] libs_not_at(libs, p)[x] == libs[m] && libs[m].path
                    != p,
        forall|m: int|
            0 <= m < libs.len() && (#[trigger] libs[m]).path != p ==> exists|x: int|
                0 <= x < libs_not_at(libs, p).len() && #[trigger] libs_not_at(libs, p)[x] == libs[m],
        libs_sorted(libs) ==> libs_sorted(libs_not_at(libs, p)),
    decreases libs.len(),
{
    if libs.len() > 0 {
        let rest = libs.drop_last();
        lemma_libs_not_at(rest, p);
        let r = libs_not_at(rest, p);
        assert forall|x: int|
            0 <= x < libs_not_at(libs, p).len() implies exists|m: int|
                0 <= m < libs.len() && #[trigger] libs_not_at(libs, p)[x] == libs[m] && libs[m].path
                    != p by {
            if x < r.len() {
                let m = choose|m: int| 0 <= m < rest.len() && r[x] == rest[m] && rest[m].path != p;
                assert(libs[m] == rest[m]);
            } else {
                assert(libs_not_at(libs, p)[x] == libs[libs.len() - 1]);
            }
        }
        assert forall|m: int|
            0 <= m < libs.len() && (#[trigger] libs[m]).path != p implies exists|x: int|
                0 <= x < libs_not_at(libs, p).len() && #[trigger] libs_not_at(libs, p)[x] == libs[m] by {
            if m < rest.len() {
                assert(libs[m] == rest[m]);
                let x = choose|x: int| 0 <= x < r.len() && #[trigger] r[x] == rest[m];
                assert(libs_not_at(libs, p)[x] == r[x]);
            } else {
                assert(libs_not_at(libs, p)[r.len() as int] == libs[m]);
            }
        }
        if libs_sorted(libs) {
            assert(libs_sorted(rest)) by {
                assert forall|m1: int, m2: int| 0 <= m1 < m2 < rest.len() implies (#[trigger] rest[m1]).id
                    < (#[trigger] rest[m2]).id by {
                    assert(rest[m1] == libs[m1]);
                    assert(rest[m2] == libs[m2]);
                }
            }
            assert forall|x1: int, x2: int|
                0 <= x1 < x2 < libs_not_at(libs, p).len() implies (#[trigger] libs_not_at(libs, p)[x1]).id
                    < (#[trigger] libs_not_at(libs, p)[x2]).id by {
                if x2 == r.len() && libs.last().path != p {
                    let m = choose|m: int| 0 <= m < rest.len() && r[x1] == rest[m] && rest[m].path != p;
                    assert(rest[m] == libs[m]);
                    assert(libs[m].id < libs[libs.len() - 1].id);
                }
            }
        }
    }
}

proof fn lemma_insts_not_at(insts: Seq<InstEntry>, p: Seq<char>)
    ensures
        forall|x: int|
            0 <= x < insts_not_at(insts, p).len() ==> exists|k: int|
                0 <= k < insts.len() && #[trigger] insts_not_at(insts, p)[x] == insts[k] && insts[k].path
                    != p,
        insts_sorted(insts) ==> insts_sorted(insts_not_at(insts, p)),
    decreases insts.len(),
{
    if insts.len() > 0 {
        let rest = insts.drop_last();
        lemma_insts_not_at(rest, p);
        let r = insts_not_at(rest, p);
        assert forall|x: int|
            0 <= x < insts_not_at(insts, p).len() implies exists|k: int|
                0 <= k < insts.len() && #[trigger] insts_not_at(insts, p)[x] == insts[k] && insts[k].path
                    != p by {
            if x < r.len() {
                let k = choose|k: int| 0 <= k < rest.len() && r[x] == rest[k] && rest[k].path != p;
                assert(insts[k] == rest[k]);
            } else {
                assert(insts_not_at(insts, p)[x] == insts[insts.len() - 1]);
            }
        }
        if insts_sorted(insts) {
            assert(insts_sorted(rest)) by {
                assert forall|k1: int, k2: int| 0 <= k1 < k2 < rest.len() implies (#[trigger] rest[k1]).id
                    < (#[trigger] rest[k2]).id by {
                    assert(rest[k1] == insts[k1]);
                    assert(rest[k2] == insts[k2]);
                }
            }
            assert forall|x1: int, x2: int|
                0 <= x1 < x2 < insts_not_at(insts, p).len() implies (#[trigger] insts_not_at(insts, p)[x1]).id
                    < (#[trigger] insts_not_at(insts, p)[x2]).id by {
                if x2 == r.len() && insts.last().path != p {
                    let k = choose|k: int| 0 <= k < rest.len() && r[x1] == rest[k] && rest[k].path != p;
                    assert(rest[k] == insts[k]);
                    assert(insts[k].id < insts[insts.len() - 1].id);
                }
            }
        }
    }
}

proof fn lemma_destroys_at(insts: Seq<InstEntry>, p: Seq<char>)
    ensures
        forall|x: int| 0 <= x < destroys_at(insts, p).len() ==> (#[trigger] destroys_at(insts, p)[x]) is Destroy,
        forall|k: int|
            0 <= k < insts.len() && (#[trigger] insts[k]).path == p ==> exists|x: int|
                0 <= x < destroys_at(insts, p).len() && #[trigger] destroys_at(insts, p)[x] == (HostAction::Destroy {
                    library: insts[k].library,
                    instance: insts[k].id,
                }),
    decreases insts.len(),
{
    if insts.len() > 0 {
        let rest = insts.drop_last();
        lemma_destroys_at(rest, p);
        let r = destroys_at(rest, p);
        assert forall|k: int|
            0 <= k < insts.len() && (#[trigger] insts[k]).path == p implies exists|x: int|
                0 <= x < destroys_at(insts, p).len() && #[trigger] destroys_at(insts, p)[x] == (HostAction::Destroy {
                    library: insts[k].library,
                    instance: insts[k].id,
                }) by {
            if k < rest.len() {
                assert(insts[k] == rest[k]);
                let x = choose|x: int| 0 <= x < r.len() && #[trigger] r[x] == (HostAction::Destroy {
                    library: rest[k].library,
                    instance: rest[k].id,
                });
                assert(destroys_at(insts, p)[x] == r[x]);
            } else {
                assert(destroys_at(insts, p)[r.len() as int] == (HostAction::Destroy {
                    library: insts[k].library,
                    instance: insts[k].id,
                }));
            }
        }
    }
}

proof fn lemma_unloads_at(libs: Seq<LibEntry>, p: Seq<char>)
    ensures
        forall|x: int|
            0 <= x < unloads_at(libs, p).len() ==> exists|m: int|
                0 <= m < libs.len() && libs[m].path == p && #[trigger] unloads_at(libs, p)[x] == (HostAction::Unload {
                    library: libs[m].id,
                }),
        libs_sorted(libs) ==> forall|x1: int, x2: int|
            0 <= x1 < x2 < unloads_at(libs, p).len() ==> action_library(
                #[trigger] unloads_at(libs, p)[x1],
            ) < action_library(#[trigger] unloads_at(libs, p)[x2]),
    decreases libs.len(),
{
    if libs.len() > 0 {
        let rest = libs.drop_last();
        lemma_unloads_at(rest, p);
        let r = unloads_at(rest, p);
        assert forall|x: int|
            0 <= x < unloads_at(libs, p).len() implies exists|m: int|
                0 <= m < libs.len() && libs[m].path == p && #[trigger] unloads_at(libs, p)[x] == (HostAction::Unload {
                    library: libs[m].id,
                }) by {
            if x < r.len() {
                let m = choose|m: int| 0 <= m < rest.len() && rest[m].path == p && #[trigger] r[x] == (HostAction::Unload {
                    library: rest[m].id,
                });
                assert(libs[m] == rest[m]);
                assert(unloads_at(libs, p)[x] == r[x]);
            } else {
                assert(unloads_at(libs, p)[x] == (HostAction::Unload { library: libs[libs.len() - 1].id }));
            }
        }
        if libs_sorted(libs) {
            assert(libs_sorted(rest)) by {
                assert forall|m1: int, m2: int| 0 <= m1 < m2 < rest.len() implies (#[trigger] rest[m1]).id
                    < (#[trigger] rest[m2]).id by {
                    assert(rest[m1] == libs[m1]);
                    assert(rest[m2] == libs[m2]);
                }
            }
            assert forall|x1: int, x2: int|
                0 <= x1 < x2 < unloads_at(libs, p).len() implies action_library(
                    #[trigger] unloads_at(libs, p)[x1],
                ) < action_library(#[trigger] unloads_at(libs, p)[x2]) by {
                if x2 == r.len() && libs.last().path == p {
                    let m = choose|m: int| 0 <= m < rest.len() && rest[m].path == p && #[trigger] r[x1] == (HostAction::Unload {
                        library: rest[m].id,
                    });
                    assert(rest[m] == libs[m]);
                    assert(libs[m].id < libs[libs.len() - 1].id);
                } else {
                    assert(unloads_at(libs, p)[x1] == r[x1]);
                    assert(unloads_at(libs, p)[x2] == r[x2]);
                }
            }
        }
    }
}

/// The host after every library loaded from `path`, and every instance made
/// from one, is gone.
pub open spec fn without_path(v: HostView, path: Seq<char>) -> HostView {
    HostView { libs: libs_not_at(v.libs, path), insts: insts_not_at(v.insts, path), next_id: v.next_id }
}

/// The actions that take a host to `without_path`: destructors first, then unloads.
pub open spec fn reload_actions(v: HostView, path: Seq<char>) -> Seq<HostAction> {
    destroys_at(v.insts, path) + unloads_at(v.libs, path)
}

#[verifier::rlimit(60)]
proof fn lemma_reload_insts_have_libs(v: HostView, path: Seq<char>)
    requires
        host_ok(v),
    ensures
        forall|k: int| 0 <= k < without_path(v, path).insts.len() ==> has_lib(without_path(v, path), (#[trigger] without_path(v, path).insts[k]).library),
{
    let w = without_path(v, path);
    lemma_libs_not_at(v.libs, path);
    lemma_insts_not_at(v.insts, path);
    assert forall|k: int| 0 <= k < w.insts.len() implies has_lib(w, (#[trigger] w.insts[k]).library) by {
        let k0 = choose|k0: int| 0 <= k0 < v.insts.len() && w.insts[k] == v.insts[k0] && v.insts[k0].path != path;
        assert(has_lib(v, v.insts[k0].library));
        let m = choose|m: int| 0 <= m < v.libs.len() && (#[trigger] v.libs[m]).id == v.insts[k0].library;
        assert(v.libs[m].path == v.insts[k0].path);
        let x = choose|x: int| 0 <= x < w.libs.len() && #[trigger] w.libs[x] == v.libs[m];
        assert(w.libs[x].id == w.insts[k].library);
    }
}

proof fn lemma_reload_paths_agree(v: HostView, path: Seq<char>)
    requires
        host_ok(v),
    ensures
        forall|k: int, m: int|
            0 <= k < without_path(v, path).insts.len() && 0 <= m < without_path(v, path).libs.len() && (#[trigger] without_path(v, path).insts[k]).library == (
            #[trigger] without_path(v, path).libs[m]).id ==> without_path(v, path).insts[k].path == without_path(v, path).libs[m].path,
{
    let w = without_path(v, path);
    lemma_libs_not_at(v.libs, path);
    lemma_insts_not_at(v.insts, path);
    assert forall|k: int, m: int|
        0 <= k < w.insts.len() && 0 <= m < w.libs.len() && (#[trigger] w.insts[k]).library == (
        #[trigger] w.libs[m]).id implies w.insts[k].path == w.libs[m].path by {
        let k0 = choose|k0: int| 0 <= k0 < v.insts.len() && w.insts[k] == v.insts[k0] && v.insts[k0].path != path;
        let m0 = choose|m0: int| 0 <= m0 < v.libs.len() && w.libs[m] == v.libs[m0] && v.libs[m0].path != path;
        assert(v.insts[k0].library == v.libs[m0].id);
    }
}

proof fn lemma_reload_inst_ids(v: HostView, path: Seq<char>)
    requires
        host_ok(v),
    ensures
        forall|k: int| 0 <= k < without_path(v, path).insts.len() ==> (#[trigger] without_path(v, path).insts[k]).id < v.next_id,
{
    let w = without_path(v, path);
    lemma_libs_not_at(v.libs, path);
    lemma_insts_not_at(v.insts, path);
    assert forall|k: int| 0 <= k < w.insts.len() implies (#[trigger] w.insts[k]).id < w.next_id by {
        let k0 = choose|k0: int| 0 <= k0 < v.insts.len() && w.insts[k] == v.insts[k0] && v.insts[k0].path != path;
        assert(v.insts[k0].id < v.next_id);
    }
}

proof fn lemma_reload_lib_ids(v: HostView, path: Seq<char>)
    requires
        host_ok(v),
    ensures
        forall|m: int| 0 <= m < without_path(v, path).libs.len() ==> (#[trigger] without_path(v, path).libs[m]).id < v.next_id,
{
    let w = without_path(v, path);
    lemma_libs_not_at(v.libs, path);
    lemma_insts_not_at(v.insts, path);
    assert forall|m: int| 0 <= m < w.libs.len() implies (#[trigger] w.libs[m]).id < w.next_id by {
        let m0 = choose|m0: int| 0 <= m0 < v.libs.len() && w.libs[m] == v.libs[m0] && v.libs[m0].path != path;
        assert(v.libs[m0].id < v.next_id);
    }
}

proof fn lemma_reload_host_ok(v: HostView, path: Seq<char>)
    requires
        host_ok(v),
    ensures
        host_ok(without_path(v, path)),
{
    lemma_libs_not_at(v.libs, path);
    lemma_insts_not_at(v.insts, path);
    lemma_reload_insts_have_libs(v, path);
    lemma_reload_paths_agree(v, path);
    lemma_reload_inst_ids(v, path);
    lemma_reload_lib_ids(v, path);
}

proof fn lemma_reload_nothing_after(v: HostView, path: Seq<char>)
    requires
        host_ok(v),
    ensures
        nothing_after_unload(reload_actions(v, path)),
{
    let w = without_path(v, path);
    let d = destroys_at(v.insts, path);
    let u = unloads_at(v.libs, path);
    let acts = reload_actions(v, path);
    lemma_unloads_at(v.libs, path);
    lemma_destroys_at(v.insts, path);
    assert forall|i: int, j: int|
        0 <= i < j < acts.len() && (#[trigger] acts[i]) is Unload implies action_library(
            #[trigger] acts[j],
        ) != action_library(acts[i]) by {
        if i < d.len() {
            assert(acts[i] == d[i]);
        } else {
            assert(acts[i] == u[i - d.len()]);
            assert(acts[j] == u[j - d.len()]);
        }
    }
}

proof fn lemma_reload_destroys_first(v: HostView, path: Seq<char>)
    requires
        host_ok(v),
    ensures
        destroys_precede_unload(v, reload_actions(v, path)),
{
    let w = without_path(v, path);
    let d = destroys_at(v.insts, path);
    let u = unloads_at(v.libs, path);
    let acts = reload_actions(v, path);
    lemma_unloads_at(v.libs, path);
    lemma_destroys_at(v.insts, path);
    assert forall|j: int, k: int|
        0 <= j < acts.len() && 0 <= k < v.insts.len() && #[trigger] acts[j] == (HostAction::Unload {
            library: (#[trigger] v.insts[k]).library,
        }) implies exists|i: int|
            0 <= i < j && #[trigger] acts[i] == (HostAction::Destroy {
                library: v.insts[k].library,
                instance: v.insts[k].id,
            }) by {
        if j < d.len() {
            assert(acts[j] == d[j]);
        } else {
            assert(acts[j] == u[j - d.len()]);
            let m = choose|m: int| 0 <= m < v.libs.len() && v.libs[m].path == path && #[trigger] u[j - d.len()] == (HostAction::Unload {
                library: v.libs[m].id,
            });
            assert(v.insts[k].path == v.libs[m].path);
            let x = choose|x: int| 0 <= x < d.len() && #[trigger] d[x] == (HostAction::Destroy {
                library: v.insts[k].library,
                instance: v.insts[k].id,
            });
            assert(acts[x] == d[x]);
        }
    }
}

proof fn lemma_reload_gone(v: HostView, path: Seq<char>)
    requires
        host_ok(v),
    ensures
        unloaded_gone(without_path(v, path), reload_actions(v, path)),
{
    let w = without_path(v, path);
    let d = destroys_at(v.insts, path);
    let u = unloads_at(v.libs, path);
    let acts = reload_actions(v, path);
    lemma_libs_not_at(v.libs, path);
    lemma_insts_not_at(v.insts, path);
    lemma_unloads_at(v.libs, path);
    lemma_destroys_at(v.insts, path);
    assert forall|j: int|
        0 <= j < acts.len() && (#[trigger] acts[j]) is Unload implies !has_lib(
            w,
            action_library(acts[j]),
        ) && !has_instances(w, action_library(acts[j])) by {
        if j < d.len() {
            assert(acts[j] == d[j]);
        } else {
            assert(acts[j] == u[j - d.len()]);
            let m = choose|m: int| 0 <= m < v.libs.len() && v.libs[m].path == path && #[trigger] u[j - d.len()] == (HostAction::Unload {
                library: v.libs[m].id,
            });
            let lib = v.libs[m].id;
            if has_lib(w, lib) {
                let x = choose|x: int| 0 <= x < w.libs.len() && (#[trigger] w.libs[x]).id == lib;
                let m0 = choose|m0: int| 0 <= m0 < v.libs.len() && w.libs[x] == v.libs[m0] && v.libs[m0].path != path;
                if m0 < m {
                    assert(v.libs[m0].id < v.libs[m].id);
                } else if m < m0 {
                    assert(v.libs[m].id < v.libs[m0].id);
                }
            }
            if has_instances(w, lib) {
                let x = choose|x: int| 0 <= x < w.insts.len() && (#[trigger] w.insts[x]).library == lib;
                let k0 = choose|k0: int| 0 <= k0 < v.insts.len() && w.insts[x] == v.insts[k0] && v.insts[k0].path != path;
                assert(v.insts[k0].path == v.libs[m].path);
            }
        }
    }
}

/// Dropping a path keeps the host consistent and orders destructors before unloads.
pub proof fn lemma_reload_ordered(v: HostView, path: Seq<char>)
    requires
        host_ok(v),
    ensures
        host_ok(without_path(v, path)),
        lifecycle_ordered(v, without_path(v, path), reload_actions(v, path)),
{
    lemma_reload_host_ok(v, path);
    lemma_reload_nothing_after(v, path);
    lemma_reload_destroys_first(v, path);
    lemma_reload_gone(v, path);
}

impl PluginHost {
    /// Hot reload, first half: destroys every instance made from a library
    /// loaded from `path`, then unloads those libraries. The caller then
    /// loads the new file with `acquire` and makes the instances again.
    pub fn begin_reload(&mut self, path: &String) -> (acts: Vec<HostAction>)
        requires
            host_ok(old(self)@),
        ensures
            host_ok(final(self)@),
            final(self)@ == without_path(old(self)@, path@),
            acts@ == reload_actions(old(self)@, path@),
            lifecycle_ordered(old(self)@, final(self)@, acts@),
    {
        let ghost v = self@;
        let mut acts: Vec<HostAction> = Vec::new();
        let mut kept_insts: Vec<InstanceRecord> = Vec::new();
        let mut i: usize = 0;
        while i < self.instances.len()
            invariant
                v == self@,
                i <= v.insts.len(),
                acts@ == destroys_at(v.insts.take(i as int), path@),
                kept_insts@.map_values(|r: InstanceRecord| inst_entry(r)) == insts_not_at(
                    v.insts.take(i as int),
                    path@,
                ),
            decreases v.insts.len() - i,
        {
            let r = &self.instances[i];
            proof {
                assert(v.insts.take(i + 1).drop_last() =~= v.insts.take(i as int));
                assert(v.insts.take(i + 1).last() == inst_entry(*r));
            }
            if r.path == *path {
                acts.push(HostAction::Destroy { library: r.library, instance: r.id });
            } else {
                let ghost before = kept_insts@;
                kept_insts.push(InstanceRecord { id: r.id, library: r.library, path: r.path.clone() });
                proof {
                    assert(kept_insts@.map_values(|r: InstanceRecord| inst_entry(r)) =~= before.map_values(
                        |r: InstanceRecord| inst_entry(r),
                    ).push(inst_entry(*r)));
                }
            }
            i = i + 1;
        }
        proof {
            assert(v.insts.take(v.insts.len() as int) =~= v.insts);
        }
        let ghost d = acts@;
        let mut kept_libs: Vec<LibraryRecord> = Vec::new();
        let mut m: usize = 0;
        while m < self.libraries.len()
            invariant
                v == self@,
                m <= v.libs.len(),
                acts@ == d + unloads_at(v.libs.take(m as int), path@),
                kept_libs@.map_values(|r: LibraryRecord| lib_entry(r)) == libs_not_at(
                    v.libs.take(m as int),
                    path@,
                ),
            decreases v.libs.len() - m,
        {
            let r = &self.libraries[m];
            proof {
                assert(v.libs.take(m + 1).drop_last() =~= v.libs.take(m as int));
                assert(v.libs.take(m + 1).last() == lib_entry(*r));
            }
            if r.path == *path {
                acts.push(HostAction::Unload { library: r.id });
                proof {
                    assert(acts@ =~= d + unloads_at(v.libs.take(m + 1), path@));
                }
            } else {
                let ghost before = kept_libs@;
                kept_libs.push(LibraryRecord { id: r.id, path: r.path.clone(), cached: r.cached });
                proof {
                    assert(kept_libs@.map_values(|r: LibraryRecord| lib_entry(r)) =~= before.map_values(
                        |r: LibraryRecord| lib_entry(r),
                    ).push(lib_entry(*r)));
                }
            }
            m = m + 1;
        }
        proof {
            assert(v.libs.take(v.libs.len() as int) =~= v.libs);
        }
        self.instances = kept_insts;
        self.libraries = kept_libs;
        proof {
            assert(self@ =~= without_path(v, path@));
            lemma_reload_ordered(v, path@);
        }
        acts
    }
}

/// Destructor calls for every instance, in order.
pub open spec fn all_destroys(insts: Seq<InstEntry>) -> Seq<HostAction> {
    insts.map_values(|e: InstEntry| HostAction::Destroy { library: e.library, instance: e.id })
}

/// Unload calls for every library, in order.
pub open spec fn all_unloads(libs: Seq<LibEntry>) -> Seq<HostAction> {
    libs.map_values(|e: LibEntry| HostAction::Unload { library: e.id })
}

impl PluginHost {
    fn lib_index(&self, lib: u64) -> (r: Option<usize>)
        requires
            host_ok(self@),
        ensures
            match r {
                Some(m) => m < self@.libs.len() && self@.libs[m as int].id == lib,
                None => !has_lib(self@, lib),
            },
    {
        let mut m: usize = 0;
        while m < self.libraries.len()
            invariant
                m <= self@.libs.len(),
                forall|x: int| 0 <= x < m ==> (#[trigger] self@.libs[x]).id != lib,
            decreases self@.libs.len() - m,
        {
            if self.libraries[m].id == lib {
                return Some(m);
            }
            m = m + 1;
        }
        None
    }

    /// Makes a new instance from the loaded library `lib` and returns its id.
    pub fn create_instance(&mut self, lib: u64) -> (inst: u64)
        requires
            host_ok(old(self)@),
            has_lib(old(self)@, lib),
            old(self)@.next_id < u64::MAX,
        ensures
            host_ok(final(self)@),
            inst == old(self)@.next_id,
            exists|m: int|
                0 <= m < old(self)@.libs.len() && old(self)@.libs[m].id == lib && final(self)@ == (HostView {
                    insts: old(self)@.insts.push(InstEntry { id: inst, library: lib, path: old(self)@.libs[m].path }),
                    next_id: (old(self)@.next_id + 1) as u64,
                    ..old(self)@
                }),
    {
        let ghost v = self@;
        let m = match self.lib_index(lib) {
            Some(m) => m,
            None => {
                proof {
                    assert(false);
                }
                return 0;
            },
        };
        let path = self.libraries[m].path.clone();
        let id = self.next_id;
        self.instances.push(InstanceRecord { id, library: lib, path });
        self.next_id = self.next_id + 1;
        proof {
            let w = self@;
            assert(w.insts =~= v.insts.push(InstEntry { id, library: lib, path: v.libs[m as int].path }));
            assert(w.libs == v.libs);
            assert forall|k: int| 0 <= k < w.insts.len() implies has_lib(w, (#[trigger] w.insts[k]).library) by {
                if k < v.insts.len() {
                    assert(w.insts[k] == v.insts[k]);
                    assert(has_lib(v, v.insts[k].library));
                } else {
                    assert(w.libs[m as int].id == lib);
                }
            }
            assert forall|k: int, x: int|
                0 <= k < w.insts.len() && 0 <= x < w.libs.len() && (#[trigger] w.insts[k]).library == (
                #[trigger] w.libs[x]).id implies w.insts[k].path == w.libs[x].path by {
                if k < v.insts.len() {
                    assert(w.insts[k] == v.insts[k]);
                } else if x != m {
                    if x < m {
                        assert(v.libs[x].id < v.libs[m as int].id);
                    } else {
                        assert(v.libs[m as int].id < v.libs[x].id);
                    }
                }
            }
            assert forall|k1: int, k2: int|
                0 <= k1 < k2 < w.insts.len() implies (#[trigger] w.insts[k1]).id < (#[trigger] w.insts[k2]).id by {
                assert(w.insts[k1] == v.insts[k1]);
                if k2 < v.insts.len() {
                    assert(w.insts[k2] == v.insts[k2]);
                }
            }
            assert forall|k: int| 0 <= k < w.insts.len() implies (#[trigger] w.insts[k]).id < w.next_id by {
                if k < v.insts.len() {
                    assert(w.insts[k] == v.insts[k]);
                }
            }
        }
        id
    }

    /// Drops a library that the caller could not load. It has never been
    /// loaded, so no unload is due.
    pub fn forget(&mut self, lib: u64)
        requires
            host_ok(old(self)@),
            !has_instances(old(self)@, lib),
        ensures
            host_ok(final(self)@),
            !has_lib(old(self)@, lib) ==> final(self)@ == old(self)@,
            has_lib(old(self)@, lib) ==> exists|m: int|
                0 <= m < old(self)@.libs.len() && old(self)@.libs[m].id == lib && final(self)@ == (HostView {
                    libs: old(self)@.libs.remove(m),
                    ..old(self)@
                }),
    {
        let ghost v = self@;
        if let Some(m) = self.lib_index(lib) {
            self.libraries.remove(m);
            proof {
                let w = self@;
                assert(w.libs =~= v.libs.remove(m as int));
                assert forall|k: int| 0 <= k < w.insts.len() implies has_lib(w, (#[trigger] w.insts[k]).library) by {
                    assert(w.insts[k] == v.insts[k]);
                    assert(has_lib(v, v.insts[k].library));
                    let x = choose|x: int| 0 <= x < v.libs.len() && (#[trigger] v.libs[x]).id == v.insts[k].library;
                    assert(x != m);
                    if x < m {
                        assert(w.libs[x] == v.libs[x]);
                    } else {
                        assert(w.libs[x - 1] == v.libs[x]);
                    }
                }
                assert forall|k: int, x: int|
                    0 <= k < w.insts.len() && 0 <= x < w.libs.len() && (#[trigger] w.insts[k]).library == (
                    #[trigger] w.libs[x]).id implies w.insts[k].path == w.libs[x].path by {
                    if x < m {
                        assert(w.libs[x] == v.libs[x]);
                    } else {
                        assert(w.libs[x] == v.libs[x + 1]);
                    }
                }
                assert forall|m1: int, m2: int|
                    0 <= m1 < m2 < w.libs.len() implies (#[trigger] w.libs[m1]).id < (#[trigger] w.libs[m2]).id by {
                    let a = if m1 < m { m1 } else { m1 + 1 };
                    let b = if m2 < m { m2 } else { m2 + 1 };
                    assert(w.libs[m1] == v.libs[a]);
                    assert(w.libs[m2] == v.libs[b]);
                }
                assert forall|x: int| 0 <= x < w.libs.len() implies (#[trigger] w.libs[x]).id < w.next_id by {
                    if x < m {
                        assert(w.libs[x] == v.libs[x]);
                    } else {
                        assert(w.libs[x] == v.libs[x + 1]);
                    }
                }
            }
        }
    }

    /// Teardown: destroys every instance, then unloads every library.
    pub fn shutdown(&mut self) -> (acts: Vec<HostAction>)
        requires
            host_ok(old(self)@),
        ensures
            host_ok(final(self)@),
            final(self)@ == (HostView { libs: Seq::empty(), insts: Seq::empty(), ..old(self)@ }),
            acts@ == all_destroys(old(self)@.insts) + all_unloads(old(self)@.libs),
            lifecycle_ordered(old(self)@, final(self)@, acts@),
    {
        let ghost v = self@;
        let mut acts: Vec<HostAction> = Vec::new();
        let mut i: usize = 0;
        while i < self.instances.len()
            invariant
                v == self@,
                i <= v.insts.len(),
                acts@ == all_destroys(v.insts.take(i as int)),
            decreases v.insts.len() - i,
        {
            acts.push(HostAction::Destroy { library: self.instances[i].library, instance: self.instances[i].id });
            proof {
                assert(acts@ =~= all_destroys(v.insts.take(i + 1)));
            }
            i = i + 1;
        }
        proof {
            assert(v.insts.take(v.insts.len() as int) =~= v.insts);
        }
        let ghost d = acts@;
        let mut m: usize = 0;
        while m < self.libraries.len()
            invariant
                v == self@,
                m <= v.libs.len(),
                acts@ == d + all_unloads(v.libs.take(m as int)),
            decreases v.libs.len() - m,
        {
            acts.push(HostAction::Unload { library: self.libraries[m].id });
            proof {
                assert(acts@ =~= d + all_unloads(v.libs.take(m + 1)));
            }
            m = m + 1;
        }
        proof {
            assert(v.libs.take(v.libs.len() as int) =~= v.libs);
        }
        self.instances = Vec::new();
        self.libraries = Vec::new();
        proof {
            let w = self@;
            assert(w.libs =~= Seq::<LibEntry>::empty());
            assert(w.insts =~= Seq::<InstEntry>::empty());
            let a = acts@;
            assert forall|i: int, j: int|
                0 <= i < j < a.len() && (#[trigger] a[i]) is Unload implies action_library(#[trigger] a[j])
                    != action_library(a[i]) by {
                if i >= d.len() {
                    assert(v.libs[i - d.len()].id < v.libs[j - d.len()].id);
                }
            }
            assert forall|j: int, k: int|
                0 <= j < a.len() && 0 <= k < v.insts.len() && #[trigger] a[j] == (HostAction::Unload {
                    library: (#[trigger] v.insts[k]).library,
                }) implies exists|i: int|
                    0 <= i < j && #[trigger] a[i] == (HostAction::Destroy {
                        library: v.insts[k].library,
                        instance: v.insts[k].id,
                    }) by {
                assert(a[k] == d[k]);
            }
        }
        acts
    }
}

/// Library `lib` is loaded and still the one handed out for its path.
pub open spec fn is_cached(v: HostView, lib: u64) -> bool {
    exists|m: int| 0 <= m < v.libs.len() && (#[trigger] v.libs[m]).id == lib && v.libs[m].cached
}

impl PluginHost {
    /// Destroys one instance. When it was the last instance of a library that
    /// is no longer handed out, that library is unloaded right after.
    #[verifier::rlimit(100)]
    pub fn destroy_instance(&mut self, inst: u64) -> (acts: Vec<HostAction>)
        requires
            host_ok(old(self)@),
        ensures
            host_ok(final(self)@),
            lifecycle_ordered(old(self)@, final(self)@, acts@),
            (forall|k: int| 0 <= k < old(self)@.insts.len() ==> (#[trigger] old(self)@.insts[k]).id != inst)
                ==> acts@.len() == 0 && final(self)@ == old(self)@,
            forall|k: int|
                0 <= k < old(self)@.insts.len() && (#[trigger] old(self)@.insts[k]).id == inst ==> {
                    let lib = old(self)@.insts[k].library;
                    let rest = old(self)@.insts.remove(k);
                    let last = !is_cached(old(self)@, lib) && !has_instances(
                        HostView { insts: rest, ..old(self)@ },
                        lib,
                    );
                    &&& final(self)@.insts == rest
                    &&& final(self)@.next_id == old(self)@.next_id
                    &&& acts@[0] == (HostAction::Destroy { library: lib, instance: inst })
                    &&& last ==> acts@.len() == 2 && acts@[1] == (HostAction::Unload { library: lib })
                        && exists|m: int|
                        0 <= m < old(self)@.libs.len() && old(self)@.libs[m].id == lib
                            && final(self)@.libs == old(self)@.libs.remove(m)
                    &&& !last ==> acts@.len() == 1 && final(self)@.libs == old(self)@.libs
                },
    {
        let ghost v = self@;
        let mut acts: Vec<HostAction> = Vec::new();
        let mut k: usize = 0;
        while k < self.instances.len() && self.instances[k].id != inst
            invariant
                v == self@,
                k <= v.insts.len(),
                forall|x: int| 0 <= x < k ==> (#[trigger] v.insts[x]).id != inst,
            decreases v.insts.len() - k,
        {
            k = k + 1;
        }
        if k == self.instances.len() {
            return acts;
        }
        proof {
            assert forall|x: int| 0 <= x < v.insts.len() && (#[trigger] v.insts[x]).id == inst implies x == k by {
                if x > k {
                    assert(v.insts[k as int].id < v.insts[x].id);
                }
            }
        }
        let lib = self.instances[k].library;
        let m = match self.lib_index(lib) {
            Some(m) => m,
            None => {
                proof {
                    assert(has_lib(v, v.insts[k as int].library));
                    assert(false);
                }
                return acts;
            },
        };
        let cached = self.libraries[m].cached;
        self.instances.remove(k);
        acts.push(HostAction::Destroy { library: lib, instance: inst });
        let ghost rest = v.insts.remove(k as int);
        proof {
            assert(self@.insts =~= rest);
        }
        let mut others = false;
        let mut x: usize = 0;
        while x < self.instances.len()
            invariant
                self@.insts == rest,
                self@.libs == v.libs,
                x <= rest.len(),
                others == exists|y: int| 0 <= y < x && (#[trigger] rest[y]).library == lib,
            decreases rest.len() - x,
        {
            let ghost was = others;
            if self.instances[x].library == lib {
                others = true;
            }
            proof {
                if rest[x as int].library == lib {
                    assert(0 <= x < x + 1 && rest[x as int].library == lib);
                } else if was {
                    let y = choose|y: int| 0 <= y < x && (#[trigger] rest[y]).library == lib;
                    assert(0 <= y < x + 1 && rest[y].library == lib);
                } else {
                    assert forall|y: int| 0 <= y < x + 1 implies (#[trigger] rest[y]).library != lib by {}
                }
            }
            x = x + 1;
        }
        proof {
            assert(is_cached(v, lib) == cached) by {
                if is_cached(v, lib) {
                    let y = choose|y: int| 0 <= y < v.libs.len() && (#[trigger] v.libs[y]).id == lib && v.libs[y].cached;
                    if y < m {
                        assert(v.libs[y].id < v.libs[m as int].id);
                    } else if y > m {
                        assert(v.libs[m as int].id < v.libs[y].id);
                    }
                }
            }
            assert(has_instances(HostView { insts: rest, ..v }, lib) == others);
        }
        if !cached && !others {
            self.libraries.remove(m);
            acts.push(HostAction::Unload { library: lib });
        }
        proof {
            let w = self@;
            let a = acts@;
            assert forall|y: int| 0 <= y < w.insts.len() implies has_lib(w, (#[trigger] w.insts[y]).library) by {
                let y0 = if y < k { y } else { y + 1 };
                assert(w.insts[y] == v.insts[y0]);
                assert(has_lib(v, v.insts[y0].library));
                let z = choose|z: int| 0 <= z < v.libs.len() && (#[trigger] v.libs[z]).id == v.insts[y0].library;
                if !cached && !others {
                    assert(w.insts[y].library != lib);
                    assert(z != m);
                    if z < m {
                        assert(w.libs[z] == v.libs[z]);
                    } else {
                        assert(w.libs[z - 1] == v.libs[z]);
                    }
                } else {
                    assert(w.libs[z] == v.libs[z]);
                }
            }
            assert forall|y: int, z: int|
                0 <= y < w.insts.len() && 0 <= z < w.libs.len() && (#[trigger] w.insts[y]).library == (
                #[trigger] w.libs[z]).id implies w.insts[y].path == w.libs[z].path by {
                let y0 = if y < k { y } else { y + 1 };
                assert(w.insts[y] == v.insts[y0]);
                if !cached && !others {
                    let z0 = if z < m { z } else { z + 1 };
                    assert(w.libs[z] == v.libs[z0]);
                } else {
                    assert(w.libs[z] == v.libs[z]);
                }
            }
            assert forall|y1: int, y2: int|
                0 <= y1 < y2 < w.insts.len() implies (#[trigger] w.insts[y1]).id < (#[trigger] w.insts[y2]).id by {
                let a1 = if y1 < k { y1 } else { y1 + 1 };
                let a2 = if y2 < k { y2 } else { y2 + 1 };
                assert(w.insts[y1] == v.insts[a1]);
                assert(w.insts[y2] == v.insts[a2]);
            }
            assert forall|y: int| 0 <= y < w.insts.len() implies (#[trigger] w.insts[y]).id < w.next_id by {
                let y0 = if y < k { y } else { y + 1 };
                assert(w.insts[y] == v.insts[y0]);
            }
            if !cached && !others {
                assert(w.libs =~= v.libs.remove(m as int));
                assert forall|m1: int, m2: int|
                    0 <= m1 < m2 < w.libs.len() implies (#[trigger] w.libs[m1]).id < (#[trigger] w.libs[m2]).id by {
                    let b1 = if m1 < m { m1 } else { m1 + 1 };
                    let b2 = if m2 < m { m2 } else { m2 + 1 };
                    assert(w.libs[m1] == v.libs[b1]);
                    assert(w.libs[m2] == v.libs[b2]);
                }
                assert forall|z: int| 0 <= z < w.libs.len() implies (#[trigger] w.libs[z]).id < w.next_id by {
                    let z0 = if z < m { z } else { z + 1 };
                    assert(w.libs[z] == v.libs[z0]);
                }
                assert forall|j: int, y: int|
                    0 <= j < a.len() && 0 <= y < v.insts.len() && #[trigger] a[j] == (HostAction::Unload {
                        library: (#[trigger] v.insts[y]).library,
                    }) implies exists|i: int|
                        0 <= i < j && #[trigger] a[i] == (HostAction::Destroy {
                            library: v.insts[y].library,
                            instance: v.insts[y].id,
                        }) by {
                    assert(j == 1);
                    if y != k {
                        let y1 = if y < k { y } else { y - 1 };
                        assert(rest[y1] == v.insts[y]);
                    }
                    assert(a[0] == (HostAction::Destroy { library: v.insts[y].library, instance: v.insts[y].id }));
                }
                assert forall|j: int| 0 <= j < a.len() && (#[trigger] a[j]) is Unload implies !has_lib(
                    w,
                    action_library(a[j]),
                ) && !has_instances(w, action_library(a[j])) by {
                    assert(j == 1);
                    if has_lib(w, lib) {
                        let z = choose|z: int| 0 <= z < w.libs.len() && (#[trigger] w.libs[z]).id == lib;
                        let z0 = if z < m { z } else { z + 1 };
                        assert(w.libs[z] == v.libs[z0]);
                        if z0 < m {
                            assert(v.libs[z0].id < v.libs[m as int].id);
                        } else {
                            assert(v.libs[m as int].id < v.libs[z0].id);
                        }
                    }
                }
            } else {
                assert(w.libs == v.libs);
            }
        }
        acts
    }
}

impl PluginHost {
    fn cached_index(&self, path: &String) -> (r: Option<usize>)
        requires
            host_ok(self@),
        ensures
            match r {
                Some(m) => m < self@.libs.len() && cached_for(self@.libs, path@) == Some(
                    self@.libs[m as int].id,
                ) && self@.libs[m as int].cached && self@.libs[m as int].path == path@,
                None => cached_for(self@.libs, path@) is None,
            },
    {
        let ghost v = self@;
        let mut i: usize = self.libraries.len();
        proof {
            assert(v.libs.take(i as int) =~= v.libs);
        }
        while i > 0
            invariant
                v == self@,
                i <= v.libs.len(),
                cached_for(v.libs, path@) == cached_for(v.libs.take(i as int), path@),
            decreases i,
        {
            let ghost t = v.libs.take(i as int);
            proof {
                assert(t.drop_last() =~= v.libs.take(i - 1));
                assert(t.last() == lib_entry(self.libraries@[i - 1]));
            }
            if self.libraries[i - 1].cached && self.libraries[i - 1].path == *path {
                return Some(i - 1);
            }
            i = i - 1;
        }
        proof {
            assert(v.libs.take(0) =~= Seq::<LibEntry>::empty());
        }
        None
    }

    fn has_instances_of(&self, lib: u64) -> (r: bool)
        ensures
            r == has_instances(self@, lib),
    {
        let mut k: usize = 0;
        while k < self.instances.len()
            invariant
                k <= self@.insts.len(),
                forall|x: int| 0 <= x < k ==> (#[trigger] self@.insts[x]).library != lib,
            decreases self@.insts.len() - k,
        {
            if self.instances[k].library == lib {
                proof {
                    assert(self@.insts[k as int].library == lib);
                }
                return true;
            }
            k = k + 1;
        }
        false
    }

    /// The file behind `path` changed: its library is no longer handed out.
    /// It is unloaded at once when no instance of it is left; otherwise the
    /// destruction of its last instance unloads it.
    pub fn release_path(&mut self, path: &String) -> (acts: Vec<HostAction>)
        requires
            host_ok(old(self)@),
        ensures
            host_ok(final(self)@),
            lifecycle_ordered(old(self)@, final(self)@, acts@),
            match cached_for(old(self)@.libs, path@) {
                None => acts@.len() == 0 && final(self)@ == old(self)@,
                Some(lib) => exists|m: int|
                    0 <= m < old(self)@.libs.len() && old(self)@.libs[m].id == lib && (has_instances(
                        old(self)@,
                        lib,
                    ) ==> acts@.len() == 0 && final(self)@ == (HostView {
                        libs: old(self)@.libs.update(m, LibEntry { cached: false, ..old(self)@.libs[m] }),
                        ..old(self)@
                    })) && (!has_instances(old(self)@, lib) ==> acts@ == seq![
                        HostAction::Unload { library: lib },
                    ] && final(self)@ == (HostView { libs: old(self)@.libs.remove(m), ..old(self)@ })),
            },
    {
        let ghost v = self@;
        let mut acts: Vec<HostAction> = Vec::new();
        let m = match self.cached_index(path) {
            Some(m) => m,
            None => {
                return acts;
            },
        };
        let lib = self.libraries[m].id;
        if self.has_instances_of(lib) {
            let entry = LibraryRecord { id: lib, path: self.libraries[m].path.clone(), cached: false };
            self.libraries.set(m, entry);
            proof {
                let w = self@;
                assert(w.libs =~= v.libs.update(m as int, LibEntry { cached: false, ..v.libs[m as int] }));
                assert forall|x: int| 0 <= x < w.libs.len() implies (#[trigger] w.libs[x]).id == v.libs[x].id
                    && w.libs[x].path == v.libs[x].path by {}
                assert forall|k: int| 0 <= k < w.insts.len() implies has_lib(w, (#[trigger] w.insts[k]).library) by {
                    assert(has_lib(v, v.insts[k].library));
                    let x = choose|x: int| 0 <= x < v.libs.len() && (#[trigger] v.libs[x]).id == v.insts[k].library;
                    assert(w.libs[x].id == v.libs[x].id);
                }
                assert forall|m1: int, m2: int|
                    0 <= m1 < m2 < w.libs.len() implies (#[trigger] w.libs[m1]).id < (#[trigger] w.libs[m2]).id by {
                    assert(w.libs[m1].id == v.libs[m1].id);
                    assert(w.libs[m2].id == v.libs[m2].id);
                }
                assert forall|k: int, x: int|
                    0 <= k < w.insts.len() && 0 <= x < w.libs.len() && (#[trigger] w.insts[k]).library == (
                    #[trigger] w.libs[x]).id implies w.insts[k].path == w.libs[x].path by {
                    assert(w.libs[x].id == v.libs[x].id);
                }
                assert forall|x: int| 0 <= x < w.libs.len() implies (#[trigger] w.libs[x]).id < w.next_id by {
                    assert(w.libs[x].id == v.libs[x].id);
                }
            }
            return acts;
        }
        self.libraries.remove(m);
        acts.push(HostAction::Unload { library: lib });
        proof {
            let w = self@;
            let a = acts@;
            assert(a =~= seq![HostAction::Unload { library: lib }]);
            assert(w.libs =~= v.libs.remove(m as int));
            assert forall|k: int| 0 <= k < w.insts.len() implies has_lib(w, (#[trigger] w.insts[k]).library) by {
                assert(w.insts[k] == v.insts[k]);
                assert(has_lib(v, v.insts[k].library));
                let x = choose|x: int| 0 <= x < v.libs.len() && (#[trigger] v.libs[x]).id == v.insts[k].library;
                assert(x != m);
                if x < m {
                    assert(w.libs[x] == v.libs[x]);
                } else {
                    assert(w.libs[x - 1] == v.libs[x]);
                }
            }
            assert forall|k: int, x: int|
                0 <= k < w.insts.len() && 0 <= x < w.libs.len() && (#[trigger] w.insts[k]).library == (
                #[trigger] w.libs[x]).id implies w.insts[k].path == w.libs[x].path by {
                if x < m {
                    assert(w.libs[x] == v.libs[x]);
                } else {
                    assert(w.libs[x] == v.libs[x + 1]);
                }
            }
            assert forall|m1: int, m2: int|
                0 <= m1 < m2 < w.libs.len() implies (#[trigger] w.libs[m1]).id < (#[trigger] w.libs[m2]).id by {
                let b1 = if m1 < m { m1 } else { m1 + 1 };
                let b2 = if m2 < m { m2 } else { m2 + 1 };
                assert(w.libs[m1] == v.libs[b1]);
                assert(w.libs[m2] == v.libs[b2]);
            }
            assert forall|x: int| 0 <= x < w.libs.len() implies (#[trigger] w.libs[x]).id < w.next_id by {
                if x < m {
                    assert(w.libs[x] == v.libs[x]);
                } else {
                    assert(w.libs[x] == v.libs[x + 1]);
                }
            }
            assert forall|j: int| 0 <= j < a.len() && (#[trigger] a[j]) is Unload implies !has_lib(
                w,
                action_library(a[j]),
            ) && !has_instances(w, action_library(a[j])) by {
                if has_lib(w, lib) {
                    let z = choose|z: int| 0 <= z < w.libs.len() && (#[trigger] w.libs[z]).id == lib;
                    let z0 = if z < m { z } else { z + 1 };
                    assert(w.libs[z] == v.libs[z0]);
                    if z0 < m {
                        assert(v.libs[z0].id < v.libs[m as int].id);
                    } else {
                        assert(v.libs[m as int].id < v.libs[z0].id);
                    }
                }
            }
        }
        acts
    }
}

} // verus!
