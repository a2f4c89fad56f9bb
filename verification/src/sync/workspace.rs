//! A folder of resources, each with its own algorithm.
use crate::chars::{chars_of, copy_text, same_text, text_lt, texts};
use crate::crdt::oplog::sound;
use crate::sync::backing::{Backing, MemoryRegistry};
use crate::sync::manifest::{BackingChoice, Manifest, ManifestView};
use crate::sync::strategy::{fresh_view, AnySyncer, AnyView, Kind};
use crate::sync::tree::{name_of_site, site_name};
use crate::textmap::{in_order, TextMap};
use vstd::prelude::*;

verus! {

/// Where a resource is kept: in a file, or at a place of the registry.
#[derive(Clone, Copy)]
pub enum Slot {
    File,
    Memory(usize),
}

/// One synced thing: its algorithm, and where its bytes are.
pub struct Resource {
    pub kind: Kind,
    pub strategy: AnySyncer,
    pub slot: Slot,
}

/// What a resource is.
pub struct ResourceView {
    pub kind: Kind,
    pub strategy: AnyView,
    pub slot: Slot,
}

impl View for Resource {
    type V = ResourceView;

    open spec fn view(&self) -> ResourceView {
        ResourceView { kind: self.kind, strategy: self.strategy@, slot: self.slot }
    }
}

/// What becomes of a path that is new to a workspace.
#[derive(Debug, Clone, Copy, PartialEq, Eq, Structural)]
pub enum Placement {
    /// It is left out.
    Skip,
    /// It is kept in a file.
    File,
    /// It is kept in memory.
    Memory,
}

/// A folder of resources.
pub struct Workspace {
    root: String,
    /// The name under which this side writes.
    author: String,
    manifest: Manifest,
    /// Whether resources are kept in memory where their rule does not say.
    memory: bool,
    registry: MemoryRegistry,
    resources: TextMap<Resource>,
}

/// What a folder holds.
pub struct WorkspaceView {
    pub root: Seq<char>,
    /// The name under which this side writes.
    pub author: Seq<char>,
    pub manifest: ManifestView,
    pub memory: bool,
    pub registry: Seq<(Seq<char>, Seq<u8>)>,
    pub resources: Map<Seq<char>, ResourceView>,
}

/// What a map of resources holds.
pub open spec fn resource_views(m: Map<Seq<char>, Resource>) -> Map<Seq<char>, ResourceView> {
    m.map_values(|r: Resource| r@)
}

impl View for Workspace {
    type V = WorkspaceView;

    closed spec fn view(&self) -> WorkspaceView {
        WorkspaceView {
            root: self.root@,
            author: self.author@,
            manifest: self.manifest@,
            memory: self.memory,
            registry: self.registry@,
            resources: resource_views(self.resources@),
        }
    }
}

impl WorkspaceView {
    /// What becomes of a path that is new: its rule decides where it is kept,
    /// else the workspace does. Kinds that are not there yet are left out.
    pub open spec fn placement(self, rel: Seq<char>) -> Placement {
        let kind = self.manifest.kind_of(rel);
        if kind == Kind::Image {
            Placement::Skip
        } else {
            match self.manifest.backing_of(rel) {
                Some(BackingChoice::Memory) => Placement::Memory,
                Some(BackingChoice::File) => Placement::File,
                None => if self.memory {
                    Placement::Memory
                } else {
                    Placement::File
                },
            }
        }
    }

    /// The folder after a path has been created, with the bytes that the disk
    /// has for it.
    pub open spec fn created(self, rel: Seq<char>, disk: Option<Seq<u8>>) -> WorkspaceView {
        let kind = self.manifest.kind_of(rel);
        let strategy = fresh_view(kind, self.author);
        match self.placement(rel) {
            Placement::Skip => self,
            Placement::File => WorkspaceView {
                resources: self.resources.insert(
                    rel,
                    ResourceView { kind, strategy, slot: Slot::File },
                ),
                ..self
            },
            Placement::Memory => WorkspaceView {
                registry: self.registry.push(
                    (
                        rel,
                        match disk {
                            Some(b) => b,
                            None => Seq::empty(),
                        },
                    ),
                ),
                resources: self.resources.insert(
                    rel,
                    ResourceView {
                        kind,
                        strategy,
                        slot: Slot::Memory(self.registry.len() as usize),
                    },
                ),
                ..self
            },
        }
    }

    /// The folder after a path has been made sure of.
    pub open spec fn ensured(self, rel: Seq<char>, disk: Option<Seq<u8>>) -> WorkspaceView {
        if self.resources.contains_key(rel) {
            self
        } else {
            self.created(rel, disk)
        }
    }

    /// The folder after a scan of the disk.
    pub open spec fn refreshed(self, scanned: Seq<(Seq<char>, Option<Seq<u8>>)>) -> WorkspaceView
        decreases scanned.len(),
    {
        if scanned.len() == 0 {
            self
        } else {
            self.refreshed(scanned.drop_last()).ensured(scanned.last().0, scanned.last().1)
        }
    }

    /// The paths that a scan of the disk adds, in the order of the scan.
    pub open spec fn added(self, scanned: Seq<(Seq<char>, Option<Seq<u8>>)>) -> Seq<Seq<char>>
        decreases scanned.len(),
    {
        if scanned.len() == 0 {
            Seq::empty()
        } else {
            let front = self.added(scanned.drop_last());
            let before = self.refreshed(scanned.drop_last());
            let p = scanned.last().0;
            if !before.resources.contains_key(p) && before.placement(p) != Placement::Skip {
                front.push(p)
            } else {
                front
            }
        }
    }
}

/// The paths and bytes of a scan.
pub open spec fn scan_view(v: Seq<(String, Option<Vec<u8>>)>) -> Seq<(Seq<char>, Option<Seq<u8>>)> {
    v.map_values(
        |e: (String, Option<Vec<u8>>)|
            (
                e.0@,
                match e.1 {
                    Some(b) => Some(b@),
                    None => None,
                },
            ),
    )
}

/// Whether a scan takes up a file or directory of this name: hidden ones, the
/// manifest and invitations are left out.
pub open spec fn takes_up(name: Seq<char>) -> bool {
    &&& !(name.len() > 0 && name[0] == '.')
    &&& name != "riftpipe.toml"@
    &&& !".ticket"@.is_suffix_of(name)
}

/// Whether a scan takes up a file or directory of this name.
pub fn is_tracked(name: &str) -> (r: bool)
    ensures
        r == takes_up(name@),
{
    let n = chars_of(name);
    if n.len() > 0 && n[0] == '.' {
        return false;
    }
    if same_text(name, "riftpipe.toml") {
        return false;
    }
    let t = chars_of(".ticket");
    if t.len() > n.len() {
        return true;
    }
    let back = vstd::slice::slice_subrange(n.as_slice(), n.len() - t.len(), n.len());
    let same = crate::chars::same_chars(back, t.as_slice());
    assert(t@.is_suffix_of(n@) <==> n@.subrange(n@.len() - t@.len(), n@.len() as int) =~= t@);
    !same
}

impl Workspace {
    /// Every resource is sound and of its kind, and has its place.
    pub closed spec fn wf(&self) -> bool {
        &&& self.resources.wf()
        &&& self.author@ != "ROOT"@
        &&& forall|p: Seq<char>| #[trigger]
            self.resources@.contains_key(p) ==> self.resource_ok(p, self.resources@[p])
    }

    closed spec fn resource_ok(&self, p: Seq<char>, r: Resource) -> bool {
        &&& r.strategy.wf()
        &&& r.strategy.spec_kind() == r.kind
        &&& r.kind != Kind::Image
        &&& r.slot matches Slot::Memory(i) ==> i < self.registry@.len() && self.registry@[i as int].0
            == p
    }

    /// Every resource can take in one more local write.
    pub closed spec fn ready(&self, p: Seq<char>) -> bool {
        self.resources@.contains_key(p) ==> self.resources@[p].strategy.can_observe()
    }

    /// An empty workspace at a directory. Each side takes a site number of its own,
    /// so that no two write under one name.
    pub fn new(root: &str, manifest: Manifest, memory: bool, site: u32) -> (r: Self)
        ensures
            r.wf(),
            r@ == (WorkspaceView {
                root: root@,
                author: site_name(site),
                manifest: manifest@,
                memory,
                registry: Seq::empty(),
                resources: Map::empty(),
            }),
    {
        let r = Workspace {
            root: copy_text(root),
            author: name_of_site(site),
            manifest,
            memory,
            registry: MemoryRegistry::new(),
            resources: TextMap::new(),
        };
        assert(r@.resources =~= Map::empty());
        r
    }

    /// The resources that are kept in memory.
    pub fn registry(&self) -> (r: &MemoryRegistry)
        ensures
            r@ == self@.registry,
    {
        &self.registry
    }

    /// The directory of the workspace.
    pub fn root(&self) -> (r: &str)
        ensures
            r@ == self@.root,
    {
        self.root.as_str()
    }

    /// The paths of all resources, in order.
    pub fn paths(&self) -> (r: Vec<String>)
        requires
            self.wf(),
        ensures
            texts(r@) == in_order(self@.resources.dom()),
    {
        let ghost keys = self.resources.keys();
        proof {
            self.resources.lemma_keys();
            assert(self@.resources.dom() =~= self.resources@.dom());
        }
        let mut out: Vec<String> = Vec::new();
        let mut i: usize = 0;
        while i < self.resources.len()
            invariant
                i <= keys.len(),
                keys == self.resources.keys(),
                texts(out@) == keys.take(i as int),
            decreases keys.len() - i,
        {
            let ghost before = out@;
            out.push(copy_text(self.resources.key(i)));
            assert(texts(out@) =~= texts(before).push(keys[i as int]));
            assert(keys.take(i + 1) =~= keys.take(i as int).push(keys[i as int]));
            i += 1;
        }
        assert(keys.take(i as int) =~= keys);
        out
    }

    /// Every listed path has its resource.
    pub proof fn lemma_listed(&self, i: int)
        requires
            self.wf(),
            0 <= i < in_order(self@.resources.dom()).len(),
        ensures
            self@.resources.contains_key(in_order(self@.resources.dom())[i]),
    {
        self.resources.lemma_keys();
        assert(self@.resources.dom() =~= self.resources@.dom());
        let keys = self.resources.keys();
        assert(keys.to_set().contains(keys[i]));
    }

    /// The events of every text have different identities and come after their
    /// parents.
    pub proof fn lemma_sound(&self, p: Seq<char>)
        requires
            self.wf(),
            self@.resources.contains_key(p),
        ensures
            self@.resources[p].strategy matches AnyView::Text(a) ==> sound(a.doc.events),
    {
        assert(self.resource_ok(p, self.resources@[p]));
        self.resources@[p].strategy.lemma_sound();
    }

    /// The resource at a path.
    pub fn get(&self, rel: &str) -> (r: Option<&Resource>)
        requires
            self.wf(),
        ensures
            match r {
                Some(x) => self@.resources.contains_key(rel@) && x@ == self@.resources[rel@]
                    && x.strategy.wf(),
                None => !self@.resources.contains_key(rel@),
            },
    {
        let r = self.resources.get(rel);
        proof {
            if let Some(x) = r {
                assert(self.resources@.contains_key(rel@));
                assert(self.resource_ok(rel@, self.resources@[rel@]));
            }
        }
        r
    }

    /// What becomes of a path that is new.
    pub fn placement(&self, rel: &str) -> (r: Placement)
        ensures
            r == self@.placement(rel@),
    {
        let kind = self.manifest.kind_for(rel);
        if !kind.is_implemented() {
            return Placement::Skip;
        }
        match self.manifest.backing_for(rel) {
            Some(BackingChoice::Memory) => Placement::Memory,
            Some(BackingChoice::File) => Placement::File,
            None => if self.memory {
                Placement::Memory
            } else {
                Placement::File
            },
        }
    }

    /// Creates the resource at a path, unless it is left out. What is kept in
    /// memory starts with the bytes that the disk has for it.
    fn create(&mut self, rel: &str, disk: Option<&[u8]>)
        requires
            old(self).wf(),
            !old(self)@.resources.contains_key(rel@),
        ensures
            final(self).wf(),
            final(self)@ == old(self)@.created(
                rel@,
                match disk {
                    Some(b) => Some(b@),
                    None => None,
                },
            ),
    {
        let ghost v0 = self@;
        let ghost m0 = self.resources@;
        let place = self.placement(rel);
        if place == Placement::Skip {
            return;
        }
        let kind = self.manifest.kind_for(rel);
        let strategy = kind.build(self.author.as_str());
        let slot = if place == Placement::Memory {
            let n: usize = self.registry.len();
            let backing = self.registry.backing(rel);
            if let Some(b) = disk {
                backing.store(b);
            }
            Slot::Memory(n)
        } else {
            Slot::File
        };
        let res = Resource { kind, strategy, slot };
        let ghost rv = res;
        self.resources.insert(rel, res);
        proof {
            assert(resource_views(self.resources@) =~= resource_views(m0).insert(rel@, rv@));
            assert forall|p: Seq<char>| #[trigger]
                self.resources@.contains_key(p) implies self.resource_ok(p, self.resources@[p]) by {
                if p != rel@ {
                    assert(m0.contains_key(p));
                    assert(old(self).resource_ok(p, m0[p]));
                }
            }
            match v0.placement(rel@) {
                Placement::Memory => {
                    assert(self@.registry =~= v0.created(
                        rel@,
                        match disk {
                            Some(b) => Some(b@),
                            None => None,
                        },
                    ).registry);
                },
                _ => {},
            }
        }
    }

    /// Makes sure that a path has its resource. False if it is left out.
    pub fn ensure(&mut self, rel: &str, disk: Option<&[u8]>) -> (r: bool)
        requires
            old(self).wf(),
        ensures
            final(self).wf(),
            final(self)@ == old(self)@.ensured(
                rel@,
                match disk {
                    Some(b) => Some(b@),
                    None => None,
                },
            ),
            r == final(self)@.resources.contains_key(rel@),
            r <==> old(self)@.resources.contains_key(rel@) || old(self)@.manifest.kind_of(rel@)
                != Kind::Image,
    {
        if self.resources.contains_key(rel) {
            return true;
        }
        let ghost w0 = self@;
        self.create(rel, disk);
        proof {
            if w0.placement(rel@) != Placement::Skip {
                assert(self@.resources.contains_key(rel@));
            }
        }
        self.resources.contains_key(rel)
    }

    /// Takes up what a scan of the disk found, and returns the paths that are
    /// new. A workspace in memory takes up nothing.
    pub fn refresh_disk(&mut self, scanned: &Vec<(String, Option<Vec<u8>>)>) -> (r: Vec<String>)
        requires
            old(self).wf(),
        ensures
            final(self).wf(),
            final(self)@ == (if old(self)@.memory {
                old(self)@
            } else {
                old(self)@.refreshed(scan_view(scanned@))
            }),
            texts(r@) == (if old(self)@.memory {
                Seq::<Seq<char>>::empty()
            } else {
                old(self)@.added(scan_view(scanned@))
            }),
    {
        if self.memory {
            let none: Vec<String> = Vec::new();
            assert(texts(none@) =~= Seq::<Seq<char>>::empty());
            return none;
        }
        self.scan(scanned)
    }

    /// Takes up what a scan of the disk found when the workspace is opened.
    pub fn open(&mut self, scanned: &Vec<(String, Option<Vec<u8>>)>)
        requires
            old(self).wf(),
        ensures
            final(self).wf(),
            final(self)@ == old(self)@.refreshed(scan_view(scanned@)),
    {
        let _ = self.scan(scanned);
    }

    fn scan(&mut self, scanned: &Vec<(String, Option<Vec<u8>>)>) -> (r: Vec<String>)
        requires
            old(self).wf(),
        ensures
            final(self).wf(),
            final(self)@ == old(self)@.refreshed(scan_view(scanned@)),
            texts(r@) == old(self)@.added(scan_view(scanned@)),
    {
        let ghost all = scan_view(scanned@);
        let ghost w0 = self@;
        let mut out: Vec<String> = Vec::new();
        let mut i: usize = 0;
        assert(all.take(0) =~= Seq::empty());
        assert(texts(out@) =~= Seq::empty());
        while i < scanned.len()
            invariant
                i <= scanned@.len(),
                all == scan_view(scanned@),
                self.wf(),
                w0 == old(self)@,
                self@ == w0.refreshed(all.take(i as int)),
                texts(out@) == w0.added(all.take(i as int)),
            decreases scanned@.len() - i,
        {
            assert(all.take(i + 1).drop_last() =~= all.take(i as int));
            assert(all.take(i + 1).last() == all[i as int]);
            let ghost before = out@;
            let rel = scanned[i].0.as_str();
            let held = self.resources.contains_key(rel);
            let here = match &scanned[i].1 {
                Some(b) => self.ensure(rel, Some(b.as_slice())),
                None => self.ensure(rel, None),
            };
            if !held && here {
                out.push(copy_text(rel));
                assert(texts(out@) =~= texts(before).push(rel@));
            }
            i += 1;
        }
        assert(all.take(i as int) =~= all);
        out
    }

    /// The bytes of a resource that is kept in memory.
    pub fn memory_bytes(&self, rel: &str) -> (r: Option<Vec<u8>>)
        requires
            self.wf(),
        ensures
            match r {
                Some(b) => self@.resources.contains_key(rel@) && self@.resources[rel@].slot is Memory
                    && b@ == self@.registry[self@.resources[rel@].slot->Memory_0 as int].1,
                None => self@.resources.contains_key(rel@) ==> self@.resources[rel@].slot is File,
            },
    {
        match self.resources.get(rel) {
            Some(res) => {
                assert(self.resources@.contains_key(rel@));
                assert(self.resource_ok(rel@, self.resources@[rel@]));
                match res.slot {
                    Slot::Memory(i) => Some(self.registry.load(i)),
                    Slot::File => None,
                }
            },
            None => None,
        }
    }

    /// Whether the resource at a path can take in one more local write.
    pub fn is_ready(&self, rel: &str) -> (r: bool)
        requires
            self.wf(),
        ensures
            r == self.ready(rel@),
    {
        match self.resources.get(rel) {
            Some(res) => {
                assert(self.resources@.contains_key(rel@));
                assert(self.resource_ok(rel@, self.resources@[rel@]));
                res.strategy.is_writable()
            },
            None => true,
        }
    }

    /// Takes a resource out, to be worked on.
    pub(crate) fn take(&mut self, rel: &str) -> (r: Option<Resource>)
        requires
            old(self).wf(),
        ensures
            final(self).wf(),
            match r {
                Some(x) => {
                    &&& old(self)@.resources.contains_key(rel@)
                    &&& x@ == old(self)@.resources[rel@]
                    &&& x.strategy.wf()
                    &&& x.strategy.spec_kind() == x.kind
                    &&& x.kind != Kind::Image
                    &&& old(self).ready(rel@) ==> x.strategy.can_observe()
                    &&& x.slot matches Slot::Memory(i) ==> i < final(self)@.registry.len()
                        && final(self)@.registry[i as int].0 == rel@
                    &&& final(self)@ == (WorkspaceView {
                        resources: old(self)@.resources.remove(rel@),
                        ..old(self)@
                    })
                },
                None => !old(self)@.resources.contains_key(rel@) && final(self)@ == old(self)@,
            },
    {
        let ghost m0 = self.resources@;
        let r = self.resources.remove(rel);
        proof {
            assert(resource_views(self.resources@) =~= resource_views(m0).remove(rel@));
            if m0.contains_key(rel@) {
                assert(old(self).resource_ok(rel@, m0[rel@]));
            } else {
                assert(resource_views(m0).remove(rel@) =~= resource_views(m0));
            }
            assert forall|p: Seq<char>| #[trigger]
                self.resources@.contains_key(p) implies self.resource_ok(p, self.resources@[p]) by {
                assert(m0.contains_key(p));
                assert(old(self).resource_ok(p, m0[p]));
            }
        }
        r
    }

    /// Puts a resource back.
    pub(crate) fn put(&mut self, rel: &str, x: Resource)
        requires
            old(self).wf(),
            x.strategy.wf(),
            x.strategy.spec_kind() == x.kind,
            x.kind != Kind::Image,
            x.slot matches Slot::Memory(i) ==> i < old(self)@.registry.len() && old(
                self,
            )@.registry[i as int].0 == rel@,
        ensures
            final(self).wf(),
            final(self)@ == (WorkspaceView {
                resources: old(self)@.resources.insert(rel@, x@),
                ..old(self)@
            }),
    {
        let ghost m0 = self.resources@;
        let ghost xv = x;
        self.resources.insert(rel, x);
        proof {
            assert(resource_views(self.resources@) =~= resource_views(m0).insert(rel@, xv@));
            assert forall|p: Seq<char>| #[trigger]
                self.resources@.contains_key(p) implies self.resource_ok(p, self.resources@[p]) by {
                if p != rel@ {
                    assert(m0.contains_key(p));
                    assert(old(self).resource_ok(p, m0[p]));
                }
            }
        }
    }

    /// Replaces the bytes of a resource that is kept in memory.
    pub(crate) fn store_memory(&mut self, i: usize, bytes: &[u8])
        requires
            old(self).wf(),
            i < old(self)@.registry.len(),
        ensures
            final(self).wf(),
            final(self)@ == (WorkspaceView {
                registry: old(self)@.registry.update(
                    i as int,
                    (old(self)@.registry[i as int].0, bytes@),
                ),
                ..old(self)@
            }),
    {
        let ghost m0 = self.resources@;
        let backing = self.registry.backing_at(i);
        backing.store(bytes);
        proof {
            assert forall|p: Seq<char>| #[trigger]
                self.resources@.contains_key(p) implies self.resource_ok(p, self.resources@[p]) by {
                assert(m0.contains_key(p));
                assert(old(self).resource_ok(p, m0[p]));
            }
        }
    }
}

// ---------------------------------------------------------------------------
// Laws
// ---------------------------------------------------------------------------

/// Whether a path is one that a folder takes up as new.
pub open spec fn is_new(w: WorkspaceView, p: Seq<char>) -> bool {
    !w.resources.contains_key(p) && w.manifest.kind_of(p) != Kind::Image
}

/// Whether a scan found a path.
pub open spec fn found(scanned: Seq<(Seq<char>, Option<Seq<u8>>)>, p: Seq<char>) -> bool {
    exists|i: int| 0 <= i < scanned.len() && (#[trigger] scanned[i]).0 == p
}

/// A scan adds exactly the paths that it found, that had no resource and whose
/// algorithm is there, each once. Nothing that was there is dropped or changed.
pub proof fn law_scans_add_what_is_new(
    w: WorkspaceView,
    scanned: Seq<(Seq<char>, Option<Seq<u8>>)>,
)
    ensures
        forall|p: Seq<char>| #[trigger]
            w.added(scanned).contains(p) <==> found(scanned, p) && is_new(w, p),
        w.added(scanned).no_duplicates(),
        forall|p: Seq<char>| #[trigger]
            w.refreshed(scanned).resources.contains_key(p) <==> w.resources.contains_key(p)
                || w.added(scanned).contains(p),
        forall|p: Seq<char>| #[trigger]
            w.resources.contains_key(p) ==> w.refreshed(scanned).resources[p] == w.resources[p],
        w.refreshed(scanned).manifest == w.manifest,
        w.refreshed(scanned).memory == w.memory,
    decreases scanned.len(),
{
    if scanned.len() > 0 {
        let front = scanned.drop_last();
        let last = scanned.last().0;
        law_scans_add_what_is_new(w, front);
        let before = w.refreshed(front);
        assert forall|p: Seq<char>| found(scanned, p) <==> found(front, p) || p == last by {
            if found(front, p) {
                let i = choose|i: int| 0 <= i < front.len() && (#[trigger] front[i]).0 == p;
                assert(scanned[i].0 == p);
            }
            if p == last {
                assert(scanned[scanned.len() - 1].0 == p);
            }
            if found(scanned, p) && p != last {
                let i = choose|i: int| 0 <= i < scanned.len() && (#[trigger] scanned[i]).0 == p;
                assert(front[i].0 == p);
            }
        }
        let old_list = w.added(front);
        let new_list = w.added(scanned);
        assert(before.placement(last) == Placement::Skip <==> w.manifest.kind_of(last)
            == Kind::Image);
        if !before.resources.contains_key(last) && before.placement(last) != Placement::Skip {
            assert(new_list == old_list.push(last));
            assert(new_list[old_list.len() as int] == last);
            assert forall|p: Seq<char>| #[trigger] new_list.contains(p) <==> old_list.contains(p) || p
                == last by {
                if old_list.contains(p) {
                    assert(new_list[old_list.index_of(p)] == p);
                }
                if new_list.contains(p) && p != last {
                    assert(old_list[new_list.index_of(p)] == p);
                }
            }
            assert(!old_list.contains(last));
        }
    }
}

/// The paths that a scan adds come in the order of the scan: in ascending order
/// where the scan was.
pub proof fn law_new_paths_are_in_order(
    w: WorkspaceView,
    scanned: Seq<(Seq<char>, Option<Seq<u8>>)>,
)
    requires
        forall|i: int, j: int|
            0 <= i < j < scanned.len() ==> text_lt(
                (#[trigger] scanned[i]).0,
                (#[trigger] scanned[j]).0,
            ),
    ensures
        forall|i: int, j: int|
            0 <= i < j < w.added(scanned).len() ==> text_lt(
                #[trigger] w.added(scanned)[i],
                #[trigger] w.added(scanned)[j],
            ),
    decreases scanned.len(),
{
    if scanned.len() > 0 {
        let front = scanned.drop_last();
        assert forall|i: int, j: int| 0 <= i < j < front.len() implies text_lt(
            (#[trigger] front[i]).0,
            (#[trigger] front[j]).0,
        ) by {
            assert(text_lt(scanned[i].0, scanned[j].0));
        }
        law_new_paths_are_in_order(w, front);
        law_scans_add_what_is_new(w, front);
        let old_list = w.added(front);
        let new_list = w.added(scanned);
        assert forall|i: int, j: int| 0 <= i < j < new_list.len() implies text_lt(
            #[trigger] new_list[i],
            #[trigger] new_list[j],
        ) by {
            assert(new_list[i] == old_list[i]);
            if j < old_list.len() {
                assert(new_list[j] == old_list[j]);
            } else {
                assert(old_list.contains(old_list[i]));
                let k = choose|k: int| 0 <= k < front.len() && (#[trigger] front[k]).0 == old_list[i];
                assert(text_lt(scanned[k].0, scanned[scanned.len() - 1].0));
            }
        }
    }
}

/// A second scan that finds the same adds nothing and changes nothing.
pub proof fn law_a_second_scan_adds_nothing(
    w: WorkspaceView,
    scanned: Seq<(Seq<char>, Option<Seq<u8>>)>,
)
    ensures
        w.refreshed(scanned).added(scanned) == Seq::<Seq<char>>::empty(),
        w.refreshed(scanned).refreshed(scanned) == w.refreshed(scanned),
{
    let w1 = w.refreshed(scanned);
    law_scans_add_what_is_new(w, scanned);
    law_scans_add_what_is_new(w1, scanned);
    let again = w1.added(scanned);
    if again.len() > 0 {
        assert(again.contains(again[0]));
        assert(is_new(w1, again[0]) && found(scanned, again[0]));
        assert(is_new(w, again[0]));
        assert(w.added(scanned).contains(again[0]));
    }
    assert(again =~= Seq::<Seq<char>>::empty());
    lemma_nothing_added(w1, scanned);
}

proof fn lemma_nothing_added(w: WorkspaceView, scanned: Seq<(Seq<char>, Option<Seq<u8>>)>)
    requires
        w.added(scanned).len() == 0,
    ensures
        w.refreshed(scanned) == w,
    decreases scanned.len(),
{
    if scanned.len() > 0 {
        lemma_nothing_added(w, scanned.drop_last());
    }
}

/// A new resource is of the kind that the manifest gives its path and starts empty. It is
/// kept where its rule says, and else as the workspace does; what is kept in memory starts
/// with the bytes of the disk. Kinds that are not there yet are left out, and no other
/// resource is touched.
pub proof fn law_new_resources_follow_the_manifest(
    w: WorkspaceView,
    rel: Seq<char>,
    disk: Option<Seq<u8>>,
    other: Seq<char>,
)
    requires
        !w.resources.contains_key(rel),
        other != rel,
        w.registry.len() <= usize::MAX,
    ensures
        ({
            let kind = w.manifest.kind_of(rel);
            let w1 = w.ensured(rel, disk);
            let in_memory = w.manifest.backing_of(rel) == Some(BackingChoice::Memory) || (
            w.manifest.backing_of(rel) is None && w.memory);
            &&& kind == Kind::Image ==> w1 == w
            &&& kind != Kind::Image ==> {
                &&& w1.resources.contains_key(rel)
                &&& w1.resources[rel].kind == kind
                &&& w1.resources[rel].strategy == fresh_view(kind, w.author)
                &&& !in_memory ==> w1.resources[rel].slot is File && w1.registry == w.registry
                &&& in_memory ==> (w1.resources[rel].slot matches Slot::Memory(i) && i
                    == w.registry.len() && w1.registry == w.registry.push(
                    (
                        rel,
                        match disk {
                            Some(b) => b,
                            None => Seq::empty(),
                        },
                    ),
                ))
            }
            &&& w1.resources.contains_key(other) <==> w.resources.contains_key(other)
            &&& w.resources.contains_key(other) ==> w1.resources[other] == w.resources[other]
        }),
{
}

/// A path that has its resource keeps it.
pub proof fn law_resources_stay(w: WorkspaceView, rel: Seq<char>, disk: Option<Seq<u8>>)
    requires
        w.resources.contains_key(rel),
    ensures
        w.ensured(rel, disk) == w,
{
}

/// A scan leaves out hidden names, the manifest and invitations, and takes up all others.
pub proof fn law_scans_leave_out_what_is_ours(name: Seq<char>, stem: Seq<char>)
    ensures
        !takes_up(seq!['.'] + name),
        !takes_up("riftpipe.toml"@),
        !takes_up(stem + ".ticket"@),
        (name.len() == 0 || name[0] != '.') && name != "riftpipe.toml"@ && (name.len() < 7
            || name.subrange(name.len() - 7, name.len() as int) != ".ticket"@) ==> takes_up(name),
{
    reveal_strlit(".ticket");
    let t = stem + ".ticket"@;
    assert(t.subrange(t.len() - 7, t.len() as int) =~= ".ticket"@);
    assert(".ticket"@.is_suffix_of(t));
    if ".ticket"@.is_suffix_of(name) {
        assert(name.subrange(name.len() - 7, name.len() as int) =~= ".ticket"@);
    }
}

} // verus!
