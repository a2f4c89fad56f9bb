//! Where the bytes of a resource are kept.
use crate::bytes::copy_bytes;
use crate::chars::copy_text;
use vstd::prelude::*;

verus! {

/// A store for the bytes of one resource.
pub trait Backing: Sized {
    /// The name of the resource.
    spec fn label(&self) -> Seq<char>;

    /// The bytes that are stored.
    spec fn stored(&self) -> Seq<u8>;

    /// The name of the resource.
    fn name(&self) -> (r: &str)
        ensures
            r@ == self.label(),
    ;

    /// The bytes that are stored.
    fn load(&self) -> (r: Vec<u8>)
        ensures
            r@ == self.stored(),
    ;

    /// Replaces the bytes that are stored.
    fn store(&mut self, bytes: &[u8])
        ensures
            final(self).stored() == bytes@,
            final(self).label() == old(self).label(),
    ;
}

/// A resource that is a file on disk: its name, and where it is.
pub struct FileBacking {
    name: String,
    path: String,
}

impl FileBacking {
    /// The name of the resource.
    pub closed spec fn label(&self) -> Seq<char> {
        self.name@
    }

    /// Where the file is.
    pub closed spec fn place(&self) -> Seq<char> {
        self.path@
    }

    /// A resource that is kept in a file.
    pub fn new(name: &str, path: &str) -> (r: Self)
        ensures
            r.label() == name@,
            r.place() == path@,
    {
        FileBacking { name: copy_text(name), path: copy_text(path) }
    }

    /// The name of the resource.
    pub fn name(&self) -> (r: &str)
        ensures
            r@ == self.label(),
    {
        self.name.as_str()
    }

    /// Where the file is.
    pub fn path(&self) -> (r: &str)
        ensures
            r@ == self.place(),
    {
        self.path.as_str()
    }
}

/// A resource whose bytes are kept in memory.
pub struct MemoryBacking {
    name: String,
    buf: Vec<u8>,
}

impl MemoryBacking {
    /// A resource without bytes.
    pub fn new(name: &str) -> (r: Self)
        ensures
            r.label() == name@,
            r.stored() == Seq::<u8>::empty(),
    {
        let r = MemoryBacking { name: copy_text(name), buf: Vec::new() };
        assert(r.stored() =~= Seq::<u8>::empty());
        r
    }

    /// The bytes, to look at.
    pub fn handle(&self) -> (r: &Vec<u8>)
        ensures
            r@ == self.stored(),
    {
        &self.buf
    }
}

impl Backing for MemoryBacking {
    closed spec fn label(&self) -> Seq<char> {
        self.name@
    }

    closed spec fn stored(&self) -> Seq<u8> {
        self.buf@
    }

    fn name(&self) -> (r: &str) {
        self.name.as_str()
    }

    fn load(&self) -> (r: Vec<u8>) {
        copy_bytes(self.buf.as_slice())
    }

    fn store(&mut self, bytes: &[u8]) {
        self.buf = copy_bytes(bytes);
    }
}

/// All resources that are kept in memory, in the order in which they came.
pub struct MemoryRegistry {
    inner: Vec<MemoryBacking>,
}

/// The names and bytes of a list of resources.
pub open spec fn contents(v: Seq<MemoryBacking>) -> Seq<(Seq<char>, Seq<u8>)> {
    v.map_values(|b: MemoryBacking| (b.label(), b.stored()))
}

/// The names and bytes of a snapshot.
pub open spec fn snapshot_view(v: Seq<(String, Vec<u8>)>) -> Seq<(Seq<char>, Seq<u8>)> {
    v.map_values(|p: (String, Vec<u8>)| (p.0@, p.1@))
}

impl View for MemoryRegistry {
    type V = Seq<(Seq<char>, Seq<u8>)>;

    closed spec fn view(&self) -> Seq<(Seq<char>, Seq<u8>)> {
        contents(self.inner@)
    }
}

impl MemoryRegistry {
    /// A registry without resources.
    pub fn new() -> (r: Self)
        ensures
            r@ == Seq::<(Seq<char>, Seq<u8>)>::empty(),
    {
        let r = MemoryRegistry { inner: Vec::new() };
        assert(r@ =~= Seq::empty());
        r
    }

    /// The number of resources.
    pub fn len(&self) -> (r: usize)
        ensures
            r == self@.len(),
    {
        self.inner.len()
    }

    /// Adds an empty resource, and hands it out to be filled.
    pub fn backing(&mut self, name: &str) -> (r: &mut MemoryBacking)
        ensures
            r.label() == name@,
            r.stored() == Seq::<u8>::empty(),
            final(self)@ == old(self)@.push((final(r).label(), final(r).stored())),
    {
        let ghost before = self.inner@;
        let fresh = MemoryBacking::new(name);
        let n: usize = self.inner.len();
        self.inner.push(fresh);
        assert forall|b: MemoryBacking| #[trigger]
            contents(before.push(fresh).update(n as int, b)) == contents(before).push(
                (b.label(), b.stored()),
            ) by {
            assert(contents(before.push(fresh).update(n as int, b)) =~= contents(before).push(
                (b.label(), b.stored()),
            ));
        }
        &mut self.inner[n]
    }

    /// The resource at a place, to be filled.
    pub fn backing_at(&mut self, i: usize) -> (r: &mut MemoryBacking)
        requires
            i < old(self)@.len(),
        ensures
            r.label() == old(self)@[i as int].0,
            r.stored() == old(self)@[i as int].1,
            final(self)@ == old(self)@.update(i as int, (final(r).label(), final(r).stored())),
    {
        let ghost before = self.inner@;
        assert forall|b: MemoryBacking| #[trigger]
            contents(before.update(i as int, b)) == contents(before).update(
                i as int,
                (b.label(), b.stored()),
            ) by {
            assert(contents(before.update(i as int, b)) =~= contents(before).update(
                i as int,
                (b.label(), b.stored()),
            ));
        }
        &mut self.inner[i]
    }

    /// The bytes of the resource at a place.
    pub fn load(&self, i: usize) -> (r: Vec<u8>)
        requires
            i < self@.len(),
        ensures
            r@ == self@[i as int].1,
    {
        self.inner[i].load()
    }

    /// The names and bytes of all resources.
    pub fn snapshot(&self) -> (r: Vec<(String, Vec<u8>)>)
        ensures
            snapshot_view(r@) == self@,
    {
        let mut out: Vec<(String, Vec<u8>)> = Vec::new();
        let mut i: usize = 0;
        while i < self.inner.len()
            invariant
                i <= self.inner@.len(),
                snapshot_view(out@) == self@.take(i as int),
            decreases self.inner@.len() - i,
        {
            let ghost before = out@;
            out.push((copy_text(self.inner[i].name()), self.inner[i].load()));
            assert(snapshot_view(out@) =~= snapshot_view(before).push(self@[i as int]));
            assert(self@.take(i + 1) =~= self@.take(i as int).push(self@[i as int]));
            i += 1;
        }
        assert(self@.take(i as int) =~= self@);
        out
    }
}

} // verus!
