//! A capacity-bounded file store and an uploader that writes through it.

use vstd::prelude::*;

verus! {

/// Total size of the files in `files`.
pub open spec fn total_size(files: Seq<(String, usize)>) -> nat
    decreases files.len(),
{
    if files.len() == 0 {
        0
    } else {
        total_size(files.drop_last()) + files.last().1 as nat
    }
}

/// The size stored under `name` in `files`, if any.
pub open spec fn size_in(files: Seq<(String, usize)>, name: Seq<char>) -> Option<usize>
    decreases files.len(),
{
    if files.len() == 0 {
        None
    } else if files.last().0@ == name {
        Some(files.last().1)
    } else {
        size_in(files.drop_last(), name)
    }
}

/// No name occurs twice in `files`.
pub open spec fn names_unique(files: Seq<(String, usize)>) -> bool {
    forall|i: int, j: int| 0 <= i < j < files.len() ==> (#[trigger] files[i]).0@ != (#[trigger] files[j]).0@
}

/// With unique names, each entry is what its name looks up.
proof fn lemma_size_in_found(files: Seq<(String, usize)>, k: int)
    requires
        names_unique(files),
        0 <= k < files.len(),
    ensures
        size_in(files, files[k].0@) == Some(files[k].1),
    decreases files.len(),
{
    if k < files.len() - 1 {
        assert(files[k].0@ != files[files.len() - 1].0@);
        assert(files.drop_last()[k] == files[k]);
        lemma_size_in_found(files.drop_last(), k);
    }
}

/// A name listed nowhere looks up nothing.
proof fn lemma_size_in_absent(files: Seq<(String, usize)>, name: Seq<char>)
    requires
        forall|i: int| 0 <= i < files.len() ==> (#[trigger] files[i]).0@ != name,
    ensures
        size_in(files, name) is None,
    decreases files.len(),
{
    if files.len() > 0 {
        assert(files[files.len() - 1].0@ != name);
        assert forall|i: int| 0 <= i < files.len() - 1 implies (#[trigger] files.drop_last()[i]).0@ != name by {
            assert(files.drop_last()[i] == files[i]);
        }
        lemma_size_in_absent(files.drop_last(), name);
    }
}

/// Replacing one entry changes the total by the difference in size.
proof fn lemma_total_update(files: Seq<(String, usize)>, k: int, entry: (String, usize))
    requires
        0 <= k < files.len(),
    ensures
        total_size(files.update(k, entry)) + files[k].1 == total_size(files) + entry.1,
    decreases files.len(),
{
    let upd = files.update(k, entry);
    if k == files.len() - 1 {
        assert(upd.drop_last() =~= files.drop_last());
    } else {
        assert(upd.drop_last() =~= files.drop_last().update(k, entry));
        lemma_total_update(files.drop_last(), k, entry);
    }
}

/// Replacing the entry of a name changes what that name, and only it, looks up.
proof fn lemma_size_in_update(files: Seq<(String, usize)>, k: int, entry: (String, usize), name: Seq<char>)
    requires
        names_unique(files),
        0 <= k < files.len(),
        entry.0@ == files[k].0@,
    ensures
        size_in(files.update(k, entry), name) == if name == entry.0@ { Some(entry.1) } else { size_in(files, name) },
    decreases files.len(),
{
    let upd = files.update(k, entry);
    if k == files.len() - 1 {
        assert(upd.drop_last() =~= files.drop_last());
    } else {
        assert(upd.drop_last() =~= files.drop_last().update(k, entry));
        assert(files.drop_last()[k] == files[k]);
        assert forall|i: int, j: int| 0 <= i < j < files.drop_last().len()
            implies (#[trigger] files.drop_last()[i]).0@ != (#[trigger] files.drop_last()[j]).0@ by {
            assert(files[i] == files.drop_last()[i]);
            assert(files[j] == files.drop_last()[j]);
        }
        lemma_size_in_update(files.drop_last(), k, entry, name);
        if name == entry.0@ {
            assert(files[k].0@ != files[files.len() - 1].0@);
        }
    }
}

/// Something files can be uploaded to, up to a capacity.
pub trait Storage {
    /// Total size of the stored files.
    spec fn used_size(&self) -> nat;

    /// The most the files may take in total.
    spec fn capacity_size(&self) -> nat;

    /// The size of the file called `name`, if one is stored.
    spec fn stored_size(&self, name: Seq<char>) -> Option<usize>;

    /// Stores a file, replacing one of the same name, when `size` fits in
    /// the space left beside everything stored now (the file it replaces
    /// included). Otherwise fails with that space and changes nothing.
    fn upload(&mut self, name: &str, size: usize) -> (r: Result<(), usize>)
        ensures
            final(self).used_size() <= final(self).capacity_size(),
            final(self).capacity_size() == old(self).capacity_size(),
            size > old(self).capacity_size() - old(self).used_size() ==>
                r == Err::<(), usize>((old(self).capacity_size() - old(self).used_size()) as usize)
                && final(self).used_size() == old(self).used_size()
                && forall|n: Seq<char>| final(self).stored_size(n) == old(self).stored_size(n),
            size <= old(self).capacity_size() - old(self).used_size() ==> r == Ok::<(), usize>(())
                && (forall|n: Seq<char>| final(self).stored_size(n)
                    == if n == name@ { Some(size) } else { old(self).stored_size(n) })
                && final(self).used_size() + match old(self).stored_size(name@) { Some(s) => s as nat, None => 0 }
                    == old(self).used_size() + size;

    /// Total size of the stored files.
    fn used(&self) -> (r: usize)
        ensures
            r == self.used_size(),
            r <= self.capacity_size();

    /// The most the files may take in total.
    fn capacity(&self) -> (r: usize)
        ensures
            r == self.capacity_size();
}

/// An in-memory storage: named files with sizes, within a capacity.
pub struct MockStorage {
    files: Vec<(String, usize)>,
    capacity: usize,
}

impl MockStorage {
    /// Names are unique and the files fit in the capacity.
    #[verifier::type_invariant]
    spec fn wf(&self) -> bool {
        names_unique(self.files@) && total_size(self.files@) <= self.capacity
    }

    /// An empty storage of the given capacity.
    pub fn new(capacity: usize) -> (r: Self)
        ensures
            r.capacity_size() == capacity,
            r.used_size() == 0,
            forall|name: Seq<char>| r.stored_size(name) is None,
    {
        MockStorage { files: Vec::new(), capacity }
    }

    /// Where the file called `name` is listed.
    fn find(&self, name: &str) -> (r: Option<usize>)
        ensures
            match r {
                Some(k) => k < self.files@.len() && self.files@[k as int].0@ == name@,
                None => forall|i: int| 0 <= i < self.files@.len() ==> (#[trigger] self.files@[i]).0@ != name@,
            },
    {
        let key = name.to_owned();
        let mut i: usize = 0;
        while i < self.files.len()
            invariant
                key@ == name@,
                i <= self.files@.len(),
                forall|j: int| 0 <= j < i ==> (#[trigger] self.files@[j]).0@ != name@,
            decreases self.files@.len() - i,
        {
            if self.files[i].0 == key {
                return Some(i);
            }
            i = i + 1;
        }
        None
    }
}

impl Storage for MockStorage {
    closed spec fn used_size(&self) -> nat {
        total_size(self.files@)
    }

    closed spec fn capacity_size(&self) -> nat {
        self.capacity as nat
    }

    closed spec fn stored_size(&self, name: Seq<char>) -> Option<usize> {
        size_in(self.files@, name)
    }

    fn upload(&mut self, name: &str, size: usize) -> (r: Result<(), usize>) {
        proof {
            use_type_invariant(&*self);
        }
        let used = self.used();
        let free = self.capacity - used;
        if size > free {
            return Err(free);
        }
        let ghost before = self.files@;
        let entry = (name.to_owned(), size);
        let found = self.find(name);
        let mut files: Vec<(String, usize)> = Vec::new();
        std::mem::swap(&mut files, &mut self.files);
        match found {
            Some(k) => {
                proof {
                    lemma_size_in_found(before, k as int);
                    assert forall|n: Seq<char>| #![auto] size_in(before.update(k as int, entry), n)
                        == if n == name@ { Some(size) } else { size_in(before, n) } by {
                        lemma_size_in_update(before, k as int, entry, n);
                    }
                    lemma_total_update(before, k as int, entry);
                }
                files.set(k, entry);
                proof {
                    assert forall|i: int, j: int| 0 <= i < j < files@.len()
                        implies (#[trigger] files@[i]).0@ != (#[trigger] files@[j]).0@ by {
                        assert(before[i].0@ != before[j].0@);
                    }
                }
            },
            None => {
                proof {
                    lemma_size_in_absent(before, name@);
                }
                files.push(entry);
                proof {
                    assert(files@.drop_last() =~= before);
                    assert forall|i: int, j: int| 0 <= i < j < files@.len()
                        implies (#[trigger] files@[i]).0@ != (#[trigger] files@[j]).0@ by {
                        if j == before.len() {
                            assert(before[i].0@ != name@);
                        } else {
                            assert(before[i].0@ != before[j].0@);
                        }
                    }
                }
            },
        }
        self.files = files;
        Ok(())
    }

    fn used(&self) -> (r: usize) {
        proof {
            use_type_invariant(self);
        }
        let mut sum: usize = 0;
        let mut i: usize = 0;
        while i < self.files.len()
            invariant
                names_unique(self.files@) && total_size(self.files@) <= self.capacity,
                i <= self.files@.len(),
                sum == total_size(self.files@.subrange(0, i as int)),
            decreases self.files@.len() - i,
        {
            proof {
                assert(self.files@.subrange(0, i + 1).drop_last() =~= self.files@.subrange(0, i as int));
                lemma_total_prefix(self.files@, i + 1);
            }
            sum = sum + self.files[i].1;
            i = i + 1;
        }
        proof {
            assert(self.files@.subrange(0, i as int) =~= self.files@);
        }
        sum
    }

    fn capacity(&self) -> (r: usize) {
        self.capacity
    }
}

/// A prefix holds no more than the whole.
proof fn lemma_total_prefix(files: Seq<(String, usize)>, k: int)
    requires
        0 <= k <= files.len(),
    ensures
        total_size(files.subrange(0, k)) <= total_size(files),
    decreases files.len() - k,
{
    if k < files.len() {
        assert(files.subrange(0, k + 1).drop_last() =~= files.subrange(0, k));
        lemma_total_prefix(files, k + 1);
    } else {
        assert(files.subrange(0, k) =~= files);
    }
}

/// Uploads files into the storage it holds.
pub struct FileUploader<T: Storage> {
    storage: T,
}

impl<T: Storage> FileUploader<T> {
    /// An uploader writing into `storage`.
    pub fn new(storage: T) -> (r: Self)
        ensures
            r.storage() == storage,
    {
        FileUploader { storage }
    }

    /// The storage written into.
    pub closed spec fn storage(&self) -> T {
        self.storage
    }

    /// Read access to the storage.
    pub fn storage_ref(&self) -> (r: &T)
        ensures
            *r == self.storage(),
    {
        &self.storage
    }

    /// Uploads a file to the storage, as [`Storage::upload`] does.
    pub fn upload(&mut self, name: &str, size: usize) -> (r: Result<(), usize>)
        ensures
            ({
                let before = old(self).storage();
                let after = final(self).storage();
                &&& after.used_size() <= after.capacity_size()
                &&& after.capacity_size() == before.capacity_size()
                &&& size > before.capacity_size() - before.used_size() ==>
                    r == Err::<(), usize>((before.capacity_size() - before.used_size()) as usize)
                    && after.used_size() == before.used_size()
                    && forall|n: Seq<char>| after.stored_size(n) == before.stored_size(n)
                &&& size <= before.capacity_size() - before.used_size() ==> r == Ok::<(), usize>(())
                    && (forall|n: Seq<char>| after.stored_size(n)
                        == if n == name@ { Some(size) } else { before.stored_size(n) })
                    && after.used_size() + match before.stored_size(name@) { Some(s) => s as nat, None => 0 }
                        == before.used_size() + size
            }),
    {
        self.storage.upload(name, size)
    }
}

} // verus!
