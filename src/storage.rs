//! An in-memory file storage with a capacity.

use vstd::prelude::*;

verus! {

/// Storage that files can be uploaded to.
pub trait Storage {
    /// Uploads a file, replacing a file of the same name. Fails with the
    /// number of units missing when the files would no longer fit.
    fn upload(&mut self, name: &str, size: usize) -> Result<(), usize>;

    /// Total size of the stored files.
    fn used(&self) -> usize;

    /// Capacity of the storage.
    fn capacity(&self) -> usize;
}

/// Total size of the files in `files`.
pub open spec fn total(files: Seq<(String, usize)>) -> int
    decreases files.len(),
{
    if files.len() == 0 {
        0
    } else {
        total(files.drop_last()) + files.last().1
    }
}

/// Size of the file called `name`, or `0` if there is none.
pub open spec fn size_of(files: Seq<(String, usize)>, name: Seq<char>) -> int
    decreases files.len(),
{
    if files.len() == 0 {
        0
    } else if files.last().0@ == name {
        files.last().1 as int
    } else {
        size_of(files.drop_last(), name)
    }
}

/// A file called `name` is stored.
pub open spec fn stored(files: Seq<(String, usize)>, name: Seq<char>) -> bool {
    exists|i: int| 0 <= i < files.len() && files[i].0@ == name
}

pub open spec fn names_unique(files: Seq<(String, usize)>) -> bool {
    forall|i: int, j: int| 0 <= i < j < files.len() ==> files[i].0@ != files[j].0@
}

proof fn lemma_total_nonneg(files: Seq<(String, usize)>)
    ensures
        total(files) >= 0,
    decreases files.len(),
{
    if files.len() > 0 {
        lemma_total_nonneg(files.drop_last());
    }
}

proof fn lemma_push(files: Seq<(String, usize)>, f: (String, usize), name: Seq<char>)
    ensures
        total(files.push(f)) == total(files) + f.1,
        size_of(files.push(f), name) == if f.0@ == name { f.1 as int } else { size_of(files, name) },
{
    assert(files.push(f).drop_last() =~= files);
}

proof fn lemma_update(files: Seq<(String, usize)>, i: int, f: (String, usize), name: Seq<char>)
    requires
        0 <= i < files.len(),
        names_unique(files),
        f.0@ == files[i].0@,
    ensures
        total(files.update(i, f)) == total(files) - files[i].1 + f.1,
        size_of(files.update(i, f), name) == if f.0@ == name { f.1 as int } else { size_of(files, name) },
        size_of(files, files[i].0@) == files[i].1,
    decreases files.len(),
{
    let g = files.update(i, f);
    if i == files.len() - 1 {
        assert(g.drop_last() =~= files.drop_last());
        if f.0@ != name {
        }
    } else {
        assert(g.drop_last() =~= files.drop_last().update(i, f));
        lemma_update(files.drop_last(), i, f, name);
    }
}

/// A storage of files kept in memory.
#[derive(Debug)]
pub struct MockStorage {
    files: Vec<(String, usize)>,
    capacity: usize,
}

impl MockStorage {
    /// The stored files, each once, with their sizes.
    pub closed spec fn files(&self) -> Seq<(String, usize)> {
        self.files@
    }

    pub closed spec fn limit(&self) -> nat {
        self.capacity as nat
    }

    /// Names are unique and the files fit in the capacity.
    #[verifier::type_invariant]
    closed spec fn inv(&self) -> bool {
        names_unique(self.files@) && total(self.files@) <= self.capacity
    }

    /// An empty storage with the given capacity.
    pub fn new(capacity: usize) -> (r: Self)
        ensures
            r.files() == Seq::<(String, usize)>::empty(),
            r.limit() == capacity,
    {
        MockStorage { files: Vec::new(), capacity }
    }

    /// Uploads `name` of `size` units. With `t` the total the files would
    /// have afterwards (the old file of that name no longer counted), the
    /// upload fails with `t - capacity` when `t` exceeds the capacity,
    /// changing nothing; otherwise the file is stored under its name.
    pub fn upload_file(&mut self, name: &str, size: usize) -> (r: Result<(), usize>)
        ensures
            final(self).limit() == old(self).limit(),
            ({
                let t = total(old(self).files()) - size_of(old(self).files(), name@) + size;
                if t > old(self).limit() {
                    r == Err::<(), usize>((t - old(self).limit()) as usize)
                        && final(self).files() == old(self).files()
                } else {
                    &&& r is Ok
                    &&& total(final(self).files()) == t
                    &&& stored(final(self).files(), name@)
                    &&& forall|n: Seq<char>| #[trigger]
                        size_of(final(self).files(), n) == if n == name@ {
                            size as int
                        } else {
                            size_of(old(self).files(), n)
                        }
                    &&& forall|n: Seq<char>|
                        n != name@ ==> (#[trigger] stored(final(self).files(), n) == stored(
                            old(self).files(),
                            n,
                        ))
                }
            }),
    {
        proof {
            use_type_invariant(&*self);
        }
        let key = name.to_owned();
        let mut i: usize = 0;
        while i < self.files.len() && !(self.files[i].0 == key)
            invariant
                key@ == name@,
                i <= self.files@.len(),
                forall|j: int| 0 <= j < i ==> self.files@[j].0@ != name@,
            decreases self.files.len() - i,
        {
            i += 1;
        }
        proof {
            lemma_total_nonneg(self.files@);
        }
        let old_size: usize = if i < self.files.len() {
            proof {
                lemma_update(self.files@, i as int, self.files@[i as int], name@);
            }
            self.files[i].1
        } else {
            proof {
                size_absent(self.files@, name@);
            }
            0
        };
        let used = self.used_size();
        let t: i128 = used as i128 - old_size as i128 + size as i128;
        if t > self.capacity as i128 {
            return Err((t - self.capacity as i128) as usize);
        }
        let ghost before = self.files@;
        let mut files: Vec<(String, usize)> = Vec::new();
        std::mem::swap(&mut files, &mut self.files);
        if i < files.len() {
            files.set(i, (key, size));
            proof {
                assert forall|n: Seq<char>| #[trigger]
                    size_of(files@, n) == if n == name@ {
                        size as int
                    } else {
                        size_of(before, n)
                    } by {
                    lemma_update(before, i as int, (key, size), n);
                }
                lemma_update(before, i as int, (key, size), name@);
                assert(files@[i as int].0@ == name@);
                assert forall|n: Seq<char>| n != name@ implies (#[trigger] stored(files@, n)
                    == stored(before, n)) by {
                    if stored(before, n) {
                        let j = choose|j: int| 0 <= j < before.len() && before[j].0@ == n;
                        assert(files@[j].0@ == n);
                    }
                    if stored(files@, n) {
                        let j = choose|j: int| 0 <= j < files@.len() && files@[j].0@ == n;
                        assert(before[j].0@ == n);
                    }
                }
            }
        } else {
            files.push((key, size));
            proof {
                assert forall|n: Seq<char>| #[trigger]
                    size_of(files@, n) == if n == name@ {
                        size as int
                    } else {
                        size_of(before, n)
                    } by {
                    lemma_push(before, (key, size), n);
                }
                lemma_push(before, (key, size), name@);
                assert(files@[before.len() as int].0@ == name@);
                assert forall|n: Seq<char>| n != name@ implies (#[trigger] stored(files@, n)
                    == stored(before, n)) by {
                    if stored(before, n) {
                        let j = choose|j: int| 0 <= j < before.len() && before[j].0@ == n;
                        assert(files@[j].0@ == n);
                    }
                    if stored(files@, n) {
                        let j = choose|j: int| 0 <= j < files@.len() && files@[j].0@ == n;
                        assert(before[j].0@ == n);
                    }
                }
            }
        }
        proof {
            if i < before.len() {
                assert forall|x: int, y: int| 0 <= x < y < files@.len() implies files@[x].0@ != files@[y].0@ by {
                    assert(files@[i as int].0@ == before[i as int].0@);
                }
            } else {
                assert forall|x: int, y: int| 0 <= x < y < files@.len() implies files@[x].0@ != files@[y].0@ by {
                    if y == before.len() {
                        assert(before[x].0@ != name@);
                    }
                }
            }
        }
        self.files = files;
        Ok(())
    }

    /// Total size of the stored files.
    pub fn used_size(&self) -> (r: usize)
        ensures
            r == total(self.files()),
            r <= self.limit(),
    {
        proof {
            use_type_invariant(self);
        }
        let mut sum: usize = 0;
        let mut i: usize = 0;
        while i < self.files.len()
            invariant
                total(self.files@) <= self.capacity,
                i <= self.files@.len(),
                sum == total(self.files@.take(i as int)),
            decreases self.files.len() - i,
        {
            proof {
                assert(self.files@.take(i + 1).drop_last() =~= self.files@.take(i as int));
                total_prefix(self.files@, i + 1);
            }
            sum = sum + self.files[i].1;
            i += 1;
        }
        assert(self.files@.take(i as int) =~= self.files@);
        sum
    }
}

proof fn size_absent(files: Seq<(String, usize)>, name: Seq<char>)
    requires
        forall|j: int| 0 <= j < files.len() ==> files[j].0@ != name,
    ensures
        size_of(files, name) == 0,
    decreases files.len(),
{
    if files.len() > 0 {
        size_absent(files.drop_last(), name);
    }
}

proof fn total_prefix(files: Seq<(String, usize)>, i: int)
    requires
        0 <= i <= files.len(),
    ensures
        total(files.take(i)) <= total(files),
    decreases files.len() - i,
{
    if i < files.len() {
        total_prefix(files, i + 1);
        assert(files.take(i + 1).drop_last() =~= files.take(i));
    } else {
        assert(files.take(i) =~= files);
    }
}

impl Storage for MockStorage {
    fn upload(&mut self, name: &str, size: usize) -> Result<(), usize> {
        self.upload_file(name, size)
    }

    fn used(&self) -> usize {
        self.used_size()
    }

    fn capacity(&self) -> usize {
        self.capacity
    }
}

/// Uploads files to a storage it borrows.
#[derive(Debug)]
pub struct FileUploader<'a, T: Storage> {
    storage: &'a mut T,
}

impl<'a, T: Storage> FileUploader<'a, T> {
    /// An uploader for `storage`.
    pub fn new(storage: &'a mut T) -> Self {
        FileUploader { storage }
    }

    /// Uploads a file to the storage.
    pub fn upload(&mut self, name: &str, size: usize) -> Result<(), usize> {
        self.storage.upload(name, size)
    }
}

} // verus!
