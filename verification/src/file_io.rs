//! Data I/O on an open file, and an in-memory file system.

use vstd::prelude::*;

verus! {

/// The files of a file system by name.
pub type Files = Map<Seq<char>, Seq<u8>>;

/// The name of a file, in contracts.
pub type FileName = Seq<char>;

/// The bytes of a file, none if there is no such file.
pub open spec fn file_bytes(files: Files, name: Seq<char>) -> Seq<u8> {
    if files.contains_key(name) {
        files[name]
    } else {
        Seq::empty()
    }
}

/// Engine data I/O: read, write and sync on an already-open file.
pub trait FileIO: Sized {
    /// The files that can be reached.
    spec fn files(&self) -> Files;

    /// The name of the open file.
    spec fn current(&self) -> FileName;

    /// The handle is in order.
    spec fn wf(&self) -> bool;

    /// Appends `buf`. A failed write may leave a part of it behind.
    fn write_all(&mut self, buf: &[u8]) -> (r: std::result::Result<(), std::io::Error>)
        requires
            old(self).wf(),
        ensures
            final(self).wf(),
            final(self).current() == old(self).current(),
            ({
                let name = old(self).current();
                let before = file_bytes(old(self).files(), name);
                &&& r is Ok ==> final(self).files() == old(self).files().insert(name, before + buf@)
                &&& r is Err ==> exists|n: int|
                    0 <= n <= buf@.len() && final(self).files() == old(self).files().insert(
                        name,
                        before + #[trigger] buf@.take(n),
                    )
            }),
    ;

    /// Makes what was written durable.
    fn sync_data(&mut self) -> (r: std::result::Result<(), std::io::Error>)
        requires
            old(self).wf(),
        ensures
            final(self).wf(),
            final(self).current() == old(self).current(),
            final(self).files() == old(self).files(),
    ;

    /// Truncates the open file to `len` bytes; a shorter file stays as it is.
    fn set_len(&mut self, len: u64) -> (r: std::result::Result<(), std::io::Error>)
        requires
            old(self).wf(),
        ensures
            final(self).wf(),
            final(self).current() == old(self).current(),
            ({
                let before = file_bytes(old(self).files(), old(self).current());
                &&& r is Ok && len <= before.len() ==> {
                    &&& file_bytes(final(self).files(), old(self).current()) == before.take(
                        len as int,
                    )
                    &&& final(self).files().remove(old(self).current())
                        == old(self).files().remove(old(self).current())
                }
                &&& r is Err ==> final(self).files() == old(self).files()
            }),
    ;

    /// Reads the whole open file.
    fn read_all(&mut self) -> (r: std::result::Result<Vec<u8>, std::io::Error>)
        requires
            old(self).wf(),
        ensures
            final(self).wf(),
            final(self).current() == old(self).current(),
            final(self).files() == old(self).files(),
            r matches Ok(v) ==> v@ == file_bytes(old(self).files(), old(self).current()),
    ;

    /// Replaces the file `path` by `data` in one step: after a failure it is
    /// either untouched or replaced.
    fn write_atomic(&mut self, path: &str, data: &[u8]) -> (r: std::result::Result<
        (),
        std::io::Error,
    >)
        requires
            old(self).wf(),
        ensures
            final(self).wf(),
            final(self).current() == old(self).current(),
            r is Ok ==> final(self).files() == old(self).files().insert(path@, data@),
            r is Err ==> final(self).files() == old(self).files() || final(self).files() == old(
                self,
            ).files().insert(path@, data@),
    ;

    /// Reads the whole file `path`.
    fn read_file(&mut self, path: &str) -> (r: std::result::Result<Vec<u8>, std::io::Error>)
        requires
            old(self).wf(),
        ensures
            final(self).wf(),
            final(self).current() == old(self).current(),
            final(self).files() == old(self).files(),
            r matches Ok(v) ==> v@ == file_bytes(old(self).files(), path@),
    ;

    /// Removes the file `path`; a file that does not exist is no error.
    fn remove_file(&mut self, path: &str) -> (r: std::result::Result<(), std::io::Error>)
        requires
            old(self).wf(),
        ensures
            final(self).wf(),
            final(self).current() == old(self).current(),
            r is Ok ==> final(self).files() == old(self).files().remove(path@),
            r is Err ==> final(self).files() == old(self).files() || final(self).files() == old(
                self,
            ).files().remove(path@),
    ;
}

// ── What a handle may answer ──────────────────────────────────────────────

/// Both handles have the same file open and reach the same files.
pub open spec fn same_reach<F: FileIO>(a: F, b: F) -> bool {
    a.current() == b.current() && a.files() == b.files()
}

/// The handle `io` has the same file open as `file`, cut to its first `len`
/// bytes, and reaches the same other files.
pub open spec fn is_cut<F: FileIO>(io: F, file: F, len: int) -> bool {
    &&& io.current() == file.current()
    &&& file_bytes(io.files(), io.current()) == file_bytes(file.files(), file.current()).take(len)
    &&& io.files().remove(io.current()) == file.files().remove(io.current())
}

/// Reading the open file and cutting it to its first `len` bytes may fail.
pub open spec fn cut_may_fail<F: FileIO>(file: F, len: int) -> bool {
    ||| may_read(file, false)
    ||| exists|io: F| #[trigger] same_reach(io, file) && may_set_len(io, len as u64, false)
}

/// Asked to append `data`, the handle may succeed or fail, as `done` says.
pub open spec fn may_append<F: FileIO>(io: F, data: Seq<u8>, done: bool) -> bool {
    exists|h: &mut F, d: &[u8], r: std::result::Result<(), std::io::Error>|
        *h == io && d@ == data && (r is Ok) == done
            && #[trigger] call_ensures(F::write_all, (h, d), r)
}

/// Asked to make what was written durable, the handle may succeed or fail, as
/// `done` says.
pub open spec fn may_sync<F: FileIO>(io: F, done: bool) -> bool {
    exists|h: &mut F, r: std::result::Result<(), std::io::Error>|
        *h == io && (r is Ok) == done && #[trigger] call_ensures(F::sync_data, (h,), r)
}

/// Asked to truncate the open file to `len` bytes, the handle may succeed or
/// fail, as `done` says.
pub open spec fn may_set_len<F: FileIO>(io: F, len: u64, done: bool) -> bool {
    exists|h: &mut F, r: std::result::Result<(), std::io::Error>|
        *h == io && (r is Ok) == done && #[trigger] call_ensures(F::set_len, (h, len), r)
}

/// Asked for the open file, the handle may succeed or fail, as `done` says.
pub open spec fn may_read<F: FileIO>(io: F, done: bool) -> bool {
    exists|h: &mut F, r: std::result::Result<Vec<u8>, std::io::Error>|
        *h == io && (r is Ok) == done && #[trigger] call_ensures(F::read_all, (h,), r)
}

/// Asked to replace the file `path` by `data`, the handle may succeed or fail,
/// as `done` says.
pub open spec fn may_replace<F: FileIO>(
    io: F,
    path: FileName,
    data: Seq<u8>,
    done: bool,
) -> bool {
    exists|h: &mut F, p: &str, d: &[u8], r: std::result::Result<(), std::io::Error>|
        *h == io && p@ == path && d@ == data && (r is Ok) == done
            && #[trigger] call_ensures(F::write_atomic, (h, p, d), r)
}

/// Asked for the file `path`, the handle may succeed or fail, as `done` says.
pub open spec fn may_read_file<F: FileIO>(io: F, path: FileName, done: bool) -> bool {
    exists|h: &mut F, p: &str, r: std::result::Result<Vec<u8>, std::io::Error>|
        *h == io && p@ == path && (r is Ok) == done
            && #[trigger] call_ensures(F::read_file, (h, p), r)
}

/// Asked to remove the file `path`, the handle may succeed or fail, as `done`
/// says.
pub open spec fn may_remove_file<F: FileIO>(io: F, path: FileName, done: bool) -> bool {
    exists|h: &mut F, p: &str, r: std::result::Result<(), std::io::Error>|
        *h == io && p@ == path && (r is Ok) == done && #[trigger] call_ensures(
            F::remove_file,
            (h, p),
            r,
        )
}

/// In-memory file system with one open file.
pub struct FakeFileIO {
    names: Vec<String>,
    contents: Vec<Vec<u8>>,
    current: String,
}

impl FakeFileIO {
    /// The place of `name` among the files.
    spec fn place(&self, name: Seq<char>) -> int {
        choose|i: int| 0 <= i < self.names@.len() && #[trigger] self.names@[i]@ == name
    }

    spec fn has(&self, name: Seq<char>) -> bool {
        exists|i: int| 0 <= i < self.names@.len() && #[trigger] self.names@[i]@ == name
    }

    spec fn distinct(&self) -> bool {
        &&& self.names@.len() == self.contents@.len()
        &&& forall|i: int, j: int|
            0 <= i < j < self.names@.len() ==> #[trigger] self.names@[i]@
                != #[trigger] self.names@[j]@
    }

    /// Makes an empty file system with `name` as the open file.
    pub fn new(name: &str) -> (r: Self)
        ensures
            r.wf(),
            r.current() == name@,
            r.files() == Map::<Seq<char>, Seq<u8>>::empty(),
    {
        let r = FakeFileIO { names: Vec::new(), contents: Vec::new(), current: name.to_owned() };
        assert(r.files() =~= Map::<Seq<char>, Seq<u8>>::empty());
        r
    }

    fn find(&self, name: &str) -> (r: Option<usize>)
        requires
            self.wf(),
        ensures
            r is Some <==> self.files().contains_key(name@),
            r matches Some(i) ==> {
                &&& i < self.names@.len()
                &&& self.names@[i as int]@ == name@
                &&& self.files()[name@] == self.contents@[i as int]@
            },
    {
        let wanted: String = name.to_owned();
        let mut i: usize = 0;
        while i < self.names.len()
            invariant
                self.distinct(),
                i <= self.names@.len(),
                wanted@ == name@,
                forall|j: int| 0 <= j < i ==> (#[trigger] self.names@[j])@ != name@,
            decreases self.names@.len() - i,
        {
            if self.names[i] == wanted {
                assert(self.has(name@));
                assert(self.place(name@) == i);
                return Some(i);
            }
            i += 1;
        }
        None
    }

    /// Returns the content of a file.
    pub fn get(&self, name: &str) -> (r: Option<Vec<u8>>)
        requires
            self.wf(),
        ensures
            r is Some <==> self.files().contains_key(name@),
            r matches Some(v) ==> v@ == self.files()[name@],
    {
        match self.find(name) {
            Some(i) => {
                let v = self.contents[i].clone();
                assert(v@ =~= self.contents@[i as int]@);
                Some(v)
            },
            None => None,
        }
    }

    /// Writes `data` over a file.
    pub fn corrupt(&mut self, name: &str, data: Vec<u8>)
        requires
            old(self).wf(),
        ensures
            final(self).wf(),
            final(self).current() == old(self).current(),
            final(self).files() == old(self).files().insert(name@, data@),
    {
        let ghost d = data@;
        let ghost f0 = self.files();
        match self.find(name) {
            Some(i) => {
                self.contents.set(i, data);
                proof {
                    assert forall|k: Seq<char>| self.has(k) == old(self).has(k) by {
                        if old(self).has(k) {
                            assert(self.names@[old(self).place(k)]@ == k);
                        }
                        if self.has(k) {
                            assert(old(self).names@[self.place(k)]@ == k);
                        }
                    }
                    assert forall|k: Seq<char>| self.has(k) implies #[trigger] self.files()[k]
                        == f0.insert(name@, d)[k] by {
                        let p = self.place(k);
                        assert(self.names@[p]@ == k);
                        assert(old(self).has(k));
                        let q = old(self).place(k);
                        assert(self.names@[q]@ == k);
                        assert(p == q);
                        if k == name@ {
                            assert(p == i);
                        }
                    }
                    assert(self.has(name@));
                    assert(self.files() =~= f0.insert(name@, d));
                }
            },
            None => {
                self.names.push(name.to_owned());
                self.contents.push(data);
                proof {
                    let n = old(self).names@.len() as int;
                    assert forall|i: int, j: int| 0 <= i < j < self.names@.len() implies #[trigger]
                    self.names@[i]@ != #[trigger] self.names@[j]@ by {
                        if j == n {
                            assert(old(self).names@[i]@ == self.names@[i]@);
                            assert(old(self).has(self.names@[i]@));
                            assert(!old(self).has(name@));
                        } else {
                            assert(old(self).names@[i]@ != old(self).names@[j]@);
                        }
                    }
                    assert forall|k: Seq<char>| self.has(k) <==> old(self).has(k) || k == name@ by {
                        if old(self).has(k) {
                            assert(self.names@[old(self).place(k)]@ == k);
                        }
                        if k == name@ {
                            assert(self.names@[n]@ == k);
                        }
                        if self.has(k) {
                            let p = self.place(k);
                            if p < n {
                                assert(old(self).names@[p]@ == k);
                            }
                        }
                    }
                    assert forall|k: Seq<char>| self.has(k) implies #[trigger] self.files()[k]
                        == f0.insert(name@, d)[k] by {
                        let p = self.place(k);
                        assert(self.names@[p]@ == k);
                        if k == name@ {
                            assert(self.names@[n]@ == k);
                            assert(p == n);
                        } else {
                            assert(old(self).has(k));
                            let q = old(self).place(k);
                            assert(self.names@[q]@ == k);
                            assert(p == q);
                        }
                    }
                    assert(self.files() =~= f0.insert(name@, d));
                }
            },
        }
    }
}

impl FakeFileIO {
    /// Removes a file.
    fn discard(&mut self, name: &str)
        requires
            old(self).wf(),
        ensures
            final(self).wf(),
            final(self).current() == old(self).current(),
            final(self).files() == old(self).files().remove(name@),
    {
        let ghost f0 = self.files();
        match self.find(name) {
            Some(i) => {
                let ghost n0 = self.names@;
                self.names.remove(i);
                self.contents.remove(i);
                proof {
                    let at = |p: int| if p < i { p } else { p + 1 };
                    assert forall|p: int| 0 <= p < self.names@.len() implies #[trigger] self.names@[p]
                        == n0[at(p)] && self.contents@[p] == old(self).contents@[at(p)] by {}
                    assert forall|k: Seq<char>| self.has(k) <==> old(self).has(k) && k != name@ by {
                        if self.has(k) {
                            let p = self.place(k);
                            assert(old(self).names@[at(p)]@ == k);
                        }
                        if old(self).has(k) && k != name@ {
                            let q = old(self).place(k);
                            assert(old(self).names@[q]@ == k);
                            let p = if q < i { q } else { q - 1 };
                            assert(self.names@[p]@ == k);
                        }
                    }
                    assert forall|k: Seq<char>| self.has(k) implies #[trigger] self.files()[k]
                        == f0.remove(name@)[k] by {
                        let p = self.place(k);
                        assert(self.names@[p]@ == k);
                        assert(old(self).names@[at(p)]@ == k);
                        assert(old(self).has(k));
                        let q = old(self).place(k);
                        assert(old(self).names@[q]@ == k);
                        assert(q == at(p));
                    }
                    assert(self.files() =~= f0.remove(name@));
                }
            },
            None => {
                assert(self.files() =~= f0.remove(name@));
            },
        }
    }
}

impl FileIO for FakeFileIO {
    closed spec fn files(&self) -> Files {
        Map::new(|k: Seq<char>| self.has(k), |k: Seq<char>| self.contents@[self.place(k)]@)
    }

    closed spec fn current(&self) -> Seq<char> {
        self.current@
    }

    closed spec fn wf(&self) -> bool {
        self.distinct()
    }

    fn write_all(&mut self, buf: &[u8]) -> (r: std::result::Result<(), std::io::Error>)
        ensures
            r is Ok,
    {
        let name: String = self.current.clone();
        let mut data = match self.get(name.as_str()) {
            Some(v) => v,
            None => Vec::new(),
        };
        let ghost before = data@;
        assert(before =~= file_bytes(self.files(), self.current@));
        data.extend_from_slice(buf);
        assert(data@ =~= before + buf@);
        self.corrupt(name.as_str(), data);
        Ok(())
    }

    fn sync_data(&mut self) -> (r: std::result::Result<(), std::io::Error>)
        ensures
            r is Ok,
    {
        Ok(())
    }

    fn set_len(&mut self, len: u64) -> (r: std::result::Result<(), std::io::Error>)
        ensures
            r is Ok,
            len > file_bytes(old(self).files(), old(self).current()).len() ==> final(self).files()
                == old(self).files(),
    {
        let name: String = self.current.clone();
        match self.get(name.as_str()) {
            Some(v) => {
                let mut v = v;
                let ghost before = v@;
                if len < v.len() as u64 {
                    v.truncate(len as usize);
                    assert(v@ =~= before.take(len as int));
                    self.corrupt(name.as_str(), v);
                    assert(self.files().remove(name@) =~= old(self).files().remove(name@));
                } else {
                    assert(len <= before.len() ==> before.take(len as int) =~= before);
                }
            },
            None => {
                assert(Seq::<u8>::empty().take(0) =~= Seq::<u8>::empty());
            },
        }
        Ok(())
    }

    fn read_all(&mut self) -> (r: std::result::Result<Vec<u8>, std::io::Error>)
        ensures
            r is Ok,
    {
        let name: String = self.current.clone();
        match self.get(name.as_str()) {
            Some(v) => Ok(v),
            None => {
                let v: Vec<u8> = Vec::new();
                assert(v@ =~= Seq::<u8>::empty());
                Ok(v)
            },
        }
    }

    fn write_atomic(&mut self, path: &str, data: &[u8]) -> (r: std::result::Result<
        (),
        std::io::Error,
    >)
        ensures
            r is Ok,
    {
        let mut copy: Vec<u8> = Vec::new();
        copy.extend_from_slice(data);
        assert(copy@ =~= data@);
        self.corrupt(path, copy);
        Ok(())
    }

    fn read_file(&mut self, path: &str) -> (r: std::result::Result<Vec<u8>, std::io::Error>)
        ensures
            r is Ok,
    {
        match self.get(path) {
            Some(v) => Ok(v),
            None => {
                let v: Vec<u8> = Vec::new();
                assert(v@ =~= Seq::<u8>::empty());
                Ok(v)
            },
        }
    }

    fn remove_file(&mut self, path: &str) -> (r: std::result::Result<(), std::io::Error>)
        ensures
            r is Ok,
    {
        self.discard(path);
        Ok(())
    }
}

} // verus!
