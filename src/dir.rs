use vstd::prelude::*;
use vstd::string::StrSliceExecFns;
use vstd::string::StringExecFns;
use vstd::pervasive::VecAdditionalExecFns;

use crate::storable::{round_trips, Storable};

verus! {

/// `std::io::Error`, carried through opaquely as the cause of a failed read or write.
#[verifier::external_type_specification]
#[verifier::external_body]
pub struct ExIoError(std::io::Error);

/// What can go wrong while restoring or storing a directory.
#[derive(Debug)]
pub enum Error {
    /// A file could not be opened or created.
    OSError(String),
    /// A low-level read or write failed.
    IOError(std::io::Error),
    /// The key is not in the storage.
    NotFound(String),
    /// A value could not be written out: the file's path and the reason.
    StoreError(String, String),
    /// A file's contents could not be read back: the file's path and the reason.
    RestoreError(String, String),
}

impl From<std::io::Error> for Error {
    fn from(e: std::io::Error) -> (r: Error)
        ensures
            r == Error::IOError(e),
    {
        Error::IOError(e)
    }
}

impl vstd::std_specs::convert::FromSpecImpl<std::io::Error> for Error {
    open spec fn obeys_from_spec() -> bool {
        true
    }

    open spec fn from_spec(e: std::io::Error) -> Error {
        Error::IOError(e)
    }
}

/// Whether a file name marks a file that holds no entry.
pub open spec fn is_hidden(name: Seq<char>) -> bool {
    name.len() > 0 && name[0] == '.'
}

/// The path of the file `name` inside the directory `dir`.
pub open spec fn joined(dir: Seq<char>, name: Seq<char>) -> Seq<char> {
    if dir.len() == 0 || dir.last() == '/' {
        dir + name
    } else {
        dir + seq!['/'] + name
    }
}

/// The path of the file `name` inside the directory `dir`.
pub fn join_path(dir: &str, name: &str) -> (r: String)
    ensures
        r@ == joined(dir@, name@),
{
    let n = dir.unicode_len();
    let base = String::from_str(dir);
    if n == 0 || dir.get_char(n - 1) == '/' {
        base.concat(name)
    } else {
        proof {
            reveal_strlit("/");
        }
        base.concat("/").concat(name)
    }
}

/// The map that a list of key / value pairs denotes; a later pair wins.
pub open spec fn map_of<T>(e: Seq<(Seq<char>, T)>) -> Map<Seq<char>, T>
    decreases e.len(),
{
    if e.len() == 0 {
        Map::empty()
    } else {
        map_of(e.drop_last()).insert(e.last().0, e.last().1)
    }
}

pub open spec fn keys_unique<T>(e: Seq<(Seq<char>, T)>) -> bool {
    forall|i: int, j: int| 0 <= i < j < e.len() ==> #[trigger] e[i].0 != #[trigger] e[j].0
}

proof fn lemma_map_of<T>(e: Seq<(Seq<char>, T)>)
    requires
        keys_unique(e),
    ensures
        forall|k: Seq<char>|
            #[trigger] map_of(e).contains_key(k) <==> exists|i: int| 0 <= i < e.len() && e[i].0 == k,
        forall|i: int| 0 <= i < e.len() ==> #[trigger] map_of(e)[e[i].0] == e[i].1,
    decreases e.len(),
{
    if e.len() > 0 {
        let p = e.drop_last();
        assert(keys_unique(p));
        lemma_map_of(p);
        assert(map_of(e) == map_of(p).insert(e.last().0, e.last().1));
        assert(e.last() == e[e.len() - 1]);
        assert forall|k: Seq<char>| #[trigger] map_of(e).contains_key(k) implies exists|i: int|
            0 <= i < e.len() && e[i].0 == k by {
            if k != e.last().0 {
                assert(map_of(p).contains_key(k));
                let i = choose|i: int| 0 <= i < p.len() && p[i].0 == k;
                assert(p[i] == e[i]);
            } else {
                assert(e[e.len() - 1].0 == k);
            }
        }
        assert forall|i: int| 0 <= i < e.len() implies #[trigger] map_of(e)[e[i].0] == e[i].1 by {
            if i < e.len() - 1 {
                assert(p[i] == e[i]);
                assert(map_of(p)[p[i].0] == p[i].1);
                assert(e[i].0 != e[e.len() - 1].0);
            }
        }
        assert forall|k: Seq<char>| (exists|i: int| 0 <= i < e.len() && e[i].0 == k) implies
            #[trigger] map_of(e).contains_key(k) by {
            let i = choose|i: int| 0 <= i < e.len() && e[i].0 == k;
            if i < e.len() - 1 {
                assert(p[i] == e[i]);
                assert(map_of(p).contains_key(p[i].0));
            }
        }
    }
}

/// Replacing the value of a pair changes the map at that key only.
proof fn lemma_map_of_update<T>(e: Seq<(Seq<char>, T)>, i: int, v: T)
    requires
        keys_unique(e),
        0 <= i < e.len(),
    ensures
        keys_unique(e.update(i, (e[i].0, v))),
        map_of(e.update(i, (e[i].0, v))) == map_of(e).insert(e[i].0, v),
{
    let f = e.update(i, (e[i].0, v));
    assert(keys_unique(f)) by {
        assert forall|a: int, b: int| 0 <= a < b < f.len() implies #[trigger] f[a].0
            != #[trigger] f[b].0 by {
            assert(f[a].0 == e[a].0 && f[b].0 == e[b].0);
        }
    }
    lemma_map_of(e);
    lemma_map_of(f);
    assert forall|k: Seq<char>| #[trigger] map_of(f).contains_key(k) <==> map_of(e).insert(
        e[i].0,
        v,
    ).contains_key(k) by {
        if map_of(f).contains_key(k) {
            let j = choose|j: int| 0 <= j < f.len() && f[j].0 == k;
            assert(e[j].0 == k);
        }
        if map_of(e).contains_key(k) {
            let j = choose|j: int| 0 <= j < e.len() && e[j].0 == k;
            assert(f[j].0 == k);
        }
        if k == e[i].0 {
            assert(f[i].0 == k);
        }
    }
    assert forall|k: Seq<char>| #[trigger] map_of(f).contains_key(k) implies map_of(f)[k]
        == map_of(e).insert(e[i].0, v)[k] by {
        let j = choose|j: int| 0 <= j < f.len() && f[j].0 == k;
        assert(map_of(f)[f[j].0] == f[j].1);
        if j != i {
            assert(e[j] == f[j]);
            assert(map_of(e)[e[j].0] == e[j].1);
        }
    }
    assert(map_of(f) =~= map_of(e).insert(e[i].0, v));
}

/// One entry of a directory listing: its file name (`None` where the name is not valid
/// text), whether it is a directory, and what reading it as a file gave.
pub struct ListedEntry {
    pub name: Option<String>,
    pub is_dir: bool,
    pub contents: Result<Vec<u8>, std::io::Error>,
}

/// Whether a listed entry holds a stored value: a file whose name is valid text and
/// does not mark it hidden.
pub open spec fn holds_value(name: Option<String>, is_dir: bool) -> bool {
    !is_dir && name is Some && !is_hidden(name->0@)
}

/// Whether a listed entry is either skipped or read back without failure.
pub open spec fn entry_ok<T: Storable>(e: ListedEntry) -> bool {
    holds_value(e.name, e.is_dir) ==> (e.contents is Ok && T::restored(e.contents->Ok_0@) is Some)
}

/// The map that restoring a listing gives, where every entry is `entry_ok`.
pub open spec fn restored_map<T: Storable>(s: Seq<ListedEntry>) -> Map<Seq<char>, T>
    decreases s.len(),
{
    if s.len() == 0 {
        Map::empty()
    } else {
        let m = restored_map::<T>(s.drop_last());
        let e = s.last();
        if holds_value(e.name, e.is_dir) {
            m.insert(e.name->0@, T::restored(e.contents->Ok_0@)->0)
        } else {
            m
        }
    }
}

/// What `store` writes: for each pair in order, the file's path and its contents;
/// `None` where some value cannot be written out.
pub open spec fn planned_writes<T: Storable>(dir: Seq<char>, e: Seq<(Seq<char>, T)>) -> Option<
    Seq<(Seq<char>, Seq<u8>)>,
> {
    if forall|i: int| 0 <= i < e.len() ==> (#[trigger] e[i]).1.stored() is Some {
        Some(e.map_values(|p: (Seq<char>, T)| (joined(dir, p.0), p.1.stored()->0)))
    } else {
        None
    }
}

/// Keys come only from non-hidden files of the listing.
proof fn lemma_restored_keys<T: Storable>(s: Seq<ListedEntry>)
    ensures
        forall|k: Seq<char>| #[trigger] restored_map::<T>(s).contains_key(k) ==> !is_hidden(k) && exists|i: int|
            0 <= i < s.len() && !s[i].is_dir && s[i].name is Some && s[i].name->0@ == k,
    decreases s.len(),
{
    if s.len() > 0 {
        let p = s.drop_last();
        lemma_restored_keys::<T>(p);
        assert forall|k: Seq<char>| #[trigger] restored_map::<T>(s).contains_key(k) implies !is_hidden(k)
            && exists|i: int| 0 <= i < s.len() && !s[i].is_dir && s[i].name is Some && s[i].name->0@ == k by {
            if restored_map::<T>(p).contains_key(k) {
                let i = choose|i: int| 0 <= i < p.len() && !p[i].is_dir && p[i].name is Some && p[i].name->0@ == k;
                assert(s[i] == p[i]);
            } else {
                assert(s[s.len() - 1] == s.last());
            }
        }
    }
}

/// The text of a low-level I/O failure.
///
/// Relies on the `Display` impl of `std::io::Error`.
#[verifier::external_body]
fn io_error_text(e: &std::io::Error) -> String {
    format!("{}", e)
}

impl Error {
    /// A description of the failure, for people to read.
    pub fn describe(&self) -> (r: String)
        ensures
            match self {
                Error::OSError(s) => r@ == s@,
                Error::IOError(_) => true,
                Error::NotFound(f) => r@ == f@ + ": Not Found"@,
                Error::StoreError(f, s) => r@ == f@ + ": "@ + s@,
                Error::RestoreError(f, s) => r@ == f@ + ": "@ + s@,
            },
    {
        proof {
            reveal_strlit(": Not Found");
            reveal_strlit(": ");
        }
        match self {
            Error::OSError(s) => s.clone(),
            Error::IOError(e) => io_error_text(e),
            Error::NotFound(f) => f.clone().concat(": Not Found"),
            Error::StoreError(f, s) => f.clone().concat(": ").concat(s.as_str()),
            Error::RestoreError(f, s) => f.clone().concat(": ").concat(s.as_str()),
        }
    }
}

/// Whether a listed entry holds a stored value; only those need to be read.
pub fn holds_value_entry(name: &Option<String>, is_dir: bool) -> (r: bool)
    ensures
        r == holds_value(*name, is_dir),
{
    if is_dir {
        return false;
    }
    match name {
        Some(n) => {
            let s = n.as_str();
            !(s.unicode_len() > 0 && s.get_char(0) == '.')
        },
        None => false,
    }
}

/// Whether a listed entry is a file whose name is `k` and whose contents are `b`.
pub open spec fn is_file_with(e: ListedEntry, k: Seq<char>, b: Seq<u8>) -> bool {
    !e.is_dir && e.name is Some && e.name->0@ == k && e.contents is Ok && e.contents->Ok_0@ == b
}

proof fn lemma_restored_map<T: Storable>(s: Seq<ListedEntry>)
    requires
        forall|i: int, j: int|
            0 <= i < j < s.len() && holds_value(s[i].name, s[i].is_dir) && holds_value(s[j].name, s[j].is_dir)
                ==> (#[trigger] s[i]).name->0@ != (#[trigger] s[j]).name->0@,
    ensures
        forall|k: Seq<char>| #[trigger] restored_map::<T>(s).contains_key(k) <==> exists|i: int|
            0 <= i < s.len() && holds_value(s[i].name, s[i].is_dir) && s[i].name->0@ == k,
        forall|i: int| 0 <= i < s.len() && holds_value(s[i].name, s[i].is_dir) ==> #[trigger] restored_map::<T>(
            s,
        )[s[i].name->0@] == T::restored(s[i].contents->Ok_0@)->0,
    decreases s.len(),
{
    if s.len() > 0 {
        let p = s.drop_last();
        assert forall|i: int, j: int|
            0 <= i < j < p.len() && holds_value(p[i].name, p[i].is_dir) && holds_value(p[j].name, p[j].is_dir)
                implies (#[trigger] p[i]).name->0@ != (#[trigger] p[j]).name->0@ by {
            assert(p[i] == s[i] && p[j] == s[j]);
        }
        lemma_restored_map::<T>(p);
        let last = s.len() - 1;
        assert(s.last() == s[last]);
        if holds_value(s[last].name, s[last].is_dir) {
            assert(restored_map::<T>(s) == restored_map::<T>(p).insert(
                s[last].name->0@,
                T::restored(s[last].contents->Ok_0@)->0,
            ));
        } else {
            assert(restored_map::<T>(s) == restored_map::<T>(p));
        }
        assert forall|k: Seq<char>| #[trigger] restored_map::<T>(s).contains_key(k) <==> exists|i: int|
            0 <= i < s.len() && holds_value(s[i].name, s[i].is_dir) && s[i].name->0@ == k by {
            if restored_map::<T>(p).contains_key(k) {
                let i = choose|i: int| 0 <= i < p.len() && holds_value(p[i].name, p[i].is_dir) && p[i].name->0@ == k;
                assert(s[i] == p[i]);
            }
            if exists|i: int| 0 <= i < s.len() && holds_value(s[i].name, s[i].is_dir) && s[i].name->0@ == k {
                let i = choose|i: int| 0 <= i < s.len() && holds_value(s[i].name, s[i].is_dir) && s[i].name->0@ == k;
                if i < last {
                    assert(s[i] == p[i]);
                }
            }
        }
        assert forall|i: int| 0 <= i < s.len() && holds_value(s[i].name, s[i].is_dir) implies #[trigger] restored_map::<T>(
            s,
        )[s[i].name->0@] == T::restored(s[i].contents->Ok_0@)->0 by {
            if i < last {
                assert(s[i] == p[i]);
                assert(restored_map::<T>(p)[p[i].name->0@] == T::restored(p[i].contents->Ok_0@)->0);
                if holds_value(s[last].name, s[last].is_dir) {
                    assert(s[i].name->0@ != s[last].name->0@);
                }
            }
        }
    }
}

/// Restoring a directory that holds exactly the files that `store` wrote gives back the
/// map that was stored: each key's file holds the bytes its value is stored as, every
/// value reads back as itself, and no key is a hidden name.
pub proof fn lemma_store_then_restore<T: Storable>(st: DirStorage<T>, listing: Seq<ListedEntry>)
    requires
        round_trips::<T>(),
        forall|k: Seq<char>| #[trigger] st@.contains_key(k) ==> !is_hidden(k) && st@[k].stored() is Some,
        forall|i: int|
            #![trigger listing[i]]
            0 <= i < listing.len() ==> exists|k: Seq<char>| #[trigger] st@.contains_key(k)
                && is_file_with(listing[i], k, st@[k].stored()->0),
        forall|k: Seq<char>| #[trigger] st@.contains_key(k) ==> exists|i: int| 0 <= i < listing.len()
            && is_file_with(listing[i], k, st@[k].stored()->0),
        forall|i: int, j: int|
            0 <= i < j < listing.len() ==> (#[trigger] listing[i]).name->0@ != (#[trigger] listing[j]).name->0@,
    ensures
        forall|i: int| 0 <= i < listing.len() ==> entry_ok::<T>(#[trigger] listing[i]),
        restored_map::<T>(listing) == st@,
{
    let m = st@;
    assert forall|i: int| 0 <= i < listing.len() implies entry_ok::<T>(#[trigger] listing[i])
        && holds_value(listing[i].name, listing[i].is_dir) && m.contains_key(listing[i].name->0@)
        && T::restored(listing[i].contents->Ok_0@)->0 == m[listing[i].name->0@] by {
        let k = choose|k: Seq<char>| #[trigger] m.contains_key(k) && is_file_with(listing[i], k, m[k].stored()->0);
        assert(m[k].stored() is Some);
    }
    assert forall|i: int, j: int|
        0 <= i < j < listing.len() && holds_value(listing[i].name, listing[i].is_dir) && holds_value(
            listing[j].name,
            listing[j].is_dir,
        ) implies (#[trigger] listing[i]).name->0@ != (#[trigger] listing[j]).name->0@ by {
    }
    lemma_restored_map::<T>(listing);
    let r = restored_map::<T>(listing);
    assert forall|k: Seq<char>| #[trigger] r.contains_key(k) <==> m.contains_key(k) by {
        if m.contains_key(k) {
            let i = choose|i: int| 0 <= i < listing.len() && is_file_with(listing[i], k, m[k].stored()->0);
            assert(holds_value(listing[i].name, listing[i].is_dir));
        }
        if r.contains_key(k) {
            let i = choose|i: int| 0 <= i < listing.len() && holds_value(listing[i].name, listing[i].is_dir)
                && listing[i].name->0@ == k;
            assert(entry_ok::<T>(listing[i]));
        }
    }
    assert forall|k: Seq<char>| #[trigger] r.contains_key(k) implies r[k] == m[k] by {
        let i = choose|i: int| 0 <= i < listing.len() && holds_value(listing[i].name, listing[i].is_dir)
            && listing[i].name->0@ == k;
        assert(entry_ok::<T>(listing[i]));
    }
    assert(r =~= m);
}

/// Storing twice with no change in between plans the same files with the same bytes.
pub proof fn lemma_store_twice_same<T: Storable>(
    st: DirStorage<T>,
    dir: Seq<char>,
    first: Seq<(Seq<char>, Seq<u8>)>,
    second: Seq<(Seq<char>, Seq<u8>)>,
)
    requires
        planned_writes(dir, st.entries()) == Some(first),
        planned_writes(dir, st.entries()) == Some(second),
    ensures
        first == second,
{
}

/// A storage that keeps each entry in a file of its own inside a directory; the key
/// is the file's name.
#[derive(Debug)]
pub struct DirStorage<T> {
    storage: Vec<(String, T)>,
}

impl<T: Storable> DirStorage<T> {
    /// The pairs held, in the order in which they are stored.
    pub closed spec fn entries(&self) -> Seq<(Seq<char>, T)> {
        self.storage@.map_values(|p: (String, T)| (p.0@, p.1))
    }

    /// The keys are unique.
    pub closed spec fn wf(&self) -> bool {
        keys_unique(self.entries())
    }

    /// The map is the one that the pairs denote, and a well-formed storage holds each
    /// key once.
    pub proof fn lemma_view_is_map_of_entries(&self)
        ensures
            self@ == map_of(self.entries()),
            self.wf() <==> keys_unique(self.entries()),
    {
    }

    /// The position of `key` among the pairs, if it is there.
    fn find(&self, key: &String) -> (r: Option<usize>)
        requires
            self.wf(),
        ensures
            match r {
                Some(i) => i < self.entries().len() && self.entries()[i as int].0 == key@,
                None => !map_of(self.entries()).contains_key(key@),
            },
    {
        proof {
            lemma_map_of(self.entries());
        }
        let mut i: usize = 0;
        while i < self.storage.len()
            invariant
                i <= self.storage@.len(),
                forall|j: int| 0 <= j < i ==> #[trigger] self.entries()[j].0 != key@,
            decreases self.storage@.len() - i,
        {
            if self.storage[i].0 == *key {
                return Some(i);
            }
            i = i + 1;
        }
        None
    }

    /// An empty storage.
    fn empty() -> (r: DirStorage<T>)
        ensures
            r.wf(),
            r@ == Map::<Seq<char>, T>::empty(),
    {
        let r = DirStorage { storage: Vec::new() };
        proof {
            assert(r.entries() =~= Seq::<(Seq<char>, T)>::empty());
        }
        r
    }

    /// A storage holding the given pairs; where a key comes twice, the later pair wins.
    pub fn new(storage: Vec<(String, T)>) -> (r: DirStorage<T>)
        ensures
            r.wf(),
            r@ == map_of(storage@.map_values(|p: (String, T)| (p.0@, p.1))),
    {
        let ghost pairs = storage@.map_values(|p: (String, T)| (p.0@, p.1));
        let n = storage.len();
        let mut r = DirStorage::empty();
        let mut rest = storage;
        let mut i: usize = 0;
        while rest.len() > 0
            invariant
                r.wf(),
                i + rest@.len() == pairs.len(),
                pairs.len() == n,
                forall|j: int| 0 <= j < rest@.len() ==> (#[trigger] rest@[j]).0@ == pairs[i + j].0
                    && rest@[j].1 == pairs[i + j].1,
                r@ == map_of(pairs.take(i as int)),
            decreases rest@.len(),
        {
            let ghost before = rest@;
            let (k, v) = rest.remove(0);
            proof {
                assert(pairs.take(i + 1).drop_last() =~= pairs.take(i as int));
                assert(pairs.take(i + 1).last() == pairs[i as int]);
                assert forall|j: int| 0 <= j < rest@.len() implies (#[trigger] rest@[j]).0@
                    == pairs[i + 1 + j].0 && rest@[j].1 == pairs[i + 1 + j].1 by {
                    assert(rest@[j] == before[j + 1]);
                }
            }
            r.insert_owned(k, v);
            i = i + 1;
        }
        proof {
            assert(pairs.take(i as int) =~= pairs);
        }
        r
    }

    fn insert_owned(&mut self, key: String, v: T) -> (r: Option<T>)
        requires
            old(self).wf(),
        ensures
            final(self).wf(),
            final(self)@ == old(self)@.insert(key@, v),
            match r {
                Some(p) => old(self)@.contains_key(key@) && p == old(self)@[key@],
                None => !old(self)@.contains_key(key@),
            },
    {
        proof {
            lemma_map_of(self.entries());
        }
        match self.find(&key) {
            Some(i) => {
                let ghost e = self.entries();
                let mut pair = (key, v);
                self.storage.set_and_swap(i, &mut pair);
                proof {
                    assert(self.entries() =~= e.update(i as int, (e[i as int].0, v)));
                    lemma_map_of_update(e, i as int, v);
                }
                Some(pair.1)
            },
            None => {
                let ghost e = self.entries();
                let ghost k = key@;
                self.storage.push((key, v));
                proof {
                    assert(self.entries() =~= e.push((k, v)));
                    assert(self.entries().drop_last() =~= e);
                    assert forall|a: int, b: int| 0 <= a < b < self.entries().len() implies
                        #[trigger] self.entries()[a].0 != #[trigger] self.entries()[b].0 by {
                        if b == e.len() {
                            assert(self.entries()[a] == e[a]);
                            assert(map_of(e).contains_key(e[a].0));
                        } else {
                            assert(self.entries()[a] == e[a] && self.entries()[b] == e[b]);
                        }
                    }
                }
                None
            },
        }
    }

    /// Puts `v` under `k`, and returns the value that was there before, if any.
    pub fn insert(&mut self, k: &str, v: T) -> (r: Option<T>)
        requires
            old(self).wf(),
        ensures
            final(self).wf(),
            final(self)@ == old(self)@.insert(k@, v),
            match r {
                Some(p) => old(self)@.contains_key(k@) && p == old(self)@[k@],
                None => !old(self)@.contains_key(k@),
            },
    {
        self.insert_owned(String::from_str(k), v)
    }

    /// The value under `k`, if any.
    pub fn get(&self, k: &str) -> (r: Option<&T>)
        requires
            self.wf(),
        ensures
            match r {
                Some(v) => self@.contains_key(k@) && *v == self@[k@],
                None => !self@.contains_key(k@),
            },
    {
        proof {
            lemma_map_of(self.entries());
        }
        match self.find(&String::from_str(k)) {
            Some(i) => Some(&self.storage[i].1),
            None => None,
        }
    }

    /// The value under `k`, if any, to be changed in place.
    pub fn get_mut(&mut self, k: &str) -> (r: Option<&mut T>)
        requires
            old(self).wf(),
        ensures
            match r {
                Some(v) => old(self)@.contains_key(k@) && *v == old(self)@[k@] && final(self).wf()
                    && final(self)@ == old(self)@.insert(k@, *final(v)),
                None => !old(self)@.contains_key(k@) && *final(self) == *old(self),
            },
    {
        proof {
            lemma_map_of(self.entries());
        }
        match self.find(&String::from_str(k)) {
            Some(i) => {
                let ghost e = self.entries();
                let ghost old_storage = self.storage@;
                proof {
                    assert forall|v: T| #[trigger] map_of(e.update(i as int, (e[i as int].0, v)))
                        == map_of(e).insert(e[i as int].0, v) && keys_unique(
                        e.update(i as int, (e[i as int].0, v)),
                    ) by {
                        lemma_map_of_update(e, i as int, v);
                    }
                    assert forall|p: (String, T)| (#[trigger] old_storage.update(i as int, p)).map_values(
                        |q: (String, T)| (q.0@, q.1)) == e.update(i as int, (p.0@, p.1)) by {
                        assert(old_storage.update(i as int, p).map_values(|q: (String, T)| (q.0@, q.1))
                            =~= e.update(i as int, (p.0@, p.1)));
                    }
                }
                let pair = &mut self.storage[i];
                Some(&mut pair.1)
            },
            None => None,
        }
    }

    /// Whether there is a value under `k`.
    pub fn contains_key(&self, k: &str) -> (r: bool)
        requires
            self.wf(),
        ensures
            r == self@.contains_key(k@),
    {
        match self.find(&String::from_str(k)) {
            Some(i) => {
                proof {
                    lemma_map_of(self.entries());
                }
                true
            },
            None => false,
        }
    }

    /// Builds a storage from a directory's listing; `path_str` is the directory.
    ///
    /// `None` stands for a path that is not a directory: the storage is then empty.
    /// Directories, names that are not valid text and hidden files are skipped. Every
    /// other entry is read back with `Storable::restore` and kept under its file name.
    /// The first entry that cannot be read, or read back, fails the whole call.
    pub fn restore(path_str: &str, listing: Option<Vec<ListedEntry>>) -> (r: Result<
        DirStorage<T>,
        Error,
    >)
        ensures
            listing is None ==> r is Ok && r->Ok_0.wf() && r->Ok_0@ == Map::<Seq<char>, T>::empty(),
            listing is Some ==> {
                let l = listing->0@;
                &&& r is Ok <==> forall|i: int| 0 <= i < l.len() ==> entry_ok::<T>(#[trigger] l[i])
                &&& r is Ok ==> {
                    &&& r->Ok_0.wf()
                    &&& r->Ok_0@ == restored_map::<T>(l)
                    &&& forall|k: Seq<char>| #[trigger] r->Ok_0@.contains_key(k) ==> !is_hidden(k)
                        && exists|i: int| 0 <= i < l.len() && !l[i].is_dir && l[i].name is Some
                        && l[i].name->0@ == k
                }
                &&& r is Err ==> exists|i: int| {
                    &&& 0 <= i < l.len()
                    &&& forall|j: int| 0 <= j < i ==> entry_ok::<T>(#[trigger] l[j])
                    &&& !entry_ok::<T>(l[i])
                    &&& match l[i].contents {
                        Err(e) => r->Err_0 == Error::IOError(e),
                        Ok(_) => r->Err_0 is RestoreError && r->Err_0->RestoreError_0@ == joined(
                            path_str@,
                            l[i].name->0@,
                        ),
                    }
                }
            },
    {
        let mut r = DirStorage::empty();
        let mut l = match listing {
            Some(l) => l,
            None => {
                return Ok(r);
            },
        };
        let ghost s = l@;
        let mut i: usize = 0;
        while i < l.len()
            invariant
                l@ == s,
                listing is Some && listing->0@ == s,
                i <= s.len(),
                r.wf(),
                r@ == restored_map::<T>(s.take(i as int)),
                forall|j: int| 0 <= j < i ==> entry_ok::<T>(#[trigger] s[j]),
            decreases s.len() - i,
        {
            proof {
                assert(s.take(i + 1).drop_last() =~= s.take(i as int));
                assert(s.take(i + 1).last() == s[i as int]);
            }
            if holds_value_entry(&l[i].name, l[i].is_dir) {
                let name = l[i].name.as_ref().unwrap().clone();
                match &l[i].contents {
                    Ok(bytes) => {
                        match T::restore(bytes.as_slice()) {
                            Ok(v) => {
                                r.insert_owned(name, v);
                            },
                            Err(e) => {
                                proof {
                                    assert(!entry_ok::<T>(s[i as int]));
                                }
                                return Err(
                                    Error::RestoreError(join_path(path_str, name.as_str()), e.0),
                                );
                            },
                        }
                    },
                    Err(_) => {
                        let failed = l.swap_remove(i);
                        match failed.contents {
                            Ok(_) => {
                                return Err(Error::OSError(name));
                            },
                            Err(e) => {
                                proof {
                                    assert(!entry_ok::<T>(s[i as int]));
                                }
                                return Err(Error::IOError(e));
                            },
                        }
                    },
                }
            }
            i = i + 1;
        }
        proof {
            assert(s.take(i as int) =~= s);
            lemma_restored_keys::<T>(s);
        }
        Ok(r)
    }

    /// Stores every entry into the directory `dir_path_str`, one file per key.
    ///
    /// Gives, for each pair, the path of its file and the bytes to write there; fails
    /// on the first value that cannot be written out.
    pub fn store(&self, dir_path_str: &str) -> (r: Result<Vec<(String, Vec<u8>)>, Error>)
        requires
            self.wf(),
        ensures
            match r {
                Ok(w) => planned_writes(dir_path_str@, self.entries()) == Some(
                    w@.map_values(|p: (String, Vec<u8>)| (p.0@, p.1@)),
                ),
                Err(e) => planned_writes(dir_path_str@, self.entries()) is None && exists|i: int|
                    {
                        &&& 0 <= i < self.entries().len()
                        &&& forall|j: int| 0 <= j < i ==> (#[trigger] self.entries()[j]).1.stored() is Some
                        &&& self.entries()[i].1.stored() is None
                        &&& e is StoreError
                        &&& e->StoreError_0@ == joined(dir_path_str@, self.entries()[i].0)
                    },
            },
    {
        let ghost e = self.entries();
        let mut w: Vec<(String, Vec<u8>)> = Vec::new();
        let mut i: usize = 0;
        while i < self.storage.len()
            invariant
                e == self.entries(),
                i <= e.len(),
                w@.len() == i,
                forall|j: int| 0 <= j < i ==> (#[trigger] e[j]).1.stored() is Some,
                forall|j: int| 0 <= j < i ==> (#[trigger] w@[j]).0@ == joined(dir_path_str@, e[j].0)
                    && Some(w@[j].1@) == e[j].1.stored(),
            decreases e.len() - i,
        {
            let path = join_path(dir_path_str, self.storage[i].0.as_str());
            match self.storage[i].1.store() {
                Ok(bytes) => {
                    w.push((path, bytes));
                },
                Err(err) => {
                    proof {
                        assert(e[i as int].1.stored() is None);
                    }
                    return Err(Error::StoreError(path, err.0));
                },
            }
            i = i + 1;
        }
        proof {
            assert(w@.map_values(|p: (String, Vec<u8>)| (p.0@, p.1@)) =~= e.map_values(
                |p: (Seq<char>, T)| (joined(dir_path_str@, p.0), p.1.stored()->0),
            ));
        }
        Ok(w)
    }

    /// Stores the entry under `filename` into the directory `dir_path_string`.
    ///
    /// Gives the path of its file and the bytes to write there.
    pub fn store_single(&self, dir_path_string: &str, filename: &str) -> (r: Result<
        (String, Vec<u8>),
        Error,
    >)
        requires
            self.wf(),
        ensures
            !self@.contains_key(filename@) ==> r is Err && r->Err_0 is NotFound
                && r->Err_0->NotFound_0@ == filename@,
            self@.contains_key(filename@) ==> match r {
                Ok((path, bytes)) => path@ == joined(dir_path_string@, filename@) && self@[filename@].stored()
                    == Some(bytes@),
                Err(e) => self@[filename@].stored() is None && e is StoreError && e->StoreError_0@
                    == joined(dir_path_string@, filename@),
            },
    {
        let key = String::from_str(filename);
        proof {
            lemma_map_of(self.entries());
        }
        match self.find(&key) {
            None => Err(Error::NotFound(key)),
            Some(i) => {
                let path = join_path(dir_path_string, filename);
                match self.storage[i].1.store() {
                    Ok(bytes) => Ok((path, bytes)),
                    Err(err) => Err(Error::StoreError(path, err.0)),
                }
            },
        }
    }
}

impl<T: Storable> Default for DirStorage<T> {
    fn default() -> (r: DirStorage<T>)
        ensures
            r.wf(),
            r@ == Map::<Seq<char>, T>::empty(),
    {
        DirStorage::empty()
    }
}

impl<T: Storable> View for DirStorage<T> {
    type V = Map<Seq<char>, T>;

    closed spec fn view(&self) -> Map<Seq<char>, T> {
        map_of(self.entries())
    }
}

} // verus!
