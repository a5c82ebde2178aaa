//! Finding objects by identifier in any object source, and resolving paths
//! through trees on top of that.
use vstd::prelude::*;
use crate::error::{Error, ObjectKind};
use crate::loose::DecodedObject;
use crate::oid::ObjectId;
use crate::tree_laws::{lemma_first_index_at, lemma_first_index_props};
use crate::tree::{decode_items, first_index, find_byte, lemma_first_index_suffix, Entry, EntryKind, EntryModel, TreeRefIter};

verus! {

/// Whether `e` is a failure of the storage itself rather than an answer about
/// what it holds.
pub open spec fn is_storage_error(e: Error) -> bool {
    e is IoError || e is CorruptZlib || e is MalformedHeader
}

/// What asking for an object of kind `kind` gives, where `stored` is what the
/// source holds under its identifier.
pub open spec fn fetch_spec(stored: Option<(ObjectKind, Seq<u8>)>, kind: ObjectKind) -> Result<Seq<u8>, Error> {
    match stored {
        None => Err(Error::NotFound),
        Some((k, d)) => if k == kind {
            Ok(d)
        } else {
            Err(Error::WrongObjectKind { expected: kind, actual: k })
        },
    }
}

/// The payload view of a lookup result.
pub open spec fn fetched_view(r: Result<DecodedObject, Error>) -> Result<Seq<u8>, Error> {
    match r {
        Ok(o) => Ok(o.data@),
        Err(e) => Err(e),
    }
}

/// A source of objects: given an identifier and the kind expected, it returns
/// the object, or says that it is absent or of another kind. A source backed
/// by storage may also fail with a storage error.
pub trait Find {
    /// What the source holds under an identifier.
    spec fn object(&self, id: Seq<u8>) -> Option<(ObjectKind, Seq<u8>)>;

    /// Whether the source never fails with a storage error.
    spec fn reliable(&self) -> bool;

    /// The object `id`, which must be of kind `kind`.
    fn find(&self, id: &ObjectId, kind: ObjectKind) -> (r: Result<DecodedObject, Error>)
        ensures
            fetched_view(r) == fetch_spec(self.object(id@), kind) || (r matches Err(e)
                && is_storage_error(e)),
            self.reliable() ==> fetched_view(r) == fetch_spec(self.object(id@), kind),
            r matches Ok(o) ==> o.kind == kind,
    ;
}

/// Hands `o` back where it is of kind `kind`, and reports `WrongObjectKind` otherwise.
pub fn expect_kind(o: DecodedObject, kind: ObjectKind) -> (r: Result<DecodedObject, Error>)
    ensures
        fetched_view(r) == fetch_spec(Some(o@), kind),
        r matches Ok(x) ==> x.kind == kind,
{
    if o.kind == kind {
        Ok(o)
    } else {
        Err(Error::WrongObjectKind { expected: kind, actual: o.kind })
    }
}

/// The items of the tree `id`, or why it cannot be had.
pub open spec fn fetch_tree_spec<F: Find>(f: &F, id: Seq<u8>) -> Result<Seq<Result<EntryModel, Error>>, Error> {
    match fetch_spec(f.object(id), ObjectKind::Tree) {
        Err(e) => Err(e),
        Ok(d) => Ok(decode_items(d)),
    }
}

/// The first entry named `name` among `items`; an error met before it ends the search.
pub open spec fn scan(items: Seq<Result<EntryModel, Error>>, name: Seq<u8>) -> Result<Option<EntryModel>, Error>
    decreases items.len(),
{
    if items.len() == 0 {
        Ok(None)
    } else {
        match items[0] {
            Err(e) => Err(e),
            Ok(e) => if e.filename == name {
                Ok(Some(e))
            } else {
                scan(items.drop_first(), name)
            },
        }
    }
}

/// What one level of a path lookup decides.
pub enum LevelModel {
    /// The lookup ends with this result.
    Finished(Result<Option<EntryModel>, Error>),
    /// The lookup goes on in the tree with this identifier, with what is left of the path.
    Descend(Seq<u8>, Seq<u8>),
}

/// What one level of resolving `path` decides, given the outcome of fetching
/// the current tree: the first component is searched among the tree's items;
/// where more components follow, a tree found there is descended into.
pub open spec fn lookup_level(fetched: Result<Seq<Result<EntryModel, Error>>, Error>, path: Seq<u8>) -> LevelModel {
    match fetched {
        Err(e) => LevelModel::Finished(Err(e)),
        Ok(items) => match first_index(path, 47u8, 0) {
            None => LevelModel::Finished(scan(items, path)),
            Some(p) => match scan(items, path.subrange(0, p)) {
                Err(e) => LevelModel::Finished(Err(e)),
                Ok(None) => LevelModel::Finished(Ok(None)),
                Ok(Some(e)) => if e.mode != EntryKind::Tree {
                    LevelModel::Finished(Err(Error::NotADirectory))
                } else {
                    LevelModel::Descend(e.oid, path.subrange(p + 1, path.len() as int))
                },
            },
        },
    }
}

/// What resolving the slash-separated `path` from the tree `tree` gives.
pub open spec fn lookup_spec<F: Find>(f: &F, tree: Seq<u8>, path: Seq<u8>) -> Result<Option<EntryModel>, Error>
    decreases path.len(),
{
    match lookup_level(fetch_tree_spec(f, tree), path) {
        LevelModel::Finished(r) => r,
        LevelModel::Descend(id, rest) => if rest.len() < path.len() {
            lookup_spec(f, id, rest)
        } else {
            Ok(None)
        },
    }
}

/// The view of a path lookup result.
pub open spec fn found_view(r: Result<Option<Entry>, Error>) -> Result<Option<EntryModel>, Error> {
    match r {
        Ok(Some(e)) => Ok(Some(e@)),
        Ok(None) => Ok(None),
        Err(e) => Err(e),
    }
}

/// Whether `name` equals `path[start..end]`.
fn name_is(name: &Vec<u8>, path: &[u8], start: usize, end: usize) -> (r: bool)
    requires
        start <= end <= path@.len(),
    ensures
        r == (name@ == path@.subrange(start as int, end as int)),
{
    if name.len() != end - start {
        return false;
    }
    let mut i: usize = 0;
    while i < name.len()
        invariant
            name@.len() == end - start,
            start <= end <= path@.len(),
            i <= name@.len(),
            forall|j: int| 0 <= j < i ==> name@[j] == path@[start + j],
        decreases name@.len() - i,
    {
        if name[i] != path[start + i] {
            assert(path@.subrange(start as int, end as int)[i as int] == path@[start + i]);
            return false;
        }
        i = i + 1;
    }
    assert(name@ =~= path@.subrange(start as int, end as int));
    true
}

/// The first entry of the tree payload `data` named `path[start..end]`.
fn scan_tree(data: &[u8], path: &[u8], start: usize, end: usize) -> (r: Result<Option<Entry>, Error>)
    requires
        start <= end <= path@.len(),
    ensures
        found_view(r) == scan(decode_items(data@), path@.subrange(start as int, end as int)),
{
    let ghost name = path@.subrange(start as int, end as int);
    let mut it = TreeRefIter::from_bytes(data);
    loop
        invariant
            it.wf(),
            start <= end <= path@.len(),
            name == path@.subrange(start as int, end as int),
            scan(decode_items(data@), name) == scan(it.remaining(), name),
        decreases it.remaining().len(),
    {
        match it.next() {
            None => return Ok(None),
            Some(Err(e)) => return Err(e),
            Some(Ok(e)) => {
                if name_is(&e.filename, path, start, end) {
                    return Ok(Some(e));
                }
            },
        }
    }
}

/// What one level of a path lookup decides.
pub enum Level {
    /// The lookup ends with this result.
    Finished(Result<Option<Entry>, Error>),
    /// The lookup goes on in the tree `0`, with the path from position `1` on.
    Descend(ObjectId, usize),
}

/// The items of a fetched tree, or why it could not be had.
pub open spec fn fetched_items(fetched: Result<Vec<u8>, Error>) -> Result<Seq<Result<EntryModel, Error>>, Error> {
    match fetched {
        Ok(d) => Ok(decode_items(d@)),
        Err(e) => Err(e),
    }
}

/// One level of resolving `path[pos..]`, given the outcome of fetching the
/// current tree's payload. Whoever fetches the trees drives the lookup: on
/// `Descend(id, next)` it fetches the tree `id` and goes on at `next`.
pub fn lookup_level_step(path: &[u8], pos: usize, fetched: Result<Vec<u8>, Error>) -> (r: Level)
    requires
        pos <= path@.len(),
    ensures
        ({
            let rest = path@.subrange(pos as int, path@.len() as int);
            match r {
                Level::Finished(x) => lookup_level(fetched_items(fetched), rest) == LevelModel::Finished(
                    found_view(x),
                ),
                Level::Descend(id, next) => pos < next <= path@.len() && lookup_level(
                    fetched_items(fetched),
                    rest,
                ) == LevelModel::Descend(id@, path@.subrange(next as int, path@.len() as int)),
            }
        }),
{
    let len = path.len();
    let ghost rest = path@.subrange(pos as int, len as int);
    let data = match fetched {
        Err(e) => return Level::Finished(Err(e)),
        Ok(d) => d,
    };
    proof {
        lemma_first_index_suffix(path@, 47u8, pos as int, 0);
    }
    match find_byte(path, 47, pos) {
        None => {
            assert(rest.subrange(0, rest.len() as int) =~= rest);
            Level::Finished(scan_tree(data.as_slice(), path, pos, len))
        },
        Some(p) => {
            assert(rest.subrange(0, p - pos) =~= path@.subrange(pos as int, p as int));
            match scan_tree(data.as_slice(), path, pos, p) {
                Err(e) => Level::Finished(Err(e)),
                Ok(None) => Level::Finished(Ok(None)),
                Ok(Some(e)) => {
                    if e.mode != EntryKind::Tree {
                        return Level::Finished(Err(Error::NotADirectory));
                    }
                    assert(rest.subrange(p - pos + 1, rest.len() as int) =~= path@.subrange(p + 1, len as int));
                    Level::Descend(e.oid, p + 1)
                },
            }
        },
    }
}

/// Resolves the slash-separated `path` from the tree `root`: the entry it names,
/// `None` where a component is absent, `NotADirectory` where a component other
/// than the last is not a tree, or the first error met on the way.
pub fn lookup_entry_by_path<F: Find>(find: &F, root: &ObjectId, path: &[u8]) -> (r: Result<Option<Entry>, Error>)
    ensures
        found_view(r) == lookup_spec(find, root@, path@) || (r matches Err(e) && is_storage_error(e)),
        find.reliable() ==> found_view(r) == lookup_spec(find, root@, path@),
{
    let mut current: ObjectId = *root;
    let mut pos: usize = 0;
    let len = path.len();
    assert(path@.subrange(0, len as int) =~= path@);
    loop
        invariant
            pos <= len,
            len == path@.len(),
            lookup_spec(find, root@, path@) == lookup_spec(find, current@, path@.subrange(pos as int, len as int)),
        decreases len - pos,
    {
        let fetched = match find.find(&current, ObjectKind::Tree) {
            Err(e) => Err(e),
            Ok(o) => Ok(o.data),
        };
        match lookup_level_step(path, pos, fetched) {
            Level::Finished(r) => return r,
            Level::Descend(id, next) => {
                current = id;
                pos = next;
            },
        }
    }
}

/// Whether a path component holds no separator.
pub open spec fn is_component(name: Seq<u8>) -> bool {
    forall|i: int| 0 <= i < name.len() ==> #[trigger] name[i] != 47u8
}

/// The path `name/rest`.
pub open spec fn join(name: Seq<u8>, rest: Seq<u8>) -> Seq<u8> {
    name + seq![47u8] + rest
}

proof fn lemma_split_component(name: Seq<u8>, rest: Seq<u8>)
    requires
        is_component(name),
    ensures
        first_index(name, 47u8, 0) is None,
        first_index(join(name, rest), 47u8, 0) == Some(name.len() as int),
        join(name, rest).subrange(0, name.len() as int) == name,
        join(name, rest).subrange(name.len() as int + 1, join(name, rest).len() as int) == rest,
{
    lemma_first_index_props(name, 47u8, 0);
    let p = join(name, rest);
    assert forall|j: int| 0 <= j < name.len() implies p[j] != 47u8 by {
        assert(p[j] == name[j]);
    }
    lemma_first_index_at(p, 47u8, 0, name.len() as int);
    assert(p.subrange(0, name.len() as int) =~= name);
    assert(p.subrange(name.len() as int + 1, p.len() as int) =~= rest);
}

/// A component that a readable tree does not hold resolves to nothing, with no
/// error, whether it is the last component of the path or not.
pub proof fn lemma_lookup_absent<F: Find>(f: &F, tree: Seq<u8>, name: Seq<u8>, rest: Seq<u8>)
    requires
        is_component(name),
        fetch_tree_spec(f, tree) matches Ok(items) && scan(items, name) == Ok::<Option<EntryModel>, Error>(
            None,
        ),
    ensures
        lookup_spec(f, tree, name) == Ok::<Option<EntryModel>, Error>(None),
        lookup_spec(f, tree, join(name, rest)) == Ok::<Option<EntryModel>, Error>(None),
{
    lemma_split_component(name, rest);
}

/// A component other than the last that names an entry which is not a tree
/// makes the lookup fail with `NotADirectory`.
pub proof fn lemma_lookup_not_a_directory<F: Find>(f: &F, tree: Seq<u8>, name: Seq<u8>, rest: Seq<u8>)
    requires
        is_component(name),
        fetch_tree_spec(f, tree) matches Ok(items) && scan(items, name) matches Ok(Some(e)) && e.mode
            != EntryKind::Tree,
    ensures
        lookup_spec(f, tree, join(name, rest)) == Err::<Option<EntryModel>, Error>(Error::NotADirectory),
{
    lemma_split_component(name, rest);
}

} // verus!
