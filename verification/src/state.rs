//! The collections that a server holds.
//!
//! A collection is kept in the file `<data_dir>/<name>.vex`. A write marks its
//! collection as dirty; flushing writes the dirty ones back.
use crate::api::{ApiError, Refusal};
use crate::codec::{fault_text, Fault, SnapshotError};
use crate::float::Arith;
use crate::format::{decoded, encoded, portable, storable, AnyView};
use crate::index::Index;
use crate::persist::AnyIndex;
use crate::text::{
    comes_first, joined, lemma_text_order_chain, lemma_text_order_strict, lemma_text_order_total,
    same_text, text_before,
};
use vstd::prelude::*;
use vstd::string::{StrSliceExecFns, StringExecFns};

verus! {

/// A named index.
#[derive(Debug)]
pub struct Collection {
    pub name: String,
    pub index: AnyIndex,
    /// Whether the index was written to since it was last flushed.
    pub dirty: bool,
}

/// A named index as mathematics.
#[verifier::ext_equal]
pub struct CollectionView {
    pub name: Seq<char>,
    pub index: AnyView,
    pub dirty: bool,
}

impl View for Collection {
    type V = CollectionView;

    open spec fn view(&self) -> CollectionView {
        CollectionView { name: self.name@, index: self.index@, dirty: self.dirty }
    }
}

/// All collections of a server.
#[derive(Debug)]
pub struct AppState {
    pub(crate) collections: Vec<Collection>,
    pub(crate) data_dir: String,
    pub(crate) read_only: bool,
}

/// The state of a server as mathematics: its collections by their names.
#[verifier::ext_equal]
pub struct StateView {
    pub collections: Map<Seq<char>, CollectionView>,
    pub data_dir: Seq<char>,
    pub read_only: bool,
}

/// Whether the collection at a place has a name.
pub open spec fn named(list: Seq<CollectionView>, i: int, name: Seq<char>) -> bool {
    0 <= i < list.len() && list[i].name == name
}

/// The collections of a list by their names.
pub open spec fn by_name(list: Seq<CollectionView>) -> Map<Seq<char>, CollectionView> {
    Map::new(
        |name: Seq<char>| exists|i: int| named(list, i, name),
        |name: Seq<char>| list[choose|i: int| named(list, i, name)],
    )
}

/// Whether the names are in dictionary order, none of them twice.
pub open spec fn in_order(list: Seq<CollectionView>) -> bool {
    forall|i: int, j: int|
        #![trigger list[i], list[j]]
        0 <= i < j < list.len() ==> text_before(list[i].name, list[j].name)
}

/// A collection in an ordered list is found by its name.
pub proof fn lemma_by_name(list: Seq<CollectionView>, i: int)
    requires
        in_order(list),
        0 <= i < list.len(),
    ensures
        by_name(list).contains_key(list[i].name),
        by_name(list)[list[i].name] == list[i],
{
    let name = list[i].name;
    assert(named(list, i, name));
    let j = choose|j: int| named(list, j, name);
    assert(named(list, j, name));
    lemma_text_order_strict(name);
    if i < j {
        assert(text_before(list[i].name, list[j].name));
    } else if j < i {
        assert(text_before(list[j].name, list[i].name));
    }
}

/// There are as many names as collections in an ordered list.
proof fn lemma_by_name_counts(list: Seq<CollectionView>)
    requires
        in_order(list),
    ensures
        by_name(list).dom().finite(),
        by_name(list).dom().len() == list.len(),
{
    let names = list.map_values(|c: CollectionView| c.name);
    assert(names.no_duplicates()) by {
        assert forall|i: int, j: int|
            0 <= i < names.len() && 0 <= j < names.len() && i != j implies names[i]
            != names[j] by {
            lemma_text_order_strict(names[i]);
            if i < j {
                assert(text_before(list[i].name, list[j].name));
            } else {
                assert(text_before(list[j].name, list[i].name));
            }
        }
    }
    names.unique_seq_to_set();
    assert(names.to_set() =~= by_name(list).dom()) by {
        assert forall|name: Seq<char>| names.to_set().contains(name) implies by_name(
            list,
        ).dom().contains(name) by {
            let i = choose|i: int| 0 <= i < names.len() && names[i] == name;
            assert(named(list, i, name));
        }
        assert forall|name: Seq<char>| by_name(list).dom().contains(name) implies names.to_set().contains(
            name,
        ) by {
            let i = choose|i: int| named(list, i, name);
            assert(names[i] == name);
        }
    }
}

/// A collection that is put in its place is found by its name, and the others
/// as before.
pub proof fn lemma_insert_named(list: Seq<CollectionView>, p: int, c: CollectionView)
    requires
        in_order(list),
        0 <= p <= list.len(),
        forall|i: int| 0 <= i < p ==> text_before((#[trigger] list[i]).name, c.name),
        forall|i: int| p <= i < list.len() ==> text_before(c.name, (#[trigger] list[i]).name),
    ensures
        in_order(list.insert(p, c)),
        by_name(list.insert(p, c)) == by_name(list).insert(c.name, c),
        !by_name(list).contains_key(c.name),
{
    let after = list.insert(p, c);
    assert forall|i: int, j: int|
        #![trigger after[i], after[j]]
        0 <= i < j < after.len() implies text_before(after[i].name, after[j].name) by {
        let si = if i < p {
            i
        } else {
            i - 1
        };
        let sj = if j < p {
            j
        } else {
            j - 1
        };
        if i == p {
            assert(after[j] == list[sj]);
        } else if j == p {
            assert(after[i] == list[si]);
        } else {
            assert(after[i] == list[si] && after[j] == list[sj]);
        }
    }
    lemma_text_order_strict(c.name);
    let was = by_name(list);
    let now = by_name(after);
    let goal = was.insert(c.name, c);
    assert forall|name: Seq<char>|
        #![trigger now.dom().contains(name)]
        #![trigger goal.dom().contains(name)]
        now.dom().contains(name) == goal.dom().contains(name) && (now.dom().contains(name)
            ==> now[name] == goal[name]) by {
        if by_name(after).contains_key(name) {
            let i = choose|i: int| named(after, i, name);
            lemma_by_name(after, i);
            if i != p {
                let si = if i < p {
                    i
                } else {
                    i - 1
                };
                assert(after[i] == list[si]);
                lemma_by_name(list, si);
            }
        }
        if by_name(list).contains_key(name) {
            let i = choose|i: int| named(list, i, name);
            let ai = if i < p {
                i
            } else {
                i + 1
            };
            assert(after[ai] == list[i]);
            lemma_by_name(after, ai);
        }
        if name == c.name {
            assert(after[p] == c);
            lemma_by_name(after, p);
        }
    }
    assert(now =~= goal);
    if by_name(list).contains_key(c.name) {
        let i = choose|i: int| named(list, i, c.name);
        assert(list[i].name == c.name);
    }
}

/// A collection that is taken out is gone, and the others are as before.
pub proof fn lemma_remove_named(list: Seq<CollectionView>, p: int)
    requires
        in_order(list),
        0 <= p < list.len(),
    ensures
        in_order(list.remove(p)),
        by_name(list.remove(p)) == by_name(list).remove(list[p].name),
{
    let after = list.remove(p);
    let gone = list[p].name;
    assert forall|i: int, j: int|
        #![trigger after[i], after[j]]
        0 <= i < j < after.len() implies text_before(after[i].name, after[j].name) by {
        assert(after[i] == list[if i < p {
            i
        } else {
            i + 1
        }]);
        assert(after[j] == list[if j < p {
            j
        } else {
            j + 1
        }]);
    }
    let was = by_name(list);
    let now = by_name(after);
    let goal = was.remove(gone);
    assert forall|name: Seq<char>|
        #![trigger now.dom().contains(name)]
        #![trigger goal.dom().contains(name)]
        now.dom().contains(name) == goal.dom().contains(name) && (now.dom().contains(name)
            ==> now[name] == goal[name]) by {
        lemma_text_order_strict(gone);
        if by_name(after).contains_key(name) {
            let i = choose|i: int| named(after, i, name);
            lemma_by_name(after, i);
            let si = if i < p {
                i
            } else {
                i + 1
            };
            assert(after[i] == list[si]);
            lemma_by_name(list, si);
            if si < p {
                assert(text_before(list[si].name, list[p].name));
            } else {
                assert(text_before(list[p].name, list[si].name));
            }
        }
        if by_name(list).contains_key(name) && name != gone {
            let i = choose|i: int| named(list, i, name);
            let ai = if i < p {
                i
            } else {
                i - 1
            };
            assert(after[ai] == list[i]);
            lemma_by_name(after, ai);
            lemma_by_name(list, i);
        }
    }
    assert(now =~= goal);
}

/// A collection that is changed is found changed, and the others are as
/// before.
pub proof fn lemma_update_named(list: Seq<CollectionView>, p: int, c: CollectionView)
    requires
        in_order(list),
        0 <= p < list.len(),
        c.name == list[p].name,
    ensures
        in_order(list.update(p, c)),
        by_name(list.update(p, c)) == by_name(list).insert(c.name, c),
{
    let after = list.update(p, c);
    assert forall|i: int, j: int|
        #![trigger after[i], after[j]]
        0 <= i < j < after.len() implies text_before(after[i].name, after[j].name) by {
        assert(after[i].name == list[i].name && after[j].name == list[j].name);
    }
    let was = by_name(list);
    let now = by_name(after);
    let goal = was.insert(c.name, c);
    assert forall|name: Seq<char>|
        #![trigger now.dom().contains(name)]
        #![trigger goal.dom().contains(name)]
        now.dom().contains(name) == goal.dom().contains(name) && (now.dom().contains(name)
            ==> now[name] == goal[name]) by {
        lemma_text_order_strict(c.name);
        lemma_by_name(after, p);
        if by_name(after).contains_key(name) {
            let i = choose|i: int| named(after, i, name);
            lemma_by_name(after, i);
            if i != p {
                assert(after[i] == list[i]);
                lemma_by_name(list, i);
                if i < p {
                    assert(text_before(after[i].name, after[p].name));
                } else {
                    assert(text_before(after[p].name, after[i].name));
                }
            }
        }
        if by_name(list).contains_key(name) {
            let i = choose|i: int| named(list, i, name);
            lemma_by_name(after, i);
        }
    }
    assert(now =~= goal);
}

/// A character that a collection name may hold.
pub open spec fn name_char(c: char) -> bool {
    ('a' <= c && c <= 'z') || ('A' <= c && c <= 'Z') || ('0' <= c && c <= '9') || c == '-' || c
        == '_'
}

/// A collection name: 1 to 64 letters, digits, hyphens and underscores.
pub open spec fn valid_name(name: Seq<char>) -> bool {
    1 <= name.len() <= 64 && forall|i: int| 0 <= i < name.len() ==> name_char(#[trigger] name[i])
}

/// The refusal of a name that is none.
pub open spec fn bad_name() -> Refusal {
    Refusal::BadRequest("collection name must be 1-64 chars of [a-zA-Z0-9_-]"@)
}

/// Checks a collection name. Names become file names; what a name may hold
/// keeps it from leading out of the data directory.
pub fn validate_name(name: &str) -> (r: Result<(), ApiError>)
    ensures
        r is Ok <==> valid_name(name@),
        r matches Err(e) ==> e@ == bad_name(),
{
    let len: usize = name.unicode_len();
    let mut ok = 1 <= len && len <= 64;
    let mut i: usize = 0;
    while ok && i < len
        invariant
            len == name@.len(),
            i <= len,
            ok ==> 1 <= len <= 64,
            ok ==> forall|j: int| 0 <= j < i ==> name_char(#[trigger] name@[j]),
            !ok ==> !valid_name(name@),
        decreases len - i,
    {
        let c: char = name.get_char(i);
        ok = ('a' <= c && c <= 'z') || ('A' <= c && c <= 'Z') || ('0' <= c && c <= '9') || c == '-'
            || c == '_';
        i = i + 1;
    }
    if ok {
        Ok(())
    } else {
        Err(
            ApiError::BadRequest(
                String::from_str("collection name must be 1-64 chars of [a-zA-Z0-9_-]"),
            ),
        )
    }
}

/// The path of a file in a directory: the name behind the directory and a
/// slash, unless the directory is empty or ends with one.
pub open spec fn in_directory(dir: Seq<char>, file: Seq<char>) -> Seq<char> {
    if dir.len() == 0 || dir.last() == '/' {
        dir + file
    } else {
        dir + "/"@ + file
    }
}

/// The path of a collection's snapshot. A name that begins with a slash is a
/// path of its own.
pub open spec fn snapshot_file(data_dir: Seq<char>, name: Seq<char>) -> Seq<char> {
    let file = name + ".vex"@;
    if file[0] == '/' {
        file
    } else {
        in_directory(data_dir, file)
    }
}

/// The path of a collection's snapshot.
pub fn snapshot_path(data_dir: &str, name: &str) -> (r: String)
    ensures
        r@ == snapshot_file(data_dir@, name@),
{
    proof {
        reveal_strlit(".vex");
    }
    let file = joined(name, ".vex");
    if file.as_str().get_char(0) == '/' {
        return file;
    }
    let len: usize = data_dir.unicode_len();
    if len == 0 || data_dir.get_char(len - 1) == '/' {
        joined(data_dir, file.as_str())
    } else {
        let dir = joined(data_dir, "/");
        joined(dir.as_str(), file.as_str())
    }
}

/// A valid name leads to a file in the data directory and nowhere else: it
/// holds neither a slash nor a dot.
pub proof fn law_valid_name_stays_in_directory(data_dir: Seq<char>, name: Seq<char>)
    requires
        valid_name(name),
    ensures
        snapshot_file(data_dir, name) == in_directory(data_dir, name + ".vex"@),
        !name.contains('/'),
        !name.contains('.'),
        !name.contains('\\'),
{
    assert forall|i: int| 0 <= i < name.len() implies (#[trigger] name[i]) != '/' && name[i] != '.'
        && name[i] != '\\' by {
        assert(name_char(name[i]));
    }
    reveal_strlit(".vex");
    assert((name + ".vex"@)[0] == name[0]);
}

/// What to do with a file of the data directory.
#[derive(Debug)]
pub enum SnapshotChoice {
    /// It is no snapshot.
    Skip,
    /// It is a snapshot, but not of a collection that can be named.
    Refuse,
    /// It is the snapshot of the collection with this name.
    Load(String),
}

/// The extension of snapshot files.
pub open spec fn extension() -> Seq<char> {
    seq!['.', 'v', 'e', 'x']
}

/// The name in front of the extension, if a file name has the extension and
/// something in front of it.
pub open spec fn stem_of(file: Seq<char>) -> Option<Seq<char>> {
    if file.len() > 4 && file.skip(file.len() - 4) == extension() {
        Some(file.take(file.len() - 4))
    } else {
        None
    }
}

/// Decides what to do with a file of the data directory.
pub fn choose_snapshot(file: &str) -> (r: SnapshotChoice)
    ensures
        match stem_of(file@) {
            None => r is Skip,
            Some(stem) => if valid_name(stem) {
                r matches SnapshotChoice::Load(name) && name@ == stem
            } else {
                r is Refuse
            },
        },
{
    let len: usize = file.unicode_len();
    if len <= 4 {
        return SnapshotChoice::Skip;
    }
    let tail = file.substring_char(len - 4, len);
    let is_snapshot = tail.get_char(0) == '.' && tail.get_char(1) == 'v' && tail.get_char(2) == 'e'
        && tail.get_char(3) == 'x';
    proof {
        let end = file@.skip(file@.len() - 4);
        assert(tail@ =~= end);
        if is_snapshot {
            assert(end =~= extension());
        } else {
            assert(extension()[0] == '.' && extension()[1] == 'v' && extension()[2] == 'e'
                && extension()[3] == 'x');
        }
    }
    if !is_snapshot {
        return SnapshotChoice::Skip;
    }
    let stem = file.substring_char(0, len - 4);
    assert(stem@ =~= file@.take(file@.len() - 4));
    match validate_name(stem) {
        Ok(()) => SnapshotChoice::Load(String::from_str(stem)),
        Err(_) => SnapshotChoice::Refuse,
    }
}

/// The file that a valid name is kept in is the one that is read back under
/// that name.
pub proof fn law_snapshot_name_reads_back(name: Seq<char>)
    requires
        valid_name(name),
    ensures
        stem_of(name + ".vex"@) == Some(name),
{
    reveal_strlit(".vex");
    let file = name + ".vex"@;
    assert(file.skip(file.len() - 4) =~= extension());
    assert(file.take(file.len() - 4) =~= name);
}

impl Collection {
    /// Whether the collection holds an index that is in order, under a valid
    /// name.
    pub open spec fn wf(&self) -> bool {
        self.index.wf() && valid_name(self.name@)
    }

    /// A collection that has not been written to.
    pub fn new(name: String, index: AnyIndex) -> (r: Self)
        ensures
            r@ == (CollectionView { name: name@, index: index@, dirty: false }),
            r.index == index,
            r.name@ == name@,
    {
        Collection { name, index, dirty: false }
    }

    /// Whether the collection is to be flushed.
    pub fn needs_flush(&self, force: bool) -> (r: bool)
        ensures
            r == (force || self@.dirty),
    {
        force || self.dirty
    }

    /// The snapshot of the collection.
    pub fn snapshot(&self) -> (r: Result<Vec<u8>, ApiError>)
        requires
            self.wf(),
        ensures
            match r {
                Ok(bytes) => encoded(self@.index).fault is None && bytes@ == encoded(
                    self@.index,
                ).bytes,
                Err(e) => encoded(self@.index).fault matches Some(fault) && e@
                    == Refusal::Internal(fault_text(fault)),
            },
            r is Ok && portable(self@.index) ==> storable(self@.index),
    {
        let mut bytes: Vec<u8> = Vec::new();
        match self.index.write_to(&mut bytes) {
            Ok(()) => {
                assert(bytes@ =~= encoded(self@.index).bytes);
                Ok(bytes)
            },
            Err(e) => Err(ApiError::from_snapshot(e)),
        }
    }
}

/// The refusal of a collection that does not exist.
pub open spec fn no_collection(name: Seq<char>) -> Refusal {
    Refusal::NotFound("collection '"@ + name + "' does not exist"@)
}

fn no_such_collection(name: &str) -> (r: ApiError)
    ensures
        r@ == no_collection(name@),
{
    let head = joined("collection '", name);
    ApiError::NotFound(joined(head.as_str(), "' does not exist"))
}

/// The names of the collections that are to be flushed, in order.
pub open spec fn due(list: Seq<CollectionView>, force: bool) -> Seq<Seq<char>>
    decreases list.len(),
{
    if list.len() == 0 {
        seq![]
    } else if force || list.last().dirty {
        due(list.drop_last(), force).push(list.last().name)
    } else {
        due(list.drop_last(), force)
    }
}

impl View for AppState {
    type V = StateView;

    open(crate) spec fn view(&self) -> StateView {
        StateView {
            collections: by_name(self.list()),
            data_dir: self.data_dir@,
            read_only: self.read_only,
        }
    }
}

impl AppState {
    /// The collections in the dictionary order of their names.
    pub open(crate) spec fn list(&self) -> Seq<CollectionView> {
        self.collections@.map_values(|c: Collection| c@)
    }

    /// The invariant: names are valid and occur once, and every index is in
    /// order.
    pub open(crate) spec fn wf(&self) -> bool {
        &&& in_order(self.list())
        &&& forall|i: int|
            0 <= i < self.collections@.len() ==> (#[trigger] self.collections@[i]).wf()
    }

    /// Whether a collection, if it exists, has room for `n` more vectors.
    pub open(crate) spec fn room_for(&self, ar: Arith, name: Seq<char>, n: nat) -> bool {
        forall|i: int|
            0 <= i < self.collections@.len() && (#[trigger] self.collections@[i]).name@ == name
                ==> self.collections@[i].index.ready_for(ar, n)
    }

    /// What the list is: the collections, in the dictionary order of their
    /// names, none of them twice.
    pub proof fn law_list_holds_the_collections(&self)
        requires
            self.wf(),
        ensures
            in_order(self.list()),
            self@.collections == by_name(self.list()),
            self.list().len() == self@.collections.dom().len(),
            self@.collections.dom().finite(),
    {
        lemma_by_name_counts(self.list());
    }

    /// A server without collections.
    pub fn new(data_dir: String, read_only: bool) -> (r: Self)
        ensures
            r.wf(),
            r@ == (StateView { collections: Map::empty(), data_dir: data_dir@, read_only }),
    {
        let r = AppState { collections: Vec::new(), data_dir, read_only };
        assert(r@.collections =~= Map::empty());
        r
    }

    /// The place of a collection.
    pub(crate) fn find(&self, name: &str) -> (r: Option<usize>)
        requires
            self.wf(),
        ensures
            match r {
                Some(i) => {
                    &&& i < self.collections@.len()
                    &&& self.list()[i as int].name == name@
                    &&& self.list()[i as int] == self.collections@[i as int]@
                    &&& self@.collections.contains_key(name@)
                    &&& self@.collections[name@] == self.list()[i as int]
                },
                None => !self@.collections.contains_key(name@),
            },
    {
        let ghost list = self.list();
        let mut i: usize = 0;
        while i < self.collections.len()
            invariant
                self.wf(),
                list == self.list(),
                i <= self.collections@.len(),
                forall|j: int| 0 <= j < i ==> (#[trigger] list[j]).name != name@,
            decreases self.collections@.len() - i,
        {
            assert(list[i as int] == self.collections@[i as int]@);
            if same_text(self.collections[i].name.as_str(), name) {
                proof {
                    lemma_by_name(list, i as int);
                }
                return Some(i);
            }
            i = i + 1;
        }
        assert(!self@.collections.contains_key(name@)) by {
            if self@.collections.contains_key(name@) {
                let j = choose|j: int| named(list, j, name@);
                assert(named(list, j, name@));
                assert(list[j].name != name@);
            }
        }
        None
    }

    /// The collection with a name.
    pub fn get(&self, name: &str) -> (r: Result<&Collection, ApiError>)
        requires
            self.wf(),
        ensures
            match r {
                Ok(c) => {
                    &&& c.wf()
                    &&& self@.collections.contains_key(name@)
                    &&& self@.collections[name@] == c@
                },
                Err(e) => !self@.collections.contains_key(name@) && e@ == no_collection(name@),
            },
    {
        match self.find(name) {
            Some(i) => Ok(&self.collections[i]),
            None => Err(no_such_collection(name)),
        }
    }

    /// Refuses writes where the server takes none.
    pub fn ensure_writable(&self) -> (r: Result<(), ApiError>)
        ensures
            r is Ok <==> !self@.read_only,
            r matches Err(e) ==> e@ == Refusal::ReadOnly,
    {
        if self.read_only {
            Err(ApiError::ReadOnly)
        } else {
            Ok(())
        }
    }

    /// Adds a collection under a name that is not in use.
    pub fn register(&mut self, c: Collection)
        requires
            old(self).wf(),
            c.wf(),
            !old(self)@.collections.contains_key(c.name@),
        ensures
            final(self).wf(),
            final(self)@ == (StateView {
                collections: old(self)@.collections.insert(c.name@, c@),
                ..old(self)@
            }),
    {
        let ghost list = self.list();
        let ghost view = c@;
        let mut p: usize = 0;
        while p < self.collections.len() && comes_first(
            self.collections[p].name.as_str(),
            c.name.as_str(),
        )
            invariant
                self.wf(),
                list == self.list(),
                p <= self.collections@.len(),
                forall|i: int| 0 <= i < p ==> text_before((#[trigger] list[i]).name, c.name@),
            decreases self.collections@.len() - p,
        {
            assert(list[p as int] == self.collections@[p as int]@);
            p = p + 1;
        }
        proof {
            assert forall|i: int| p <= i < list.len() implies text_before(
                view.name,
                (#[trigger] list[i]).name,
            ) by {
                lemma_by_name(list, i);
                assert(list[p as int] == self.collections@[p as int]@);
                lemma_by_name(list, p as int);
                lemma_text_order_total(list[p as int].name, view.name);
                if i > p {
                    lemma_text_order_chain(view.name, list[p as int].name, list[i].name);
                }
            }
            lemma_insert_named(list, p as int, view);
        }
        let ghost was = self.collections@;
        self.collections.insert(p, c);
        proof {
            assert(self.list() =~= list.insert(p as int, view));
            assert forall|i: int| 0 <= i < self.collections@.len() implies (
            #[trigger] self.collections@[i]).wf() by {
                if i < p {
                    assert(self.collections@[i] == was[i]);
                } else if i > p {
                    assert(self.collections@[i] == was[i - 1]);
                }
            }
        }
    }

    /// Adds the collection that a snapshot holds, in place of one that had
    /// its name.
    pub fn load_snapshot(&mut self, name: &str, data: &[u8]) -> (r: Result<(), SnapshotError>)
        requires
            old(self).wf(),
            valid_name(name@),
        ensures
            final(self).wf(),
            match r {
                Ok(()) => decoded(data@) matches Ok(index) && final(self)@ == (StateView {
                    collections: old(self)@.collections.insert(
                        name@,
                        CollectionView { name: name@, index, dirty: false },
                    ),
                    ..old(self)@
                }),
                Err(e) => decoded(data@) == Err::<AnyView, Fault>(e@) && *final(self)
                    == *old(self),
            },
    {
        let index = AnyIndex::read_from(data)?;
        let ghost was = self@;
        if let Some(i) = self.find(name) {
            self.take_out(i);
        }
        self.register(Collection::new(String::from_str(name), index));
        assert(self@.collections =~= was.collections.insert(
            name@,
            CollectionView { name: name@, index: index@, dirty: false },
        ));
        Ok(())
    }

    /// Takes the collection at a place out.
    pub(crate) fn take_out(&mut self, i: usize)
        requires
            old(self).wf(),
            i < old(self).list().len(),
        ensures
            final(self).wf(),
            final(self)@ == (StateView {
                collections: old(self)@.collections.remove(old(self).list()[i as int].name),
                ..old(self)@
            }),
    {
        let ghost list = self.list();
        let ghost was = self.collections@;
        proof {
            lemma_remove_named(list, i as int);
        }
        self.collections.remove(i);
        proof {
            assert(self.list() =~= list.remove(i as int));
            assert forall|j: int| 0 <= j < self.collections@.len() implies (
            #[trigger] self.collections@[j]).wf() by {
                if j < i {
                    assert(self.collections@[j] == was[j]);
                } else {
                    assert(self.collections@[j] == was[j + 1]);
                }
            }
        }
    }

    /// The names of the collections that are to be flushed: all of them, or
    /// the dirty ones.
    pub fn pending(&self, force: bool) -> (r: Vec<String>)
        requires
            self.wf(),
        ensures
            r@.map_values(|name: String| name@) == due(self.list(), force),
    {
        let ghost list = self.list();
        let mut names: Vec<String> = Vec::new();
        let mut i: usize = 0;
        assert(list.take(0) =~= seq![]);
        assert(names@.map_values(|name: String| name@) =~= seq![]);
        while i < self.collections.len()
            invariant
                list == self.list(),
                i <= self.collections@.len(),
                names@.map_values(|name: String| name@) == due(list.take(i as int), force),
            decreases self.collections@.len() - i,
        {
            let c = &self.collections[i];
            assert(list[i as int] == c@);
            assert(list.take(i as int + 1).drop_last() =~= list.take(i as int));
            let ghost was = names@.map_values(|name: String| name@);
            if c.needs_flush(force) {
                names.push(c.name.clone());
                assert(names@.map_values(|name: String| name@) =~= was.push(c.name@));
            }
            i = i + 1;
        }
        assert(list.take(i as int) =~= list);
        names
    }

    /// The path of a collection's snapshot.
    pub fn path_of(&self, name: &str) -> (r: String)
        ensures
            r@ == snapshot_file(self@.data_dir, name@),
    {
        snapshot_path(self.data_dir.as_str(), name)
    }

    /// Records that a collection's snapshot was saved.
    pub fn mark_flushed(&mut self, name: &str)
        requires
            old(self).wf(),
        ensures
            final(self).wf(),
            final(self)@ == if old(self)@.collections.contains_key(name@) {
                StateView {
                    collections: old(self)@.collections.insert(
                        name@,
                        CollectionView { dirty: false, ..old(self)@.collections[name@] },
                    ),
                    ..old(self)@
                }
            } else {
                old(self)@
            },
    {
        if let Some(i) = self.find(name) {
            let ghost list = self.list();
            let ghost was = self.collections@;
            let ghost view = CollectionView { dirty: false, ..list[i as int] };
            proof {
                lemma_update_named(list, i as int, view);
            }
            self.collections[i].dirty = false;
            proof {
                assert(self.list() =~= list.update(i as int, view));
                assert forall|j: int| 0 <= j < self.collections@.len() implies (
                #[trigger] self.collections@[j]).wf() by {
                    assert(self.collections@[j].index == was[j].index);
                    assert(was[j].wf());
                }
            }
        }
    }
}

} // verus!
