//! The server's collections between files: read from snapshots at the start,
//! flushed back while it runs.
use crate::codec::{Fault, SnapshotError};
use crate::format::{decoded, encoded, law_snapshot_reads_back, storable, AnyView};
use crate::state::{
    choose_snapshot, law_snapshot_name_reads_back, named, stem_of, valid_name, AppState,
    CollectionView, SnapshotChoice, StateView,
};
use vstd::prelude::*;

verus! {

/// A file that could not be loaded, and why.
#[derive(Debug)]
pub struct LoadError {
    pub file: String,
    pub cause: SnapshotError,
}

/// A file of the data directory: its name and its bytes.
#[verifier::ext_equal]
pub struct FileView {
    pub name: Seq<char>,
    pub bytes: Seq<u8>,
}

/// Files as mathematics.
pub open spec fn file_views(files: Seq<(String, Vec<u8>)>) -> Seq<FileView> {
    files.map_values(|f: (String, Vec<u8>)| FileView { name: f.0@, bytes: f.1@ })
}

/// Whether a file holds a collection: it has the extension of snapshots, and a
/// valid name in front of it.
pub open spec fn holds_collection(file: Seq<char>) -> bool {
    stem_of(file) matches Some(stem) && valid_name(stem)
}

/// The collections that files hold, by their names; or the first file that
/// holds one and cannot be read, and why.
#[verifier::opaque]
pub open spec fn loaded(files: Seq<FileView>) -> Result<
    Map<Seq<char>, CollectionView>,
    (Seq<char>, Fault),
>
    decreases files.len(),
{
    if files.len() == 0 {
        Ok(Map::empty())
    } else {
        let f = files.last();
        match loaded(files.drop_last()) {
            Err(e) => Err(e),
            Ok(found) => if !holds_collection(f.name) {
                Ok(found)
            } else {
                let name = stem_of(f.name)->Some_0;
                match decoded(f.bytes) {
                    Ok(index) => Ok(
                        found.insert(name, CollectionView { name, index, dirty: false }),
                    ),
                    Err(fault) => Err((f.name, fault)),
                }
            },
        }
    }
}

/// Once a file cannot be read, nothing behind it changes that.
proof fn lemma_load_fails(files: Seq<FileView>, n: int)
    requires
        0 <= n <= files.len(),
        loaded(files.take(n)) is Err,
    ensures
        loaded(files) == loaded(files.take(n)),
    decreases files.len() - n,
{
    reveal(loaded);
    if n < files.len() {
        let more = files.take(n + 1);
        assert(more.drop_last() =~= files.take(n));
        lemma_load_fails(files, n + 1);
    } else {
        assert(files.take(n) =~= files);
    }
}

/// The collections after saving some of them was tried: what was saved is
/// clean, what failed stays as it was.
pub open spec fn settled(
    collections: Map<Seq<char>, CollectionView>,
    tried: Seq<(Seq<char>, bool)>,
) -> Map<Seq<char>, CollectionView>
    decreases tried.len(),
{
    if tried.len() == 0 {
        collections
    } else {
        let before = settled(collections, tried.drop_last());
        let (name, saved) = tried.last();
        if saved && before.contains_key(name) {
            before.insert(name, CollectionView { dirty: false, ..before[name] })
        } else {
            before
        }
    }
}

/// How many of the attempts succeeded.
pub open spec fn saves(tried: Seq<(Seq<char>, bool)>) -> nat
    decreases tried.len(),
{
    if tried.len() == 0 {
        0
    } else {
        saves(tried.drop_last()) + if tried.last().1 {
            1nat
        } else {
            0nat
        }
    }
}

/// Attempts as mathematics.
pub open spec fn attempts(tried: Seq<(String, bool)>) -> Seq<(Seq<char>, bool)> {
    tried.map_values(|t: (String, bool)| (t.0@, t.1))
}

impl AppState {
    /// The server over a data directory with the given files: every snapshot
    /// among them is loaded as a collection, and one that cannot be read is an
    /// error.
    pub fn load(data_dir: String, read_only: bool, files: &Vec<(String, Vec<u8>)>) -> (r: Result<
        AppState,
        LoadError,
    >)
        ensures
            match r {
                Ok(state) => {
                    &&& state.wf()
                    &&& state@.data_dir == data_dir@
                    &&& state@.read_only == read_only
                    &&& loaded(file_views(files@)) == Ok::<_, (Seq<char>, Fault)>(
                        state@.collections,
                    )
                },
                Err(e) => loaded(file_views(files@)) == Err::<Map<Seq<char>, CollectionView>, _>(
                    (e.file@, e.cause@),
                ),
            },
    {
        let ghost views = file_views(files@);
        let mut state = AppState::new(data_dir, read_only);
        let ghost dir = state@.data_dir;
        let mut i: usize = 0;
        proof {
            reveal(loaded);
            assert(views.take(0) =~= seq![]);
        }
        while i < files.len()
            invariant
                i <= files@.len(),
                views == file_views(files@),
                state.wf(),
                state@.data_dir == dir,
                state@.read_only == read_only,
                loaded(views.take(i as int)) == Ok::<_, (Seq<char>, Fault)>(state@.collections),
            decreases files@.len() - i,
        {
            let file = &files[i];
            proof {
                reveal(loaded);
                assert(views.take(i as int + 1).drop_last() =~= views.take(i as int));
                assert(views[i as int] == FileView { name: file.0@, bytes: file.1@ });
            }
            match choose_snapshot(file.0.as_str()) {
                SnapshotChoice::Load(name) => {
                    match state.load_snapshot(name.as_str(), file.1.as_slice()) {
                        Ok(()) => {},
                        Err(cause) => {
                            proof {
                                lemma_load_fails(views, i as int + 1);
                            }
                            return Err(LoadError { file: file.0.clone(), cause });
                        },
                    }
                },
                SnapshotChoice::Skip => {},
                SnapshotChoice::Refuse => {},
            }
            i = i + 1;
        }
        assert(views.take(i as int) =~= views);
        Ok(state)
    }

    /// Takes note of which collections were saved: those are clean, and the
    /// others stay to be tried again. Tells how many were saved.
    pub fn note_saved(&mut self, tried: &Vec<(String, bool)>) -> (r: usize)
        requires
            old(self).wf(),
        ensures
            final(self).wf(),
            final(self)@ == (StateView {
                collections: settled(old(self)@.collections, attempts(tried@)),
                ..old(self)@
            }),
            r == saves(attempts(tried@)),
    {
        let ghost was = self@;
        let ghost all = attempts(tried@);
        let mut count: usize = 0;
        let mut i: usize = 0;
        assert(all.take(0) =~= seq![]);
        while i < tried.len()
            invariant
                i <= tried@.len(),
                count <= i,
                all == attempts(tried@),
                self.wf(),
                self@ == (StateView {
                    collections: settled(was.collections, all.take(i as int)),
                    ..was
                }),
                count == saves(all.take(i as int)),
            decreases tried@.len() - i,
        {
            proof {
                assert(all.take(i as int + 1).drop_last() =~= all.take(i as int));
                assert(all[i as int] == (tried@[i as int].0@, tried@[i as int].1));
            }
            if tried[i].1 {
                self.mark_flushed(tried[i].0.as_str());
                count = count + 1;
            }
            i = i + 1;
        }
        assert(all.take(i as int) =~= all);
        count
    }
}

// ---------------------------------------------------------------------------
// Laws
// ---------------------------------------------------------------------------

/// The file that a collection is kept in.
#[verifier::opaque]
pub open spec fn saved_file(c: CollectionView) -> FileView {
    FileView { name: c.name + ".vex"@, bytes: encoded(c.index).bytes }
}

/// The files that collections are kept in.
pub open spec fn saved_files(list: Seq<CollectionView>) -> Seq<FileView> {
    list.map_values(|c: CollectionView| saved_file(c))
}

/// Whether a collection can be kept in a file.
#[verifier::opaque]
pub open spec fn keepable(c: CollectionView) -> bool {
    &&& valid_name(c.name)
    &&& storable(c.index)
    &&& encoded(c.index).fault is None
}

/// Whether collections can be kept in files, each in its own.
pub open spec fn all_keepable(list: Seq<CollectionView>) -> bool {
    &&& forall|j: int| 0 <= j < list.len() ==> keepable(#[trigger] list[j])
    &&& forall|j: int, k: int|
        #![trigger list[j], list[k]]
        0 <= j < k < list.len() ==> list[j].name != list[k].name
}

/// Whether a file holds a collection.
#[verifier::opaque]
pub open spec fn kept_in(c: CollectionView, f: FileView) -> bool {
    &&& holds_collection(f.name)
    &&& stem_of(f.name) == Some(c.name)
    &&& decoded(f.bytes) == Ok::<AnyView, Fault>(c.index)
}

proof fn lemma_saved_file(c: CollectionView)
    requires
        keepable(c),
    ensures
        kept_in(c, saved_file(c)),
{
    reveal(keepable);
    reveal(kept_in);
    reveal(saved_file);
    law_snapshot_name_reads_back(c.name);
    law_snapshot_reads_back(c.index, seq![]);
    assert(encoded(c.index).bytes + seq![] =~= encoded(c.index).bytes);
}

proof fn lemma_load_step(files: Seq<FileView>, c: CollectionView)
    requires
        files.len() > 0,
        kept_in(c, files.last()),
        loaded(files.drop_last()) is Ok,
    ensures
        loaded(files) == Ok::<_, (Seq<char>, Fault)>(
            loaded(files.drop_last())->Ok_0.insert(
                c.name,
                CollectionView { dirty: false, ..c },
            ),
        ),
{
    reveal(loaded);
    reveal(kept_in);
}

/// A restart keeps every collection and makes up none: what was flushed is
/// loaded again under its name, with the same index, and clean.
pub proof fn law_restart_keeps_collections(list: Seq<CollectionView>)
    requires
        all_keepable(list),
    ensures
        loaded(saved_files(list)) matches Ok(found) && {
            &&& forall|i: int|
                0 <= i < list.len() ==> found.contains_key((#[trigger] list[i]).name)
                    && found[list[i].name] == (CollectionView { dirty: false, ..list[i] })
            &&& forall|name: Seq<char>| #[trigger]
                found.contains_key(name) ==> exists|i: int| named(list, i, name)
        },
    decreases list.len(),
{
    if list.len() == 0 {
        assert(saved_files(list) =~= seq![]);
        reveal(loaded);
    } else {
        let front = list.drop_last();
        let last = list.last();
        let files = saved_files(list);
        assert(list[list.len() - 1] == last);
        assert(files.drop_last() =~= saved_files(front));
        assert(files.last() == saved_file(last));
        lemma_saved_file(last);
        assert forall|j: int| 0 <= j < front.len() implies keepable(#[trigger] front[j]) by {
            assert(front[j] == list[j]);
        }
        assert forall|j: int, k: int|
            #![trigger front[j], front[k]]
            0 <= j < k < front.len() implies front[j].name != front[k].name by {
            assert(front[j] == list[j] && front[k] == list[k]);
        }
        law_restart_keeps_collections(front);
        let before = loaded(saved_files(front))->Ok_0;
        let fresh = CollectionView { dirty: false, ..last };
        let found = before.insert(last.name, fresh);
        lemma_load_step(files, last);
        assert forall|i: int| 0 <= i < list.len() implies found.contains_key(
            (#[trigger] list[i]).name,
        ) && found[list[i].name] == (CollectionView { dirty: false, ..list[i] }) by {
            if i < front.len() {
                assert(front[i] == list[i]);
                assert(list[i].name != list[list.len() - 1].name);
            }
        }
        assert forall|name: Seq<char>| #[trigger] found.contains_key(name) implies exists|i: int|
            named(list, i, name) by {
            if name == last.name {
                assert(named(list, list.len() - 1, name));
            } else {
                assert(before.contains_key(name));
                let i = choose|i: int| named(front, i, name);
                assert(named(list, i, name));
            }
        }
    }
}

/// One save that fails does not stop the others: a collection is clean after a
/// flush if it was saved, and as it was if it was not tried with success.
pub proof fn law_failed_save_stops_no_other(
    collections: Map<Seq<char>, CollectionView>,
    tried: Seq<(Seq<char>, bool)>,
    name: Seq<char>,
)
    requires
        collections.contains_key(name),
    ensures
        settled(collections, tried).dom() == collections.dom(),
        settled(collections, tried)[name] == if tried.contains((name, true)) {
            CollectionView { dirty: false, ..collections[name] }
        } else {
            collections[name]
        },
    decreases tried.len(),
{
    if tried.len() > 0 {
        let front = tried.drop_last();
        law_failed_save_stops_no_other(collections, front, name);
        let before = settled(collections, front);
        assert(settled(collections, tried).dom() =~= collections.dom());
        if front.contains((name, true)) {
            let j = choose|j: int| 0 <= j < front.len() && front[j] == (name, true);
            assert(tried[j] == (name, true));
        }
        if tried.contains((name, true)) && tried.last() != (name, true) {
            let j = choose|j: int| 0 <= j < tried.len() && tried[j] == (name, true);
            assert(front[j] == (name, true));
        }
        if tried.last() == (name, true) {
            assert(tried[tried.len() - 1] == (name, true));
        }
    }
}

/// Whether the file at a place holds a collection of a name.
pub open spec fn file_of(files: Seq<FileView>, i: int, name: Seq<char>) -> bool {
    &&& 0 <= i < files.len()
    &&& valid_name(name)
    &&& files[i].name == name + ".vex"@
}

proof fn lemma_file_of(files: Seq<FileView>, i: int, name: Seq<char>)
    requires
        0 <= i < files.len(),
    ensures
        file_of(files, i, name) <==> holds_collection(files[i].name) && stem_of(files[i].name)
            == Some(name),
{
    reveal_strlit(".vex");
    let file = files[i].name;
    if file_of(files, i, name) {
        law_snapshot_name_reads_back(name);
    }
    if stem_of(file) == Some(name) {
        assert(file =~= name + ".vex"@);
    }
}

proof fn lemma_load_one(files: Seq<FileView>)
    requires
        files.len() > 0,
        loaded(files) is Ok,
    ensures
        loaded(files.drop_last()) is Ok,
        !holds_collection(files.last().name) ==> loaded(files) == loaded(files.drop_last()),
        holds_collection(files.last().name) ==> exists|c: CollectionView| #[trigger]
            kept_in(c, files.last()) && !c.dirty && loaded(files)->Ok_0 == loaded(
                files.drop_last(),
            )->Ok_0.insert(c.name, c),
{
    reveal(loaded);
    reveal(kept_in);
    let f = files.last();
    if holds_collection(f.name) {
        let name = stem_of(f.name)->Some_0;
        let c = CollectionView { name, index: decoded(f.bytes)->Ok_0, dirty: false };
        assert(kept_in(c, f));
    }
}

proof fn lemma_kept_name(c: CollectionView, f: FileView)
    requires
        kept_in(c, f),
    ensures
        holds_collection(f.name),
        stem_of(f.name) == Some(c.name),
{
    reveal(kept_in);
}

/// Whether the file at a place is the last one of a name.
pub open spec fn last_file_of(files: Seq<FileView>, i: int, name: Seq<char>) -> bool {
    &&& file_of(files, i, name)
    &&& forall|j: int| i < j < files.len() ==> !#[trigger] file_of(files, j, name)
}

proof fn lemma_loaded_are_kept(files: Seq<FileView>, name: Seq<char>)
    requires
        loaded(files) is Ok,
    ensures
        loaded(files)->Ok_0.contains_key(name) <==> exists|i: int| file_of(files, i, name),
        forall|i: int| #[trigger]
            last_file_of(files, i, name) ==> kept_in(loaded(files)->Ok_0[name], files[i])
                && !loaded(files)->Ok_0[name].dirty,
    decreases files.len(),
{
    let found = loaded(files)->Ok_0;
    if files.len() > 0 {
        let front = files.drop_last();
        let at = files.len() - 1;
        lemma_load_one(files);
        lemma_loaded_are_kept(front, name);
        lemma_file_of(files, at, name);
        assert forall|i: int| 0 <= i < at implies #[trigger] file_of(files, i, name) == file_of(
            front,
            i,
            name,
        ) by {
            assert(front[i] == files[i]);
        }
        let before = loaded(front)->Ok_0;
        if holds_collection(files.last().name) {
            let c = choose|c: CollectionView| #[trigger]
                kept_in(c, files.last()) && !c.dirty && found == before.insert(c.name, c);
            lemma_kept_name(c, files.last());
        }
        if exists|i: int| file_of(files, i, name) {
            let i = choose|i: int| file_of(files, i, name);
            if i < at {
                assert(file_of(front, i, name));
            }
        }
        if found.contains_key(name) && !file_of(files, at, name) {
            assert(before.contains_key(name));
            let i = choose|i: int| file_of(front, i, name);
            assert(file_of(files, i, name));
        }
        assert forall|i: int| #[trigger] last_file_of(files, i, name) implies kept_in(
            found[name],
            files[i],
        ) && !found[name].dirty by {
            if i < at {
                assert(!file_of(files, at, name));
                assert(file_of(front, i, name));
                assert forall|j: int| i < j < front.len() implies !#[trigger] file_of(
                    front,
                    j,
                    name,
                ) by {
                    assert(!file_of(files, j, name));
                }
                assert(last_file_of(front, i, name));
                assert(found[name] == before[name]);
                assert(front[i] == files[i]);
            }
        }
    } else {
        reveal(loaded);
    }
}

/// What is loaded is what the files hold: each collection is that of the last
/// file of its name, clean, and there are no others.
pub proof fn law_loaded_collections_are_those_of_the_files(files: Seq<FileView>, name: Seq<char>)
    requires
        loaded(files) is Ok,
    ensures
        loaded(files)->Ok_0.contains_key(name) <==> exists|i: int| file_of(files, i, name),
        forall|i: int| #[trigger]
            last_file_of(files, i, name) ==> {
                let c = loaded(files)->Ok_0[name];
                &&& decoded(files[i].bytes) == Ok::<AnyView, Fault>(c.index)
                &&& c.name == name
                &&& !c.dirty
            },
{
    lemma_loaded_are_kept(files, name);
    assert forall|i: int| #[trigger] last_file_of(files, i, name) implies ({
        let c = loaded(files)->Ok_0[name];
        &&& decoded(files[i].bytes) == Ok::<AnyView, Fault>(c.index)
        &&& c.name == name
        &&& !c.dirty
    }) by {
        reveal(kept_in);
        lemma_file_of(files, i, name);
    }
}

/// Loading fails exactly if some file that holds a collection cannot be read,
/// and tells the first of them and why.
pub proof fn law_load_tells_the_first_bad_file(files: Seq<FileView>, i: int)
    requires
        0 <= i < files.len(),
        holds_collection(files[i].name),
        decoded(files[i].bytes) is Err,
        forall|j: int|
            0 <= j < i && holds_collection((#[trigger] files[j]).name) ==> decoded(
                files[j].bytes,
            ) is Ok,
    ensures
        loaded(files) == Err::<Map<Seq<char>, CollectionView>, _>(
            (files[i].name, decoded(files[i].bytes)->Err_0),
        ),
{
    let front = files.take(i);
    assert forall|j: int| 0 <= j < front.len() && holds_collection(
        (#[trigger] front[j]).name,
    ) implies decoded(front[j].bytes) is Ok by {
        assert(front[j] == files[j]);
    }
    law_readable_files_are_loaded(front);
    assert(files.take(i + 1).drop_last() =~= front);
    assert(files.take(i + 1).last() == files[i]);
    reveal(loaded);
    lemma_load_fails(files, i + 1);
}

/// Files all of which can be read, as far as they hold collections, are loaded.
pub proof fn law_readable_files_are_loaded(files: Seq<FileView>)
    requires
        forall|j: int|
            0 <= j < files.len() && holds_collection((#[trigger] files[j]).name) ==> decoded(
                files[j].bytes,
            ) is Ok,
    ensures
        loaded(files) is Ok,
    decreases files.len(),
{
    reveal(loaded);
    if files.len() > 0 {
        let front = files.drop_last();
        assert forall|j: int| 0 <= j < front.len() && holds_collection(
            (#[trigger] front[j]).name,
        ) implies decoded(front[j].bytes) is Ok by {
            assert(front[j] == files[j]);
        }
        law_readable_files_are_loaded(front);
        assert(files[files.len() - 1] == files.last());
    }
}

/// As many saves are told as attempts succeeded.
pub proof fn law_saves_count_the_successes(tried: Seq<(Seq<char>, bool)>)
    ensures
        saves(tried) == tried.filter(|t: (Seq<char>, bool)| t.1).len(),
    decreases tried.len(),
{
    reveal(Seq::filter);
    if tried.len() > 0 {
        law_saves_count_the_successes(tried.drop_last());
    }
}

} // verus!
