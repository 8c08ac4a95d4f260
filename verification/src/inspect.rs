//! Tallying the assets of an unpacked package by the extension of their
//! declared paths.

use vstd::prelude::*;

use crate::extract::{
    asset_folder_pathname, lemma_well_formed_prefix_is, spec_asset_folder_pathname,
    spec_first_malformed, spec_folders, spec_malformed, AssetError, AssetFolder, AssetFolderView,
    Malformed,
};
use crate::path::{extension, spec_extension};
use crate::text::same_text;

verus! {

/// How often `ext` was counted in `types`: zero where it has no entry.
pub open spec fn spec_count(types: Map<Seq<char>, nat>, ext: Seq<char>) -> nat {
    if types.contains_key(ext) {
        types[ext]
    } else {
        0
    }
}

/// `types` with one more asset of extension `ext`, where there is one.
pub open spec fn spec_tallied(types: Map<Seq<char>, nat>, ext: Option<Seq<char>>) -> Map<
    Seq<char>,
    nat,
> {
    match ext {
        Some(e) => types.insert(e, spec_count(types, e) + 1),
        None => types,
    }
}

/// The extension under which a folder's asset is counted: that of its
/// declared path, where it declares one and that has one.
pub open spec fn spec_declared_extension(folder: AssetFolderView) -> Option<Seq<char>> {
    match spec_asset_folder_pathname(folder) {
        Ok(Some(declared)) => spec_extension(declared),
        _ => None,
    }
}

/// How many of `folders` hold an asset that is counted under `ext`.
pub open spec fn spec_occurrences(folders: Seq<AssetFolderView>, ext: Seq<char>) -> nat {
    folders.filter(|f: AssetFolderView| spec_declared_extension(f) == Some(ext)).len()
}

/// The histogram of `folders`: each extension that occurs among them, with
/// the number of assets counted under it.
pub open spec fn spec_histogram(folders: Seq<AssetFolderView>) -> Map<Seq<char>, nat> {
    Map::new(
        |e: Seq<char>| spec_occurrences(folders, e) > 0,
        |e: Seq<char>| spec_occurrences(folders, e),
    )
}

/// The map that a list of entries stands for, a later entry winning over an
/// earlier one with the same extension.
spec fn spec_entries_map(entries: Seq<(String, usize)>) -> Map<Seq<char>, nat>
    decreases entries.len(),
{
    if entries.len() == 0 {
        Map::empty()
    } else {
        spec_entries_map(entries.drop_last()).insert(
            entries.last().0@,
            entries.last().1 as nat,
        )
    }
}

/// Whether no extension has two entries.
spec fn spec_distinct(entries: Seq<(String, usize)>) -> bool {
    forall|i: int, j: int|
        0 <= i < j < entries.len() ==> (#[trigger] entries[i]).0@ != (#[trigger] entries[j]).0@
}

/// The extensions with an entry are those of the map.
proof fn lemma_entries_keys(entries: Seq<(String, usize)>, ext: Seq<char>)
    ensures
        spec_entries_map(entries).contains_key(ext) <==> exists|i: int|
            0 <= i < entries.len() && (#[trigger] entries[i]).0@ == ext,
    decreases entries.len(),
{
    if entries.len() > 0 {
        let front = entries.drop_last();
        lemma_entries_keys(front, ext);
        if spec_entries_map(entries).contains_key(ext) {
            if entries.last().0@ == ext {
                assert(entries[entries.len() - 1].0@ == ext);
            } else {
                let i = choose|i: int| 0 <= i < front.len() && (#[trigger] front[i]).0@ == ext;
                assert(entries[i].0@ == ext);
            }
        }
        if exists|i: int| 0 <= i < entries.len() && (#[trigger] entries[i]).0@ == ext {
            let i = choose|i: int| 0 <= i < entries.len() && (#[trigger] entries[i]).0@ == ext;
            if i < front.len() {
                assert(front[i].0@ == ext);
            }
        }
    }
}

/// Where no extension has two entries, the map holds each entry's count.
proof fn lemma_entries_value(entries: Seq<(String, usize)>, i: int)
    requires
        spec_distinct(entries),
        0 <= i < entries.len(),
    ensures
        spec_entries_map(entries).contains_key(entries[i].0@),
        spec_entries_map(entries)[entries[i].0@] == entries[i].1,
    decreases entries.len(),
{
    let front = entries.drop_last();
    if i < entries.len() - 1 {
        assert(spec_distinct(front)) by {
            assert forall|a: int, b: int| 0 <= a < b < front.len() implies (#[trigger] front[a]).0@
                != (#[trigger] front[b]).0@ by {
                assert(front[a] == entries[a] && front[b] == entries[b]);
            }
        }
        lemma_entries_value(front, i);
        assert(front[i] == entries[i]);
        assert(entries[i].0@ != entries[entries.len() - 1].0@);
    }
}

/// A tally of assets by extension.
#[derive(Debug)]
pub struct TypeTally {
    entries: Vec<(String, usize)>,
}

impl View for TypeTally {
    type V = Map<Seq<char>, nat>;

    closed spec fn view(&self) -> Map<Seq<char>, nat> {
        spec_entries_map(self.entries@)
    }
}

impl TypeTally {
    /// No extension has two entries.
    #[verifier::type_invariant]
    spec fn distinct(&self) -> bool {
        spec_distinct(self.entries@)
    }

    /// A tally that has counted nothing.
    pub fn new() -> (types: TypeTally)
        ensures
            types@ == Map::<Seq<char>, nat>::empty(),
    {
        TypeTally { entries: Vec::new() }
    }

    /// Where `ext` has its entry.
    fn position(&self, ext: &str) -> (at: Option<usize>)
        ensures
            match at {
                Some(i) => i < self.entries.len() && self.entries[i as int].0@ == ext@,
                None => forall|j: int| 0 <= j < self.entries.len() ==> self.entries[j].0@ != ext@,
            },
    {
        let mut i: usize = 0;
        while i < self.entries.len()
            invariant
                i <= self.entries.len(),
                forall|j: int| 0 <= j < i ==> self.entries[j].0@ != ext@,
            decreases self.entries.len() - i,
        {
            if same_text(self.entries[i].0.as_str(), ext) {
                return Some(i);
            }
            i += 1;
        }
        None
    }

    /// How many assets were counted under `ext`.
    pub fn count(&self, ext: &str) -> (n: usize)
        ensures
            n == spec_count(self@, ext@),
    {
        proof {
            use_type_invariant(self);
            lemma_entries_keys(self.entries@, ext@);
        }
        match self.position(ext) {
            Some(i) => {
                proof {
                    lemma_entries_value(self.entries@, i as int);
                }
                self.entries[i].1
            },
            None => 0,
        }
    }

    /// Counts one more asset under `ext`.
    pub fn record(&mut self, ext: String)
        requires
            spec_count(old(self)@, ext@) < usize::MAX,
        ensures
            final(self)@ == spec_tallied(old(self)@, Some(ext@)),
    {
        proof {
            use_type_invariant(&*self);
            lemma_entries_keys(self.entries@, ext@);
        }
        let ghost before = self.entries@;
        let found = self.position(ext.as_str());
        let mut entries: Vec<(String, usize)> = Vec::new();
        core::mem::swap(&mut self.entries, &mut entries);
        match found {
            Some(i) => {
                proof {
                    lemma_entries_value(before, i as int);
                }
                let n = entries[i].1;
                entries.set(i, (ext, n + 1));
                proof {
                    let after = entries@;
                    assert(spec_distinct(after)) by {
                        assert forall|a: int, b: int| 0 <= a < b < after.len() implies (
                        #[trigger] after[a]).0@ != (#[trigger] after[b]).0@ by {
                            assert(after[a].0@ == before[a].0@);
                            assert(after[b].0@ == before[b].0@);
                        }
                    }
                    assert forall|e: Seq<char>|
                        spec_entries_map(after).contains_key(e) == spec_entries_map(
                            before,
                        ).contains_key(e) by {
                        lemma_entries_keys(after, e);
                        lemma_entries_keys(before, e);
                        if exists|k: int| 0 <= k < after.len() && (#[trigger] after[k]).0@ == e {
                            let k = choose|k: int|
                                0 <= k < after.len() && (#[trigger] after[k]).0@ == e;
                            assert(before[k].0@ == e);
                        }
                        if exists|k: int| 0 <= k < before.len() && (#[trigger] before[k]).0@ == e {
                            let k = choose|k: int|
                                0 <= k < before.len() && (#[trigger] before[k]).0@ == e;
                            assert(after[k].0@ == e);
                        }
                    }
                    assert forall|e: Seq<char>| spec_entries_map(after).contains_key(e) implies (
                    #[trigger] spec_entries_map(after)[e]) == spec_tallied(
                        spec_entries_map(before),
                        Some(ext@),
                    )[e] by {
                        lemma_entries_keys(after, e);
                        let k = choose|k: int|
                            0 <= k < after.len() && (#[trigger] after[k]).0@ == e;
                        lemma_entries_value(after, k);
                        if k != i {
                            assert(after[k] == before[k]);
                            lemma_entries_value(before, k);
                        }
                    }
                    assert(spec_entries_map(after) =~= spec_tallied(
                        spec_entries_map(before),
                        Some(ext@),
                    ));
                }
            },
            None => {
                entries.push((ext, 1));
                proof {
                    let after = entries@;
                    assert(after.drop_last() == before);
                    assert(spec_distinct(after)) by {
                        assert forall|a: int, b: int| 0 <= a < b < after.len() implies (
                        #[trigger] after[a]).0@ != (#[trigger] after[b]).0@ by {
                            assert(after[a] == before[a]);
                            if b < before.len() {
                                assert(after[b] == before[b]);
                            }
                        }
                    }
                }
            },
        }
        self.entries = entries;
    }

    /// The extensions that were counted, each once and with its count.
    pub fn entries(&self) -> (list: &Vec<(String, usize)>)
        ensures
            forall|i: int|
                0 <= i < list.len() ==> self@.contains_key((#[trigger] list[i]).0@) && self@[list[i].0@]
                    == list[i].1,
            forall|e: Seq<char>|
                self@.contains_key(e) ==> exists|i: int|
                    0 <= i < list.len() && (#[trigger] list[i]).0@ == e,
            forall|i: int, j: int|
                0 <= i < j < list.len() ==> (#[trigger] list[i]).0@ != (#[trigger] list[j]).0@,
    {
        proof {
            use_type_invariant(self);
            assert forall|i: int| 0 <= i < self.entries.len() implies self@.contains_key(
                (#[trigger] self.entries[i]).0@,
            ) && self@[self.entries[i].0@] == self.entries[i].1 by {
                lemma_entries_value(self.entries@, i);
            }
            assert forall|e: Seq<char>| self@.contains_key(e) implies exists|i: int|
                0 <= i < self.entries.len() && (#[trigger] self.entries[i]).0@ == e by {
                lemma_entries_keys(self.entries@, e);
            }
        }
        &self.entries
    }
}

/// One more folder adds one to the occurrences of the extension that its
/// asset is counted under, and nothing to those of any other.
pub proof fn lemma_occurrences_push(
    folders: Seq<AssetFolderView>,
    folder: AssetFolderView,
    ext: Seq<char>,
)
    ensures
        spec_occurrences(folders.push(folder), ext) == spec_occurrences(folders, ext) + if 
            spec_declared_extension(folder) == Some(ext) {
            1nat
        } else {
            0nat
        },
        spec_occurrences(folders, ext) <= folders.len(),
{
    reveal_with_fuel(Seq::filter, 2);
    assert(folders.push(folder).drop_last() == folders);
    folders.lemma_filter_len(|f: AssetFolderView| spec_declared_extension(f) == Some(ext));
}

/// Tallying a folder's asset turns the histogram of the folders before it
/// into the histogram of those and it.
pub proof fn lemma_histogram_push(folders: Seq<AssetFolderView>, folder: AssetFolderView)
    ensures
        spec_histogram(folders.push(folder)) == spec_tallied(
            spec_histogram(folders),
            spec_declared_extension(folder),
        ),
{
    let tallied = spec_tallied(spec_histogram(folders), spec_declared_extension(folder));
    let pushed = spec_histogram(folders.push(folder));
    assert forall|e: Seq<char>| #[trigger] pushed.dom().contains(e) == tallied.dom().contains(e) by {
        lemma_occurrences_push(folders, folder, e);
    }
    assert forall|e: Seq<char>| pushed.dom().contains(e) implies #[trigger] pushed[e]
        == tallied[e] by {
        lemma_occurrences_push(folders, folder, e);
    }
    assert(pushed =~= tallied);
}

/// Counts the asset of `folder`, where it holds one, under the extension of
/// its declared path.
///
/// A folder that is no asset, or whose declared path has no extension,
/// leaves the tally as it is. A malformed folder is an error, and leaves the
/// tally as it is too.
pub fn inspect_asset(folder: &AssetFolder, types: &mut TypeTally) -> (result: Result<
    (),
    AssetError,
>)
    requires
        spec_declared_extension(folder@) matches Some(e) ==> spec_count(old(types)@, e)
            < usize::MAX,
    ensures
        final(types)@ == spec_tallied(old(types)@, spec_declared_extension(folder@)),
        match result {
            Ok(_) => !spec_malformed(folder@),
            Err(e) => spec_asset_folder_pathname(folder@) == Err::<Option<Seq<char>>, _>(e),
        },
{
    let declared = match asset_folder_pathname(folder) {
        Err(e) => {
            return Err(e);
        },
        Ok(None) => {
            return Ok(());
        },
        Ok(Some(declared)) => declared,
    };
    if let Some(ext) = extension(declared.as_str()) {
        types.record(ext);
    }
    Ok(())
}

/// Tallies the assets of `folders` by the extension of their declared
/// paths.
///
/// A malformed folder is an error: the first one is reported, and there is
/// no tally.
pub fn inspect(folders: &Vec<AssetFolder>) -> (result: Result<TypeTally, Malformed>)
    ensures
        match result {
            Ok(types) => {
                &&& spec_first_malformed(spec_folders(folders@)) is None
                &&& types@ == spec_histogram(spec_folders(folders@))
            },
            Err(malformed) => spec_first_malformed(spec_folders(folders@)) == Some(malformed),
        },
{
    let ghost views = spec_folders(folders@);
    let mut types = TypeTally::new();
    assert(types@ =~= spec_histogram(views.take(0)));
    let mut i: usize = 0;
    while i < folders.len()
        invariant
            i <= folders.len(),
            views == spec_folders(folders@),
            types@ == spec_histogram(views.take(i as int)),
            forall|j: int| 0 <= j < i ==> !spec_malformed(#[trigger] views[j]),
        decreases folders.len() - i,
    {
        let ghost seen = views.take(i as int);
        proof {
            assert(views[i as int] == folders[i as int]@);
            assert(views.take(i + 1) == seen.push(views[i as int]));
            lemma_histogram_push(seen, views[i as int]);
            if let Some(e) = spec_declared_extension(views[i as int]) {
                lemma_occurrences_push(seen, views[i as int], e);
            }
        }
        match inspect_asset(&folders[i], &mut types) {
            Err(e) => {
                proof {
                    lemma_well_formed_prefix_is(views, i as int);
                }
                return Err(Malformed { index: i, error: e });
            },
            Ok(_) => {},
        }
        i += 1;
    }
    proof {
        lemma_well_formed_prefix_is(views, i as int);
        assert(views.take(i as int) == views);
    }
    Ok(types)
}

} // verus!
