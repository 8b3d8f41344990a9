//! The drive's settings: where it is mounted and which folders it shows.

use vstd::prelude::*;

verus! {

/// A folder shown on the drive: the directory it mirrors and the name it
/// appears under.
pub struct MountEntry {
    pub source: String,
    pub name: String,
}

/// The settings file: an optional mountpoint and the folders, in order.
pub struct Config {
    pub mountpoint: Option<String>,
    pub folders: Vec<MountEntry>,
}

/// Whether one of `folders` appears under `name`.
pub open spec fn has_folder_named(folders: Seq<MountEntry>, name: Seq<char>) -> bool {
    exists|i: int| 0 <= i < folders.len() && #[trigger] folders[i].name@ == name
}

/// Whether a folder appears under a name other than `name`.
pub open spec fn named_otherwise(name: Seq<char>) -> spec_fn(MountEntry) -> bool {
    |e: MountEntry| e.name@ != name
}

/// `folders` without those that appear under `name`, in their order.
pub open spec fn without_folder_named(folders: Seq<MountEntry>, name: Seq<char>) -> Seq<MountEntry> {
    folders.filter(named_otherwise(name))
}

/// Whether no two of `folders` appear under the same name.
pub open spec fn names_unique(folders: Seq<MountEntry>) -> bool {
    forall|i: int, j: int|
        0 <= i < j < folders.len() ==> #[trigger] folders[i].name@ != #[trigger] folders[j].name@
}

/// Removing by name commutes with appending a folder at the end.
pub proof fn lemma_without_push(folders: Seq<MountEntry>, last: MountEntry, name: Seq<char>)
    ensures
        without_folder_named(folders.push(last), name) == if last.name@ != name {
            without_folder_named(folders, name).push(last)
        } else {
            without_folder_named(folders, name)
        },
{
    folders.lemma_filter_push(last, named_otherwise(name));
}

/// Removing a name that no folder has leaves the folders as they are.
proof fn lemma_without_absent(folders: Seq<MountEntry>, name: Seq<char>)
    requires
        !has_folder_named(folders, name),
    ensures
        without_folder_named(folders, name) == folders,
    decreases folders.len(),
{
    reveal(Seq::filter);
    if folders.len() > 0 {
        let rest = folders.drop_last();
        if has_folder_named(rest, name) {
            let i = choose|i: int| 0 <= i < rest.len() && #[trigger] rest[i].name@ == name;
            assert(folders[i].name@ == name);
        }
        lemma_without_absent(rest, name);
        assert(folders[folders.len() - 1].name@ != name);
        assert(rest.push(folders.last()) =~= folders);
    }
}

/// Law: removing a folder right after adding it gives back the folders as
/// they were before the add.
pub proof fn law_remove_undoes_add(folders: Seq<MountEntry>, added: MountEntry)
    requires
        !has_folder_named(folders, added.name@),
    ensures
        without_folder_named(folders.push(added), added.name@) == folders,
{
    lemma_without_push(folders, added, added.name@);
    lemma_without_absent(folders, added.name@);
}

/// Law: once a folder is added under a name, adding another under the same
/// name is refused.
pub proof fn law_added_name_is_taken(folders: Seq<MountEntry>, added: MountEntry)
    ensures
        has_folder_named(folders.push(added), added.name@),
{
    assert(folders.push(added)[folders.len() as int].name@ == added.name@);
}

/// Law: adding keeps the folders' names unique.
pub proof fn law_add_keeps_names_unique(folders: Seq<MountEntry>, added: MountEntry)
    requires
        names_unique(folders),
        !has_folder_named(folders, added.name@),
    ensures
        names_unique(folders.push(added)),
{
    let s = folders.push(added);
    assert forall|i: int, j: int| 0 <= i < j < s.len() implies #[trigger] s[i].name@ != #[trigger] s[j].name@ by {
        if j == folders.len() {
            assert(s[i] == folders[i]);
        } else {
            assert(s[i] == folders[i] && s[j] == folders[j]);
        }
    }
}

/// Law: after a remove, no folder appears under the removed name, and
/// every folder left was there before.
pub proof fn law_remove_clears_name(folders: Seq<MountEntry>, name: Seq<char>)
    ensures
        !has_folder_named(without_folder_named(folders, name), name),
        forall|i: int|
            0 <= i < without_folder_named(folders, name).len() ==> folders.contains(
                #[trigger] without_folder_named(folders, name)[i],
            ),
{
    broadcast use vstd::seq_lib::group_filter_ensures;

    let kept = without_folder_named(folders, name);
    if has_folder_named(kept, name) {
        let i = choose|i: int| 0 <= i < kept.len() && #[trigger] kept[i].name@ == name;
        assert(named_otherwise(name)(kept[i]));
    }
    assert forall|i: int| 0 <= i < kept.len() implies folders.contains(#[trigger] kept[i]) by {
        folders.lemma_filter_contains_rev(named_otherwise(name), kept[i]);
    }
}

/// Law: removing keeps the folders' names unique.
pub proof fn law_remove_keeps_names_unique(folders: Seq<MountEntry>, name: Seq<char>)
    requires
        names_unique(folders),
    ensures
        names_unique(without_folder_named(folders, name)),
    decreases folders.len(),
{
    reveal(Seq::filter);
    if folders.len() > 0 {
        let rest = folders.drop_last();
        let last = folders.last();
        assert(rest.push(last) =~= folders);
        assert forall|i: int, j: int| 0 <= i < j < rest.len() implies #[trigger] rest[i].name@ != #[trigger] rest[j].name@ by {
            assert(rest[i] == folders[i] && rest[j] == folders[j]);
        }
        law_remove_keeps_names_unique(rest, name);
        lemma_without_push(rest, last, name);
        if last.name@ != name {
            let kept = without_folder_named(rest, name);
            law_remove_clears_name(rest, name);
            if has_folder_named(kept, last.name@) {
                let i = choose|i: int| 0 <= i < kept.len() && #[trigger] kept[i].name@ == last.name@;
                assert(rest.contains(kept[i]));
                let k = choose|k: int| 0 <= k < rest.len() && rest[k] == kept[i];
                assert(folders[k].name@ == folders[folders.len() - 1].name@);
            }
            law_add_keeps_names_unique(kept, last);
        }
    }
}

impl Default for Config {
    /// No mountpoint set and no folders.
    fn default() -> (c: Config)
        ensures
            c.mountpoint is None,
            c.folders@.len() == 0,
    {
        Config { mountpoint: None, folders: Vec::new() }
    }
}

impl Config {
    /// Adds the folder `source` under `name`. Returns false, and changes
    /// nothing, if a folder already appears under that name.
    pub fn add(&mut self, source: String, name: String) -> (added: bool)
        ensures
            added == !has_folder_named(old(self).folders@, name@),
            final(self).mountpoint == old(self).mountpoint,
            added ==> final(self).folders@ == old(self).folders@.push((MountEntry { source, name })),
            !added ==> final(self).folders@ == old(self).folders@,
    {
        let n = self.folders.len();
        let mut i: usize = 0;
        while i < n
            invariant
                n == self.folders@.len(),
                i <= n,
                forall|j: int| 0 <= j < i ==> self.folders@[j].name@ != name@,
            decreases n - i,
        {
            if self.folders[i].name == name {
                return false;
            }
            i = i + 1;
        }
        self.folders.push(MountEntry { source, name });
        true
    }

    /// Removes every folder that appears under `name`. Returns false if
    /// there was none.
    pub fn remove(&mut self, name: &String) -> (removed: bool)
        ensures
            removed == has_folder_named(old(self).folders@, name@),
            final(self).mountpoint == old(self).mountpoint,
            final(self).folders@ == without_folder_named(old(self).folders@, name@),
    {
        let mut all: Vec<MountEntry> = Vec::new();
        std::mem::swap(&mut all, &mut self.folders);
        let ghost before = all@;
        let ghost mp = self.mountpoint;
        let mut found = false;
        for e in it: all
            invariant
                it.seq() == before,
                self.mountpoint == mp,
                self.folders@ == without_folder_named(before.take(it.index() as int), name@),
                found == has_folder_named(before.take(it.index() as int), name@),
        {
            proof {
                let i = it.index() as int;
                assert(before.take(i + 1) =~= before.take(i).push(before[i]));
                lemma_without_push(before.take(i), before[i], name@);
                if has_folder_named(before.take(i + 1), name@) && before[i].name@ != name@ {
                    let k = choose|k: int| 0 <= k < i + 1 && #[trigger] before.take(i + 1)[k].name@ == name@;
                    assert(before.take(i)[k].name@ == name@);
                }
                if has_folder_named(before.take(i), name@) {
                    let k = choose|k: int| 0 <= k < i && #[trigger] before.take(i)[k].name@ == name@;
                    assert(before.take(i + 1)[k].name@ == name@);
                }
                if before[i].name@ == name@ {
                    assert(before.take(i + 1)[i].name@ == name@);
                }
            }
            if e.name == *name {
                found = true;
            } else {
                self.folders.push(e);
            }
        }
        proof {
            assert(before.take(before.len() as int) =~= before);
        }
        found
    }
}

} // verus!
