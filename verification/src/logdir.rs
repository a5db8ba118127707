//! A model of the target directory: its files with their byte contents, its
//! subdirectories, and — one level down — the files of its `bak`
//! subdirectory.  The effect of every operation is stated and proved over
//! this model; the executable front end performs the same steps against the
//! real filesystem.

use vstd::prelude::*;
use vstd::string::StringExecFns;
use crate::list::list_line;
use crate::list::list_line_spec;
use crate::text::str_eq;
use crate::view::Selection;
use crate::view::select_file;
use crate::view::selected_value;
use crate::view::selects_a_number;

verus! {

/// A file: its name and its byte content.
struct FileEntry {
    name: String,
    content: Vec<u8>,
}

/// What a directory entry is: a file, or a subdirectory with its files.
enum EntryData {
    File { content: Vec<u8> },
    SubDir { files: Vec<FileEntry> },
}

/// One directory entry.
struct Entry {
    name: String,
    data: EntryData,
}

/// The state of the target directory.
pub struct LogDir {
    entries: Vec<Entry>,
}

/// One line of the list operation's output: a listing line for a file, or
/// a notice naming a skipped subdirectory.
#[derive(Debug, PartialEq, Eq)]
pub enum ListItem {
    /// The listing line `- <name>` for a file.
    FileLine(String),
    /// The name of a subdirectory that was skipped.
    SkipNotice(String),
}

/// What the view operation does with one line of user input.
#[derive(Debug, PartialEq, Eq)]
pub enum ViewOutcome {
    /// The directory has no files: report that and stop, without prompting.
    NoFiles,
    /// The input is not a numeral.
    InvalidInput,
    /// The input is a numeral but selects no file.
    OutOfRange,
    /// The selected file's name and content.
    Show { name: String, content: Vec<u8> },
}

/// What a backup attempt did.
#[derive(Clone, Copy, Debug, PartialEq, Eq)]
pub enum BackupOutcome {
    /// The file was moved into `bak`, replacing any same-named backup.
    Moved,
    /// No file of that name exists.
    NoSuchFile,
    /// An entry called `bak` is in the way as a file, so the backup
    /// directory cannot be created.
    BakObstructed,
}

spec fn names_unique(s: Seq<Entry>) -> bool {
    forall|i: int, j: int| 0 <= i < j < s.len() ==> s[i].name@ != s[j].name@
}

spec fn fnames_unique(s: Seq<FileEntry>) -> bool {
    forall|i: int, j: int| 0 <= i < j < s.len() ==> s[i].name@ != s[j].name@
}

spec fn entry_wf(e: Entry) -> bool {
    match e.data {
        EntryData::File { .. } => true,
        EntryData::SubDir { files } => fnames_unique(files@),
    }
}

spec fn sub_files_of(e: Entry) -> Seq<FileEntry> {
    match e.data {
        EntryData::File { .. } => Seq::empty(),
        EntryData::SubDir { files } => files@,
    }
}

spec fn file_pair(e: Entry) -> (Seq<char>, Seq<u8>) {
    match e.data {
        EntryData::File { content } => (e.name@, content@),
        EntryData::SubDir { .. } => (e.name@, Seq::empty()),
    }
}

spec fn has_name(s: Seq<Entry>, n: Seq<char>) -> bool {
    exists|i: int| 0 <= i < s.len() && s[i].name@ == n
}

spec fn index_of(s: Seq<Entry>, n: Seq<char>) -> int {
    choose|i: int| 0 <= i < s.len() && s[i].name@ == n
}

spec fn entry_at(s: Seq<Entry>, n: Seq<char>) -> Option<Entry> {
    if has_name(s, n) {
        Some(s[index_of(s, n)])
    } else {
        None
    }
}

spec fn fhas_name(s: Seq<FileEntry>, n: Seq<char>) -> bool {
    exists|i: int| 0 <= i < s.len() && s[i].name@ == n
}

spec fn findex_of(s: Seq<FileEntry>, n: Seq<char>) -> int {
    choose|i: int| 0 <= i < s.len() && s[i].name@ == n
}

spec fn fcontent(s: Seq<FileEntry>, n: Seq<char>) -> Option<Seq<u8>> {
    if fhas_name(s, n) {
        Some(s[findex_of(s, n)].content@)
    } else {
        None
    }
}

spec fn files_of(s: Seq<Entry>) -> Seq<(Seq<char>, Seq<u8>)>
    decreases s.len(),
{
    if s.len() == 0 {
        Seq::empty()
    } else {
        files_of(s.drop_last()) + (match s.last().data {
            EntryData::File { content } => seq![(s.last().name@, content@)],
            EntryData::SubDir { .. } => Seq::empty(),
        })
    }
}

spec fn dirs_of(s: Seq<Entry>) -> Seq<Seq<char>>
    decreases s.len(),
{
    if s.len() == 0 {
        Seq::empty()
    } else {
        dirs_of(s.drop_last()) + (match s.last().data {
            EntryData::File { .. } => Seq::empty(),
            EntryData::SubDir { .. } => seq![s.last().name@],
        })
    }
}

spec fn listing_of(s: Seq<Entry>) -> Seq<(bool, Seq<char>)>
    decreases s.len(),
{
    if s.len() == 0 {
        Seq::empty()
    } else {
        listing_of(s.drop_last()) + (match s.last().data {
            EntryData::File { .. } => seq![(true, list_line_spec(s.last().name@))],
            EntryData::SubDir { .. } => seq![(false, s.last().name@)],
        })
    }
}

/// How many items of `s` are file lines (`want` true) or skip notices
/// (`want` false).
pub open spec fn count_matching(s: Seq<(bool, Seq<char>)>, want: bool) -> nat
    decreases s.len(),
{
    if s.len() == 0 {
        0
    } else {
        count_matching(s.drop_last(), want) + (if s.last().0 == want {
            1nat
        } else {
            0
        })
    }
}

proof fn lemma_take_step(s: Seq<Entry>, k: int)
    requires
        0 <= k < s.len(),
    ensures
        files_of(s.take(k + 1)) == files_of(s.take(k)) + (match s[k].data {
            EntryData::File { content } => seq![(s[k].name@, content@)],
            EntryData::SubDir { .. } => Seq::empty(),
        }),
        dirs_of(s.take(k + 1)) == dirs_of(s.take(k)) + (match s[k].data {
            EntryData::File { .. } => Seq::empty(),
            EntryData::SubDir { .. } => seq![s[k].name@],
        }),
        listing_of(s.take(k + 1)) == listing_of(s.take(k)) + (match s[k].data {
            EntryData::File { .. } => seq![(true, list_line_spec(s[k].name@))],
            EntryData::SubDir { .. } => seq![(false, s[k].name@)],
        }),
{
    assert(s.take(k + 1).drop_last() =~= s.take(k));
    assert(s.take(k + 1).last() == s[k]);
}

proof fn lemma_empty()
    ensures
        files_of(Seq::<Entry>::empty()) == Seq::<(Seq<char>, Seq<u8>)>::empty(),
        dirs_of(Seq::<Entry>::empty()) == Seq::<Seq<char>>::empty(),
{
}

proof fn lemma_single(e: Entry)
    ensures
        files_of(seq![e]) == (match e.data {
            EntryData::File { content } => seq![(e.name@, content@)],
            EntryData::SubDir { .. } => Seq::<(Seq<char>, Seq<u8>)>::empty(),
        }),
        dirs_of(seq![e]) == (match e.data {
            EntryData::File { .. } => Seq::<Seq<char>>::empty(),
            EntryData::SubDir { .. } => seq![e.name@],
        }),
{
    lemma_empty();
    let m = seq![e];
    assert(m.len() == 1);
    assert(m.drop_last() =~= Seq::<Entry>::empty());
    assert(m.last() == e);
    assert(files_of(m.drop_last()) == files_of(Seq::<Entry>::empty()));
    assert(dirs_of(m.drop_last()) == dirs_of(Seq::<Entry>::empty()));
    match e.data {
        EntryData::File { content } => {
            assert(files_of(m) =~= seq![(e.name@, content@)]);
            assert(dirs_of(m) =~= Seq::<Seq<char>>::empty());
        },
        EntryData::SubDir { .. } => {
            assert(files_of(m) =~= Seq::<(Seq<char>, Seq<u8>)>::empty());
            assert(dirs_of(m) =~= seq![e.name@]);
        },
    }
}

proof fn lemma_cat(a: Seq<Entry>, b: Seq<Entry>)
    ensures
        files_of(a + b) == files_of(a) + files_of(b),
        dirs_of(a + b) == dirs_of(a) + dirs_of(b),
    decreases b.len(),
{
    if b.len() == 0 {
        assert(a + b =~= a);
        assert(files_of(a) + files_of(b) =~= files_of(a));
        assert(dirs_of(a) + dirs_of(b) =~= dirs_of(a));
    } else {
        let ab = a + b;
        assert(ab.drop_last() =~= a + b.drop_last());
        assert(ab.last() == b.last());
        lemma_cat(a, b.drop_last());
        let fu = match b.last().data {
            EntryData::File { content } => seq![(b.last().name@, content@)],
            EntryData::SubDir { .. } => Seq::<(Seq<char>, Seq<u8>)>::empty(),
        };
        assert(files_of(ab) == (files_of(a) + files_of(b.drop_last())) + fu);
        assert(files_of(b) == files_of(b.drop_last()) + fu);
        assert((files_of(a) + files_of(b.drop_last())) + fu =~= files_of(a) + (files_of(
            b.drop_last(),
        ) + fu));
        let du = match b.last().data {
            EntryData::File { .. } => Seq::<Seq<char>>::empty(),
            EntryData::SubDir { .. } => seq![b.last().name@],
        };
        assert(dirs_of(ab) == (dirs_of(a) + dirs_of(b.drop_last())) + du);
        assert(dirs_of(b) == dirs_of(b.drop_last()) + du);
        assert((dirs_of(a) + dirs_of(b.drop_last())) + du =~= dirs_of(a) + (dirs_of(b.drop_last())
            + du));
    }
}

proof fn lemma_remove_file_entry(s: Seq<Entry>, i: int)
    requires
        0 <= i < s.len(),
        s[i].data is File,
    ensures
        ({
            let p = files_of(s.take(i)).len() as int;
            &&& 0 <= p < files_of(s).len()
            &&& files_of(s)[p] == file_pair(s[i])
            &&& files_of(s.remove(i)) == files_of(s).remove(p)
            &&& dirs_of(s.remove(i)) == dirs_of(s)
        }),
{
    let t = s.take(i);
    let u = s.skip(i + 1);
    let m = seq![s[i]];
    assert(s =~= t + (m + u));
    assert(s.remove(i) =~= t + u);
    lemma_cat(m, u);
    lemma_cat(t, m + u);
    lemma_cat(t, u);
    lemma_single(s[i]);
    let p = files_of(t).len() as int;
    assert(files_of(s) == files_of(t) + (files_of(m) + files_of(u)));
    assert(files_of(m) == seq![file_pair(s[i])]);
    assert(files_of(s)[p] == file_pair(s[i]));
    assert(files_of(s.remove(i)) == files_of(t) + files_of(u));
    assert(files_of(s.remove(i)) =~= files_of(s).remove(p));
    assert(dirs_of(s) == dirs_of(t) + (dirs_of(m) + dirs_of(u)));
    assert(dirs_of(m) =~= Seq::<Seq<char>>::empty());
    assert(dirs_of(s.remove(i)) == dirs_of(t) + dirs_of(u));
    assert(dirs_of(s.remove(i)) =~= dirs_of(s));
}

proof fn lemma_update_subdir(s: Seq<Entry>, j: int, e: Entry)
    requires
        0 <= j < s.len(),
        s[j].data is SubDir,
        e.data is SubDir,
        e.name@ == s[j].name@,
    ensures
        files_of(s.update(j, e)) == files_of(s),
        dirs_of(s.update(j, e)) == dirs_of(s),
{
    let t = s.take(j);
    let u = s.skip(j + 1);
    let s2 = s.update(j, e);
    assert(s =~= t + (seq![s[j]] + u));
    assert(s2 =~= t + (seq![e] + u));
    lemma_cat(seq![s[j]], u);
    lemma_cat(seq![e], u);
    lemma_cat(t, seq![s[j]] + u);
    lemma_cat(t, seq![e] + u);
    lemma_single(s[j]);
    lemma_single(e);
    assert(files_of(s2) =~= files_of(s));
    assert(dirs_of(seq![e]) == seq![e.name@]);
    assert(dirs_of(seq![s[j]]) == seq![s[j].name@]);
    assert(dirs_of(s2) =~= dirs_of(s));
}

proof fn lemma_listing_counts_rec(s: Seq<Entry>)
    ensures
        listing_of(s).len() == files_of(s).len() + dirs_of(s).len(),
        count_matching(listing_of(s), true) == files_of(s).len(),
        count_matching(listing_of(s), false) == dirs_of(s).len(),
    decreases s.len(),
{
    if s.len() == 0 {
    } else {
        lemma_listing_counts_rec(s.drop_last());
        let l = listing_of(s);
        let l0 = listing_of(s.drop_last());
        assert(l.drop_last() =~= l0);
        assert(count_matching(l, true) == count_matching(l0, true) + (if l.last().0 {
            1nat
        } else {
            0
        }));
        assert(count_matching(l, false) == count_matching(l0, false) + (if !l.last().0 {
            1nat
        } else {
            0
        }));
    }
}

proof fn lemma_files_of_prefix(s: Seq<Entry>, m: int)
    requires
        0 <= m <= s.len(),
    ensures
        files_of(s.take(m)).len() <= files_of(s).len(),
        forall|i: int|
            0 <= i < files_of(s.take(m)).len() ==> files_of(s.take(m))[i] == files_of(s)[i],
    decreases s.len() - m,
{
    if m == s.len() {
        assert(s.take(m) =~= s);
    } else {
        lemma_take_step(s, m);
        lemma_files_of_prefix(s, m + 1);
    }
}

impl LogDir {
    /// The directory is well formed: entry names are unique, and so are the
    /// file names inside each subdirectory.
    pub closed spec fn wf(self) -> bool {
        &&& names_unique(self.entries@)
        &&& forall|i: int| 0 <= i < self.entries@.len() ==> entry_wf(#[trigger] self.entries@[i])
    }

    /// The content of the file called `name`, when the directory has one.
    pub closed spec fn file_content(self, name: Seq<char>) -> Option<Seq<u8>> {
        match entry_at(self.entries@, name) {
            Some(e) => match e.data {
                EntryData::File { content } => Some(content@),
                EntryData::SubDir { .. } => None,
            },
            None => None,
        }
    }

    /// Whether the directory has a subdirectory called `name`.
    pub closed spec fn is_subdir(self, name: Seq<char>) -> bool {
        match entry_at(self.entries@, name) {
            Some(e) => e.data is SubDir,
            None => false,
        }
    }

    /// The content of the file called `name` inside the `bak` subdirectory,
    /// when there is such a subdirectory and it has one.
    pub closed spec fn bak_content(self, name: Seq<char>) -> Option<Seq<u8>> {
        match entry_at(self.entries@, "bak"@) {
            Some(e) => match e.data {
                EntryData::File { .. } => None,
                EntryData::SubDir { files } => fcontent(files@, name),
            },
            None => None,
        }
    }

    /// Whether the directory has any entry — file or subdirectory — called
    /// `name`.
    pub closed spec fn has_entry(self, name: Seq<char>) -> bool {
        has_name(self.entries@, name)
    }

    /// An empty directory.
    pub fn new() -> (d: LogDir)
        ensures
            d.wf(),
            forall|n: Seq<char>| d.file_content(n) is None,
            forall|n: Seq<char>| d.bak_content(n) is None,
            forall|n: Seq<char>| !d.is_subdir(n),
            forall|n: Seq<char>| !d.has_entry(n),
    {
        LogDir { entries: Vec::new() }
    }

    /// Adds a file with the given content.  Fails, changing nothing, when
    /// any entry already carries that name.
    pub fn add_file(&mut self, name: &str, content: Vec<u8>) -> (r: bool)
        requires
            old(self).wf(),
        ensures
            final(self).wf(),
            r == !old(self).has_entry(name@),
            !r ==> *final(self) == *old(self),
            r ==> final(self).file_content(name@) == Some(content@),
            r ==> forall|n: Seq<char>|
                n != name@ ==> final(self).file_content(n) == old(self).file_content(n),
            r ==> forall|n: Seq<char>| final(self).bak_content(n) == old(self).bak_content(n),
            r ==> forall|n: Seq<char>| final(self).is_subdir(n) == old(self).is_subdir(n),
            r ==> forall|n: Seq<char>|
                n != name@ ==> final(self).has_entry(n) == old(self).has_entry(n),
            r ==> final(self).files() == old(self).files().push((name@, content@)),
            r ==> final(self).dirs() == old(self).dirs(),
            r ==> final(self).listing() == old(self).listing().push(
                (true, list_line_spec(name@)),
            ),
    {
        let ghost cv = content@;
        match find_entry_index(&self.entries, name) {
            Some(_) => false,
            None => {
                let e = Entry { name: name.to_owned(), data: EntryData::File { content } };
                let ghost ev = e;
                let ghost s = self.entries@;
                self.entries.push(e);
                proof {
                    assert(self.entries@ == s.push(ev));
                    lemma_entry_at_push(s, ev, name@);
                    assert forall|n: Seq<char>|
                        #![all_triggers]
                        entry_at(s.push(ev), n) == (if ev.name@ == n {
                            Some(ev)
                        } else {
                            entry_at(s, n)
                        }) && has_name(s.push(ev), n) == (ev.name@ == n || has_name(s, n)) by {
                        lemma_entry_at_push(s, ev, n);
                    }
                    assert forall|i: int|
                        0 <= i < self.entries@.len() implies entry_wf(
                        #[trigger] self.entries@[i],
                    ) by {
                        if i < s.len() {
                            assert(self.entries@[i] == s[i]);
                        } else {
                            assert(self.entries@[i] == ev);
                        }
                    }
                    let t = self.entries@;
                    assert(t.drop_last() =~= s);
                    assert(t.last() == ev);
                    assert(file_pair(ev) == (name@, cv));
                    assert(files_of(t) == files_of(s) + seq![file_pair(ev)]);
                    assert(files_of(t) =~= files_of(s).push((name@, cv)));
                    assert(dirs_of(t) == dirs_of(s) + Seq::<Seq<char>>::empty());
                    assert(dirs_of(t) =~= dirs_of(s));
                    assert(listing_of(t) == listing_of(s) + seq![
                        (true, list_line_spec(ev.name@)),
                    ]);
                    assert(listing_of(t) =~= listing_of(s).push((true, list_line_spec(name@))));
                }
                true
            },
        }
    }

    /// Adds an empty subdirectory.  Fails, changing nothing, when any entry
    /// already carries that name.
    pub fn add_subdir(&mut self, name: &str) -> (r: bool)
        requires
            old(self).wf(),
        ensures
            final(self).wf(),
            r == !old(self).has_entry(name@),
            !r ==> *final(self) == *old(self),
            r ==> final(self).is_subdir(name@),
            r ==> forall|n: Seq<char>| final(self).file_content(n) == old(self).file_content(n),
            r ==> forall|n: Seq<char>| final(self).bak_content(n) == old(self).bak_content(n),
            r ==> forall|n: Seq<char>|
                n != name@ ==> final(self).is_subdir(n) == old(self).is_subdir(n),
            r ==> forall|n: Seq<char>|
                n != name@ ==> final(self).has_entry(n) == old(self).has_entry(n),
            r ==> final(self).files() == old(self).files(),
            r ==> final(self).dirs() == old(self).dirs().push(name@),
            r ==> final(self).listing() == old(self).listing().push((false, name@)),
    {
        match find_entry_index(&self.entries, name) {
            Some(_) => false,
            None => {
                let e = Entry { name: name.to_owned(), data: EntryData::SubDir { files: Vec::new() } };
                let ghost ev = e;
                let ghost s = self.entries@;
                self.entries.push(e);
                proof {
                    assert(self.entries@ == s.push(ev));
                    lemma_entry_at_push(s, ev, name@);
                    assert forall|n: Seq<char>|
                        #![all_triggers]
                        entry_at(s.push(ev), n) == (if ev.name@ == n {
                            Some(ev)
                        } else {
                            entry_at(s, n)
                        }) && has_name(s.push(ev), n) == (ev.name@ == n || has_name(s, n)) by {
                        lemma_entry_at_push(s, ev, n);
                    }
                    assert forall|i: int|
                        0 <= i < self.entries@.len() implies entry_wf(
                        #[trigger] self.entries@[i],
                    ) by {
                        if i < s.len() {
                            assert(self.entries@[i] == s[i]);
                        } else {
                            assert(self.entries@[i] == ev);
                        }
                    }
                    let t = self.entries@;
                    assert(t.drop_last() =~= s);
                    assert(t.last() == ev);
                    assert(files_of(t) == files_of(s) + Seq::<(Seq<char>, Seq<u8>)>::empty());
                    assert(files_of(t) =~= files_of(s));
                    assert(dirs_of(t) == dirs_of(s) + seq![ev.name@]);
                    assert(dirs_of(t) =~= dirs_of(s).push(name@));
                    assert(listing_of(t) == listing_of(s) + seq![(false, ev.name@)]);
                    assert(listing_of(t) =~= listing_of(s).push((false, name@)));
                }
                true
            },
        }
    }

    /// Removes the file called `name`.  Reports failure, changing nothing,
    /// when there is no such file — a subdirectory of that name does not
    /// count.
    pub fn delete_file(&mut self, name: &str) -> (r: bool)
        requires
            old(self).wf(),
        ensures
            final(self).wf(),
            r == (old(self).file_content(name@) is Some),
            !r ==> *final(self) == *old(self),
            r ==> final(self).file_content(name@) is None,
            r ==> !final(self).has_entry(name@),
            r ==> forall|n: Seq<char>|
                n != name@ ==> final(self).file_content(n) == old(self).file_content(n),
            r ==> forall|n: Seq<char>| final(self).bak_content(n) == old(self).bak_content(n),
            r ==> forall|n: Seq<char>| final(self).is_subdir(n) == old(self).is_subdir(n),
            r ==> forall|n: Seq<char>|
                n != name@ ==> final(self).has_entry(n) == old(self).has_entry(n),
            r ==> final(self).dirs() == old(self).dirs(),
            r ==> exists|p: int|
                0 <= p < old(self).files().len() && (#[trigger] old(self).files()[p]).0 == name@
                    && Some(old(self).files()[p].1) == old(self).file_content(name@)
                    && final(self).files() == old(self).files().remove(p),
    {
        match find_entry_index(&self.entries, name) {
            None => false,
            Some(i) => {
                let is_file = match &self.entries[i].data {
                    EntryData::File { .. } => true,
                    EntryData::SubDir { .. } => false,
                };
                if !is_file {
                    return false;
                }
                let ghost s = self.entries@;
                self.entries.remove(i);
                proof {
                    assert(self.entries@ == s.remove(i as int));
                    lemma_entry_at_remove(s, i as int, name@);
                    assert forall|n: Seq<char>|
                        #![all_triggers]
                        entry_at(s.remove(i as int), n) == (if s[i as int].name@ == n {
                            None::<Entry>
                        } else {
                            entry_at(s, n)
                        }) && has_name(s.remove(i as int), n) == (s[i as int].name@ != n
                            && has_name(s, n)) by {
                        lemma_entry_at_remove(s, i as int, n);
                    }
                    assert forall|k: int|
                        0 <= k < self.entries@.len() implies entry_wf(
                        #[trigger] self.entries@[k],
                    ) by {
                        let k0 = if k < i {
                            k
                        } else {
                            k + 1
                        };
                        assert(self.entries@[k] == s[k0]);
                        assert(entry_wf(s[k0]));
                    }
                    lemma_remove_file_entry(s, i as int);
                    let p = files_of(s.take(i as int)).len() as int;
                    assert(files_of(s)[p] == file_pair(s[i as int]));
                    assert(0 <= p < old(self).files().len() && old(self).files()[p].0 == name@
                        && Some(old(self).files()[p].1) == old(self).file_content(name@)
                        && final(self).files() == old(self).files().remove(p));
                }
                true
            },
        }
    }

    /// Whether the directory has a file called `name`.
    pub fn contains_file(&self, name: &str) -> (r: bool)
        requires
            self.wf(),
        ensures
            r == (self.file_content(name@) is Some),
    {
        match find_entry_index(&self.entries, name) {
            None => false,
            Some(i) => match &self.entries[i].data {
                EntryData::File { .. } => true,
                EntryData::SubDir { .. } => false,
            },
        }
    }

    /// The content of the file called `name`, when the directory has one.
    pub fn get_file(&self, name: &str) -> (r: Option<Vec<u8>>)
        requires
            self.wf(),
        ensures
            match r {
                Some(c) => self.file_content(name@) == Some(c@),
                None => self.file_content(name@) is None,
            },
    {
        match find_entry_index(&self.entries, name) {
            None => None,
            Some(i) => match &self.entries[i].data {
                EntryData::File { content } => Some(clone_bytes(content)),
                EntryData::SubDir { .. } => None,
            },
        }
    }

    /// The content of `bak/<name>`, when the `bak` subdirectory has such a
    /// file.
    pub fn get_bak(&self, name: &str) -> (r: Option<Vec<u8>>)
        requires
            self.wf(),
        ensures
            match r {
                Some(c) => self.bak_content(name@) == Some(c@),
                None => self.bak_content(name@) is None,
            },
    {
        match find_entry_index(&self.entries, "bak") {
            None => None,
            Some(i) => match &self.entries[i].data {
                EntryData::File { .. } => None,
                EntryData::SubDir { files } => match find_file_index(files, name) {
                    None => None,
                    Some(k) => Some(clone_bytes(&files[k].content)),
                },
            },
        }
    }

    /// Moves the file called `name` into the `bak` subdirectory, creating
    /// that subdirectory when it is missing, and replacing any same-named
    /// backup already there.  Fails, changing nothing, when there is no
    /// such file, or when an entry called `bak` is in the way as a file.
    pub fn backup_file(&mut self, name: &str) -> (r: BackupOutcome)
        requires
            old(self).wf(),
        ensures
            final(self).wf(),
            old(self).file_content(name@) is None ==> r == BackupOutcome::NoSuchFile
                && *final(self) == *old(self),
            old(self).file_content(name@) is Some && old(self).file_content("bak"@) is Some ==> r
                == BackupOutcome::BakObstructed && *final(self) == *old(self),
            old(self).file_content(name@) is Some && old(self).file_content("bak"@) is None ==> {
                &&& r == BackupOutcome::Moved
                &&& final(self).file_content(name@) is None
                &&& final(self).bak_content(name@) == old(self).file_content(name@)
                &&& final(self).is_subdir("bak"@)
                &&& forall|n: Seq<char>|
                    n != name@ ==> final(self).file_content(n) == old(self).file_content(n)
                &&& forall|n: Seq<char>|
                    n != name@ ==> final(self).bak_content(n) == old(self).bak_content(n)
                &&& forall|n: Seq<char>|
                    n != "bak"@ ==> final(self).is_subdir(n) == old(self).is_subdir(n)
                &&& exists|p: int|
                    0 <= p < old(self).files().len() && (#[trigger] old(self).files()[p]).0
                        == name@ && Some(old(self).files()[p].1) == old(self).file_content(name@)
                        && final(self).files() == old(self).files().remove(p)
                &&& old(self).is_subdir("bak"@) ==> final(self).dirs() == old(self).dirs()
                &&& !old(self).is_subdir("bak"@)
                    ==> final(self).dirs() == old(self).dirs().push("bak"@)
            },
    {
        let i = match find_entry_index(&self.entries, name) {
            None => {
                return BackupOutcome::NoSuchFile;
            },
            Some(i) => i,
        };
        let is_file = match &self.entries[i].data {
            EntryData::File { .. } => true,
            EntryData::SubDir { .. } => false,
        };
        if !is_file {
            return BackupOutcome::NoSuchFile;
        }
        let content = match &self.entries[i].data {
            EntryData::File { content } => clone_bytes(content),
            EntryData::SubDir { .. } => {
                proof {
                    assert(false);
                }
                Vec::new()
            },
        };
        let ghost s0 = self.entries@;
        match find_entry_index(&self.entries, "bak") {
            Some(j) => {
                let bak_is_file = match &self.entries[j].data {
                    EntryData::File { .. } => true,
                    EntryData::SubDir { .. } => false,
                };
                if bak_is_file {
                    proof {
                        lemma_unique_index(s0, j as int, "bak"@);
                    }
                    return BackupOutcome::BakObstructed;
                }
                proof {
                    lemma_unique_index(s0, j as int, "bak"@);
                    assert(i != j);
                }
                self.move_into_existing_bak(i, j, name, content);
                BackupOutcome::Moved
            },
            None => {
                self.move_into_new_bak(i, name, content);
                BackupOutcome::Moved
            },
        }
    }

    /// Moves the file entry at `i` into the subdirectory entry at `j`,
    /// which is the `bak` directory; `content` is a copy of the file's
    /// content.
    #[verifier::rlimit(60)]
    fn move_into_existing_bak(&mut self, i: usize, j: usize, name: &str, content: Vec<u8>)
        requires
            old(self).wf(),
            i < old(self).entries@.len(),
            j < old(self).entries@.len(),
            i != j,
            old(self).entries@[i as int].name@ == name@,
            old(self).entries@[i as int].data is File,
            file_pair(old(self).entries@[i as int]).1 == content@,
            old(self).entries@[j as int].name@ == "bak"@,
            old(self).entries@[j as int].data is SubDir,
        ensures
            final(self).wf(),
            final(self).file_content(name@) is None,
            final(self).bak_content(name@) == Some(content@),
            final(self).is_subdir("bak"@),
            forall|n: Seq<char>|
                n != name@ ==> final(self).file_content(n) == old(self).file_content(n),
            forall|n: Seq<char>|
                n != name@ ==> final(self).bak_content(n) == old(self).bak_content(n),
            forall|n: Seq<char>|
                n != "bak"@ ==> final(self).is_subdir(n) == old(self).is_subdir(n),
            exists|p: int|
                0 <= p < old(self).files().len() && (#[trigger] old(self).files()[p]).0 == name@
                    && Some(old(self).files()[p].1) == old(self).file_content(name@)
                    && final(self).files() == old(self).files().remove(p),
            final(self).dirs() == old(self).dirs(),
    {
        let ghost s0 = self.entries@;
        let ghost cv = content@;
        proof {
            lemma_unique_index(s0, i as int, name@);
            lemma_unique_index(s0, j as int, "bak"@);
            if name@ == "bak"@ {
                assert(s0[i as int].name@ != s0[j as int].name@);
                assert(false);
            }
        }
        self.entries.remove(i);
        let ghost s1 = self.entries@;
        proof {
            assert forall|n: Seq<char>|
                #![all_triggers]
                entry_at(s1, n) == (if name@ == n {
                    None::<Entry>
                } else {
                    entry_at(s0, n)
                }) && has_name(s1, n) == (name@ != n && has_name(s0, n)) by {
                lemma_entry_at_remove(s0, i as int, n);
            }
        }
        let jj: usize = if j > i {
            j - 1
        } else {
            j
        };
        proof {
            assert(s1[jj as int] == s0[j as int]);
        }
        let bak_entry = self.entries.remove(jj);
        let ghost bak0 = bak_entry;
        let mut files = match bak_entry.data {
            EntryData::SubDir { files } => files,
            EntryData::File { .. } => {
                proof {
                    assert(false);
                }
                Vec::new()
            },
        };
        proof {
            assert(entry_wf(s0[j as int]));
            assert(files@ == sub_files_of(bak0));
            assert(fnames_unique(files@));
        }
        upsert_file(&mut files, name, content);
        let new_bak = Entry { name: "bak".to_owned(), data: EntryData::SubDir { files } };
        let ghost nb = new_bak;
        self.entries.insert(jj, new_bak);
        proof {
            assert(self.entries@ =~= s1.update(jj as int, nb));
            assert(nb.name@ == s1[jj as int].name@);
            assert forall|n: Seq<char>|
                #![all_triggers]
                entry_at(s1.update(jj as int, nb), n) == (if "bak"@ == n {
                    Some(nb)
                } else {
                    entry_at(s1, n)
                }) && has_name(s1.update(jj as int, nb), n) == ("bak"@ == n || has_name(
                    s1,
                    n,
                )) by {
                lemma_entry_at_update(s1, jj as int, nb, n);
            }
            assert(final(self).bak_content(name@) == Some(cv));
            assert forall|k: int|
                0 <= k < self.entries@.len() implies entry_wf(#[trigger] self.entries@[k]) by {
                if k == jj {
                    assert(self.entries@[k] == nb);
                } else {
                    assert(self.entries@[k] == s1[k]);
                    let k0 = if k < i {
                        k
                    } else {
                        k + 1
                    };
                    assert(s1[k] == s0[k0]);
                    assert(entry_wf(s0[k0]));
                }
            }
            assert forall|n: Seq<char>| n != name@ implies final(self).bak_content(n) == old(
                self,
            ).bak_content(n) by {
                assert(entry_at(s0, "bak"@) == Some(s0[j as int]));
            }
            lemma_remove_file_entry(s0, i as int);
            lemma_update_subdir(s1, jj as int, nb);
            assert(files_of(self.entries@) == files_of(s1));
            assert(dirs_of(self.entries@) == dirs_of(s1));
            let p = files_of(s0.take(i as int)).len() as int;
            assert(files_of(s0)[p] == file_pair(s0[i as int]));
            assert(0 <= p < old(self).files().len() && old(self).files()[p].0 == name@ && Some(
                old(self).files()[p].1,
            ) == old(self).file_content(name@) && final(self).files() == old(self).files().remove(
                p,
            ));
        }
    }

    /// Moves the file entry at `i` into a new `bak` subdirectory, appended
    /// as the last entry; `content` is a copy of the file's content.
    fn move_into_new_bak(&mut self, i: usize, name: &str, content: Vec<u8>)
        requires
            old(self).wf(),
            i < old(self).entries@.len(),
            old(self).entries@[i as int].name@ == name@,
            old(self).entries@[i as int].data is File,
            file_pair(old(self).entries@[i as int]).1 == content@,
            !has_name(old(self).entries@, "bak"@),
        ensures
            final(self).wf(),
            final(self).file_content(name@) is None,
            final(self).bak_content(name@) == Some(content@),
            final(self).is_subdir("bak"@),
            forall|n: Seq<char>|
                n != name@ ==> final(self).file_content(n) == old(self).file_content(n),
            forall|n: Seq<char>|
                n != name@ ==> final(self).bak_content(n) == old(self).bak_content(n),
            forall|n: Seq<char>|
                n != "bak"@ ==> final(self).is_subdir(n) == old(self).is_subdir(n),
            exists|p: int|
                0 <= p < old(self).files().len() && (#[trigger] old(self).files()[p]).0 == name@
                    && Some(old(self).files()[p].1) == old(self).file_content(name@)
                    && final(self).files() == old(self).files().remove(p),
            final(self).dirs() == old(self).dirs().push("bak"@),
    {
        let ghost s0 = self.entries@;
        let ghost cv = content@;
        proof {
            lemma_unique_index(s0, i as int, name@);
        }
        self.entries.remove(i);
        let ghost s1 = self.entries@;
        proof {
            assert forall|n: Seq<char>|
                #![all_triggers]
                entry_at(s1, n) == (if name@ == n {
                    None::<Entry>
                } else {
                    entry_at(s0, n)
                }) && has_name(s1, n) == (name@ != n && has_name(s0, n)) by {
                lemma_entry_at_remove(s0, i as int, n);
            }
        }
        let mut files: Vec<FileEntry> = Vec::new();
        files.push(FileEntry { name: name.to_owned(), content });
        let ghost fs = files@;
        let new_bak = Entry { name: "bak".to_owned(), data: EntryData::SubDir { files } };
        let ghost nb = new_bak;
        self.entries.push(new_bak);
        proof {
            assert(!has_name(s1, "bak"@));
            assert forall|n: Seq<char>|
                #![all_triggers]
                entry_at(s1.push(nb), n) == (if "bak"@ == n {
                    Some(nb)
                } else {
                    entry_at(s1, n)
                }) && has_name(s1.push(nb), n) == ("bak"@ == n || has_name(s1, n)) by {
                lemma_entry_at_push(s1, nb, n);
            }
            assert(fs.len() == 1 && fs[0].name@ == name@ && fs[0].content@ == cv);
            assert(fnames_unique(fs));
            lemma_funique_index(fs, 0, name@);
            assert(fcontent(fs, name@) == Some(cv));
            assert forall|n: Seq<char>| n != name@ implies fcontent(fs, n) is None by {
                if fhas_name(fs, n) {
                    let w = findex_of(fs, n);
                    assert(0 <= w < fs.len() && fs[w].name@ == n);
                    assert(false);
                }
            }
            assert(final(self).bak_content(name@) == Some(cv));
            assert forall|k: int|
                0 <= k < self.entries@.len() implies entry_wf(#[trigger] self.entries@[k]) by {
                if k == s1.len() {
                    assert(self.entries@[k] == nb);
                } else {
                    assert(self.entries@[k] == s1[k]);
                    let k0 = if k < i {
                        k
                    } else {
                        k + 1
                    };
                    assert(s1[k] == s0[k0]);
                    assert(entry_wf(s0[k0]));
                }
            }
            let t = self.entries@;
            assert(t.drop_last() =~= s1);
            assert(t.last() == nb);
            assert(files_of(t) == files_of(s1) + Seq::<(Seq<char>, Seq<u8>)>::empty());
            assert(files_of(t) =~= files_of(s1));
            assert(dirs_of(t) == dirs_of(s1) + seq![nb.name@]);
            assert(dirs_of(t) =~= dirs_of(s1).push("bak"@));
            lemma_remove_file_entry(s0, i as int);
            let p = files_of(s0.take(i as int)).len() as int;
            assert(files_of(s0)[p] == file_pair(s0[i as int]));
            assert(0 <= p < old(self).files().len() && old(self).files()[p].0 == name@ && Some(
                old(self).files()[p].1,
            ) == old(self).file_content(name@) && final(self).files() == old(self).files().remove(
                p,
            ));
        }
    }

    /// The directory's files — name and content — in entry order.
    pub closed spec fn files(self) -> Seq<(Seq<char>, Seq<u8>)> {
        files_of(self.entries@)
    }

    /// The directory's subdirectory names, in entry order.
    pub closed spec fn dirs(self) -> Seq<Seq<char>> {
        dirs_of(self.entries@)
    }

    /// The list operation's items, in entry order: `(true, line)` for the
    /// listing line of a file, `(false, name)` for a skipped subdirectory.
    pub closed spec fn listing(self) -> Seq<(bool, Seq<char>)> {
        listing_of(self.entries@)
    }

    /// How many files the directory has.
    pub fn file_count(&self) -> (r: usize)
        ensures
            r == self.files().len(),
    {
        let ghost s = self.entries@;
        let mut count: usize = 0;
        let mut k: usize = 0;
        while k < self.entries.len()
            invariant
                k <= s.len(),
                s == self.entries@,
                count == files_of(s.take(k as int)).len(),
                count <= k,
            decreases s.len() - k,
        {
            proof {
                lemma_take_step(s, k as int);
            }
            match &self.entries[k].data {
                EntryData::File { .. } => {
                    count += 1;
                },
                EntryData::SubDir { .. } => {},
            }
            k += 1;
        }
        proof {
            assert(s.take(s.len() as int) =~= s);
        }
        count
    }

    /// The names of the directory's files, in entry order.
    pub fn file_names(&self) -> (r: Vec<String>)
        ensures
            r@.len() == self.files().len(),
            forall|i: int| 0 <= i < r@.len() ==> (#[trigger] r@[i])@ == self.files()[i].0,
    {
        let ghost s = self.entries@;
        let mut r: Vec<String> = Vec::new();
        let mut k: usize = 0;
        while k < self.entries.len()
            invariant
                k <= s.len(),
                s == self.entries@,
                r@.len() == files_of(s.take(k as int)).len(),
                forall|i: int|
                    0 <= i < r@.len() ==> (#[trigger] r@[i])@ == files_of(s.take(k as int))[i].0,
            decreases s.len() - k,
        {
            proof {
                lemma_take_step(s, k as int);
            }
            match &self.entries[k].data {
                EntryData::File { .. } => {
                    r.push(self.entries[k].name.clone());
                },
                EntryData::SubDir { .. } => {},
            }
            k += 1;
        }
        proof {
            assert(s.take(s.len() as int) =~= s);
        }
        r
    }

    /// The name and content of the directory's `i`-th file, 0-based, in
    /// entry order.
    pub fn file_at(&self, i: usize) -> (r: (String, Vec<u8>))
        requires
            i < self.files().len(),
        ensures
            r.0@ == self.files()[i as int].0,
            r.1@ == self.files()[i as int].1,
    {
        let ghost s = self.entries@;
        let mut count: usize = 0;
        let mut k: usize = 0;
        while k < self.entries.len()
            invariant
                k <= s.len(),
                s == self.entries@,
                i < files_of(s).len(),
                count == files_of(s.take(k as int)).len(),
                count <= i,
            decreases s.len() - k,
        {
            proof {
                lemma_take_step(s, k as int);
            }
            match &self.entries[k].data {
                EntryData::File { content } => {
                    if count == i {
                        proof {
                            lemma_files_of_prefix(s, k as int + 1);
                            assert(files_of(s.take(k as int + 1))[i as int] == (
                                self.entries@[k as int].name@,
                                content@,
                            ));
                        }
                        return (self.entries[k].name.clone(), clone_bytes(content));
                    }
                    count += 1;
                },
                EntryData::SubDir { .. } => {},
            }
            k += 1;
        }
        proof {
            assert(s.take(s.len() as int) =~= s);
            assert(false);
        }
        (String::new(), Vec::new())
    }

    /// The list operation's output, one item per entry, in order: the
    /// listing line for each file, a skip notice naming each subdirectory.
    pub fn list_items(&self) -> (r: Vec<ListItem>)
        ensures
            r@.len() == self.listing().len(),
            forall|i: int|
                0 <= i < r@.len() ==> match #[trigger] r@[i] {
                    ListItem::FileLine(l) => self.listing()[i].0 && l@ == self.listing()[i].1,
                    ListItem::SkipNotice(n) => !self.listing()[i].0 && n@ == self.listing()[i].1,
                },
    {
        let ghost s = self.entries@;
        let mut r: Vec<ListItem> = Vec::new();
        let mut k: usize = 0;
        while k < self.entries.len()
            invariant
                k <= s.len(),
                s == self.entries@,
                r@.len() == listing_of(s.take(k as int)).len(),
                forall|i: int|
                    0 <= i < r@.len() ==> match #[trigger] r@[i] {
                        ListItem::FileLine(l) => listing_of(s.take(k as int))[i].0 && l@
                            == listing_of(s.take(k as int))[i].1,
                        ListItem::SkipNotice(n) => !listing_of(s.take(k as int))[i].0 && n@
                            == listing_of(s.take(k as int))[i].1,
                    },
            decreases s.len() - k,
        {
            proof {
                lemma_take_step(s, k as int);
            }
            match &self.entries[k].data {
                EntryData::File { .. } => {
                    let line = list_line(self.entries[k].name.as_str());
                    r.push(ListItem::FileLine(line));
                },
                EntryData::SubDir { .. } => {
                    r.push(ListItem::SkipNotice(self.entries[k].name.clone()));
                },
            }
            k += 1;
        }
        proof {
            assert(s.take(s.len() as int) =~= s);
        }
        r
    }

    /// The listing has one item per entry: as many file lines as there are
    /// files, as many skip notices as there are subdirectories, and nothing
    /// else.
    pub proof fn lemma_listing_counts(self)
        ensures
            self.listing().len() == self.files().len() + self.dirs().len(),
            count_matching(self.listing(), true) == self.files().len(),
            count_matching(self.listing(), false) == self.dirs().len(),
    {
        lemma_listing_counts_rec(self.entries@);
    }

    /// What the view operation does for this directory and one line of
    /// user input: nothing to list, a rejected input, or the selected
    /// file's name and content.
    pub fn view_outcome(&self, input: &str) -> (r: ViewOutcome)
        ensures
            self.files().len() == 0 ==> r is NoFiles,
            self.files().len() > 0 && !selects_a_number(input@) ==> r is InvalidInput,
            self.files().len() > 0 && selects_a_number(input@) && (selected_value(input@) == 0
                || selected_value(input@) > self.files().len()) ==> r is OutOfRange,
            self.files().len() > 0 && selects_a_number(input@) && 0 < selected_value(input@)
                <= self.files().len() ==> (r matches ViewOutcome::Show { name, content }
                && name@ == self.files()[selected_value(input@) - 1].0 && content@ == self.files()[
                selected_value(input@) - 1].1),
    {
        let count = self.file_count();
        if count == 0 {
            return ViewOutcome::NoFiles;
        }
        match select_file(input, count) {
            Selection::InvalidInput => ViewOutcome::InvalidInput,
            Selection::OutOfRange => ViewOutcome::OutOfRange,
            Selection::Chosen { index } => {
                let (name, content) = self.file_at(index);
                ViewOutcome::Show { name, content }
            },
        }
    }

    /// Whether the directory has a subdirectory called `name`.
    pub fn has_dir(&self, name: &str) -> (r: bool)
        requires
            self.wf(),
        ensures
            r == self.is_subdir(name@),
    {
        match find_entry_index(&self.entries, name) {
            None => false,
            Some(i) => match &self.entries[i].data {
                EntryData::File { .. } => false,
                EntryData::SubDir { .. } => true,
            },
        }
    }
}

fn clone_bytes(v: &Vec<u8>) -> (r: Vec<u8>)
    ensures
        r@ == v@,
{
    let mut r: Vec<u8> = Vec::new();
    let mut i: usize = 0;
    while i < v.len()
        invariant
            i <= v@.len(),
            r@ == v@.take(i as int),
        decreases v@.len() - i,
    {
        r.push(v[i]);
        proof {
            assert(v@.take(i + 1) =~= v@.take(i as int).push(v@[i as int]));
        }
        i += 1;
    }
    proof {
        assert(v@.take(v@.len() as int) =~= v@);
    }
    r
}

fn find_entry_index(entries: &Vec<Entry>, name: &str) -> (r: Option<usize>)
    requires
        names_unique(entries@),
    ensures
        match r {
            Some(i) => i < entries@.len() && entries@[i as int].name@ == name@ && has_name(
                entries@,
                name@,
            ) && index_of(entries@, name@) == i,
            None => !has_name(entries@, name@),
        },
{
    let mut j: usize = 0;
    while j < entries.len()
        invariant
            j <= entries@.len(),
            names_unique(entries@),
            forall|k: int| 0 <= k < j ==> (#[trigger] entries@[k]).name@ != name@,
        decreases entries@.len() - j,
    {
        if str_eq(entries[j].name.as_str(), name) {
            proof {
                lemma_unique_index(entries@, j as int, name@);
            }
            return Some(j);
        }
        j += 1;
    }
    proof {
        if has_name(entries@, name@) {
            let w = index_of(entries@, name@);
            assert(0 <= w < entries@.len() && entries@[w].name@ == name@);
            assert(false);
        }
    }
    None
}

fn find_file_index(files: &Vec<FileEntry>, name: &str) -> (r: Option<usize>)
    requires
        fnames_unique(files@),
    ensures
        match r {
            Some(i) => i < files@.len() && files@[i as int].name@ == name@ && fhas_name(
                files@,
                name@,
            ) && findex_of(files@, name@) == i,
            None => !fhas_name(files@, name@),
        },
{
    let mut j: usize = 0;
    while j < files.len()
        invariant
            j <= files@.len(),
            fnames_unique(files@),
            forall|k: int| 0 <= k < j ==> (#[trigger] files@[k]).name@ != name@,
        decreases files@.len() - j,
    {
        if str_eq(files[j].name.as_str(), name) {
            proof {
                lemma_funique_index(files@, j as int, name@);
            }
            return Some(j);
        }
        j += 1;
    }
    proof {
        if fhas_name(files@, name@) {
            let w = findex_of(files@, name@);
            assert(0 <= w < files@.len() && files@[w].name@ == name@);
            assert(false);
        }
    }
    None
}

fn upsert_file(files: &mut Vec<FileEntry>, name: &str, content: Vec<u8>)
    requires
        fnames_unique(old(files)@),
    ensures
        fnames_unique(final(files)@),
        fcontent(final(files)@, name@) == Some(content@),
        forall|n: Seq<char>|
            n != name@ ==> fcontent(final(files)@, n) == fcontent(old(files)@, n),
{
    let ghost s0 = files@;
    match find_file_index(files, name) {
        Some(k) => {
            files.remove(k);
            proof {
                assert forall|n: Seq<char>|
                    #![all_triggers]
                    fcontent(files@, n) == (if name@ == n {
                        None::<Seq<u8>>
                    } else {
                        fcontent(s0, n)
                    }) && fhas_name(files@, n) == (name@ != n && fhas_name(s0, n)) by {
                    lemma_fcontent_remove(s0, k as int, n);
                }
            }
        },
        None => {},
    }
    let ghost s1 = files@;
    let e = FileEntry { name: name.to_owned(), content };
    let ghost ev = e;
    files.push(e);
    proof {
        assert(!fhas_name(s1, ev.name@));
        assert forall|n: Seq<char>|
            #![all_triggers]
            fcontent(s1.push(ev), n) == (if name@ == n {
                Some(ev.content@)
            } else {
                fcontent(s1, n)
            }) by {
            lemma_fcontent_push(s1, ev, n);
        }
    }
}

proof fn lemma_unique_index(s: Seq<Entry>, i: int, n: Seq<char>)
    requires
        names_unique(s),
        0 <= i < s.len(),
        s[i].name@ == n,
    ensures
        has_name(s, n),
        index_of(s, n) == i,
{
    assert(has_name(s, n));
    let w = index_of(s, n);
    assert(0 <= w < s.len() && s[w].name@ == n);
    if w != i {
        assert(s[i].name@ != s[w].name@);
        assert(false);
    }
}

proof fn lemma_entry_at_remove(s: Seq<Entry>, i: int, n: Seq<char>)
    requires
        names_unique(s),
        0 <= i < s.len(),
    ensures
        names_unique(s.remove(i)),
        entry_at(s.remove(i), n) == (if s[i].name@ == n {
            None::<Entry>
        } else {
            entry_at(s, n)
        }),
        has_name(s.remove(i), n) == (s[i].name@ != n && has_name(s, n)),
{
    let t = s.remove(i);
    assert forall|a: int, b: int| 0 <= a < b < t.len() implies t[a].name@ != t[b].name@ by {
        let a0 = if a < i {
            a
        } else {
            a + 1
        };
        let b0 = if b < i {
            b
        } else {
            b + 1
        };
        assert(t[a] == s[a0] && t[b] == s[b0]);
        assert(s[a0].name@ != s[b0].name@);
    }
    if s[i].name@ == n {
        if has_name(t, n) {
            let w = index_of(t, n);
            assert(0 <= w < t.len() && t[w].name@ == n);
            let w0 = if w < i {
                w
            } else {
                w + 1
            };
            assert(t[w] == s[w0]);
            assert(w0 != i);
            assert(s[i].name@ != s[w0].name@);
            assert(false);
        }
        assert(entry_at(t, n) is None);
    } else {
        if has_name(s, n) {
            let w = index_of(s, n);
            assert(0 <= w < s.len() && s[w].name@ == n);
            assert(w != i);
            let w2 = if w < i {
                w
            } else {
                w - 1
            };
            assert(t[w2] == s[w]);
            lemma_unique_index(t, w2, n);
            assert(entry_at(t, n) == Some(s[w]));
            lemma_unique_index(s, w, n);
        } else {
            if has_name(t, n) {
                let w = index_of(t, n);
                assert(0 <= w < t.len() && t[w].name@ == n);
                let w0 = if w < i {
                    w
                } else {
                    w + 1
                };
                assert(t[w] == s[w0]);
                assert(has_name(s, n));
                assert(false);
            }
        }
    }
}

proof fn lemma_entry_at_update(s: Seq<Entry>, i: int, e: Entry, n: Seq<char>)
    requires
        names_unique(s),
        0 <= i < s.len(),
        e.name@ == s[i].name@,
    ensures
        names_unique(s.update(i, e)),
        entry_at(s.update(i, e), n) == (if e.name@ == n {
            Some(e)
        } else {
            entry_at(s, n)
        }),
        has_name(s.update(i, e), n) == (e.name@ == n || has_name(s, n)),
{
    let t = s.update(i, e);
    assert forall|a: int, b: int| 0 <= a < b < t.len() implies t[a].name@ != t[b].name@ by {
        assert(s[a].name@ != s[b].name@);
        assert(t[a].name@ == s[a].name@ && t[b].name@ == s[b].name@);
    }
    if e.name@ == n {
        lemma_unique_index(t, i, n);
    } else {
        if has_name(s, n) {
            let w = index_of(s, n);
            assert(0 <= w < s.len() && s[w].name@ == n);
            assert(w != i);
            assert(t[w] == s[w]);
            lemma_unique_index(t, w, n);
            lemma_unique_index(s, w, n);
        } else {
            if has_name(t, n) {
                let w = index_of(t, n);
                assert(0 <= w < t.len() && t[w].name@ == n);
                assert(w != i);
                assert(t[w] == s[w]);
                assert(has_name(s, n));
                assert(false);
            }
        }
    }
}

proof fn lemma_entry_at_push(s: Seq<Entry>, e: Entry, n: Seq<char>)
    requires
        names_unique(s),
        !has_name(s, e.name@),
    ensures
        names_unique(s.push(e)),
        entry_at(s.push(e), n) == (if e.name@ == n {
            Some(e)
        } else {
            entry_at(s, n)
        }),
        has_name(s.push(e), n) == (e.name@ == n || has_name(s, n)),
{
    let t = s.push(e);
    assert forall|a: int, b: int| 0 <= a < b < t.len() implies t[a].name@ != t[b].name@ by {
        if b < s.len() {
            assert(s[a].name@ != s[b].name@);
        } else {
            assert(t[b] == e);
            assert(t[a] == s[a]);
            if s[a].name@ == e.name@ {
                assert(has_name(s, e.name@));
            }
        }
    }
    if e.name@ == n {
        lemma_unique_index(t, s.len() as int, n);
    } else {
        if has_name(s, n) {
            let w = index_of(s, n);
            assert(0 <= w < s.len() && s[w].name@ == n);
            assert(t[w] == s[w]);
            lemma_unique_index(t, w, n);
            lemma_unique_index(s, w, n);
        } else {
            if has_name(t, n) {
                let w = index_of(t, n);
                assert(0 <= w < t.len() && t[w].name@ == n);
                assert(w != s.len());
                assert(t[w] == s[w]);
                assert(has_name(s, n));
                assert(false);
            }
        }
    }
}

proof fn lemma_funique_index(s: Seq<FileEntry>, i: int, n: Seq<char>)
    requires
        fnames_unique(s),
        0 <= i < s.len(),
        s[i].name@ == n,
    ensures
        fhas_name(s, n),
        findex_of(s, n) == i,
{
    assert(fhas_name(s, n));
    let w = findex_of(s, n);
    assert(0 <= w < s.len() && s[w].name@ == n);
    if w != i {
        assert(s[i].name@ != s[w].name@);
        assert(false);
    }
}

proof fn lemma_fcontent_remove(s: Seq<FileEntry>, i: int, n: Seq<char>)
    requires
        fnames_unique(s),
        0 <= i < s.len(),
    ensures
        fnames_unique(s.remove(i)),
        fcontent(s.remove(i), n) == (if s[i].name@ == n {
            None::<Seq<u8>>
        } else {
            fcontent(s, n)
        }),
        fhas_name(s.remove(i), n) == (s[i].name@ != n && fhas_name(s, n)),
{
    let t = s.remove(i);
    assert forall|a: int, b: int| 0 <= a < b < t.len() implies t[a].name@ != t[b].name@ by {
        let a0 = if a < i {
            a
        } else {
            a + 1
        };
        let b0 = if b < i {
            b
        } else {
            b + 1
        };
        assert(t[a] == s[a0] && t[b] == s[b0]);
        assert(s[a0].name@ != s[b0].name@);
    }
    if s[i].name@ == n {
        if fhas_name(t, n) {
            let w = findex_of(t, n);
            assert(0 <= w < t.len() && t[w].name@ == n);
            let w0 = if w < i {
                w
            } else {
                w + 1
            };
            assert(t[w] == s[w0]);
            assert(w0 != i);
            assert(s[i].name@ != s[w0].name@);
            assert(false);
        }
    } else {
        if fhas_name(s, n) {
            let w = findex_of(s, n);
            assert(0 <= w < s.len() && s[w].name@ == n);
            assert(w != i);
            let w2 = if w < i {
                w
            } else {
                w - 1
            };
            assert(t[w2] == s[w]);
            lemma_funique_index(t, w2, n);
            lemma_funique_index(s, w, n);
        } else {
            if fhas_name(t, n) {
                let w = findex_of(t, n);
                assert(0 <= w < t.len() && t[w].name@ == n);
                let w0 = if w < i {
                    w
                } else {
                    w + 1
                };
                assert(t[w] == s[w0]);
                assert(fhas_name(s, n));
                assert(false);
            }
        }
    }
}

proof fn lemma_fcontent_push(s: Seq<FileEntry>, e: FileEntry, n: Seq<char>)
    requires
        fnames_unique(s),
        !fhas_name(s, e.name@),
    ensures
        fnames_unique(s.push(e)),
        fcontent(s.push(e), n) == (if e.name@ == n {
            Some(e.content@)
        } else {
            fcontent(s, n)
        }),
{
    let t = s.push(e);
    assert forall|a: int, b: int| 0 <= a < b < t.len() implies t[a].name@ != t[b].name@ by {
        if b < s.len() {
            assert(s[a].name@ != s[b].name@);
        } else {
            assert(t[b] == e);
            assert(t[a] == s[a]);
            if s[a].name@ == e.name@ {
                assert(fhas_name(s, e.name@));
            }
        }
    }
    if e.name@ == n {
        lemma_funique_index(t, s.len() as int, n);
    } else {
        if fhas_name(s, n) {
            let w = findex_of(s, n);
            assert(0 <= w < s.len() && s[w].name@ == n);
            assert(t[w] == s[w]);
            lemma_funique_index(t, w, n);
            lemma_funique_index(s, w, n);
        } else {
            if fhas_name(t, n) {
                let w = findex_of(t, n);
                assert(0 <= w < t.len() && t[w].name@ == n);
                assert(w != s.len());
                assert(t[w] == s[w]);
                assert(fhas_name(s, n));
                assert(false);
            }
        }
    }
}

} // verus!
