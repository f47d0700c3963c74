//! Bytes per directory: what the tally of some files is, how tallies are added
//! up and merged, and why the way of adding them up does not matter.

use crate::disk_utils::FileInfo;
use crate::split::Split;
use vstd::hash_map::StringHashMap;
use vstd::prelude::*;

verus! {

/// The bytes of the files among `files` that lie directly in `dir`.
pub open spec fn directory_total(files: Seq<FileInfo>, dir: Seq<char>) -> nat
    decreases files.len(),
{
    if files.len() == 0 {
        0
    } else {
        directory_total(files.drop_last(), dir) + if files.last().directory@ == dir {
            files.last().size as nat
        } else {
            0
        }
    }
}

/// A file counts for the directory that holds it and for no other: one more
/// file adds its bytes to the total of its own directory, and leaves the total
/// of every other directory, those above its own among them, as it was.
pub proof fn lemma_file_counts_for_its_directory(
    files: Seq<FileInfo>,
    file: FileInfo,
    dir: Seq<char>,
)
    ensures
        directory_total(files.push(file), dir) == directory_total(files, dir) + (if file.directory@
            == dir {
            file.size as nat
        } else {
            0
        }),
{
    assert(files.push(file).drop_last() =~= files);
    assert(files.push(file).last() == file);
}

/// Some file among `files` lies directly in `dir`.
pub open spec fn directory_present(files: Seq<FileInfo>, dir: Seq<char>) -> bool {
    exists|i: int| 0 <= i < files.len() && files[i].directory@ == dir
}

/// `dirs` with `dir` behind them, unless it is among them already.
pub open spec fn push_new(dirs: Seq<Seq<char>>, dir: Seq<char>) -> Seq<Seq<char>> {
    if dirs.contains(dir) {
        dirs
    } else {
        dirs.push(dir)
    }
}

/// `dirs` with those of `more` behind them that are not among them already.
pub open spec fn append_new(dirs: Seq<Seq<char>>, more: Seq<Seq<char>>) -> Seq<Seq<char>>
    decreases more.len(),
{
    if more.len() == 0 {
        dirs
    } else {
        push_new(append_new(dirs, more.drop_last()), more.last())
    }
}

/// The directories that hold a file of `files`, each once, in the order in
/// which they first occur.
pub open spec fn directories(files: Seq<FileInfo>) -> Seq<Seq<char>>
    decreases files.len(),
{
    if files.len() == 0 {
        Seq::empty()
    } else {
        push_new(directories(files.drop_last()), files.last().directory@)
    }
}

/// No directory occurs twice.
pub open spec fn distinct(dirs: Seq<Seq<char>>) -> bool {
    forall|i: int, j: int| 0 <= i < j < dirs.len() ==> dirs[i] != dirs[j]
}

/// Directories in the order of their first occurrence, each with the bytes of
/// the files directly in it.
pub struct DirectoryTally {
    pub dirs: Seq<Seq<char>>,
    pub bytes: Map<Seq<char>, nat>,
}

impl DirectoryTally {
    /// No directory is listed twice, and the listed ones are those with bytes.
    pub open spec fn is_tally(self) -> bool {
        &&& distinct(self.dirs)
        &&& forall|dir: Seq<char>| self.bytes.contains_key(dir) <==> self.dirs.contains(dir)
    }

    /// The bytes recorded for `dir`, none where it is absent.
    pub open spec fn amount(self, dir: Seq<char>) -> nat {
        if self.bytes.contains_key(dir) {
            self.bytes[dir]
        } else {
            0
        }
    }

    /// The tally of no files.
    pub open spec fn empty() -> DirectoryTally {
        DirectoryTally { dirs: Seq::empty(), bytes: Map::empty() }
    }

    /// The tally after `size` bytes were added under `dir`.
    pub open spec fn add(self, dir: Seq<char>, size: nat) -> DirectoryTally {
        DirectoryTally {
            dirs: push_new(self.dirs, dir),
            bytes: self.bytes.insert(dir, self.amount(dir) + size),
        }
    }

    /// The tallies of two sets of files taken together: the directories of the
    /// first, then the new ones of the second, each with the sum of its bytes.
    pub open spec fn merge(self, other: DirectoryTally) -> DirectoryTally {
        DirectoryTally {
            dirs: append_new(self.dirs, other.dirs),
            bytes: Map::new(
                |dir: Seq<char>| self.bytes.contains_key(dir) || other.bytes.contains_key(dir),
                |dir: Seq<char>| self.amount(dir) + other.amount(dir),
            ),
        }
    }

    /// The first `n` directories of the tally with their bytes.
    pub open spec fn first(self, n: int) -> DirectoryTally {
        DirectoryTally {
            dirs: self.dirs.take(n),
            bytes: self.bytes.restrict(self.dirs.take(n).to_set()),
        }
    }
}

/// The tally of `files`: their directories, each with the bytes of the files
/// directly in it.
pub open spec fn tally_of(files: Seq<FileInfo>) -> DirectoryTally {
    DirectoryTally {
        dirs: directories(files),
        bytes: Map::new(
            |dir: Seq<char>| directory_present(files, dir),
            |dir: Seq<char>| directory_total(files, dir),
        ),
    }
}

/// The tally of `files`, added up file by file from the empty tally.
pub open spec fn fold_tally(files: Seq<FileInfo>) -> DirectoryTally
    decreases files.len(),
{
    if files.len() == 0 {
        DirectoryTally::empty()
    } else {
        fold_tally(files.drop_last()).add(files.last().directory@, files.last().size as nat)
    }
}

/// Pushing a directory that may be new keeps the directories distinct, and
/// afterwards it is among them, with those that were.
pub proof fn lemma_push_new(dirs: Seq<Seq<char>>, dir: Seq<char>)
    requires
        distinct(dirs),
    ensures
        distinct(push_new(dirs, dir)),
        forall|d: Seq<char>| push_new(dirs, dir).contains(d) <==> dirs.contains(d) || d == dir,
{
    let pushed = push_new(dirs, dir);
    if dirs.contains(dir) {
    } else {
        assert forall|i: int, j: int| 0 <= i < j < pushed.len() implies pushed[i] != pushed[j] by {
            assert(pushed[i] == dirs[i]);
            if j < dirs.len() {
                assert(pushed[j] == dirs[j]);
            } else {
                assert(dirs.contains(dirs[i]));
            }
        }
        assert forall|d: Seq<char>| pushed.contains(d) <==> dirs.contains(d) || d == dir by {
            if pushed.contains(d) {
                let i = choose|i: int| 0 <= i < pushed.len() && pushed[i] == d;
                if i < dirs.len() {
                    assert(dirs[i] == d);
                }
            }
            if dirs.contains(d) {
                let i = choose|i: int| 0 <= i < dirs.len() && dirs[i] == d;
                assert(pushed[i] == d);
            }
            if d == dir {
                assert(pushed[dirs.len() as int] == d);
            }
        }
    }
}

/// Appending directories that may be new keeps the directories distinct, and
/// afterwards all of both are among them.
pub proof fn lemma_append_new(dirs: Seq<Seq<char>>, more: Seq<Seq<char>>)
    requires
        distinct(dirs),
    ensures
        distinct(append_new(dirs, more)),
        forall|d: Seq<char>|
            append_new(dirs, more).contains(d) <==> dirs.contains(d) || more.contains(d),
    decreases more.len(),
{
    if more.len() > 0 {
        let front = more.drop_last();
        lemma_append_new(dirs, front);
        lemma_push_new(append_new(dirs, front), more.last());
        assert forall|d: Seq<char>|
            append_new(dirs, more).contains(d) <==> dirs.contains(d) || more.contains(d) by {
            if more.contains(d) {
                let i = choose|i: int| 0 <= i < more.len() && more[i] == d;
                if i < front.len() {
                    assert(front[i] == d);
                }
            }
            if front.contains(d) {
                let i = choose|i: int| 0 <= i < front.len() && front[i] == d;
                assert(more[i] == d);
            }
            assert(more[more.len() - 1] == more.last());
        }
    }
}

/// The directories of `files` are distinct, and they are the directories in
/// which a file of `files` lies.
pub proof fn lemma_directories(files: Seq<FileInfo>)
    ensures
        distinct(directories(files)),
        forall|dir: Seq<char>| directories(files).contains(dir) <==> directory_present(files, dir),
        tally_of(files).is_tally(),
    decreases files.len(),
{
    if files.len() > 0 {
        let front = files.drop_last();
        lemma_directories(front);
        lemma_push_new(directories(front), files.last().directory@);
        assert forall|dir: Seq<char>|
            directories(files).contains(dir) <==> directory_present(files, dir) by {
            if directory_present(files, dir) {
                let i = choose|i: int| 0 <= i < files.len() && files[i].directory@ == dir;
                if i < front.len() {
                    assert(front[i] == files[i]);
                    assert(directory_present(front, dir));
                }
            }
            if directory_present(front, dir) {
                let i = choose|i: int| 0 <= i < front.len() && front[i].directory@ == dir;
                assert(files[i] == front[i]);
            }
            assert(files[files.len() - 1] == files.last());
        }
    }
}

/// One more file adds its bytes to the tally under its own directory.
pub proof fn lemma_tally_of_push(files: Seq<FileInfo>, file: FileInfo)
    ensures
        tally_of(files.push(file)) == tally_of(files).add(file.directory@, file.size as nat),
{
    let all = files.push(file);
    assert(all.drop_last() =~= files);
    assert(all.last() == file);
    let added = tally_of(files).add(file.directory@, file.size as nat);
    assert forall|dir: Seq<char>|
        tally_of(all).bytes.contains_key(dir) <==> added.bytes.contains_key(dir) by {
        if directory_present(all, dir) {
            let i = choose|i: int| 0 <= i < all.len() && all[i].directory@ == dir;
            if i < files.len() {
                assert(files[i] == all[i]);
                assert(directory_present(files, dir));
            }
        }
        if directory_present(files, dir) {
            let i = choose|i: int| 0 <= i < files.len() && files[i].directory@ == dir;
            assert(all[i] == files[i]);
        }
        assert(all[all.len() - 1] == file);
    }
    lemma_directory_total_absent(files, file.directory@);
    assert(tally_of(all).bytes =~= added.bytes);
}

/// A directory in which no file lies has no bytes.
pub proof fn lemma_directory_total_absent(files: Seq<FileInfo>, dir: Seq<char>)
    ensures
        !directory_present(files, dir) ==> directory_total(files, dir) == 0,
    decreases files.len(),
{
    if files.len() > 0 && !directory_present(files, dir) {
        let front = files.drop_last();
        assert(files[files.len() - 1] == files.last());
        if directory_present(front, dir) {
            let i = choose|i: int| 0 <= i < front.len() && front[i].directory@ == dir;
            assert(files[i] == front[i]);
        }
        lemma_directory_total_absent(front, dir);
    }
}

/// Adding up file by file gives the tally of the files.
pub proof fn lemma_fold_tally(files: Seq<FileInfo>)
    ensures
        fold_tally(files) == tally_of(files),
    decreases files.len(),
{
    if files.len() == 0 {
        assert(tally_of(files).bytes =~= Map::<Seq<char>, nat>::empty());
    } else {
        lemma_fold_tally(files.drop_last());
        lemma_tally_of_push(files.drop_last(), files.last());
        assert(files.drop_last().push(files.last()) =~= files);
    }
}

/// The bytes of a directory over two runs of files are the sum of its bytes
/// over each.
pub proof fn lemma_directory_total_concat(a: Seq<FileInfo>, b: Seq<FileInfo>, dir: Seq<char>)
    ensures
        directory_total(a + b, dir) == directory_total(a, dir) + directory_total(b, dir),
    decreases b.len(),
{
    if b.len() == 0 {
        assert(a + b =~= a);
    } else {
        lemma_directory_total_concat(a, b.drop_last(), dir);
        assert((a + b).drop_last() =~= a + b.drop_last());
        assert((a + b).last() == b.last());
    }
}

/// The directories of two runs of files laid end to end are those of the
/// first, then the new ones of the second.
pub proof fn lemma_directories_concat(a: Seq<FileInfo>, b: Seq<FileInfo>)
    ensures
        directories(a + b) == append_new(directories(a), directories(b)),
    decreases b.len(),
{
    if b.len() == 0 {
        assert(a + b =~= a);
    } else {
        let front = b.drop_last();
        let dir = b.last().directory@;
        lemma_directories_concat(a, front);
        assert((a + b).drop_last() =~= a + front);
        assert((a + b).last() == b.last());
        lemma_directories(a);
        lemma_directories(front);
        lemma_append_new(directories(a), directories(front));
        if directories(front).contains(dir) {
        } else {
            let pushed = directories(front).push(dir);
            assert(pushed.drop_last() =~= directories(front));
            assert(pushed.last() == dir);
        }
    }
}

/// Merging the tallies of two runs of files gives the tally of the runs laid
/// end to end.
pub proof fn lemma_merge_tallies_of_parts(a: Seq<FileInfo>, b: Seq<FileInfo>)
    ensures
        tally_of(a).merge(tally_of(b)) == tally_of(a + b),
{
    let merged = tally_of(a).merge(tally_of(b));
    let whole = tally_of(a + b);
    lemma_directories_concat(a, b);
    assert forall|dir: Seq<char>|
        merged.bytes.contains_key(dir) <==> whole.bytes.contains_key(dir) by {
        let ab = a + b;
        if directory_present(a, dir) {
            let i = choose|i: int| 0 <= i < a.len() && a[i].directory@ == dir;
            assert(ab[i] == a[i]);
        }
        if directory_present(b, dir) {
            let i = choose|i: int| 0 <= i < b.len() && b[i].directory@ == dir;
            assert(ab[a.len() + i] == b[i]);
        }
        if directory_present(ab, dir) {
            let i = choose|i: int| 0 <= i < ab.len() && ab[i].directory@ == dir;
            if i < a.len() {
                assert(ab[i] == a[i]);
            } else {
                assert(ab[i] == b[i - a.len()]);
            }
        }
    }
    assert forall|dir: Seq<char>| merged.bytes.contains_key(dir) implies merged.bytes[dir]
        == whole.bytes[dir] by {
        lemma_directory_total_concat(a, b, dir);
        lemma_directory_total_absent(a, dir);
        lemma_directory_total_absent(b, dir);
    }
    assert(merged.bytes =~= whole.bytes);
}

/// What a parallel fold leaves where it divides the files as `split` does: the
/// tally of each run, and the tallies of neighbours merged.
pub open spec fn split_tally(split: Split<FileInfo>) -> DirectoryTally
    decreases split,
{
    match split {
        Split::Run(files) => fold_tally(files),
        Split::Join(left, right) => split_tally(*left).merge(split_tally(*right)),
    }
}

/// However a parallel fold divides the files, it leaves their tally.
pub proof fn lemma_split_tally(split: Split<FileInfo>)
    ensures
        split_tally(split) == tally_of(split.items()),
    decreases split,
{
    match split {
        Split::Run(files) => {
            lemma_fold_tally(files);
        },
        Split::Join(left, right) => {
            lemma_split_tally(*left);
            lemma_split_tally(*right);
            lemma_merge_tallies_of_parts(left.items(), right.items());
        },
    }
}

/// `tally` is what some parallel fold of `files` leaves.
pub open spec fn is_folded_tally(files: Seq<FileInfo>, tally: DirectoryTally) -> bool {
    exists|split: Split<FileInfo>| split.items() == files && tally == split_tally(split)
}

/// Bytes per directory, for the directories in which a file lies.
pub struct DirectoryTotals {
    paths: Vec<String>,
    sizes: Vec<u64>,
    index: StringHashMap<usize>,
}

impl View for DirectoryTotals {
    type V = DirectoryTally;

    closed spec fn view(&self) -> DirectoryTally {
        DirectoryTally {
            dirs: Seq::new(self.paths@.len(), |i: int| self.paths@[i]@),
            bytes: Map::new(
                |dir: Seq<char>| self.index@.contains_key(dir),
                |dir: Seq<char>| self.sizes@[self.index@[dir] as int] as nat,
            ),
        }
    }
}

impl DirectoryTotals {
    #[verifier::type_invariant]
    spec fn well_formed(&self) -> bool {
        &&& self.paths@.len() == self.sizes@.len()
        &&& forall|i: int|
            0 <= i < self.paths@.len() ==> self.index@.contains_key(#[trigger] self.paths@[i]@)
                && self.index@[self.paths@[i]@] == i
        &&& forall|dir: Seq<char>| #[trigger]
            self.index@.contains_key(dir) ==> self.index@[dir] < self.paths@.len()
                && self.paths@[self.index@[dir] as int]@ == dir
    }

    /// What the invariant says of the view: it is a tally, and each listed
    /// directory has the bytes of its slot.
    proof fn lemma_view(&self)
        requires
            self.well_formed(),
        ensures
            self@.is_tally(),
            self@.dirs.len() == self.paths@.len(),
            forall|i: int|
                0 <= i < self.paths@.len() ==> self@.dirs[i] == (#[trigger] self.paths@[i])@
                    && self@.bytes.contains_key(self.paths@[i]@) && self@.bytes[self.paths@[i]@]
                    == self.sizes@[i],
    {
        let dirs = self@.dirs;
        assert forall|i: int, j: int| 0 <= i < j < dirs.len() implies dirs[i] != dirs[j] by {
            assert(self.index@[self.paths@[i]@] == i);
            assert(self.index@[self.paths@[j]@] == j);
        }
        assert forall|dir: Seq<char>| self@.bytes.contains_key(dir) <==> dirs.contains(dir) by {
            if self.index@.contains_key(dir) {
                assert(dirs[self.index@[dir] as int] == dir);
            }
            if dirs.contains(dir) {
                let i = choose|i: int| 0 <= i < dirs.len() && dirs[i] == dir;
                assert(self.index@.contains_key(self.paths@[i]@));
            }
        }
    }

    /// Every total held fits in 64 bits.
    pub proof fn lemma_fits(&self)
        ensures
            forall|dir: Seq<char>| self@.amount(dir) <= u64::MAX,
    {
    }

    /// The tally of no files.
    pub fn new() -> (totals: DirectoryTotals)
        ensures
            totals@ == DirectoryTally::empty(),
    {
        let totals = DirectoryTotals {
            paths: Vec::new(),
            sizes: Vec::new(),
            index: StringHashMap::new(),
        };
        assert(totals@.dirs =~= Seq::<Seq<char>>::empty());
        assert(totals@.bytes =~= Map::<Seq<char>, nat>::empty());
        totals
    }

    /// The number of directories.
    pub fn len(&self) -> (n: usize)
        ensures
            n == self@.dirs.len(),
    {
        self.paths.len()
    }

    /// The bytes recorded for `dir`, or `None` where no file of it was added.
    pub fn get(&self, dir: &str) -> (bytes: Option<u64>)
        ensures
            bytes.is_some() == self@.bytes.contains_key(dir@),
            bytes.is_some() ==> bytes.unwrap() == self@.bytes[dir@],
    {
        proof {
            use_type_invariant(self);
        }
        match self.index.get(dir) {
            Some(i) => Some(self.sizes[*i]),
            None => None,
        }
    }

    /// Adds the bytes of one file that lies directly in `dir`.
    pub fn add(self, dir: &str, size: u64) -> (totals: DirectoryTotals)
        requires
            self@.amount(dir@) + size <= u64::MAX,
        ensures
            totals@ == self@.add(dir@, size as nat),
            totals@.is_tally(),
    {
        proof {
            use_type_invariant(&self);
            self.lemma_view();
        }
        let ghost before = self@;
        let ghost old_paths = self.paths@;
        let ghost old_sizes = self.sizes@;
        let ghost old_index = self.index@;
        let mut paths = self.paths;
        let mut sizes = self.sizes;
        let mut index = self.index;
        let found = match index.get(dir) {
            Some(i) => Some(*i),
            None => None,
        };
        match found {
            Some(i) => {
                assert(before.bytes[dir@] == old_sizes[i as int]);
                let sum = sizes[i] + size;
                sizes.set(i, sum);
                let totals = DirectoryTotals { paths, sizes, index };
                proof {
                    assert(before.dirs[i as int] == dir@);
                    assert(totals@.dirs =~= before.dirs);
                    assert(totals@.bytes =~= before.add(dir@, size as nat).bytes) by {
                        let added = before.add(dir@, size as nat).bytes;
                        assert forall|d: Seq<char>| old_index.contains_key(d) implies (
                            #[trigger] totals@.bytes[d]
                        ) == added[d] by {
                            if d != dir@ {
                                assert(old_paths[old_index[d] as int]@ == d);
                            }
                        }
                    }
                    totals.lemma_view();
                }
                totals
            },
            None => {
                let at = paths.len();
                index.insert(dir.to_owned(), at);
                paths.push(dir.to_owned());
                sizes.push(size);
                assert forall|k: int| 0 <= k < paths@.len() implies index@.contains_key(
                    #[trigger] paths@[k]@,
                ) && index@[paths@[k]@] == k by {
                    if k < at {
                        assert(paths@[k] == old_paths[k]);
                        assert(old_index.contains_key(old_paths[k]@));
                    }
                }
                assert forall|d: Seq<char>| #[trigger] index@.contains_key(d) implies index@[d]
                    < paths@.len() && paths@[index@[d] as int]@ == d by {
                    if d != dir@ {
                        assert(old_index.contains_key(d));
                        assert(paths@[old_index[d] as int] == old_paths[old_index[d] as int]);
                    }
                }
                let totals = DirectoryTotals { paths, sizes, index };
                proof {
                    assert(!before.dirs.contains(dir@));
                    assert(totals@.dirs =~= before.dirs.push(dir@));
                    assert(totals@.bytes =~= before.add(dir@, size as nat).bytes) by {
                        assert forall|d: Seq<char>| old_index.contains_key(d) implies (
                            #[trigger] totals@.bytes[d]
                        ) == before.bytes[d] by {
                            assert(old_index[d] < at);
                        }
                    }
                    totals.lemma_view();
                }
                totals
            },
        }
    }

    /// Adds the tally of other files.
    pub fn merge(self, other: DirectoryTotals) -> (totals: DirectoryTotals)
        requires
            forall|dir: Seq<char>| self@.amount(dir) + other@.amount(dir) <= u64::MAX,
        ensures
            totals@ == self@.merge(other@),
    {
        proof {
            use_type_invariant(&self);
            use_type_invariant(&other);
            self.lemma_view();
            other.lemma_view();
        }
        let ghost first = self@;
        let ghost second = other@;
        let mut totals = self;
        let mut i: usize = 0;
        proof {
            assert(second.first(0).dirs =~= Seq::<Seq<char>>::empty());
            assert(first.merge(second.first(0)).bytes =~= first.bytes);
        }
        while i < other.paths.len()
            invariant
                i <= other.paths@.len(),
                other.well_formed(),
                second == other@,
                second.is_tally(),
                first.is_tally(),
                forall|dir: Seq<char>| first.amount(dir) + second.amount(dir) <= u64::MAX,
                totals@ == first.merge(second.first(i as int)),
            decreases other.paths@.len() - i,
        {
            proof {
                other.lemma_view();
            }
            let ghost dir = other.paths@[i as int]@;
            let ghost seen = second.first(i as int);
            let ghost next = second.first(i + 1);
            proof {
                assert(second.dirs[i as int] == dir);
                assert(!seen.dirs.contains(dir)) by {
                    if seen.dirs.contains(dir) {
                        let k = choose|k: int| 0 <= k < seen.dirs.len() && seen.dirs[k] == dir;
                        assert(second.dirs[k] == dir);
                    }
                }
                assert(!seen.bytes.contains_key(dir));
                assert(first.amount(dir) + second.amount(dir) <= u64::MAX);
            }
            totals = totals.add(other.paths[i].as_str(), other.sizes[i]);
            proof {
                assert(next.dirs.drop_last() =~= seen.dirs);
                assert(next.dirs.last() == dir);
                assert(next.dirs.contains(dir)) by {
                    assert(next.dirs[i as int] == dir);
                }
                assert forall|d: Seq<char>| next.dirs.contains(d) <==> seen.dirs.contains(d) || d
                    == dir by {
                    if next.dirs.contains(d) {
                        let k = choose|k: int| 0 <= k < next.dirs.len() && next.dirs[k] == d;
                        if k < i {
                            assert(seen.dirs[k] == d);
                        }
                    }
                    if seen.dirs.contains(d) {
                        let k = choose|k: int| 0 <= k < seen.dirs.len() && seen.dirs[k] == d;
                        assert(next.dirs[k] == d);
                    }
                }
                assert(totals@.bytes =~= first.merge(next).bytes);
            }
            i += 1;
        }
        proof {
            assert(second.dirs.take(i as int) =~= second.dirs);
            assert(second.first(i as int).bytes =~= second.bytes);
        }
        totals
    }

    /// The directories in the order of their first occurrence, and beside each
    /// its bytes.
    pub fn into_parts(self) -> (parts: (Vec<String>, Vec<u64>))
        ensures
            parts.0@.len() == self@.dirs.len(),
            parts.1@.len() == self@.dirs.len(),
            forall|i: int|
                0 <= i < self@.dirs.len() ==> (#[trigger] parts.0@[i])@ == self@.dirs[i]
                    && parts.1@[i] == self@.bytes[self@.dirs[i]],
    {
        proof {
            use_type_invariant(&self);
            self.lemma_view();
        }
        (self.paths, self.sizes)
    }
}

} // verus!
