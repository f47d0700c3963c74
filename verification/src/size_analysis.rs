//! Byte totals per category and per directory, and the largest files and
//! directories of a scan.

use crate::category_totals::{
    category_present, category_total, category_totals, is_folded_totals, lemma_category_totals,
    lemma_split_totals, split_totals, CategoryTotals,
};
use crate::directory_totals::{
    directories, directory_total, is_folded_tally, lemma_directories, lemma_split_tally,
    split_tally, tally_of, DirectoryTotals,
};
use crate::disk_utils::{FileInfo, FileType};
use crate::split::Split;
use crate::top_k::{
    chosen_from, covers, has_key, is_last_with_key, keyed, lemma_rank_all_selects,
    lemma_rank_all_len, lemma_ranked_positions, rank_all, select_top_k,
};
use rayon::iter::{IntoParallelRefIterator, ParallelIterator};
use vstd::prelude::*;

verus! {

/// Adds up the files with rayon's `par_iter`, `fold` and `reduce`. Trusted:
/// rayon folds runs of neighbouring files in order, each from empty totals by
/// `CategoryTotals::add`, and joins the results of neighbouring runs, the left
/// one first, by `CategoryTotals::merge`; how it divides the files is not known.
#[verifier::external_body]
fn fold_categories(files: &Vec<FileInfo>) -> (totals: CategoryTotals)
    requires
        forall|category: FileType| category_total(files@, category) <= u64::MAX,
    ensures
        is_folded_totals(files@, totals@),
{
    files.par_iter().fold(
        || CategoryTotals::new(),
        |totals, info| totals.add(info.file_type, info.size),
    ).reduce(|| CategoryTotals::new(), |left, right| left.merge(right))
}

/// The bytes of the files of each category that occurs among `files`.
pub fn analyze_file_categories(files: &Vec<FileInfo>) -> (totals: CategoryTotals)
    requires
        forall|category: FileType| category_total(files@, category) <= u64::MAX,
    ensures
        forall|category: FileType|
            totals@.contains_key(category) <==> category_present(files@, category),
        forall|category: FileType|
            totals@.contains_key(category) ==> totals@[category] == category_total(
                files@,
                category,
            ),
        totals@ == category_totals(files@),
{
    let totals = fold_categories(files);
    proof {
        let split = choose|split: Split<FileInfo>|
            split.items() == files@ && totals@ == split_totals(split);
        lemma_split_totals(split);
        lemma_category_totals(files@);
    }
    totals
}

/// Adds up the files with rayon's `par_iter`, `fold` and `reduce`. Trusted:
/// rayon folds runs of neighbouring files in order, each from an empty tally
/// by `DirectoryTotals::add`, and joins the results of neighbouring runs, the
/// left one first, by `DirectoryTotals::merge`; how it divides the files is
/// not known.
#[verifier::external_body]
fn fold_directories(files: &Vec<FileInfo>) -> (totals: DirectoryTotals)
    requires
        forall|dir: Seq<char>| directory_total(files@, dir) <= u64::MAX,
    ensures
        is_folded_tally(files@, totals@),
{
    files.par_iter().fold(
        || DirectoryTotals::new(),
        |totals, info| totals.add(info.directory.as_str(), info.size),
    ).reduce(|| DirectoryTotals::new(), |left, right| left.merge(right))
}

/// The bytes of the files directly in each directory in which a file of
/// `files` lies. A file counts for the directory that holds it and for no
/// directory above that one.
pub fn aggregate_directories(files: &Vec<FileInfo>) -> (totals: DirectoryTotals)
    requires
        forall|dir: Seq<char>| directory_total(files@, dir) <= u64::MAX,
    ensures
        totals@ == tally_of(files@),
        totals@.is_tally(),
{
    let totals = fold_directories(files);
    proof {
        let split = choose|split: Split<FileInfo>|
            split.items() == files@ && totals@ == split_tally(split);
        lemma_split_tally(split);
        lemma_directories(files@);
    }
    totals
}

/// The sizes of the files, in their order.
pub open spec fn sizes_of(files: Seq<FileInfo>) -> Seq<u64> {
    Seq::new(files.len(), |i: int| files[i].size)
}

/// The files of the `n` largest sizes among `files`, largest first. Of files
/// of one size the last is taken.
pub open spec fn largest_files(files: Seq<FileInfo>, n: nat) -> Seq<FileInfo> {
    let top = rank_all(keyed(sizes_of(files)), n);
    Seq::new(top.len(), |i: int| files[top[i].item as int])
}

/// At most `n` files are listed, and no more than there are files.
pub proof fn lemma_largest_files_len(files: Seq<FileInfo>, n: nat)
    ensures
        largest_files(files, n).len() <= n,
        largest_files(files, n).len() <= files.len(),
{
    lemma_rank_all_len(keyed(sizes_of(files)), n);
}

/// No file behind the one at `j` has its size.
pub open spec fn is_last_of_size(files: Seq<FileInfo>, j: int) -> bool {
    &&& 0 <= j < files.len()
    &&& forall|k: int| j < k < files.len() ==> files[k].size != files[j].size
}

/// `file` is one of `files`, and the last of them with its size.
pub open spec fn is_last_file_of_size(files: Seq<FileInfo>, file: FileInfo) -> bool {
    exists|j: int| #[trigger] is_last_of_size(files, j) && files[j] == file
}

/// One of `listed` has the size `size`.
pub open spec fn lists_size(listed: Seq<FileInfo>, size: u64) -> bool {
    exists|i: int| 0 <= i < listed.len() && listed[i].size == size
}

/// What the largest files are: at most `n` of the files, in strictly
/// descending order of size, each the last of the files with its size; and a
/// size that none of them has is smaller than all of theirs, with `n` of them
/// listed.
pub proof fn lemma_largest_files(files: Seq<FileInfo>, n: nat)
    requires
        files.len() <= usize::MAX,
    ensures
        largest_files(files, n).len() <= n,
        forall|i: int, j: int|
            0 <= i < j < largest_files(files, n).len() ==> largest_files(files, n)[i].size
                > largest_files(files, n)[j].size,
        forall|i: int|
            0 <= i < largest_files(files, n).len() ==> is_last_file_of_size(
                files,
                #[trigger] largest_files(files, n)[i],
            ),
        forall|j: int|
            0 <= j < files.len() ==> lists_size(largest_files(files, n), #[trigger] files[j].size)
                || (largest_files(files, n).len() == n && (n == 0 || files[j].size
                < largest_files(files, n)[n - 1].size)),
{
    let sizes = sizes_of(files);
    let items = keyed(sizes);
    let top = rank_all(items, n);
    let largest = largest_files(files, n);
    lemma_rank_all_selects(items, n);
    lemma_ranked_positions(sizes, n);
    assert forall|i: int| 0 <= i < largest.len() implies largest[i].size == top[i].key by {
        assert(sizes[top[i].item as int] == top[i].key);
    }
    assert forall|i: int, j: int| 0 <= i < j < largest.len() implies largest[i].size
        > largest[j].size by {
        assert(top[i].key > top[j].key);
    }
    assert forall|i: int| 0 <= i < largest.len() implies is_last_file_of_size(
        files,
        #[trigger] largest[i],
    ) by {
        assert(chosen_from(items, top[i]));
        let j = choose|j: int| #[trigger] is_last_with_key(items, j) && items[j] == top[i];
        assert(top[i].item == j);
        assert forall|k: int| j < k < files.len() implies files[k].size != files[j].size by {
            assert(items[k].key != items[j].key);
        }
        assert(is_last_of_size(files, j));
    }
    assert forall|j: int| 0 <= j < files.len() implies lists_size(
        largest,
        #[trigger] files[j].size,
    ) || (largest.len() == n && (n == 0 || files[j].size < largest[n - 1].size)) by {
        assert(covers(top, n, items[j].key));
        assert(items[j].key == files[j].size);
        if has_key(top, items[j].key) {
            let i = choose|i: int| 0 <= i < top.len() && top[i].key == items[j].key;
            assert(largest[i].size == files[j].size);
        }
    }
}

/// The `n` largest of `files`, in strictly descending order of size.
pub fn analyze_largest_files(files: &Vec<FileInfo>, n: usize) -> (largest: Vec<FileInfo>)
    ensures
        largest@ == largest_files(files@, n as nat),
        largest@.len() <= n,
        largest@.len() <= files@.len(),
        forall|i: int, j: int| 0 <= i < j < largest@.len() ==> largest@[i].size > largest@[j].size,
{
    let mut sizes: Vec<u64> = Vec::new();
    let mut i: usize = 0;
    while i < files.len()
        invariant
            i <= files@.len(),
            sizes@ == sizes_of(files@).take(i as int),
        decreases files@.len() - i,
    {
        sizes.push(files[i].size);
        assert(sizes@ =~= sizes_of(files@).take(i + 1));
        i += 1;
    }
    assert(sizes@ =~= sizes_of(files@));
    let top = select_top_k(&sizes, n);
    let mut largest: Vec<FileInfo> = Vec::new();
    let mut k: usize = 0;
    while k < top.len()
        invariant
            k <= top@.len(),
            sizes@ == sizes_of(files@),
            top@ == rank_all(keyed(sizes@), n as nat),
            forall|i: int|
                0 <= i < top@.len() ==> (#[trigger] top@[i]).item < sizes@.len()
                    && sizes@[top@[i].item as int] == top@[i].key,
            largest@.len() == k,
            forall|i: int| 0 <= i < k ==> largest@[i] == files@[top@[i].item as int],
        decreases top@.len() - k,
    {
        let entry = top[k];
        largest.push(files[entry.item].clone());
        k += 1;
    }
    assert(largest@ =~= largest_files(files@, n as nat));
    assert forall|i: int, j: int| 0 <= i < j < largest@.len() implies largest@[i].size
        > largest@[j].size by {
        assert(top@[i].key > top@[j].key);
        assert(sizes@[top@[i].item as int] == top@[i].key);
        assert(sizes@[top@[j].item as int] == top@[j].key);
    }
    largest
}

/// The bytes of the directories of `files`, in the order of the directories.
pub open spec fn directory_sizes(files: Seq<FileInfo>) -> Seq<u64> {
    Seq::new(
        directories(files).len(),
        |i: int| directory_total(files, directories(files)[i]) as u64,
    )
}

/// The directories of the `n` largest totals among those of `files`, each
/// with its bytes, largest first. Of directories of one total the one that
/// occurs last is taken.
pub open spec fn largest_directories(files: Seq<FileInfo>, n: nat) -> Seq<(u64, Seq<char>)> {
    let top = rank_all(keyed(directory_sizes(files)), n);
    Seq::new(top.len(), |i: int| (top[i].key, directories(files)[top[i].item as int]))
}

/// At most `n` directories are listed, and no more than there are
/// directories in which a file lies.
pub proof fn lemma_largest_directories_len(files: Seq<FileInfo>, n: nat)
    ensures
        largest_directories(files, n).len() <= n,
        largest_directories(files, n).len() <= directories(files).len(),
{
    lemma_rank_all_len(keyed(directory_sizes(files)), n);
}

/// One of `listed` has `size` bytes.
pub open spec fn lists_total(listed: Seq<(u64, Seq<char>)>, size: nat) -> bool {
    exists|i: int| 0 <= i < listed.len() && listed[i].0 == size
}

/// The directory `dir` with `size` bytes is one of the directories of
/// `files` with its total, and no directory that first occurs later has the
/// same total.
pub open spec fn is_last_directory_of_total(
    files: Seq<FileInfo>,
    size: u64,
    dir: Seq<char>,
) -> bool {
    exists|j: int|
        0 <= j < directories(files).len() && #[trigger] directories(files)[j] == dir
            && directory_total(files, dir) == size && forall|k: int|
            j < k < directories(files).len() ==> directory_total(
                files,
                #[trigger] directories(files)[k],
            ) != size
}

/// What the largest directories are: at most `n` of the directories of the
/// files, each with the bytes of the files directly in it, in strictly
/// descending order of bytes; and a total that none of them has is smaller
/// than all of theirs, with `n` of them listed.
pub proof fn lemma_largest_directories(files: Seq<FileInfo>, n: nat)
    requires
        directories(files).len() <= usize::MAX,
        forall|dir: Seq<char>| directory_total(files, dir) <= u64::MAX,
    ensures
        largest_directories(files, n).len() <= n,
        forall|i: int, j: int|
            0 <= i < j < largest_directories(files, n).len() ==> largest_directories(
                files,
                n,
            )[i].0 > largest_directories(files, n)[j].0,
        forall|i: int|
            0 <= i < largest_directories(files, n).len() ==> is_last_directory_of_total(
                files,
                (#[trigger] largest_directories(files, n)[i]).0,
                largest_directories(files, n)[i].1,
            ),
        forall|j: int|
            0 <= j < directories(files).len() ==> lists_total(
                largest_directories(files, n),
                directory_total(files, #[trigger] directories(files)[j]),
            ) || (largest_directories(files, n).len() == n && (n == 0 || directory_total(
                files,
                directories(files)[j],
            ) < largest_directories(files, n)[n - 1].0)),
{
    let dirs = directories(files);
    let sizes = directory_sizes(files);
    let items = keyed(sizes);
    let top = rank_all(items, n);
    let largest = largest_directories(files, n);
    lemma_rank_all_selects(items, n);
    lemma_ranked_positions(sizes, n);
    assert forall|i: int, j: int| 0 <= i < j < largest.len() implies largest[i].0
        > largest[j].0 by {
        assert(top[i].key > top[j].key);
    }
    assert forall|i: int| 0 <= i < largest.len() implies is_last_directory_of_total(
        files,
        (#[trigger] largest[i]).0,
        largest[i].1,
    ) by {
        assert(chosen_from(items, top[i]));
        let j = choose|j: int| #[trigger] is_last_with_key(items, j) && items[j] == top[i];
        assert(top[i].item == j);
        assert(sizes[j] == top[i].key);
        assert(dirs[j] == largest[i].1);
        assert forall|k: int| j < k < dirs.len() implies directory_total(
            files,
            #[trigger] dirs[k],
        ) != top[i].key by {
            assert(items[k].key != items[j].key);
            assert(sizes[k] == directory_total(files, dirs[k]));
        }
    }
    assert forall|j: int| 0 <= j < dirs.len() implies lists_total(
        largest,
        directory_total(files, #[trigger] dirs[j]),
    ) || (largest.len() == n && (n == 0 || directory_total(files, dirs[j]) < largest[n
        - 1].0)) by {
        assert(covers(top, n, items[j].key));
        assert(items[j].key == directory_total(files, dirs[j]));
        if has_key(top, items[j].key) {
            let i = choose|i: int| 0 <= i < top.len() && top[i].key == items[j].key;
            assert(largest[i].0 == items[j].key);
        }
    }
}

/// The `n` directories with the most bytes directly in them, each with its
/// bytes, in strictly descending order of bytes.
pub fn analyze_largest_dirs(files: &Vec<FileInfo>, n: usize) -> (largest: Vec<(u64, String)>)
    requires
        forall|dir: Seq<char>| directory_total(files@, dir) <= u64::MAX,
    ensures
        largest@.len() == largest_directories(files@, n as nat).len(),
        forall|i: int|
            0 <= i < largest@.len() ==> (#[trigger] largest@[i]).0 == largest_directories(
                files@,
                n as nat,
            )[i].0 && largest@[i].1@ == largest_directories(files@, n as nat)[i].1,
        largest@.len() <= n,
        largest@.len() <= directories(files@).len(),
        forall|i: int, j: int| 0 <= i < j < largest@.len() ==> largest@[i].0 > largest@[j].0,
{
    let totals = aggregate_directories(files);
    let ghost tally = totals@;
    let (paths, sizes) = totals.into_parts();
    proof {
        assert forall|i: int| 0 <= i < tally.dirs.len() implies sizes@[i] == directory_sizes(
            files@,
        )[i] by {
            assert(paths@[i]@ == tally.dirs[i]);
            assert(tally.dirs.contains(tally.dirs[i]));
        }
        assert(sizes@ =~= directory_sizes(files@));
    }
    let top = select_top_k(&sizes, n);
    let mut largest: Vec<(u64, String)> = Vec::new();
    let mut k: usize = 0;
    while k < top.len()
        invariant
            k <= top@.len(),
            paths@.len() == sizes@.len(),
            sizes@ == directory_sizes(files@),
            forall|i: int|
                0 <= i < paths@.len() ==> (#[trigger] paths@[i])@ == directories(files@)[i],
            top@ == rank_all(keyed(sizes@), n as nat),
            forall|i: int|
                0 <= i < top@.len() ==> (#[trigger] top@[i]).item < sizes@.len()
                    && sizes@[top@[i].item as int] == top@[i].key,
            largest@.len() == k,
            forall|i: int|
                0 <= i < k ==> (#[trigger] largest@[i]).0 == top@[i].key && largest@[i].1@
                    == directories(files@)[top@[i].item as int],
        decreases top@.len() - k,
    {
        let entry = top[k];
        largest.push((entry.key, paths[entry.item].clone()));
        k += 1;
    }
    assert forall|i: int, j: int| 0 <= i < j < largest@.len() implies largest@[i].0
        > largest@[j].0 by {
        assert(top@[i].key > top@[j].key);
    }
    largest
}

} // verus!
