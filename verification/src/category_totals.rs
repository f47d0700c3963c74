//! Bytes per category: what the totals of some files are, how totals are added
//! up and merged, and why the way of adding them up does not matter.

use crate::disk_utils::{FileInfo, FileType};
use crate::split::Split;
use vstd::prelude::*;

verus! {

/// The bytes of the files of `category` among `files`.
pub open spec fn category_total(files: Seq<FileInfo>, category: FileType) -> nat
    decreases files.len(),
{
    if files.len() == 0 {
        0
    } else {
        category_total(files.drop_last(), category) + if files.last().file_type == category {
            files.last().size as nat
        } else {
            0
        }
    }
}

/// Some file among `files` is of `category`.
pub open spec fn category_present(files: Seq<FileInfo>, category: FileType) -> bool {
    exists|i: int| 0 <= i < files.len() && files[i].file_type == category
}

/// The bytes recorded for `category`, none where it is absent.
pub open spec fn amount(totals: Map<FileType, nat>, category: FileType) -> nat {
    if totals.contains_key(category) {
        totals[category]
    } else {
        0
    }
}

/// The totals after `size` bytes were added under `category`.
pub open spec fn add_total(totals: Map<FileType, nat>, category: FileType, size: nat) -> Map<
    FileType,
    nat,
> {
    totals.insert(category, amount(totals, category) + size)
}

/// The totals of two sets of files taken together: a category is present
/// where it is in either, with the sum of its bytes.
pub open spec fn merge_totals(a: Map<FileType, nat>, b: Map<FileType, nat>) -> Map<
    FileType,
    nat,
> {
    Map::new(
        |category: FileType| a.contains_key(category) || b.contains_key(category),
        |category: FileType| amount(a, category) + amount(b, category),
    )
}

/// The totals of `files`, added up file by file from no totals at all.
pub open spec fn category_totals(files: Seq<FileInfo>) -> Map<FileType, nat>
    decreases files.len(),
{
    if files.len() == 0 {
        Map::empty()
    } else {
        add_total(
            category_totals(files.drop_last()),
            files.last().file_type,
            files.last().size as nat,
        )
    }
}

/// The totals of `files` hold exactly the categories that occur among them,
/// each with the bytes of its files.
pub proof fn lemma_category_totals(files: Seq<FileInfo>)
    ensures
        forall|category: FileType|
            category_totals(files).contains_key(category) <==> category_present(files, category),
        forall|category: FileType|
            amount(category_totals(files), category) == category_total(files, category),
    decreases files.len(),
{
    if files.len() > 0 {
        let front = files.drop_last();
        lemma_category_totals(front);
        assert forall|category: FileType|
            category_totals(files).contains_key(category) <==> category_present(
                files,
                category,
            ) by {
            if category_present(files, category) {
                let i = choose|i: int| 0 <= i < files.len() && files[i].file_type == category;
                if i < front.len() {
                    assert(front[i] == files[i]);
                    assert(category_present(front, category));
                }
            }
            if category_present(front, category) {
                let i = choose|i: int| 0 <= i < front.len() && front[i].file_type == category;
                assert(files[i] == front[i]);
            }
            assert(files[files.len() - 1] == files.last());
        }
        assert forall|category: FileType|
            amount(category_totals(files), category) == category_total(files, category) by {
            assert(amount(category_totals(front), category) == category_total(front, category));
        }
    }
}

/// The bytes of a category over two runs of files are the sum of its bytes
/// over each.
pub proof fn lemma_category_total_concat(a: Seq<FileInfo>, b: Seq<FileInfo>, category: FileType)
    ensures
        category_total(a + b, category) == category_total(a, category) + category_total(
            b,
            category,
        ),
    decreases b.len(),
{
    if b.len() == 0 {
        assert(a + b =~= a);
    } else {
        lemma_category_total_concat(a, b.drop_last(), category);
        assert((a + b).drop_last() =~= a + b.drop_last());
        assert((a + b).last() == b.last());
    }
}

/// Merging the totals of two runs of files gives the totals of the runs laid
/// end to end.
pub proof fn lemma_merge_totals_of_parts(a: Seq<FileInfo>, b: Seq<FileInfo>)
    ensures
        merge_totals(category_totals(a), category_totals(b)) == category_totals(a + b),
{
    lemma_category_totals(a);
    lemma_category_totals(b);
    lemma_category_totals(a + b);
    let merged = merge_totals(category_totals(a), category_totals(b));
    let whole = category_totals(a + b);
    assert forall|category: FileType|
        merged.contains_key(category) <==> whole.contains_key(category) by {
        let ab = a + b;
        if category_present(a, category) {
            let i = choose|i: int| 0 <= i < a.len() && a[i].file_type == category;
            assert(ab[i] == a[i]);
        }
        if category_present(b, category) {
            let i = choose|i: int| 0 <= i < b.len() && b[i].file_type == category;
            assert(ab[a.len() + i] == b[i]);
        }
        if category_present(ab, category) {
            let i = choose|i: int| 0 <= i < ab.len() && ab[i].file_type == category;
            if i < a.len() {
                assert(ab[i] == a[i]);
            } else {
                assert(ab[i] == b[i - a.len()]);
            }
        }
    }
    assert forall|category: FileType| merged.contains_key(category) implies merged[category]
        == whole[category] by {
        lemma_category_total_concat(a, b, category);
        assert(amount(whole, category) == category_total(a + b, category));
        assert(amount(category_totals(a), category) == category_total(a, category));
        assert(amount(category_totals(b), category) == category_total(b, category));
    }
    assert(merged =~= whole);
}

/// Merging totals gives the same in either order.
pub proof fn lemma_merge_totals_commutative(a: Map<FileType, nat>, b: Map<FileType, nat>)
    ensures
        merge_totals(a, b) == merge_totals(b, a),
{
    assert(merge_totals(a, b) =~= merge_totals(b, a));
}

/// Merging totals is associative.
pub proof fn lemma_merge_totals_associative(
    a: Map<FileType, nat>,
    b: Map<FileType, nat>,
    c: Map<FileType, nat>,
)
    ensures
        merge_totals(merge_totals(a, b), c) == merge_totals(a, merge_totals(b, c)),
{
    assert(merge_totals(merge_totals(a, b), c) =~= merge_totals(a, merge_totals(b, c)));
}

/// What a parallel fold leaves where it divides the files as `split` does: the
/// totals of each run, and the totals of neighbours merged.
pub open spec fn split_totals(split: Split<FileInfo>) -> Map<FileType, nat>
    decreases split,
{
    match split {
        Split::Run(files) => category_totals(files),
        Split::Join(left, right) => merge_totals(split_totals(*left), split_totals(*right)),
    }
}

/// However a parallel fold divides the files, it leaves their totals.
pub proof fn lemma_split_totals(split: Split<FileInfo>)
    ensures
        split_totals(split) == category_totals(split.items()),
    decreases split,
{
    match split {
        Split::Run(files) => {},
        Split::Join(left, right) => {
            lemma_split_totals(*left);
            lemma_split_totals(*right);
            lemma_merge_totals_of_parts(left.items(), right.items());
        },
    }
}

/// `totals` is what some parallel fold of `files` leaves.
pub open spec fn is_folded_totals(files: Seq<FileInfo>, totals: Map<FileType, nat>) -> bool {
    exists|split: Split<FileInfo>| split.items() == files && totals == split_totals(split)
}

/// Bytes per category, for the categories that occur.
#[derive(Debug, Clone, Copy)]
pub struct CategoryTotals {
    photos: Option<u64>,
    videos: Option<u64>,
    audio: Option<u64>,
    documents: Option<u64>,
    archives: Option<u64>,
    executables: Option<u64>,
    other: Option<u64>,
}

impl View for CategoryTotals {
    type V = Map<FileType, nat>;

    closed spec fn view(&self) -> Map<FileType, nat> {
        Map::new(
            |category: FileType| self.slot(category).is_some(),
            |category: FileType| self.slot(category).unwrap() as nat,
        )
    }
}

/// The bytes in a slot, none where it is empty.
spec fn slot_amount(slot: Option<u64>) -> nat {
    match slot {
        Some(bytes) => bytes as nat,
        None => 0,
    }
}

/// One slot after two were merged: absent where both are, else the sum.
fn merge_slot(a: Option<u64>, b: Option<u64>) -> (merged: Option<u64>)
    requires
        slot_amount(a) + slot_amount(b) <= u64::MAX,
    ensures
        merged.is_some() == (a.is_some() || b.is_some()),
        slot_amount(merged) == slot_amount(a) + slot_amount(b),
{
    match (a, b) {
        (Some(x), Some(y)) => Some(x + y),
        (Some(x), None) => Some(x),
        (None, Some(y)) => Some(y),
        (None, None) => None,
    }
}

impl CategoryTotals {
    spec fn slot(&self, category: FileType) -> Option<u64> {
        match category {
            FileType::Photos => self.photos,
            FileType::Videos => self.videos,
            FileType::Audio => self.audio,
            FileType::Documents => self.documents,
            FileType::Archives => self.archives,
            FileType::Executables => self.executables,
            FileType::Other => self.other,
        }
    }

    /// Every total held fits in 64 bits.
    pub proof fn lemma_fits(&self)
        ensures
            forall|category: FileType| amount(self@, category) <= u64::MAX,
    {
    }

    /// Totals of no files: every category is absent.
    pub fn new() -> (totals: CategoryTotals)
        ensures
            totals@ == Map::<FileType, nat>::empty(),
    {
        let totals = CategoryTotals {
            photos: None,
            videos: None,
            audio: None,
            documents: None,
            archives: None,
            executables: None,
            other: None,
        };
        assert(totals@ =~= Map::<FileType, nat>::empty());
        totals
    }

    /// The bytes recorded for `category`, or `None` where no file of it was
    /// added.
    pub fn get(&self, category: &FileType) -> (bytes: Option<&u64>)
        ensures
            bytes.is_some() == self@.contains_key(*category),
            bytes.is_some() ==> *bytes.unwrap() == self@[*category],
    {
        match category {
            FileType::Photos => self.photos.as_ref(),
            FileType::Videos => self.videos.as_ref(),
            FileType::Audio => self.audio.as_ref(),
            FileType::Documents => self.documents.as_ref(),
            FileType::Archives => self.archives.as_ref(),
            FileType::Executables => self.executables.as_ref(),
            FileType::Other => self.other.as_ref(),
        }
    }

    /// Adds the bytes of one file of `category`.
    pub fn add(self, category: FileType, size: u64) -> (totals: CategoryTotals)
        requires
            amount(self@, category) + size <= u64::MAX,
        ensures
            totals@ == add_total(self@, category, size as nat),
    {
        assert(slot_amount(self.slot(category)) == amount(self@, category));
        let mut totals = self;
        match category {
            FileType::Photos => {
                totals.photos = merge_slot(totals.photos, Some(size));
            },
            FileType::Videos => {
                totals.videos = merge_slot(totals.videos, Some(size));
            },
            FileType::Audio => {
                totals.audio = merge_slot(totals.audio, Some(size));
            },
            FileType::Documents => {
                totals.documents = merge_slot(totals.documents, Some(size));
            },
            FileType::Archives => {
                totals.archives = merge_slot(totals.archives, Some(size));
            },
            FileType::Executables => {
                totals.executables = merge_slot(totals.executables, Some(size));
            },
            FileType::Other => {
                totals.other = merge_slot(totals.other, Some(size));
            },
        }
        assert forall|c: FileType| #[trigger]
            totals.slot(c) == (if c == category {
                Some((slot_amount(self.slot(c)) + size) as u64)
            } else {
                self.slot(c)
            }) by {
            match c {
                FileType::Photos => {},
                FileType::Videos => {},
                FileType::Audio => {},
                FileType::Documents => {},
                FileType::Archives => {},
                FileType::Executables => {},
                FileType::Other => {},
            }
        }
        assert(totals@ =~= add_total(self@, category, size as nat));
        totals
    }

    /// Adds the totals of other files.
    pub fn merge(self, other: CategoryTotals) -> (totals: CategoryTotals)
        requires
            forall|category: FileType|
                amount(self@, category) + amount(other@, category) <= u64::MAX,
        ensures
            totals@ == merge_totals(self@, other@),
    {
        assert forall|c: FileType| #[trigger]
            slot_amount(self.slot(c)) + slot_amount(other.slot(c)) <= u64::MAX by {
            assert(amount(self@, c) + amount(other@, c) <= u64::MAX);
        }
        assert(slot_amount(self.slot(FileType::Photos)) + slot_amount(
            other.slot(FileType::Photos),
        ) <= u64::MAX);
        assert(slot_amount(self.slot(FileType::Videos)) + slot_amount(
            other.slot(FileType::Videos),
        ) <= u64::MAX);
        assert(slot_amount(self.slot(FileType::Audio)) + slot_amount(other.slot(FileType::Audio))
            <= u64::MAX);
        assert(slot_amount(self.slot(FileType::Documents)) + slot_amount(
            other.slot(FileType::Documents),
        ) <= u64::MAX);
        assert(slot_amount(self.slot(FileType::Archives)) + slot_amount(
            other.slot(FileType::Archives),
        ) <= u64::MAX);
        assert(slot_amount(self.slot(FileType::Executables)) + slot_amount(
            other.slot(FileType::Executables),
        ) <= u64::MAX);
        assert(slot_amount(self.slot(FileType::Other)) + slot_amount(other.slot(FileType::Other))
            <= u64::MAX);
        let totals = CategoryTotals {
            photos: merge_slot(self.photos, other.photos),
            videos: merge_slot(self.videos, other.videos),
            audio: merge_slot(self.audio, other.audio),
            documents: merge_slot(self.documents, other.documents),
            archives: merge_slot(self.archives, other.archives),
            executables: merge_slot(self.executables, other.executables),
            other: merge_slot(self.other, other.other),
        };
        assert forall|c: FileType|
            (#[trigger] totals.slot(c)).is_some() == (self.slot(c).is_some() || other.slot(
                c,
            ).is_some()) && slot_amount(totals.slot(c)) == slot_amount(self.slot(c))
                + slot_amount(other.slot(c)) by {
            match c {
                FileType::Photos => {},
                FileType::Videos => {},
                FileType::Audio => {},
                FileType::Documents => {},
                FileType::Archives => {},
                FileType::Executables => {},
                FileType::Other => {},
            }
        }
        assert(totals@ =~= merge_totals(self@, other@));
        totals
    }
}

} // verus!
