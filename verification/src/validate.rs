//! The two consistency checks: records whose thumbnail is missing, and files
//! of the source directory that no record refers to.

use crate::bytes::{copy_range, ends_with, eq_bytes, has_suffix, to_vec};
use crate::record::SpriteRecord;
use vstd::prelude::*;

verus! {

/// What the check of the source directory says of one file.
#[derive(Debug, PartialEq, Eq)]
pub enum Finding {
    /// The file's name does not end in ".png"; the name is given whole.
    WrongExtension(Vec<u8>),
    /// No record has this canonical name; the name is given without ".png".
    Orphan(Vec<u8>),
}

/// The mathematical value of a [`Finding`].
pub enum FindingView {
    WrongExtension(Seq<u8>),
    Orphan(Seq<u8>),
}

impl View for Finding {
    type V = FindingView;

    open spec fn view(&self) -> FindingView {
        match self {
            Finding::WrongExtension(n) => FindingView::WrongExtension(n@),
            Finding::Orphan(n) => FindingView::Orphan(n@),
        }
    }
}

/// The views of a vector of findings.
pub open spec fn finding_views(v: Seq<Finding>) -> Seq<FindingView> {
    Seq::new(v.len(), |i: int| v[i]@)
}

/// The text ".png".
pub open spec fn image_extension() -> Seq<u8> {
    seq![46u8, 112u8, 110u8, 103u8]
}

/// The text "_p".
pub open spec fn portrait_mark() -> Seq<u8> {
    seq![95u8, 112u8]
}

/// Some record has the canonical name `name`.
pub open spec fn is_referenced(recs: Seq<SpriteRecord>, name: Seq<u8>) -> bool {
    exists|i: int| 0 <= i < recs.len() && (#[trigger] recs[i]).canonical() == name
}

/// What is to be said of the file `file`: that its extension is wrong; or,
/// unless it is a portrait, that no record refers to it; or nothing.
pub open spec fn finding_spec(recs: Seq<SpriteRecord>, file: Seq<u8>) -> Option<FindingView> {
    if !has_suffix(file, image_extension()) {
        Some(FindingView::WrongExtension(file))
    } else {
        let stem = file.subrange(0, file.len() - 4);
        if has_suffix(stem, portrait_mark()) || is_referenced(recs, stem) {
            None
        } else {
            Some(FindingView::Orphan(stem))
        }
    }
}

/// The findings on the first `n` files, in the order of the files.
pub open spec fn findings_spec(recs: Seq<SpriteRecord>, files: Seq<Seq<u8>>, n: int) -> Seq<
    FindingView,
>
    decreases n,
{
    if n <= 0 {
        Seq::empty()
    } else {
        match finding_spec(recs, files[n - 1]) {
            Some(f) => findings_spec(recs, files, n - 1).push(f),
            None => findings_spec(recs, files, n - 1),
        }
    }
}

/// Whether record `i` has its thumbnail on disk: not where the list is silent.
pub open spec fn thumbnail_at(present: Seq<bool>, i: int) -> bool {
    0 <= i < present.len() && present[i]
}

/// The canonical names of those among the first `n` records whose thumbnail
/// is missing, in the order of the records, once for each such record.
pub open spec fn missing_spec(recs: Seq<SpriteRecord>, present: Seq<bool>, n: int) -> Seq<Seq<u8>>
    decreases n,
{
    if n <= 0 {
        Seq::empty()
    } else if thumbnail_at(present, n - 1) {
        missing_spec(recs, present, n - 1)
    } else {
        missing_spec(recs, present, n - 1).push(recs[n - 1].canonical())
    }
}

/// Whether some record has the canonical name `name`.
pub fn has_record(records: &Vec<SpriteRecord>, name: &[u8]) -> (r: bool)
    ensures
        r == is_referenced(records@, name@),
{
    let mut i: usize = 0;
    while i < records.len()
        invariant
            i <= records.len(),
            forall|k: int| 0 <= k < i ==> (#[trigger] records@[k]).canonical() != name@,
        decreases records.len() - i,
    {
        let canonical = records[i].canonical_name();
        if eq_bytes(canonical.as_slice(), name) {
            return true;
        }
        i += 1;
    }
    false
}

/// The canonical names of the records whose thumbnail is missing;
/// `present[i]` says whether the thumbnail of `records[i]` is on disk.
pub fn check_not_exist(records: &Vec<SpriteRecord>, present: &Vec<bool>) -> (r: Vec<Vec<u8>>)
    ensures
        crate::bytes::views(r@) == missing_spec(records@, present@, records.len() as int),
{
    let mut r: Vec<Vec<u8>> = Vec::new();
    let mut i: usize = 0;
    proof {
        assert(crate::bytes::views(r@) =~= missing_spec(records@, present@, 0));
    }
    while i < records.len()
        invariant
            i <= records.len(),
            crate::bytes::views(r@) == missing_spec(records@, present@, i as int),
        decreases records.len() - i,
    {
        let on_disk: bool = i < present.len() && present[i];
        if !on_disk {
            let name = records[i].canonical_name();
            proof {
                assert(crate::bytes::views(r@.push(name)) =~= crate::bytes::views(r@).push(name@));
            }
            r.push(name);
        }
        i += 1;
    }
    r
}

/// What is to be said of one file of the source directory.
pub fn check_file(records: &Vec<SpriteRecord>, file: &[u8]) -> (r: Option<Finding>)
    ensures
        r.is_some() == finding_spec(records@, file@).is_some(),
        r.is_some() ==> r.unwrap()@ == finding_spec(records@, file@).unwrap(),
{
    let ext: [u8; 4] = [46, 112, 110, 103];
    let mark: [u8; 2] = [95, 112];
    proof {
        assert(ext@ =~= image_extension());
        assert(mark@ =~= portrait_mark());
    }
    if !ends_with(file, ext.as_slice()) {
        return Some(Finding::WrongExtension(to_vec(file)));
    }
    let stem = copy_range(file, 0, file.len() - 4);
    if ends_with(stem.as_slice(), mark.as_slice()) {
        return None;
    }
    if has_record(records, stem.as_slice()) {
        None
    } else {
        Some(Finding::Orphan(stem))
    }
}

/// The findings on the files of the source directory, in the order of
/// `files`: a file that is no image, and an image that is no portrait and
/// that no record refers to. Records without a file are not looked for here.
pub fn check_valid_sprites(records: &Vec<SpriteRecord>, files: &Vec<Vec<u8>>) -> (r: Vec<Finding>)
    ensures
        finding_views(r@) == findings_spec(
            records@,
            crate::bytes::views(files@),
            files.len() as int,
        ),
{
    let mut r: Vec<Finding> = Vec::new();
    let mut i: usize = 0;
    proof {
        assert(finding_views(r@) =~= findings_spec(records@, crate::bytes::views(files@), 0));
    }
    while i < files.len()
        invariant
            i <= files.len(),
            finding_views(r@) == findings_spec(records@, crate::bytes::views(files@), i as int),
        decreases files.len() - i,
    {
        proof {
            assert(crate::bytes::views(files@)[i as int] == files@[i as int]@);
        }
        match check_file(records, files[i].as_slice()) {
            Some(f) => {
                proof {
                    assert(finding_views(r@.push(f)) =~= finding_views(r@).push(f@));
                }
                r.push(f);
            },
            None => {},
        }
        i += 1;
    }
    r
}

} // verus!
