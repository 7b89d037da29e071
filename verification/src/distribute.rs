//! Where the finished portraits go: one file per record in a tree of
//! characters and categories, but for the one sprite that is left out.

use crate::bytes::eq_bytes;
use crate::record::{SpriteRecord, SpriteRecordView};
use vstd::prelude::*;

verus! {

/// The text "status".
pub open spec fn status() -> Seq<u8> {
    seq![115u8, 116u8, 97u8, 116u8, 117u8, 115u8]
}

/// The text "beta".
pub open spec fn beta() -> Seq<u8> {
    seq![98u8, 101u8, 116u8, 97u8]
}

/// The text "/".
pub open spec fn separator() -> Seq<u8> {
    seq![47u8]
}

/// The text ".png".
pub open spec fn png() -> Seq<u8> {
    seq![46u8, 112u8, 110u8, 103u8]
}

/// The text "_p.png".
pub open spec fn portrait_suffix() -> Seq<u8> {
    seq![95u8, 112u8, 46u8, 112u8, 110u8, 103u8]
}

/// The record is the one sprite that is never distributed: "beta" of the
/// category "status".
pub open spec fn is_excluded(rec: SpriteRecordView) -> bool {
    rec.category == Some(status()) && rec.base_name == beta()
}

/// The path of a record's portrait below `root`.
pub open spec fn destination_spec(root: Seq<u8>, rec: SpriteRecordView) -> Seq<u8> {
    match rec.category {
        Some(c) => root + separator() + rec.character + separator() + c + separator()
            + rec.base_name + png(),
        None => root + separator() + rec.character + separator() + rec.base_name + png(),
    }
}

/// Where a record's portrait is copied to, if it is copied: not for the
/// excluded sprite, and not where the portrait is not on disk.
pub open spec fn move_spec(root: Seq<u8>, rec: SpriteRecordView, present: bool) -> Option<Seq<u8>> {
    if is_excluded(rec) || !present {
        None
    } else {
        Some(destination_spec(root, rec))
    }
}

/// Whether record `i` has its portrait on disk: not where the list is silent.
pub open spec fn present_at(present: Seq<bool>, i: int) -> bool {
    0 <= i < present.len() && present[i]
}

/// The name of the file that holds the portrait of the sprite `name`.
pub fn portrait_file_name(name: &[u8]) -> (r: Vec<u8>)
    ensures
        r@ == name@ + portrait_suffix(),
{
    let suffix: [u8; 6] = [95, 112, 46, 112, 110, 103];
    proof {
        assert(suffix@ =~= portrait_suffix());
    }
    let mut r: Vec<u8> = Vec::new();
    r.extend_from_slice(name);
    r.extend_from_slice(suffix.as_slice());
    r
}

/// The name of the file that holds the thumbnail of the sprite `name`, which
/// is also the name of its source image.
pub fn thumbnail_file_name(name: &[u8]) -> (r: Vec<u8>)
    ensures
        r@ == name@ + png(),
{
    let suffix: [u8; 4] = [46, 112, 110, 103];
    proof {
        assert(suffix@ =~= png());
    }
    let mut r: Vec<u8> = Vec::new();
    r.extend_from_slice(name);
    r.extend_from_slice(suffix.as_slice());
    r
}

/// Whether the record is the sprite that is never distributed.
pub fn is_excluded_record(record: &SpriteRecord) -> (r: bool)
    ensures
        r == is_excluded(record@),
{
    let status: [u8; 6] = [115, 116, 97, 116, 117, 115];
    let beta: [u8; 4] = [98, 101, 116, 97];
    proof {
        assert(status@ =~= self::status());
        assert(beta@ =~= self::beta());
    }
    match &record.category {
        Some(c) => eq_bytes(c.as_slice(), status.as_slice()) && eq_bytes(
            record.base_name.as_slice(),
            beta.as_slice(),
        ),
        None => false,
    }
}

/// The path of the record's portrait below `root`.
pub fn destination_path(root: &[u8], record: &SpriteRecord) -> (r: Vec<u8>)
    ensures
        r@ == destination_spec(root@, record@),
{
    let sep: [u8; 1] = [47];
    let suffix: [u8; 4] = [46, 112, 110, 103];
    proof {
        assert(sep@ =~= separator());
        assert(suffix@ =~= png());
    }
    let mut r: Vec<u8> = Vec::new();
    r.extend_from_slice(root);
    r.extend_from_slice(sep.as_slice());
    r.extend_from_slice(record.character.as_slice());
    r.extend_from_slice(sep.as_slice());
    match &record.category {
        Some(c) => {
            r.extend_from_slice(c.as_slice());
            r.extend_from_slice(sep.as_slice());
        },
        None => {},
    }
    r.extend_from_slice(record.base_name.as_slice());
    r.extend_from_slice(suffix.as_slice());
    proof {
        assert(r@ =~= destination_spec(root@, record@));
    }
    r
}

/// Where the record's portrait is to be copied, if anywhere; `present` says
/// whether the portrait is on disk.
pub fn move_sprite(root: &[u8], record: &SpriteRecord, present: bool) -> (r: Option<Vec<u8>>)
    ensures
        r.is_some() == move_spec(root@, record@, present).is_some(),
        r.is_some() ==> r.unwrap()@ == move_spec(root@, record@, present).unwrap(),
{
    if is_excluded_record(record) || !present {
        None
    } else {
        Some(destination_path(root, record))
    }
}

/// For each record, in order, where its portrait is to be copied, if
/// anywhere; `present[i]` says whether the portrait of `records[i]` is on
/// disk.
pub fn move_sprites(root: &[u8], records: &Vec<SpriteRecord>, present: &Vec<bool>) -> (r: Vec<
    Option<Vec<u8>>,
>)
    ensures
        r.len() == records.len(),
        forall|i: int|
            0 <= i < records.len() ==> (#[trigger] r[i]).is_some() == move_spec(
                root@,
                records[i]@,
                present_at(present@, i),
            ).is_some(),
        forall|i: int|
            0 <= i < records.len() && (#[trigger] r[i]).is_some() ==> r[i].unwrap()@ == move_spec(
                root@,
                records[i]@,
                present_at(present@, i),
            ).unwrap(),
{
    let mut r: Vec<Option<Vec<u8>>> = Vec::new();
    let mut i: usize = 0;
    while i < records.len()
        invariant
            i <= records.len(),
            r.len() == i,
            forall|k: int|
                0 <= k < i ==> (#[trigger] r[k]).is_some() == move_spec(
                    root@,
                    records[k]@,
                    present_at(present@, k),
                ).is_some(),
            forall|k: int|
                0 <= k < i && (#[trigger] r[k]).is_some() ==> r[k].unwrap()@ == move_spec(
                    root@,
                    records[k]@,
                    present_at(present@, k),
                ).unwrap(),
        decreases records.len() - i,
    {
        let on_disk: bool = i < present.len() && present[i];
        r.push(move_sprite(root, &records[i], on_disk));
        i += 1;
    }
    r
}

/// No byte of `s` is a "/".
pub open spec fn no_separator(s: Seq<u8>) -> bool {
    forall|i: int| 0 <= i < s.len() ==> #[trigger] s[i] != 47u8
}

/// None of the record's character, category and base name holds a "/", as
/// it is with every record that was read from an atlas.
pub open spec fn plain_names(rec: SpriteRecordView) -> bool {
    &&& no_separator(rec.character)
    &&& no_separator(rec.base_name)
    &&& rec.category is Some ==> no_separator(rec.category.unwrap())
}

/// The path below `root` that is never to be written for `character`.
pub open spec fn excluded_path(root: Seq<u8>, character: Seq<u8>) -> Seq<u8> {
    root + separator() + character + separator() + status() + separator() + beta() + png()
}

/// Two paths that are equal and whose first segments hold no "/" have the
/// same first segment and the same rest.
pub proof fn lemma_first_segment(a1: Seq<u8>, t1: Seq<u8>, a2: Seq<u8>, t2: Seq<u8>)
    requires
        no_separator(a1),
        no_separator(a2),
        a1 + separator() + t1 == a2 + separator() + t2,
    ensures
        a1 == a2,
        t1 == t2,
{
    let s1 = a1 + separator() + t1;
    let s2 = a2 + separator() + t2;
    assert(s1[a1.len() as int] == 47u8);
    assert(s2[a2.len() as int] == 47u8);
    if a1.len() < a2.len() {
        assert(s2[a1.len() as int] == a2[a1.len() as int]);
    }
    if a2.len() < a1.len() {
        assert(s1[a2.len() as int] == a1[a2.len() as int]);
    }
    assert(a1 =~= s1.subrange(0, a1.len() as int));
    assert(a2 =~= s2.subrange(0, a2.len() as int));
    assert(t1 =~= s1.subrange(a1.len() as int + 1, s1.len() as int));
    assert(t2 =~= s2.subrange(a2.len() as int + 1, s2.len() as int));
}

/// The file "status/beta.png" of a character is never written: whatever the
/// record, if its names hold no "/", its portrait is not copied there.
pub proof fn lemma_status_beta_never_written(
    root: Seq<u8>,
    rec: SpriteRecordView,
    present: bool,
    character: Seq<u8>,
)
    requires
        plain_names(rec),
        no_separator(character),
    ensures
        move_spec(root, rec, present) != Some(excluded_path(root, character)),
{
    let target = excluded_path(root, character);
    if move_spec(root, rec, present) == Some(target) {
        let dest = destination_spec(root, rec);
        let head = root + separator();
        let tail_b = status() + separator() + (beta() + png());
        let rest_b = character + separator() + tail_b;
        assert(target =~= head + rest_b);
        let tail_a = match rec.category {
            Some(c) => c + separator() + (rec.base_name + png()),
            None => rec.base_name + png(),
        };
        let rest_a = rec.character + separator() + tail_a;
        assert(dest =~= head + rest_a);
        assert(rest_a =~= (head + rest_a).subrange(head.len() as int, (head + rest_a).len() as int));
        assert(rest_b =~= (head + rest_b).subrange(head.len() as int, (head + rest_b).len() as int));
        lemma_first_segment(rec.character, tail_a, character, tail_b);
        assert(tail_b[6] == 47u8);
        assert(tail_b.len() == 15);
        match rec.category {
            Some(c) => {
                assert(no_separator(status())) by {
                    assert forall|i: int| 0 <= i < status().len() implies #[trigger] status()[i]
                        != 47u8 by {}
                }
                lemma_first_segment(c, rec.base_name + png(), status(), beta() + png());
                let both = rec.base_name + png();
                assert(rec.base_name =~= both.subrange(0, both.len() - 4));
                assert(beta() =~= (beta() + png()).subrange(0, (beta() + png()).len() - 4));
                assert(is_excluded(rec));
            },
            None => {
                assert(rec.base_name.len() == 11);
                assert(tail_a[6] == rec.base_name[6]);
            },
        }
    }
}

/// The excluded sprite is never copied anywhere, whether or not its portrait
/// is on disk.
pub proof fn lemma_excluded_never_moved(root: Seq<u8>, rec: SpriteRecordView, present: bool)
    requires
        is_excluded(rec),
    ensures
        move_spec(root, rec, present) is None,
{
}

} // verus!
