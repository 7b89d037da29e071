//! Putting the masked sprites back into the packed sheets, each at the place
//! where the atlas has it.

use crate::bytes::{
    all_digits, copy_range, decimal_spec, digits_value, ends_with, has_prefix, has_suffix,
    is_digit, parse_decimal, starts_with, unsigned_part,
};
use crate::raster::{blit_spec, crop_spec, image_views, Image, ImageView};
use crate::record::{record_views, SpriteRecord, SpriteRecordView};
use vstd::prelude::*;

verus! {

/// The number of packed sheets.
pub const SHEET_COUNT: usize = 5;

/// Why a sprite could not be put into its sheet.
#[derive(Debug, Clone, Copy, PartialEq, Eq, Structural)]
pub enum SheetError {
    /// The sheet's name is not "cards", an optional number and ".png".
    NotASheet,
    /// The sheet's number is zero or beyond the sheets that there are.
    NoSuchSheet,
    /// The sprite's region leaves the bounds of its sheet.
    OutOfBounds,
}

/// The record at which the reconstruction stopped, and why.
#[derive(Debug, Clone, Copy, PartialEq, Eq, Structural)]
pub struct ReconstructError {
    /// The record's index in the sequence of records.
    pub record: usize,
    pub kind: SheetError,
}

/// The text "cards".
pub open spec fn sheet_stem() -> Seq<u8> {
    seq![99u8, 97u8, 114u8, 100u8, 115u8]
}

/// The text ".png".
pub open spec fn png_suffix() -> Seq<u8> {
    seq![46u8, 112u8, 110u8, 103u8]
}

/// The decimal digits of `n`, without leading zeros.
pub open spec fn digits_of(n: nat) -> Seq<u8>
    decreases n,
{
    if n < 10 {
        seq![(48 + n) as u8]
    } else {
        digits_of(n / 10) + seq![(48 + n % 10) as u8]
    }
}

/// The index of the sheet named `name` among `count` sheets. The name is
/// "cards", then the sheet's number, then ".png"; a number that is absent or
/// unreadable counts as 1, and the sheet with number `n` has index `n - 1`.
pub open spec fn sheet_index_spec(name: Seq<u8>, count: int) -> Result<int, SheetError> {
    if !has_prefix(name, sheet_stem()) || !has_suffix(name.subrange(5, name.len() as int), png_suffix()) {
        Err(SheetError::NotASheet)
    } else {
        let n = match decimal_spec(name.subrange(5, name.len() - 4), u64::MAX as int) {
            Some(n) => n,
            None => 1,
        };
        if 1 <= n <= count {
            Ok(n - 1)
        } else {
            Err(SheetError::NoSuchSheet)
        }
    }
}

/// The name of the file that the sheet with index `index` is written to: the
/// first sheet has no number, every later one its index plus one.
pub open spec fn sheet_file_spec(index: int) -> Seq<u8> {
    if index <= 0 {
        sheet_stem() + png_suffix()
    } else {
        sheet_stem() + digits_of((index + 1) as nat) + png_suffix()
    }
}

/// The sheets after the sprite of one record was put in: the sprite, cut to
/// the record's extent from its origin, replaces the region at the record's
/// offset in the record's sheet; no other sheet changes.
pub open spec fn place_spec(sheets: Seq<ImageView>, rec: SpriteRecordView, sprite: ImageView)
    -> Result<Seq<ImageView>, SheetError> {
    match sheet_index_spec(rec.sheet_file, sheets.len() as int) {
        Err(e) => Err(e),
        Ok(idx) => {
            let sheet = sheets[idx];
            let w = if rec.extent.0 <= sprite.width { rec.extent.0 } else { sprite.width };
            let h = if rec.extent.1 <= sprite.height { rec.extent.1 } else { sprite.height };
            if rec.offset.0 + w > sheet.width || rec.offset.1 + h > sheet.height {
                Err(SheetError::OutOfBounds)
            } else {
                Ok(
                    sheets.update(
                        idx,
                        ImageView {
                            width: sheet.width,
                            height: sheet.height,
                            data: blit_spec(
                                sheet.data,
                                sheet.width as int,
                                crop_spec(sprite.data, sprite.width as int, w as int, h as int),
                                w as int,
                                rec.offset.0 as int,
                                rec.offset.1 as int,
                                h as int,
                            ),
                        },
                    ),
                )
            }
        },
    }
}

/// The views of a list of sprites, some of them absent.
pub open spec fn sprite_views(sprites: Seq<Option<Image>>) -> Seq<Option<ImageView>> {
    Seq::new(
        sprites.len(),
        |i: int|
            match sprites[i] {
                Some(s) => Some(s@),
                None => None,
            },
    )
}

/// The sprite that goes with record `i`: absent where the list has none.
pub open spec fn sprite_of(sprites: Seq<Option<ImageView>>, i: int) -> Option<ImageView> {
    if 0 <= i < sprites.len() {
        sprites[i]
    } else {
        None
    }
}

/// The sheets after the records from `i` on were applied in order, each with
/// its sprite, and the fault that stopped the work, if one did. A record
/// without sprite is passed over; the first record that cannot be placed
/// stops the work, and the sheets stay as the records before it left them.
pub open spec fn reconstruct_from(
    sheets: Seq<ImageView>,
    recs: Seq<SpriteRecordView>,
    sprites: Seq<Option<ImageView>>,
    i: int,
) -> (Seq<ImageView>, Option<ReconstructError>)
    decreases recs.len() - i,
{
    if i < 0 || i >= recs.len() {
        (sheets, None)
    } else {
        match sprite_of(sprites, i) {
            None => reconstruct_from(sheets, recs, sprites, i + 1),
            Some(s) => match place_spec(sheets, recs[i], s) {
                Err(e) => (sheets, Some(ReconstructError { record: i as usize, kind: e })),
                Ok(next) => reconstruct_from(next, recs, sprites, i + 1),
            },
        }
    }
}

/// All images have as many samples as their dimensions say.
pub open spec fn all_wf(images: Seq<Image>) -> bool {
    forall|i: int| 0 <= i < images.len() ==> (#[trigger] images[i]).wf()
}

/// The decimal digits of `n`.
pub fn decimal_digits(n: u64) -> (r: Vec<u8>)
    ensures
        r@ == digits_of(n as nat),
    decreases n,
{
    if n < 10 {
        let r = vec![(48 + n) as u8];
        proof {
            assert(r@ =~= digits_of(n as nat));
        }
        r
    } else {
        let mut r = decimal_digits(n / 10);
        r.push((48 + n % 10) as u8);
        proof {
            assert(r@ =~= digits_of(n as nat));
        }
        r
    }
}

/// The index of the sheet named `name` among `count` sheets.
pub fn sheet_index(name: &[u8], count: usize) -> (r: Result<usize, SheetError>)
    ensures
        match r {
            Ok(i) => sheet_index_spec(name@, count as int) == Ok::<int, SheetError>(i as int) && i
                < count,
            Err(e) => sheet_index_spec(name@, count as int) == Err::<int, SheetError>(e),
        },
{
    let stem: [u8; 5] = [99, 97, 114, 100, 115];
    let png: [u8; 4] = [46, 112, 110, 103];
    proof {
        assert(stem@ =~= sheet_stem());
        assert(png@ =~= png_suffix());
    }
    if !starts_with(name, stem.as_slice()) {
        return Err(SheetError::NotASheet);
    }
    let rest = copy_range(name, 5, name.len());
    if !ends_with(rest.as_slice(), png.as_slice()) {
        return Err(SheetError::NotASheet);
    }
    let number = copy_range(rest.as_slice(), 0, rest.len() - 4);
    proof {
        assert(number@ =~= name@.subrange(5, name@.len() - 4));
    }
    let n: u64 = match parse_decimal(number.as_slice(), u64::MAX) {
        Some(n) => n,
        None => 1,
    };
    if 1 <= n && n <= count as u64 {
        Ok((n - 1) as usize)
    } else {
        Err(SheetError::NoSuchSheet)
    }
}

/// The name of the file that the sheet with index `index` is written to.
pub fn sheet_file_name(index: usize) -> (r: Vec<u8>)
    requires
        index < u64::MAX,
    ensures
        r@ == sheet_file_spec(index as int),
{
    let mut r: Vec<u8> = vec![99u8, 97u8, 114u8, 100u8, 115u8];
    let png: [u8; 4] = [46, 112, 110, 103];
    proof {
        assert(r@ =~= sheet_stem());
        assert(png@ =~= png_suffix());
    }
    if index > 0 {
        let digits = decimal_digits(index as u64 + 1);
        r.extend_from_slice(digits.as_slice());
    }
    r.extend_from_slice(png.as_slice());
    r
}

/// Puts the sprite of one record into its sheet: the sprite is cut to the
/// record's extent and copied to the record's offset. Where that cannot be
/// done, the sheets stay as they were.
pub fn place_sprite(sheets: &mut Vec<Image>, record: &SpriteRecord, sprite: &Image) -> (r: Result<
    (),
    SheetError,
>)
    requires
        all_wf(old(sheets)@),
        sprite.wf(),
    ensures
        all_wf(final(sheets)@),
        match r {
            Ok(()) => place_spec(image_views(old(sheets)@), record@, sprite@) == Ok::<
                Seq<ImageView>,
                SheetError,
            >(image_views(final(sheets)@)),
            Err(e) => place_spec(image_views(old(sheets)@), record@, sprite@) == Err::<
                Seq<ImageView>,
                SheetError,
            >(e) && image_views(final(sheets)@) == image_views(old(sheets)@),
        },
{
    let idx = match sheet_index(record.sheet_file.as_slice(), sheets.len()) {
        Ok(i) => i,
        Err(e) => {
            return Err(e);
        },
    };
    let cropped = sprite.crop(record.extent.0, record.extent.1);
    let ghost before = sheets@;
    assert(before[idx as int].wf());
    assert(image_views(before)[idx as int] == before[idx as int]@);
    let mut sheet = sheets.remove(idx);
    let outcome = sheet.copy_from(&cropped, record.offset.0, record.offset.1);
    sheets.insert(idx, sheet);
    proof {
        assert(sheets@.len() == before.len());
        assert forall|i: int| 0 <= i < sheets@.len() implies (#[trigger] sheets@[i]).wf() by {
            if i != idx {
                assert(sheets@[i] == before[i]);
            }
        }
    }
    match outcome {
        Err(_) => {
            proof {
                assert(image_views(sheets@) =~= image_views(before));
            }
            Err(SheetError::OutOfBounds)
        },
        Ok(()) => {
            proof {
                assert(image_views(sheets@) =~= place_spec(
                    image_views(before),
                    record@,
                    sprite@,
                ).unwrap());
            }
            Ok(())
        },
    }
}

/// Applies the records in order to the sheets, each with its masked sprite in
/// full resolution; `sprites[i]` goes with `records[i]`, and a record whose
/// sprite is absent is passed over. The first sprite that cannot be placed
/// stops the work: the error names its record, and the sheets stay as the
/// records before it left them.
pub fn modify_sprites(
    sheets: &mut Vec<Image>,
    records: &Vec<SpriteRecord>,
    sprites: &Vec<Option<Image>>,
) -> (r: Result<(), ReconstructError>)
    requires
        all_wf(old(sheets)@),
        forall|i: int|
            0 <= i < sprites.len() && (#[trigger] sprites[i]).is_some() ==> sprites[i].unwrap().wf(),
    ensures
        all_wf(final(sheets)@),
        reconstruct_from(
            image_views(old(sheets)@),
            record_views(records@),
            sprite_views(sprites@),
            0,
        ) == (
            image_views(final(sheets)@),
            match r {
                Ok(()) => None::<ReconstructError>,
                Err(e) => Some(e),
            },
        ),
{
    let mut i: usize = 0;
    while i < records.len()
        invariant
            i <= records.len(),
            all_wf(sheets@),
            forall|k: int|
                0 <= k < sprites.len() && (#[trigger] sprites[k]).is_some()
                    ==> sprites[k].unwrap().wf(),
            reconstruct_from(
                image_views(old(sheets)@),
                record_views(records@),
                sprite_views(sprites@),
                0,
            ) == reconstruct_from(
                image_views(sheets@),
                record_views(records@),
                sprite_views(sprites@),
                i as int,
            ),
        decreases records.len() - i,
    {
        proof {
            assert(record_views(records@)[i as int] == records@[i as int]@);
            if i < sprites.len() {
                assert(sprite_views(sprites@)[i as int] == (match sprites@[i as int] {
                    Some(s) => Some(s@),
                    None => None,
                }));
            }
        }
        if i < sprites.len() {
            match &sprites[i] {
                None => {},
                Some(s) => {
                    match place_sprite(sheets, &records[i], s) {
                        Err(e) => {
                            return Err(ReconstructError { record: i, kind: e });
                        },
                        Ok(()) => {},
                    }
                },
            }
        }
        i += 1;
    }
    Ok(())
}

/// The digits of a number are digits, at least one, and denote the number.
pub proof fn lemma_digits_denote(n: nat)
    ensures
        digits_of(n).len() > 0,
        all_digits(digits_of(n)),
        digits_value(digits_of(n)) == n,
    decreases n,
{
    let d = digits_of(n);
    if n < 10 {
        assert(d.drop_last() =~= Seq::<u8>::empty());
        assert(digits_value(d.drop_last()) == 0);
        assert(d.last() == (48 + n) as u8);
        assert forall|i: int| 0 <= i < d.len() implies is_digit(#[trigger] d[i]) by {
            assert(d[i] == (48 + n) as u8);
        }
    } else {
        lemma_digits_denote(n / 10);
        let front = digits_of(n / 10);
        assert(d == front + seq![(48 + n % 10) as u8]);
        assert(d.drop_last() =~= front);
        assert(d.last() == (48 + n % 10) as u8);
        assert forall|i: int| 0 <= i < d.len() implies is_digit(#[trigger] d[i]) by {
            if i < front.len() {
                assert(d[i] == front[i]);
            }
        }
    }
}

/// Each sheet is written under the name that it is found by: the name of
/// the file for index `index` is the name of the sheet with that index.
pub proof fn lemma_sheet_names_round_trip(index: int, count: int)
    requires
        0 <= index < count,
        index < u64::MAX,
    ensures
        sheet_index_spec(sheet_file_spec(index), count) == Ok::<int, SheetError>(index),
{
    let name = sheet_file_spec(index);
    let digits = if index == 0 { Seq::<u8>::empty() } else { digits_of((index + 1) as nat) };
    assert(name =~= sheet_stem() + digits + png_suffix());
    assert(name.subrange(0, 5) =~= sheet_stem());
    let rest = name.subrange(5, name.len() as int);
    assert(rest =~= digits + png_suffix());
    assert(rest.subrange(rest.len() - 4, rest.len() as int) =~= png_suffix());
    assert(name.subrange(5, name.len() - 4) =~= digits);
    if index > 0 {
        lemma_digits_denote((index + 1) as nat);
        assert(is_digit(digits[0]));
        assert(unsigned_part(digits) == digits);
    }
}

/// What the reconstruction gives depends on the values of the sheets, the
/// records and the sprites alone: two runs on equal values give equal sheets,
/// sample for sample, and stop at the same record for the same reason if
/// they stop.
pub proof fn lemma_reconstruction_deterministic(
    first: Seq<Image>,
    second: Seq<Image>,
    records_first: Seq<SpriteRecord>,
    records_second: Seq<SpriteRecord>,
    sprites_first: Seq<Option<Image>>,
    sprites_second: Seq<Option<Image>>,
)
    requires
        image_views(first) == image_views(second),
        record_views(records_first) == record_views(records_second),
        sprite_views(sprites_first) == sprite_views(sprites_second),
    ensures
        reconstruct_from(
            image_views(first),
            record_views(records_first),
            sprite_views(sprites_first),
            0,
        ) == reconstruct_from(
            image_views(second),
            record_views(records_second),
            sprite_views(sprites_second),
            0,
        ),
{
}

} // verus!
