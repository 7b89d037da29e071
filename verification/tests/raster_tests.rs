use atlas_retheme::masking::{cut_sprite, mask_file_name, mask_kind, mask_sprite, MaskKind, MaskSet};
use atlas_retheme::raster::{Image, MaskError, OutOfBounds};
use atlas_retheme::record::SpriteRecord;
use atlas_retheme::sheets::{
    decimal_digits, modify_sprites, place_sprite, sheet_file_name, sheet_index, ReconstructError,
    SheetError,
};

fn solid(width: u32, height: u32, pixel: [u8; 4]) -> Image {
    let mut data = Vec::new();
    for _ in 0..(width as usize * height as usize) {
        data.extend_from_slice(&pixel);
    }
    Image::new(width, height, data).unwrap()
}

fn numbered(width: u32, height: u32, from: u8) -> Image {
    let n = width as usize * height as usize * 4;
    let data: Vec<u8> = (0..n).map(|i| from.wrapping_add(i as u8)).collect();
    Image::new(width, height, data).unwrap()
}

fn sprite_record(sheet: &str, category: Option<&str>, offset: (u32, u32), extent: (u32, u32)) -> SpriteRecord {
    SpriteRecord {
        sheet_file: sheet.as_bytes().to_vec(),
        character: b"ironclad".to_vec(),
        category: category.map(|c| c.as_bytes().to_vec()),
        base_name: b"strike".to_vec(),
        offset,
        extent,
    }
}

#[test]
fn an_image_needs_four_samples_per_pixel() {
    assert!(Image::new(2, 3, vec![0; 24]).is_some());
    assert!(Image::new(2, 3, vec![0; 23]).is_none());
    assert!(Image::new(0, 3, vec![]).is_some());
    let bad = Image { width: 1, height: 1, data: vec![1, 2, 3] };
    assert!(!bad.is_well_formed());
    assert!(solid(3, 2, [1, 2, 3, 4]).is_well_formed());
}

#[test]
fn black_mask_pixels_clear_all_four_samples() {
    let mask = Image::new(3, 1, vec![0, 9, 9, 9, 1, 0, 0, 0, 0, 0, 0, 255]).unwrap();
    let mut sprite = Image::new(3, 1, vec![1, 2, 3, 4, 5, 6, 7, 8, 9, 10, 11, 12]).unwrap();
    assert_eq!(sprite.apply_mask(&mask), Ok(()));
    assert_eq!(sprite.data, vec![0, 0, 0, 0, 5, 6, 7, 8, 0, 0, 0, 0]);
    assert_eq!((sprite.width, sprite.height), (3, 1));
}

#[test]
fn masking_twice_changes_nothing_more() {
    let mask = Image::new(2, 2, vec![0, 0, 0, 0, 7, 0, 0, 0, 0, 1, 1, 1, 255, 255, 255, 255]).unwrap();
    let mut once = numbered(2, 2, 1);
    once.apply_mask(&mask).unwrap();
    let mut twice = Image::new(2, 2, once.data.clone()).unwrap();
    twice.apply_mask(&mask).unwrap();
    assert_eq!(once, twice);
}

#[test]
fn a_mask_of_other_dimensions_is_refused() {
    let mask = solid(2, 1, [0, 0, 0, 0]);
    let mut sprite = numbered(1, 2, 1);
    let before = sprite.data.clone();
    assert_eq!(sprite.apply_mask(&mask), Err(MaskError::DimensionMismatch));
    assert_eq!(sprite.data, before);
}

#[test]
fn crop_keeps_the_top_left_part() {
    let src = numbered(3, 2, 0);
    let cut = src.crop(2, 1);
    assert_eq!((cut.width, cut.height), (2, 1));
    assert_eq!(cut.data, vec![0, 1, 2, 3, 4, 5, 6, 7]);
    let cut = src.crop(1, 2);
    assert_eq!(cut.data, vec![0, 1, 2, 3, 12, 13, 14, 15]);
    let all = src.crop(10, 10);
    assert_eq!(all, src);
    let none = src.crop(0, 5);
    assert_eq!((none.width, none.height, none.data.len()), (0, 2, 0));
}

#[test]
fn copy_from_replaces_the_region_at_the_offset() {
    let mut sheet = solid(3, 3, [9, 9, 9, 9]);
    let src = numbered(2, 2, 100);
    assert_eq!(sheet.copy_from(&src, 1, 1), Ok(()));
    let n = [9u8, 9, 9, 9];
    let mut want = Vec::new();
    want.extend_from_slice(&n);
    want.extend_from_slice(&n);
    want.extend_from_slice(&n);
    want.extend_from_slice(&n);
    want.extend_from_slice(&[100, 101, 102, 103, 104, 105, 106, 107]);
    want.extend_from_slice(&n);
    want.extend_from_slice(&[108, 109, 110, 111, 112, 113, 114, 115]);
    assert_eq!(sheet.data, want);
}

#[test]
fn copy_from_beyond_the_bounds_is_refused() {
    let mut sheet = solid(3, 3, [9, 9, 9, 9]);
    let before = sheet.data.clone();
    assert_eq!(sheet.copy_from(&numbered(2, 2, 0), 2, 0), Err(OutOfBounds));
    assert_eq!(sheet.copy_from(&numbered(2, 2, 0), 0, 2), Err(OutOfBounds));
    assert_eq!(sheet.copy_from(&numbered(1, 1, 0), u32::MAX, 0), Err(OutOfBounds));
    assert_eq!(sheet.data, before);
    assert_eq!(sheet.copy_from(&numbered(0, 0, 0), 3, 3), Ok(()));
    assert_eq!(sheet.data, before);
}

#[test]
fn thumbnails_are_250_by_190() {
    let src = solid(500, 380, [10, 20, 30, 255]);
    let thumb = src.thumbnail().unwrap();
    assert_eq!((thumb.width, thumb.height), (250, 190));
    assert_eq!(thumb.data.len(), 250 * 190 * 4);
    assert!(thumb.data.chunks(4).all(|p| p == [10, 20, 30, 255]));
    let narrow = solid(7, 3, [1, 2, 3, 4]).thumbnail().unwrap();
    assert_eq!((narrow.width, narrow.height, narrow.data.len()), (250, 190, 190000));
    assert!(solid(0, 4, [0, 0, 0, 0]).thumbnail().is_none());
}

#[test]
fn thumbnails_are_the_same_on_every_run() {
    let src = numbered(40, 30, 3);
    assert_eq!(src.thumbnail(), src.thumbnail());
}

#[test]
fn masks_go_by_category() {
    assert_eq!(mask_kind(&Some(b"attack".to_vec())), MaskKind::Attack);
    assert_eq!(mask_kind(&Some(b"power".to_vec())), MaskKind::Power);
    assert_eq!(mask_kind(&Some(b"skill".to_vec())), MaskKind::Skill);
    assert_eq!(mask_kind(&Some(b"status".to_vec())), MaskKind::Skill);
    assert_eq!(mask_kind(&None), MaskKind::Skill);
    assert_eq!(mask_file_name(MaskKind::Attack), b"AttackMask_p.png".to_vec());
    assert_eq!(mask_file_name(MaskKind::Power), b"PowerMask_p.png".to_vec());
    assert_eq!(mask_file_name(MaskKind::Skill), b"SkillMask_p.png".to_vec());
}

#[test]
fn a_sprite_is_cut_by_the_mask_of_its_category() {
    let masks = MaskSet {
        attack: solid(2, 2, [0, 0, 0, 0]),
        power: solid(2, 2, [1, 0, 0, 0]),
        skill: Image::new(2, 2, vec![0, 0, 0, 0, 1, 1, 1, 1, 1, 1, 1, 1, 1, 1, 1, 1]).unwrap(),
    };
    let plain = sprite_record("cards.png", None, (0, 0), (2, 2));
    let out = mask_sprite(&plain, &masks, Some(solid(2, 2, [50, 60, 70, 255]))).unwrap().unwrap();
    assert_eq!(
        out.portrait.data,
        vec![0, 0, 0, 0, 50, 60, 70, 255, 50, 60, 70, 255, 50, 60, 70, 255]
    );
    assert_eq!((out.thumbnail.width, out.thumbnail.height), (250, 190));
    let attack = sprite_record("cards.png", Some("attack"), (0, 0), (2, 2));
    let out = mask_sprite(&attack, &masks, Some(solid(2, 2, [50, 60, 70, 255]))).unwrap().unwrap();
    assert_eq!(out.portrait.data, vec![0; 16]);
    let power = sprite_record("cards.png", Some("power"), (0, 0), (2, 2));
    let out = mask_sprite(&power, &masks, Some(solid(2, 2, [50, 60, 70, 255]))).unwrap().unwrap();
    assert_eq!(out.portrait, solid(2, 2, [50, 60, 70, 255]));
}

#[test]
fn an_absent_sprite_is_passed_over_and_a_wrong_one_refused() {
    let mask = solid(2, 2, [1, 0, 0, 0]);
    assert_eq!(cut_sprite(&mask, None), Ok(None));
    assert_eq!(cut_sprite(&mask, Some(solid(2, 3, [1, 1, 1, 1]))), Err(MaskError::DimensionMismatch));
    let empty = solid(0, 0, [0, 0, 0, 0]);
    assert_eq!(cut_sprite(&empty, Some(solid(0, 0, [0, 0, 0, 0]))), Err(MaskError::EmptyImage));
}

#[test]
fn sheet_numbers() {
    assert_eq!(sheet_index(b"cards.png", 5), Ok(0));
    assert_eq!(sheet_index(b"cards1.png", 5), Ok(0));
    assert_eq!(sheet_index(b"cards2.png", 5), Ok(1));
    assert_eq!(sheet_index(b"cards5.png", 5), Ok(4));
    assert_eq!(sheet_index(b"cardsx.png", 5), Ok(0));
    assert_eq!(sheet_index(b"cards6.png", 5), Err(SheetError::NoSuchSheet));
    assert_eq!(sheet_index(b"cards0.png", 5), Err(SheetError::NoSuchSheet));
    assert_eq!(sheet_index(b"cards.png", 0), Err(SheetError::NoSuchSheet));
    assert_eq!(sheet_index(b"card.png", 5), Err(SheetError::NotASheet));
    assert_eq!(sheet_index(b"cards3.jpg", 5), Err(SheetError::NotASheet));
    assert_eq!(sheet_index(b"cards", 5), Err(SheetError::NotASheet));
    assert_eq!(sheet_file_name(0), b"cards.png".to_vec());
    assert_eq!(sheet_file_name(1), b"cards2.png".to_vec());
    assert_eq!(sheet_file_name(4), b"cards5.png".to_vec());
    assert_eq!(sheet_file_name(9), b"cards10.png".to_vec());
    assert_eq!(decimal_digits(0), b"0".to_vec());
    assert_eq!(decimal_digits(1205), b"1205".to_vec());
    assert_eq!(decimal_digits(u64::MAX), b"18446744073709551615".to_vec());
}

#[test]
fn a_sprite_goes_into_its_sheet_at_its_offset() {
    let mut sheets = vec![solid(4, 4, [1, 1, 1, 1]), solid(4, 4, [2, 2, 2, 2])];
    let rec = sprite_record("cards2.png", None, (2, 1), (2, 2));
    let sprite = solid(3, 3, [7, 8, 9, 10]);
    assert_eq!(place_sprite(&mut sheets, &rec, &sprite), Ok(()));
    assert_eq!(sheets[0], solid(4, 4, [1, 1, 1, 1]));
    let mut want = solid(4, 4, [2, 2, 2, 2]);
    for (x, y) in [(2usize, 1usize), (3, 1), (2, 2), (3, 2)] {
        let at = (y * 4 + x) * 4;
        want.data[at..at + 4].copy_from_slice(&[7, 8, 9, 10]);
    }
    assert_eq!(sheets[1], want);
}

#[test]
fn the_scenario_sprite_lands_in_the_first_sheet() {
    let mut sheets: Vec<Image> = (0..5).map(|i| solid(100, 100, [i as u8, 0, 0, 255])).collect();
    let rec = sprite_record("cards.png", None, (10, 10), (64, 64));
    let sprite = solid(64, 64, [200, 100, 50, 255]);
    assert_eq!(modify_sprites(&mut sheets, &vec![rec], &vec![Some(sprite)]), Ok(()));
    for y in 0..100usize {
        for x in 0..100usize {
            let at = (y * 100 + x) * 4;
            let inside = (10..74).contains(&x) && (10..74).contains(&y);
            let want: [u8; 4] = if inside { [200, 100, 50, 255] } else { [0, 0, 0, 255] };
            assert_eq!(sheets[0].data[at..at + 4], want);
        }
    }
    for i in 1..5 {
        assert_eq!(sheets[i], solid(100, 100, [i as u8, 0, 0, 255]));
    }
}

#[test]
fn reconstruction_passes_over_absent_sprites_and_stops_at_a_bad_one() {
    let fresh = || vec![solid(4, 4, [1, 1, 1, 1])];
    let records = vec![
        sprite_record("cards.png", None, (0, 0), (1, 1)),
        sprite_record("cards.png", None, (1, 1), (1, 1)),
        sprite_record("cards.png", None, (3, 3), (2, 2)),
    ];
    let mut sheets = fresh();
    let sprites = vec![None, Some(solid(1, 1, [5, 5, 5, 5]))];
    assert_eq!(modify_sprites(&mut sheets, &records, &sprites), Ok(()));
    let mut want = solid(4, 4, [1, 1, 1, 1]);
    want.data[20..24].copy_from_slice(&[5, 5, 5, 5]);
    assert_eq!(sheets[0], want);

    let mut sheets = fresh();
    let sprites = vec![None, None, Some(solid(2, 2, [5, 5, 5, 5]))];
    assert_eq!(
        modify_sprites(&mut sheets, &records, &sprites),
        Err(ReconstructError { record: 2, kind: SheetError::OutOfBounds })
    );
    assert_eq!(sheets, fresh());

    let mut sheets = fresh();
    let far = vec![sprite_record("cards2.png", None, (0, 0), (1, 1))];
    assert_eq!(
        modify_sprites(&mut sheets, &far, &vec![Some(solid(1, 1, [0, 0, 0, 0]))]),
        Err(ReconstructError { record: 0, kind: SheetError::NoSuchSheet })
    );
    let odd = vec![sprite_record("sheet.png", None, (0, 0), (1, 1))];
    assert_eq!(
        modify_sprites(&mut sheets, &odd, &vec![Some(solid(1, 1, [0, 0, 0, 0]))]),
        Err(ReconstructError { record: 0, kind: SheetError::NotASheet })
    );
}

#[test]
fn reconstruction_gives_the_same_sheets_on_every_run() {
    let records = vec![
        sprite_record("cards.png", None, (0, 1), (2, 2)),
        sprite_record("cards2.png", Some("attack"), (1, 0), (3, 1)),
        sprite_record("cards.png", None, (1, 1), (2, 2)),
    ];
    let sprites = || vec![Some(numbered(2, 2, 10)), Some(numbered(3, 3, 50)), Some(numbered(4, 4, 90))];
    let mut first = vec![solid(4, 4, [1, 1, 1, 1]), solid(4, 4, [2, 2, 2, 2])];
    let mut second = vec![solid(4, 4, [1, 1, 1, 1]), solid(4, 4, [2, 2, 2, 2])];
    assert_eq!(modify_sprites(&mut first, &records, &sprites()), Ok(()));
    assert_eq!(modify_sprites(&mut second, &records, &sprites()), Ok(()));
    assert_eq!(first, second);
    assert_ne!(first[0], solid(4, 4, [1, 1, 1, 1]));
}

#[test]
fn a_sheet_is_found_again_by_the_name_it_is_written_to() {
    for index in 0..5usize {
        assert_eq!(sheet_index(&sheet_file_name(index), 5), Ok(index));
    }
    assert_eq!(sheet_index(&sheet_file_name(5), 5), Err(SheetError::NoSuchSheet));
    assert_eq!(sheet_index(&sheet_file_name(41), 100), Ok(41));
}

#[test]
fn a_failed_placement_leaves_the_earlier_ones_in_the_sheets() {
    let records = vec![
        sprite_record("cards.png", None, (0, 0), (1, 1)),
        sprite_record("cards.png", None, (2, 2), (1, 1)),
    ];
    let mut sheets = vec![solid(2, 2, [1, 1, 1, 1])];
    let sprites = vec![Some(solid(1, 1, [5, 5, 5, 5])), Some(solid(1, 1, [6, 6, 6, 6]))];
    assert_eq!(
        modify_sprites(&mut sheets, &records, &sprites),
        Err(ReconstructError { record: 1, kind: SheetError::OutOfBounds })
    );
    let mut want = solid(2, 2, [1, 1, 1, 1]);
    want.data[0..4].copy_from_slice(&[5, 5, 5, 5]);
    assert_eq!(sheets, vec![want]);
}
