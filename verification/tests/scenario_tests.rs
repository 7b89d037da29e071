use atlas_retheme::atlas::parse_input;
use atlas_retheme::distribute::{move_sprites, portrait_file_name, thumbnail_file_name};
use atlas_retheme::masking::{mask_file_name, mask_kind, mask_sprite, MaskKind, MaskSet};
use atlas_retheme::raster::Image;
use atlas_retheme::sheets::{modify_sprites, sheet_file_name, sheet_index, SHEET_COUNT};
use atlas_retheme::validate::{check_not_exist, check_valid_sprites};

fn solid_image(width: u32, height: u32, pixel: [u8; 4]) -> Image {
    let mut data = Vec::new();
    for _ in 0..(width as usize * height as usize) {
        data.extend_from_slice(&pixel);
    }
    Image::new(width, height, data).unwrap()
}

#[test]
fn one_sprite_through_every_stage() {
    let text = "cards.png\nsize: 128,128\nformat: RGBA8888\nfilter: Linear,Linear\nrepeat: none\n\
                ironclad/strike\n  rotate: false\n  xy: 10, 10\n  orig: 64, 64\n  size: 64, 64\n  \
                offset: 0, 0\n  index: -1\n";
    let records = parse_input(text.as_bytes()).unwrap();
    assert_eq!(records.len(), 1);
    let record = &records[0];
    assert_eq!(record.sheet_file, b"cards.png".to_vec());
    assert_eq!(record.character, b"ironclad".to_vec());
    assert_eq!(record.category, None);
    assert_eq!(record.base_name, b"strike".to_vec());
    assert_eq!(record.offset, (10, 10));
    assert_eq!(record.extent, (64, 64));

    let name = record.canonical_name();
    assert_eq!(name, b"strike_i".to_vec());
    assert_eq!(thumbnail_file_name(&name), b"strike_i.png".to_vec());
    assert_eq!(portrait_file_name(&name), b"strike_i_p.png".to_vec());

    assert_eq!(mask_kind(&record.category), MaskKind::Skill);
    assert_eq!(mask_file_name(mask_kind(&record.category)), b"SkillMask_p.png".to_vec());
    let mut skill = solid_image(64, 64, [255, 255, 255, 255]);
    skill.data[0] = 0;
    let masks = MaskSet {
        attack: solid_image(64, 64, [0, 0, 0, 255]),
        power: solid_image(64, 64, [0, 0, 0, 255]),
        skill,
    };
    let source = solid_image(64, 64, [40, 50, 60, 255]);
    let masked = mask_sprite(record, &masks, Some(source)).unwrap().unwrap();
    assert_eq!(masked.portrait.data[0..4], [0, 0, 0, 0]);
    assert_eq!(masked.portrait.data[4..8], [40, 50, 60, 255]);
    assert_eq!((masked.thumbnail.width, masked.thumbnail.height), (250, 190));

    assert_eq!(sheet_index(&record.sheet_file, SHEET_COUNT), Ok(0));
    let mut sheets: Vec<Image> = (0..SHEET_COUNT).map(|_| solid_image(128, 128, [1, 2, 3, 4])).collect();
    let sprites = vec![Some(masked.portrait)];
    assert_eq!(modify_sprites(&mut sheets, &records, &sprites), Ok(()));
    let at = |x: usize, y: usize| (y * 128 + x) * 4;
    assert_eq!(sheets[0].data[at(10, 10)..at(10, 10) + 4], [0, 0, 0, 0]);
    assert_eq!(sheets[0].data[at(11, 10)..at(11, 10) + 4], [40, 50, 60, 255]);
    assert_eq!(sheets[0].data[at(73, 73)..at(73, 73) + 4], [40, 50, 60, 255]);
    assert_eq!(sheets[0].data[at(9, 10)..at(9, 10) + 4], [1, 2, 3, 4]);
    assert_eq!(sheets[0].data[at(74, 73)..at(74, 73) + 4], [1, 2, 3, 4]);
    assert_eq!(sheets[0].data[at(73, 74)..at(73, 74) + 4], [1, 2, 3, 4]);
    for sheet in &sheets[1..] {
        assert_eq!(*sheet, solid_image(128, 128, [1, 2, 3, 4]));
    }
    assert_eq!(sheet_file_name(0), b"cards.png".to_vec());

    assert_eq!(
        move_sprites(b"root", &records, &vec![true]),
        vec![Some(b"root/ironclad/strike.png".to_vec())]
    );
    assert_eq!(check_not_exist(&records, &vec![true]), Vec::<Vec<u8>>::new());
    assert_eq!(check_valid_sprites(&records, &vec![b"strike_i.png".to_vec()]), vec![]);
}
