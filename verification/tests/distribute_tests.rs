use atlas_retheme::distribute::{
    destination_path, is_excluded_record, move_sprite, move_sprites, portrait_file_name,
    thumbnail_file_name,
};
use atlas_retheme::record::SpriteRecord;
use atlas_retheme::validate::{check_file, check_not_exist, check_valid_sprites, has_record, Finding};

fn record(character: &str, category: Option<&str>, base: &str) -> SpriteRecord {
    SpriteRecord {
        sheet_file: b"cards.png".to_vec(),
        character: character.as_bytes().to_vec(),
        category: category.map(|c| c.as_bytes().to_vec()),
        base_name: base.as_bytes().to_vec(),
        offset: (0, 0),
        extent: (1, 1),
    }
}

#[test]
fn portraits_go_below_character_and_category() {
    let with = record("silent", Some("attack"), "slice");
    let without = record("ironclad", None, "strike");
    assert_eq!(destination_path(b"out", &with), b"out/silent/attack/slice.png".to_vec());
    assert_eq!(destination_path(b"out", &without), b"out/ironclad/strike.png".to_vec());
    assert_eq!(move_sprite(b"out", &without, true), Some(b"out/ironclad/strike.png".to_vec()));
    assert_eq!(move_sprite(b"out", &without, false), None);
}

#[test]
fn status_beta_is_never_distributed() {
    let beta = record("colorless", Some("status"), "beta");
    assert!(is_excluded_record(&beta));
    assert_eq!(move_sprite(b"out", &beta, true), None);
    assert_eq!(move_sprite(b"out", &beta, false), None);
    assert!(!is_excluded_record(&record("colorless", Some("status"), "burn")));
    assert!(!is_excluded_record(&record("colorless", Some("skill"), "beta")));
    assert!(!is_excluded_record(&record("colorless", None, "beta")));
    let records = vec![
        record("colorless", Some("status"), "burn"),
        beta,
        record("colorless", None, "beta"),
        record("silent", None, "defend"),
    ];
    let moves = move_sprites(b"root", &records, &vec![true, true, true]);
    assert_eq!(
        moves,
        vec![
            Some(b"root/colorless/status/burn.png".to_vec()),
            None,
            Some(b"root/colorless/beta.png".to_vec()),
            None,
        ]
    );
    assert!(moves.iter().flatten().all(|p| !p.ends_with(b"/status/beta.png")));
}

#[test]
fn file_names_of_the_masked_images() {
    assert_eq!(portrait_file_name(b"strike_i"), b"strike_i_p.png".to_vec());
    assert_eq!(thumbnail_file_name(b"strike_i"), b"strike_i.png".to_vec());
}

#[test]
fn missing_thumbnails_are_named_in_record_order() {
    let records = vec![
        record("ironclad", None, "strike"),
        record("silent", None, "strike"),
        record("silent", Some("skill"), "blur"),
        record("defect", None, "zap"),
    ];
    assert_eq!(
        check_not_exist(&records, &vec![false, true, false]),
        vec![b"strike_i".to_vec(), b"blur".to_vec(), b"zap".to_vec()]
    );
    assert_eq!(check_not_exist(&records, &vec![true, true, true, true]), Vec::<Vec<u8>>::new());
}

#[test]
fn only_the_orphan_is_reported() {
    let records = vec![record("x", None, "A"), record("x", None, "D")];
    let files = vec![b"A.png".to_vec(), b"B.png".to_vec(), b"C_p.png".to_vec()];
    assert_eq!(check_valid_sprites(&records, &files), vec![Finding::Orphan(b"B".to_vec())]);
}

#[test]
fn files_are_matched_by_canonical_name() {
    let records = vec![record("ironclad", None, "strike"), record("silent", Some("skill"), "blur")];
    assert!(has_record(&records, b"strike_i"));
    assert!(!has_record(&records, b"strike"));
    assert_eq!(check_file(&records, b"strike_i.png"), None);
    assert_eq!(check_file(&records, b"strike.png"), Some(Finding::Orphan(b"strike".to_vec())));
    assert_eq!(check_file(&records, b"blur.jpg"), Some(Finding::WrongExtension(b"blur.jpg".to_vec())));
    assert_eq!(check_file(&records, b"png"), Some(Finding::WrongExtension(b"png".to_vec())));
    assert_eq!(check_file(&records, b"zap_p.png"), None);
    assert_eq!(check_file(&records, b".png"), Some(Finding::Orphan(b"".to_vec())));
    let files = vec![b"notes.txt".to_vec(), b"zap.png".to_vec(), b"blur.png".to_vec()];
    assert_eq!(
        check_valid_sprites(&records, &files),
        vec![Finding::WrongExtension(b"notes.txt".to_vec()), Finding::Orphan(b"zap".to_vec())]
    );
}
