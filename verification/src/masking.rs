//! Masking one sprite: the choice of the mask by category, the alpha cut and
//! the two images that are kept of it.

use crate::bytes::eq_bytes;
use crate::raster::{
    catmull_rom_samples, masked_samples, Image, ImageView, MaskError, THUMBNAIL_HEIGHT,
    THUMBNAIL_WIDTH,
};
use crate::record::SpriteRecord;
use vstd::prelude::*;

verus! {

/// The masks that there are.
#[derive(Debug, Clone, Copy, PartialEq, Eq, Structural)]
pub enum MaskKind {
    Attack,
    Power,
    /// The mask of skills, which also serves every other category and the
    /// sprites without one.
    Skill,
}

/// The three masks, loaded.
pub struct MaskSet {
    pub attack: Image,
    pub power: Image,
    pub skill: Image,
}

/// What is kept of a masked sprite.
#[derive(Debug, PartialEq, Eq)]
pub struct MaskedSprite {
    /// The sprite in full resolution, cut by its mask.
    pub portrait: Image,
    /// The portrait resampled to the size of a thumbnail.
    pub thumbnail: Image,
}

/// The text "attack".
pub open spec fn attack() -> Seq<u8> {
    seq![97u8, 116u8, 116u8, 97u8, 99u8, 107u8]
}

/// The text "power".
pub open spec fn power() -> Seq<u8> {
    seq![112u8, 111u8, 119u8, 101u8, 114u8]
}

/// The text "AttackMask_p.png".
pub open spec fn attack_mask_file() -> Seq<u8> {
    seq![
        65u8, 116u8, 116u8, 97u8, 99u8, 107u8, 77u8, 97u8, 115u8, 107u8, 95u8, 112u8, 46u8, 112u8,
        110u8, 103u8,
    ]
}

/// The text "PowerMask_p.png".
pub open spec fn power_mask_file() -> Seq<u8> {
    seq![
        80u8, 111u8, 119u8, 101u8, 114u8, 77u8, 97u8, 115u8, 107u8, 95u8, 112u8, 46u8, 112u8, 110u8,
        103u8,
    ]
}

/// The text "SkillMask_p.png".
pub open spec fn skill_mask_file() -> Seq<u8> {
    seq![
        83u8, 107u8, 105u8, 108u8, 108u8, 77u8, 97u8, 115u8, 107u8, 95u8, 112u8, 46u8, 112u8, 110u8,
        103u8,
    ]
}

/// The mask of a category: attacks and powers have their own, everything
/// else, and a sprite without category, takes the mask of skills.
pub open spec fn mask_kind_spec(category: Option<Seq<u8>>) -> MaskKind {
    match category {
        Some(c) => if c == attack() {
            MaskKind::Attack
        } else if c == power() {
            MaskKind::Power
        } else {
            MaskKind::Skill
        },
        None => MaskKind::Skill,
    }
}

/// The name of the file that holds a mask.
pub open spec fn mask_file_spec(kind: MaskKind) -> Seq<u8> {
    match kind {
        MaskKind::Attack => attack_mask_file(),
        MaskKind::Power => power_mask_file(),
        MaskKind::Skill => skill_mask_file(),
    }
}

/// What masking makes of a sprite of the given value under the given mask:
/// nothing where the sprite is absent, else the two images or the reason why
/// there are none.
pub open spec fn mask_sprite_spec(mask: ImageView, sprite: Option<ImageView>) -> Result<
    Option<(ImageView, ImageView)>,
    MaskError,
> {
    match sprite {
        None => Ok(None),
        Some(s) => if mask.width != s.width || mask.height != s.height {
            Err(MaskError::DimensionMismatch)
        } else if s.width == 0 || s.height == 0 {
            Err(MaskError::EmptyImage)
        } else {
            let cut = masked_samples(mask.data, s.data);
            Ok(
                Some(
                    (
                        ImageView { width: s.width, height: s.height, data: cut },
                        ImageView {
                            width: THUMBNAIL_WIDTH,
                            height: THUMBNAIL_HEIGHT,
                            data: catmull_rom_samples(
                                s.width,
                                s.height,
                                cut,
                                THUMBNAIL_WIDTH,
                                THUMBNAIL_HEIGHT,
                            ),
                        },
                    ),
                ),
            )
        },
    }
}

/// The mask that a sprite of the given category is cut by.
pub fn mask_kind(category: &Option<Vec<u8>>) -> (r: MaskKind)
    ensures
        r == mask_kind_spec(
            match *category {
                Some(c) => Some(c@),
                None => None,
            },
        ),
{
    let attack: [u8; 6] = [97, 116, 116, 97, 99, 107];
    let power: [u8; 5] = [112, 111, 119, 101, 114];
    proof {
        assert(attack@ =~= self::attack());
        assert(power@ =~= self::power());
    }
    match category {
        Some(c) => {
            if eq_bytes(c.as_slice(), attack.as_slice()) {
                MaskKind::Attack
            } else if eq_bytes(c.as_slice(), power.as_slice()) {
                MaskKind::Power
            } else {
                MaskKind::Skill
            }
        },
        None => MaskKind::Skill,
    }
}

/// The name of the file that holds the mask `kind`.
pub fn mask_file_name(kind: MaskKind) -> (r: Vec<u8>)
    ensures
        r@ == mask_file_spec(kind),
{
    let r = match kind {
        MaskKind::Attack => vec![
            65u8, 116u8, 116u8, 97u8, 99u8, 107u8, 77u8, 97u8, 115u8, 107u8, 95u8, 112u8, 46u8,
            112u8, 110u8, 103u8,
        ],
        MaskKind::Power => vec![
            80u8, 111u8, 119u8, 101u8, 114u8, 77u8, 97u8, 115u8, 107u8, 95u8, 112u8, 46u8, 112u8,
            110u8, 103u8,
        ],
        MaskKind::Skill => vec![
            83u8, 107u8, 105u8, 108u8, 108u8, 77u8, 97u8, 115u8, 107u8, 95u8, 112u8, 46u8, 112u8,
            110u8, 103u8,
        ],
    };
    proof {
        assert(r@ =~= mask_file_spec(kind));
    }
    r
}

impl MaskSet {
    /// All three masks have as many samples as their dimensions say.
    pub open spec fn wf(&self) -> bool {
        self.attack.wf() && self.power.wf() && self.skill.wf()
    }

    /// The mask of the given kind.
    pub open spec fn of(&self, kind: MaskKind) -> Image {
        match kind {
            MaskKind::Attack => self.attack,
            MaskKind::Power => self.power,
            MaskKind::Skill => self.skill,
        }
    }

    /// The mask of the given kind.
    pub fn get(&self, kind: MaskKind) -> (r: &Image)
        ensures
            *r == self.of(kind),
    {
        match kind {
            MaskKind::Attack => &self.attack,
            MaskKind::Power => &self.power,
            MaskKind::Skill => &self.skill,
        }
    }
}

/// Cuts a sprite by a mask and makes its thumbnail. An absent sprite is
/// passed over. A sprite whose dimensions differ from the mask's is refused,
/// and so is one without pixels.
pub fn cut_sprite(mask: &Image, sprite: Option<Image>) -> (r: Result<Option<MaskedSprite>, MaskError>)
    requires
        mask.wf(),
        sprite.is_some() ==> sprite.unwrap().wf(),
    ensures
        match r {
            Ok(Some(m)) => m.portrait.wf() && m.thumbnail.wf() && mask_sprite_spec(
                mask@,
                match sprite {
                    Some(s) => Some(s@),
                    None => None,
                },
            ) == Ok::<Option<(ImageView, ImageView)>, MaskError>(Some((m.portrait@, m.thumbnail@))),
            Ok(None) => sprite.is_none(),
            Err(e) => mask_sprite_spec(
                mask@,
                match sprite {
                    Some(s) => Some(s@),
                    None => None,
                },
            ) == Err::<Option<(ImageView, ImageView)>, MaskError>(e),
        },
{
    match sprite {
        None => Ok(None),
        Some(s) => {
            let mut portrait = s;
            match portrait.apply_mask(mask) {
                Err(e) => Err(e),
                Ok(()) => {
                    match portrait.thumbnail() {
                        None => Err(MaskError::EmptyImage),
                        Some(thumbnail) => Ok(Some(MaskedSprite { portrait, thumbnail })),
                    }
                },
            }
        },
    }
}

/// Masks the sprite of one record: the mask is the one of the record's
/// category, and `sprite` is the record's source image, absent where there is
/// none on disk.
pub fn mask_sprite(record: &SpriteRecord, masks: &MaskSet, sprite: Option<Image>) -> (r: Result<
    Option<MaskedSprite>,
    MaskError,
>)
    requires
        masks.wf(),
        sprite.is_some() ==> sprite.unwrap().wf(),
    ensures
        match r {
            Ok(Some(m)) => m.portrait.wf() && m.thumbnail.wf() && mask_sprite_spec(
                masks.of(mask_kind_spec(record@.category))@,
                match sprite {
                    Some(s) => Some(s@),
                    None => None,
                },
            ) == Ok::<Option<(ImageView, ImageView)>, MaskError>(Some((m.portrait@, m.thumbnail@))),
            Ok(None) => sprite.is_none(),
            Err(e) => mask_sprite_spec(
                masks.of(mask_kind_spec(record@.category))@,
                match sprite {
                    Some(s) => Some(s@),
                    None => None,
                },
            ) == Err::<Option<(ImageView, ImageView)>, MaskError>(e),
        },
{
    let kind = mask_kind(&record.category);
    cut_sprite(masks.get(kind), sprite)
}

} // verus!
