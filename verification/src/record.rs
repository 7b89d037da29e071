//! Sprite records and the canonical name under which a sprite's files are kept.

use crate::bytes::{eq_bytes, to_vec};
use vstd::prelude::*;

verus! {

/// One sprite of the atlas.
#[derive(Debug, PartialEq, Eq)]
pub struct SpriteRecord {
    /// The packed sheet that the sprite comes from.
    pub sheet_file: Vec<u8>,
    /// The character that the sprite belongs to.
    pub character: Vec<u8>,
    /// The sub-category, where the path names one.
    pub category: Option<Vec<u8>>,
    /// The sprite's declared name.
    pub base_name: Vec<u8>,
    /// Where in the sheet the sprite was packed: (x, y).
    pub offset: (u32, u32),
    /// The size of the sprite's region: (width, height).
    pub extent: (u32, u32),
}

/// The mathematical value of a [`SpriteRecord`].
pub struct SpriteRecordView {
    pub sheet_file: Seq<u8>,
    pub character: Seq<u8>,
    pub category: Option<Seq<u8>>,
    pub base_name: Seq<u8>,
    pub offset: (u32, u32),
    pub extent: (u32, u32),
}

impl View for SpriteRecord {
    type V = SpriteRecordView;

    open spec fn view(&self) -> SpriteRecordView {
        SpriteRecordView {
            sheet_file: self.sheet_file@,
            character: self.character@,
            category: match self.category {
                Some(c) => Some(c@),
                None => None,
            },
            base_name: self.base_name@,
            offset: self.offset,
            extent: self.extent,
        }
    }
}

/// The views of a vector of records.
pub open spec fn record_views(v: Seq<SpriteRecord>) -> Seq<SpriteRecordView> {
    Seq::new(v.len(), |i: int| v[i]@)
}

/// The text "defend".
pub open spec fn defend() -> Seq<u8> {
    seq![100u8, 101u8, 102u8, 101u8, 110u8, 100u8]
}

/// The text "strike".
pub open spec fn strike() -> Seq<u8> {
    seq![115u8, 116u8, 114u8, 105u8, 107u8, 101u8]
}

/// The base names that every character has a sprite of.
pub open spec fn overloaded_names() -> Seq<Seq<u8>> {
    seq![defend(), strike()]
}

/// `name` is one of the overloaded base names.
pub open spec fn is_overloaded(name: Seq<u8>) -> bool {
    overloaded_names().contains(name)
}

/// The number of bytes of the UTF-8 character that starts with `lead`.
pub open spec fn char_width(lead: u8) -> int {
    if lead < 0xC0 {
        1
    } else if lead < 0xE0 {
        2
    } else if lead < 0xF0 {
        3
    } else {
        4
    }
}

/// The first character of `text`, as bytes of UTF-8; empty where `text` is.
pub open spec fn first_char(text: Seq<u8>) -> Seq<u8> {
    if text.len() == 0 {
        text
    } else if char_width(text[0]) <= text.len() {
        text.subrange(0, char_width(text[0]))
    } else {
        text
    }
}

/// The canonical name of the sprite `base_name` of `character`: an
/// overloaded base name gets an underscore and the character's first
/// character behind it, any other name stays as it is.
pub open spec fn canonical_spec(character: Seq<u8>, base_name: Seq<u8>) -> Seq<u8> {
    if is_overloaded(base_name) {
        base_name + seq![95u8] + first_char(character)
    } else {
        base_name
    }
}

/// Whether `name` is one of the overloaded base names.
pub fn is_overloaded_name(name: &[u8]) -> (r: bool)
    ensures
        r == is_overloaded(name@),
{
    let table: [[u8; 6]; 2] = [[100, 101, 102, 101, 110, 100], [115, 116, 114, 105, 107, 101]];
    proof {
        assert(table[0]@ =~= defend());
        assert(table[1]@ =~= strike());
        assert(overloaded_names()[0] == defend());
        assert(overloaded_names()[1] == strike());
    }
    let mut i: usize = 0;
    while i < 2
        invariant
            i <= 2,
            table[0]@ == defend(),
            table[1]@ == strike(),
            forall|j: int| 0 <= j < i ==> overloaded_names()[j] != name@,
        decreases 2 - i,
    {
        if eq_bytes(name, table[i].as_slice()) {
            proof {
                assert(overloaded_names()[i as int] == name@);
            }
            return true;
        }
        i += 1;
    }
    false
}

/// The canonical name of the sprite `base_name` of `character`.
pub fn canonical_name(character: &[u8], base_name: &[u8]) -> (r: Vec<u8>)
    ensures
        r@ == canonical_spec(character@, base_name@),
{
    let mut r = to_vec(base_name);
    if is_overloaded_name(base_name) {
        r.push(95u8);
        if character.len() > 0 {
            let lead: u8 = character[0];
            let width: usize = if lead < 0xC0 {
                1
            } else if lead < 0xE0 {
                2
            } else if lead < 0xF0 {
                3
            } else {
                4
            };
            let n: usize = if width <= character.len() { width } else { character.len() };
            let mut i: usize = 0;
            while i < n
                invariant
                    i <= n <= character.len(),
                    r@ == base_name@ + seq![95u8] + character@.subrange(0, i as int),
                decreases n - i,
            {
                r.push(character[i]);
                i += 1;
                proof {
                    assert(r@ =~= base_name@ + seq![95u8] + character@.subrange(0, i as int));
                }
            }
            proof {
                assert(character@.subrange(0, character@.len() as int) =~= character@);
            }
        } else {
            proof {
                assert(r@ =~= base_name@ + seq![95u8] + first_char(character@));
            }
        }
    }
    r
}

impl Clone for SpriteRecord {
    fn clone(&self) -> (r: Self)
        ensures
            r@ == self@,
    {
        SpriteRecord {
            sheet_file: to_vec(self.sheet_file.as_slice()),
            character: to_vec(self.character.as_slice()),
            category: match &self.category {
                Some(c) => Some(to_vec(c.as_slice())),
                None => None,
            },
            base_name: to_vec(self.base_name.as_slice()),
            offset: self.offset,
            extent: self.extent,
        }
    }
}

impl SpriteRecord {
    /// The record's canonical name.
    pub open spec fn canonical(&self) -> Seq<u8> {
        canonical_spec(self.character@, self.base_name@)
    }

    /// The canonical name under which this sprite's files are kept.
    pub fn canonical_name(&self) -> (r: Vec<u8>)
        ensures
            r@ == self.canonical(),
    {
        canonical_name(self.character.as_slice(), self.base_name.as_slice())
    }
}

/// Two sprites that share an overloaded base name get different canonical
/// names whenever their characters begin with different characters.
pub proof fn lemma_overloaded_names_distinct(c1: Seq<u8>, c2: Seq<u8>, base_name: Seq<u8>)
    requires
        is_overloaded(base_name),
        first_char(c1) != first_char(c2),
    ensures
        canonical_spec(c1, base_name) != canonical_spec(c2, base_name),
{
    let n1 = canonical_spec(c1, base_name);
    let n2 = canonical_spec(c2, base_name);
    let k = base_name.len() + 1;
    assert(n1.subrange(k as int, n1.len() as int) =~= first_char(c1));
    assert(n2.subrange(k as int, n2.len() as int) =~= first_char(c2));
}

/// The canonical name depends on the character and the base name alone: two
/// records that agree on both have the same canonical name, whatever their
/// sheets, categories and regions.
pub proof fn lemma_canonical_by_identity(a: SpriteRecord, b: SpriteRecord)
    requires
        a.character@ == b.character@,
        a.base_name@ == b.base_name@,
    ensures
        a.canonical() == b.canonical(),
{
}

/// A base name that is not overloaded is its own canonical name.
pub proof fn lemma_plain_name_kept(character: Seq<u8>, base_name: Seq<u8>)
    requires
        !is_overloaded(base_name),
    ensures
        canonical_spec(character, base_name) == base_name,
{
}

} // verus!
