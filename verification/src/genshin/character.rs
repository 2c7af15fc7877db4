use vstd::prelude::*;

use crate::genshin::{Element, Quality};
use crate::strings::u64_to_dec;
use crate::tracks::name_hash;

verus! {

/// One playable character: element, rating, the material names its
/// progression consumes, and its media file names.
#[derive(Debug)]
pub struct Character {
    pub name: String,
    pub element: Element,
    pub quality: Quality,
    pub ascension_materials: [String; 10],
    pub talent_upgrade_materials: [String; 9],
    pub outfits: Vec<String>,
    pub media: Media<String>,
}

/// A character's media set: one icon, its cards, its splash arts.
#[derive(Debug)]
pub struct Media<T> {
    pub icon: T,
    pub cards: Vec<T>,
    pub splashes: Vec<T>,
}

/// One line of the character index: a name and its icon.
#[derive(Debug)]
pub struct CharacterEntry {
    pub name: String,
    pub icon: String,
}

/// The identifier a character name derives: the digest of its bytes.
pub fn id(name: &str) -> (r: String)
    ensures
        r@ == name_hash(name@),
{
    crate::utils::hash(name.as_bytes())
}

impl Character {
    /// A character record; only four- and five-star characters exist.
    pub fn new(
        name: String,
        element: Element,
        quality: Quality,
        ascension_materials: [String; 10],
        talent_upgrade_materials: [String; 9],
        outfits: Vec<String>,
        media: Media<String>,
    ) -> (r: Character)
        requires
            4 <= quality.spec_value() <= 5,
        ensures
            r.name == name,
            r.element == element,
            r.quality == quality,
            r.ascension_materials == ascension_materials,
            r.talent_upgrade_materials == talent_upgrade_materials,
            r.outfits == outfits,
            r.media == media,
    {
        Character {
            name,
            element,
            quality,
            ascension_materials,
            talent_upgrade_materials,
            outfits,
            media,
        }
    }

    /// The character's derived identifier.
    pub fn id(&self) -> (r: String)
        ensures
            r@ == name_hash(self.name@),
    {
        id(self.name.as_str())
    }

    /// Where this character's media lives under `base_path`: the directory
    /// named by the character's identifier, with `icon.png`, `card-1.png`
    /// and so on for as many cards as the character has, and likewise
    /// `splash-1.png` on, numbered from one.
    pub fn local_media(&self, base_path: &str) -> (r: Media<String>)
        ensures
            ({
                let base = base_path@ + "/"@ + name_hash(self.name@);
                &&& r.icon@ == base + "/icon.png"@
                &&& r.cards@.len() == self.media.cards@.len()
                &&& forall|i: int|
                    0 <= i < r.cards@.len() ==> (#[trigger] r.cards@[i]@) == base + "/card-"@
                        + crate::strings::dec_str((i + 1) as nat) + ".png"@
                &&& r.splashes@.len() == self.media.splashes@.len()
                &&& forall|i: int|
                    0 <= i < r.splashes@.len() ==> (#[trigger] r.splashes@[i]@) == base
                        + "/splash-"@ + crate::strings::dec_str((i + 1) as nat) + ".png"@
            }),
    {
        let ghost base = base_path@ + "/"@ + name_hash(self.name@);
        let ident = self.id();
        let mut base_dir = String::from_str(base_path);
        base_dir.append("/");
        base_dir.append(ident.as_str());

        let mut icon = base_dir.clone();
        icon.append("/icon.png");
        proof {
            assert(icon@ =~= base + "/icon.png"@);
        }

        let card_count = self.media.cards.len();
        let mut cards: Vec<String> = Vec::new();
        let mut i: usize = 0;
        while i < card_count
            invariant
                base_dir@ == base,
                i <= card_count,
                card_count == self.media.cards@.len(),
                cards@.len() == i,
                forall|j: int|
                    0 <= j < i ==> (#[trigger] cards@[j]@) == base + "/card-"@
                        + crate::strings::dec_str((j + 1) as nat) + ".png"@,
            decreases card_count - i,
        {
            let mut c = base_dir.clone();
            c.append("/card-");
            let num = u64_to_dec(i as u64 + 1);
            c.append(num.as_str());
            c.append(".png");
            proof {
                assert(c@ =~= base + "/card-"@ + crate::strings::dec_str((i + 1) as nat)
                    + ".png"@);
            }
            cards.push(c);
            i = i + 1;
        }

        let splash_count = self.media.splashes.len();
        let mut splashes: Vec<String> = Vec::new();
        let mut k: usize = 0;
        while k < splash_count
            invariant
                base_dir@ == base,
                k <= splash_count,
                splash_count == self.media.splashes@.len(),
                splashes@.len() == k,
                forall|j: int|
                    0 <= j < k ==> (#[trigger] splashes@[j]@) == base + "/splash-"@
                        + crate::strings::dec_str((j + 1) as nat) + ".png"@,
            decreases splash_count - k,
        {
            let mut c = base_dir.clone();
            c.append("/splash-");
            let num = u64_to_dec(k as u64 + 1);
            c.append(num.as_str());
            c.append(".png");
            proof {
                assert(c@ =~= base + "/splash-"@ + crate::strings::dec_str((k + 1) as nat)
                    + ".png"@);
            }
            splashes.push(c);
            k = k + 1;
        }

        Media { icon, cards, splashes }
    }
}

} // verus!
