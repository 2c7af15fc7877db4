use vstd::prelude::*;

use crate::genshin::Quality;
use crate::tracks::name_hash;

verus! {

/// Which family a material belongs to.
#[derive(Debug, Clone, Copy, PartialEq, Eq, Structural)]
pub enum Group {
    LocalSpecialty,
    NormalBossDrop,
    AscensionGem,
    GeneralEnemyDrop,
    EliteEnemyDrop,
    WeeklyBossDrop,
    TalentBook,
}

/// One progression material: its name, rating, family, the boss or series
/// it belongs to, which weekdays it is farmable, and its icon.
#[derive(Debug)]
pub struct Material {
    pub name: String,
    pub quality: Quality,
    pub group: Option<Group>,
    pub subgroup: Option<String>,
    pub available_days: Option<[u8; 3]>,
    pub icon: String,
}

impl Material {
    pub fn new(
        name: String,
        quality: Quality,
        group: Option<Group>,
        subgroup: Option<String>,
        available_days: Option<[u8; 3]>,
        icon: String,
    ) -> (r: Material)
        ensures
            r.name == name,
            r.quality == quality,
            r.group == group,
            r.subgroup == subgroup,
            r.available_days == available_days,
            r.icon == icon,
    {
        Material { name, quality, group, subgroup, available_days, icon }
    }

    /// The material's icon file name in the local media store, derived from
    /// its name: `{digest}.png`.
    pub fn local_icon(&self) -> (r: String)
        ensures
            r@ == name_hash(self.name@) + ".png"@,
    {
        let mut r = crate::utils::hash(self.name.as_str().as_bytes());
        r.append(".png");
        r
    }

    /// A common enemy drop; those stop below four stars.
    pub fn general_enemy_drop(name: String, quality: Quality, subgroup: String, icon: String) -> (r:
        Material)
        requires
            quality.spec_value() < 4,
        ensures
            r.name == name,
            r.quality == quality,
            r.group == Some(Group::GeneralEnemyDrop),
            r.subgroup == Some(subgroup),
            r.available_days is None,
            r.icon == icon,
    {
        Material {
            name,
            quality,
            group: Some(Group::GeneralEnemyDrop),
            subgroup: Some(subgroup),
            available_days: None,
            icon,
        }
    }

    /// An elite enemy drop; those stop below five stars.
    pub fn elite_enemy_drop(name: String, quality: Quality, subgroup: String, icon: String) -> (r:
        Material)
        requires
            quality.spec_value() < 5,
        ensures
            r.name == name,
            r.quality == quality,
            r.group == Some(Group::EliteEnemyDrop),
            r.subgroup == Some(subgroup),
            r.available_days is None,
            r.icon == icon,
    {
        Material {
            name,
            quality,
            group: Some(Group::EliteEnemyDrop),
            subgroup: Some(subgroup),
            available_days: None,
            icon,
        }
    }

    /// The three talent books of one series: teachings, guide and
    /// philosophies, at two, three and four stars, sharing the series name
    /// as their subgroup and the given weekday window.
    pub fn talent_books(name: &str, available_days: [u8; 3], icons: Vec<String>) -> (r: [Material;
        3])
        requires
            icons@.len() == 3,
        ensures
            forall|i: int|
                0 <= i < 3 ==> (#[trigger] r@[i]).group == Some(Group::TalentBook)
                    && crate::tracks::view_opt(r@[i].subgroup) == Some(name@)
                    && r@[i].available_days == Some(available_days) && r@[i].icon == icons@[i]
                    && r@[i].quality.spec_value() == i + 2,
            r@[0].name@ == "Teachings of "@ + name@,
            r@[1].name@ == "Guide to "@ + name@,
            r@[2].name@ == "Philosophies of "@ + name@,
    {
        let mut icons = icons;
        let icon2 = icons.pop().unwrap();
        let icon1 = icons.pop().unwrap();
        let icon0 = icons.pop().unwrap();

        let mut n0 = String::from_str("Teachings of ");
        n0.append(name);
        let mut n1 = String::from_str("Guide to ");
        n1.append(name);
        let mut n2 = String::from_str("Philosophies of ");
        n2.append(name);

        let m0 = Material {
            name: n0,
            quality: Quality::new(2),
            group: Some(Group::TalentBook),
            subgroup: Some(String::from_str(name)),
            available_days: Some(available_days),
            icon: icon0,
        };
        let m1 = Material {
            name: n1,
            quality: Quality::new(3),
            group: Some(Group::TalentBook),
            subgroup: Some(String::from_str(name)),
            available_days: Some(available_days),
            icon: icon1,
        };
        let m2 = Material {
            name: n2,
            quality: Quality::new(4),
            group: Some(Group::TalentBook),
            subgroup: Some(String::from_str(name)),
            available_days: Some(available_days),
            icon: icon2,
        };
        [m0, m1, m2]
    }

    /// The four ascension gems of one element: sliver, fragment, chunk and
    /// gemstone, at two to five stars, sharing the gem name as subgroup.
    pub fn ascension_gems(name: &str, icons: Vec<String>) -> (r: [Material; 4])
        requires
            icons@.len() == 4,
        ensures
            forall|i: int|
                0 <= i < 4 ==> (#[trigger] r@[i]).group == Some(Group::AscensionGem)
                    && crate::tracks::view_opt(r@[i].subgroup) == Some(name@)
                    && r@[i].available_days is None && r@[i].icon == icons@[i]
                    && r@[i].quality.spec_value() == i + 2,
            r@[0].name@ == name@ + " Sliver"@,
            r@[1].name@ == name@ + " Fragment"@,
            r@[2].name@ == name@ + " Chunk"@,
            r@[3].name@ == name@ + " Gemstone"@,
    {
        let mut icons = icons;
        let icon3 = icons.pop().unwrap();
        let icon2 = icons.pop().unwrap();
        let icon1 = icons.pop().unwrap();
        let icon0 = icons.pop().unwrap();

        let mut n0 = String::from_str(name);
        n0.append(" Sliver");
        let mut n1 = String::from_str(name);
        n1.append(" Fragment");
        let mut n2 = String::from_str(name);
        n2.append(" Chunk");
        let mut n3 = String::from_str(name);
        n3.append(" Gemstone");

        let m0 = Material {
            name: n0,
            quality: Quality::new(2),
            group: Some(Group::AscensionGem),
            subgroup: Some(String::from_str(name)),
            available_days: None,
            icon: icon0,
        };
        let m1 = Material {
            name: n1,
            quality: Quality::new(3),
            group: Some(Group::AscensionGem),
            subgroup: Some(String::from_str(name)),
            available_days: None,
            icon: icon1,
        };
        let m2 = Material {
            name: n2,
            quality: Quality::new(4),
            group: Some(Group::AscensionGem),
            subgroup: Some(String::from_str(name)),
            available_days: None,
            icon: icon2,
        };
        let m3 = Material {
            name: n3,
            quality: Quality::new(5),
            group: Some(Group::AscensionGem),
            subgroup: Some(String::from_str(name)),
            available_days: None,
            icon: icon3,
        };
        [m0, m1, m2, m3]
    }

    /// A regional specialty: one star, no farming window.
    pub fn local_specialty(name: String, icon: String) -> (r: Material)
        ensures
            r.name == name,
            r.quality.spec_value() == 1,
            r.group == Some(Group::LocalSpecialty),
            r.subgroup is None,
            r.available_days is None,
            r.icon == icon,
    {
        Material {
            name,
            quality: Quality::new(1),
            group: Some(Group::LocalSpecialty),
            subgroup: None,
            available_days: None,
            icon,
        }
    }

    /// A weekly-reset-free boss drop: four stars.
    pub fn normal_boss_drop(name: String, icon: String) -> (r: Material)
        ensures
            r.name == name,
            r.quality.spec_value() == 4,
            r.group == Some(Group::NormalBossDrop),
            r.subgroup is None,
            r.available_days is None,
            r.icon == icon,
    {
        Material {
            name,
            quality: Quality::new(4),
            group: Some(Group::NormalBossDrop),
            subgroup: None,
            available_days: None,
            icon,
        }
    }

    /// A weekly boss drop: five stars, remembering which boss.
    pub fn weekly_boss_drop(name: String, subgroup: String, icon: String) -> (r: Material)
        ensures
            r.name == name,
            r.quality.spec_value() == 5,
            r.group == Some(Group::WeeklyBossDrop),
            r.subgroup == Some(subgroup),
            r.available_days is None,
            r.icon == icon,
    {
        Material {
            name,
            quality: Quality::new(5),
            group: Some(Group::WeeklyBossDrop),
            subgroup: Some(subgroup),
            available_days: None,
            icon,
        }
    }

    /// The crown: five stars, in no family.
    pub fn crown_of_insight(icon: String) -> (r: Material)
        ensures
            r.name@ == "Crown of Insight"@,
            r.quality.spec_value() == 5,
            r.group is None,
            r.subgroup is None,
            r.available_days is None,
            r.icon == icon,
    {
        Material {
            name: String::from_str("Crown of Insight"),
            quality: Quality::new(5),
            group: None,
            subgroup: None,
            available_days: None,
            icon,
        }
    }

    /// Mora: three stars, in no family.
    pub fn mora(icon: String) -> (r: Material)
        ensures
            r.name@ == "Mora"@,
            r.quality.spec_value() == 3,
            r.group is None,
            r.subgroup is None,
            r.available_days is None,
            r.icon == icon,
    {
        Material {
            name: String::from_str("Mora"),
            quality: Quality::new(3),
            group: None,
            subgroup: None,
            available_days: None,
            icon,
        }
    }
}

} // verus!
