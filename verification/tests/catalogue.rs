use meowsic::art::Api;
use meowsic::genshin::character::{id, Character, Media};
use meowsic::genshin::material::{Group, Material};
use meowsic::genshin::{Element, Quality};

#[test]
fn quality_value_and_label() {
    let q = Quality::new(4);
    assert_eq!(q.value(), 4);
    assert_eq!(q.label(), "4 Stars");
    assert_eq!(Quality::new(1).label(), "1 Star");
}

#[test]
fn element_parse_ignores_case_and_reports_unknowns() {
    assert_eq!(Element::parse("PYRO").unwrap(), Element::Pyro);
    assert_eq!(Element::parse("dendro").unwrap(), Element::Dendro);
    assert_eq!(Element::parse("Geo").unwrap(), Element::Geo);
    let err = Element::parse("light").unwrap_err();
    assert_eq!(err, "unknown element: light");
    assert_eq!(Element::Anemo.name(), "Anemo");
}

fn strings<const N: usize>(v: [&str; N]) -> Vec<String> {
    v.iter().map(|s| s.to_string()).collect()
}

#[test]
fn character_id_is_the_name_digest() {
    assert_eq!(id("Kazuha"), blake3::hash("Kazuha".as_bytes()).to_string());
}

#[test]
fn character_media_paths_are_numbered_from_one() {
    let media = Media {
        icon: "icon-url".to_string(),
        cards: strings(["c1", "c2"]),
        splashes: strings(["s1"]),
    };
    let c = Character::new(
        "Kazuha".to_string(),
        Element::Anemo,
        Quality::new(5),
        [
            "m0".to_string(),
            "m1".to_string(),
            "m2".to_string(),
            "m3".to_string(),
            "m4".to_string(),
            "m5".to_string(),
            "m6".to_string(),
            "m7".to_string(),
            "m8".to_string(),
            "m9".to_string(),
        ],
        [
            "t0".to_string(),
            "t1".to_string(),
            "t2".to_string(),
            "t3".to_string(),
            "t4".to_string(),
            "t5".to_string(),
            "t6".to_string(),
            "t7".to_string(),
            "t8".to_string(),
        ],
        strings(["outfit"]),
        media,
    );
    assert_eq!(c.id(), id("Kazuha"));
    let local = c.local_media("/data/characters");
    let base = format!("/data/characters/{}", id("Kazuha"));
    assert_eq!(local.icon, format!("{base}/icon.png"));
    assert_eq!(local.cards, vec![format!("{base}/card-1.png"), format!("{base}/card-2.png")]);
    assert_eq!(local.splashes, vec![format!("{base}/splash-1.png")]);
}

#[test]
fn material_constructors_fix_quality_and_group() {
    let m = Material::local_specialty("Valberry".to_string(), "icon".to_string());
    assert_eq!(m.quality.value(), 1);
    assert_eq!(m.group, Some(Group::LocalSpecialty));
    assert!(m.subgroup.is_none());

    let b = Material::normal_boss_drop("Hoarfrost Core".to_string(), "icon".to_string());
    assert_eq!(b.quality.value(), 4);

    let w = Material::weekly_boss_drop(
        "Dvalin's Plume".to_string(),
        "Stormterror".to_string(),
        "icon".to_string(),
    );
    assert_eq!(w.quality.value(), 5);
    assert_eq!(w.subgroup.as_deref(), Some("Stormterror"));

    assert_eq!(Material::crown_of_insight("icon".to_string()).name, "Crown of Insight");
    assert_eq!(Material::mora("icon".to_string()).quality.value(), 3);
}

#[test]
fn talent_books_step_through_the_series() {
    let books = Material::talent_books("Freedom", [1, 4, 7], strings(["i1", "i2", "i3"]));
    assert_eq!(books[0].name, "Teachings of Freedom");
    assert_eq!(books[1].name, "Guide to Freedom");
    assert_eq!(books[2].name, "Philosophies of Freedom");
    for (i, b) in books.iter().enumerate() {
        assert_eq!(b.quality.value() as usize, i + 2);
        assert_eq!(b.group, Some(Group::TalentBook));
        assert_eq!(b.subgroup.as_deref(), Some("Freedom"));
        assert_eq!(b.available_days, Some([1, 4, 7]));
    }
}

#[test]
fn ascension_gems_step_through_the_sizes() {
    let gems = Material::ascension_gems("Vayuda Turquoise", strings(["i1", "i2", "i3", "i4"]));
    assert_eq!(gems[0].name, "Vayuda Turquoise Sliver");
    assert_eq!(gems[1].name, "Vayuda Turquoise Fragment");
    assert_eq!(gems[2].name, "Vayuda Turquoise Chunk");
    assert_eq!(gems[3].name, "Vayuda Turquoise Gemstone");
    for (i, g) in gems.iter().enumerate() {
        assert_eq!(g.quality.value() as usize, i + 2);
    }
}

#[test]
fn enemy_drop_constructors_keep_the_subgroup() {
    let g = Material::general_enemy_drop(
        "Slime Condensate".to_string(),
        Quality::new(1),
        "Slime".to_string(),
        "icon".to_string(),
    );
    assert_eq!(g.group, Some(Group::GeneralEnemyDrop));
    assert_eq!(g.subgroup.as_deref(), Some("Slime"));
    let e = Material::elite_enemy_drop(
        "Chaos Device".to_string(),
        Quality::new(2),
        "Ruin Guard".to_string(),
        "icon".to_string(),
    );
    assert_eq!(e.group, Some(Group::EliteEnemyDrop));
}

#[test]
fn material_local_icon_is_the_name_digest() {
    let m = Material::mora("icon".to_string());
    assert_eq!(m.local_icon(), format!("{}.png", blake3::hash("Mora".as_bytes()).to_string()));
}

#[test]
fn art_api_paths() {
    let api = Api::new("/data");
    assert_eq!(api.list_file_path(), "/data/arts/index.json");
    assert_eq!(api.resolve_art_path("/abs/x.png"), "/abs/x.png");
    assert_eq!(api.resolve_art_path("rel/x.png"), "/data/arts/rel/x.png");
}
