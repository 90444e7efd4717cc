use archidekt_live_set_completion::models::{ArchidektCard, Card, ScryfallCard, ScryfallCardFace};
use archidekt_live_set_completion::sorting::sort_by_rank;
use archidekt_live_set_completion::string_map::{str_eq, StringMap};

fn uris(pairs: &[(&str, &str)]) -> StringMap {
    let mut m = StringMap::new();
    for (k, v) in pairs {
        m.insert(k.to_string(), v.to_string());
    }
    m
}

fn db_card(image_uris: Option<StringMap>, card_faces: Option<Vec<ScryfallCardFace>>) -> ScryfallCard {
    ScryfallCard {
        name: "Bolt".to_string(),
        collector_number: "12a".to_string(),
        set: "lea".to_string(),
        id: "abc".to_string(),
        image_uris,
        card_faces,
    }
}

#[test]
fn string_map_insert_replaces_and_get_finds() {
    let mut m = StringMap::new();
    assert_eq!(m.len(), 0);
    m.insert("png".to_string(), "one".to_string());
    m.insert("small".to_string(), "two".to_string());
    m.insert("png".to_string(), "three".to_string());
    assert_eq!(m.len(), 2);
    assert_eq!(m.get("png"), Some(&"three".to_string()));
    assert_eq!(m.get("small"), Some(&"two".to_string()));
    assert_eq!(m.get("large"), None);
    let pairs = m.into_pairs();
    assert_eq!(pairs.len(), 2);
}

#[test]
fn str_eq_compares_characters() {
    assert!(str_eq("abc", "abc"));
    assert!(!str_eq("abc", "abd"));
    assert!(!str_eq("ab", "abc"));
    assert!(str_eq("", ""));
}

#[test]
fn database_card_uses_its_own_png() {
    let card: Card = db_card(
        Some(uris(&[("png", "own.png"), ("small", "own-small.jpg")])),
        Some(vec![ScryfallCardFace { image_uris: Some(uris(&[("png", "face.png")])) }]),
    )
    .into();
    assert_eq!(card.image, Some("own.png".to_string()));
    assert_eq!(card.name, "Bolt");
    assert_eq!(card.set_code, "lea");
    assert_eq!(card.collector_number, "12a");
    assert_eq!(card.scryfall_id, Some("abc".to_string()));
    assert_eq!(card.collected, Some(false));
}

#[test]
fn database_card_falls_back_to_first_face() {
    let card: Card = db_card(
        Some(uris(&[("small", "own-small.jpg")])),
        Some(vec![
            ScryfallCardFace { image_uris: Some(uris(&[("png", "front.png")])) },
            ScryfallCardFace { image_uris: Some(uris(&[("png", "back.png")])) },
        ]),
    )
    .into();
    assert_eq!(card.image, Some("front.png".to_string()));
}

#[test]
fn database_card_without_png_has_no_image() {
    let none: Card = db_card(None, None).into();
    assert_eq!(none.image, None);
    let no_faces: Card = db_card(None, Some(vec![])).into();
    assert_eq!(no_faces.image, None);
    let face_without: Card = db_card(
        None,
        Some(vec![ScryfallCardFace { image_uris: None }, ScryfallCardFace {
            image_uris: Some(uris(&[("png", "back.png")])),
        }]),
    )
    .into();
    assert_eq!(face_without.image, None);
}

#[test]
fn exported_card_is_collected() {
    let card: Card = ArchidektCard {
        name: "Bolt".to_string(),
        set_code: "lea".to_string(),
        collector_number: "161".to_string(),
        scryfall_id: Some("xyz".to_string()),
    }
    .into();
    assert_eq!(card.collected, Some(true));
    assert_eq!(card.image, None);
    assert_eq!(card.scryfall_id, Some("xyz".to_string()));
    assert_eq!(card.collector_number, "161");
}

#[test]
fn card_clone_is_equal() {
    let card = Card {
        name: "n".to_string(),
        set_code: "s".to_string(),
        collector_number: "1".to_string(),
        scryfall_id: Some("i".to_string()),
        collected: Some(true),
        image: None,
    };
    let copy = card.clone();
    assert_eq!(copy.name, card.name);
    assert_eq!(copy.scryfall_id, card.scryfall_id);
    assert_eq!(copy.collected, card.collected);
}

#[test]
fn sort_by_rank_is_stable() {
    let sorted = sort_by_rank(vec![("c", 3u64), ("a1", 1), ("b", 2), ("a2", 1), ("z", 0)]);
    assert_eq!(sorted, vec![("z", 0), ("a1", 1), ("a2", 1), ("b", 2), ("c", 3)]);
    let empty: Vec<(u8, u64)> = sort_by_rank(vec![]);
    assert!(empty.is_empty());
}
