use archidekt_live_set_completion::grouping::group_by_set;
use archidekt_live_set_completion::models::{Card, ScryfallCard, ScryfallSet, SetsResponse};
use archidekt_live_set_completion::provider::{can_process_data, process_data};

fn user_card(name: &str, set: &str, number: &str) -> Card {
    Card {
        name: name.to_string(),
        set_code: set.to_string(),
        collector_number: number.to_string(),
        scryfall_id: None,
        collected: None,
        image: None,
    }
}

fn db_card(name: &str, set: &str, number: &str, id: &str) -> ScryfallCard {
    ScryfallCard {
        name: name.to_string(),
        collector_number: number.to_string(),
        set: set.to_string(),
        id: id.to_string(),
        image_uris: None,
        card_faces: None,
    }
}

fn set(code: &str, name: Option<&str>) -> ScryfallSet {
    ScryfallSet {
        code: code.to_string(),
        name: name.map(|n| n.to_string()),
        search_uri: None,
    }
}

#[test]
fn correct_number_of_sets() {
    let cards = vec![
        Card {
            name: "Card 1".to_string(),
            set_code: "aaa".to_string(),
            collector_number: "1".to_string(),
            scryfall_id: None,
            collected: None,
            image: None,
        },
        Card {
            name: "Card 1".to_string(),
            set_code: "bbb".to_string(),
            collector_number: "1".to_string(),
            scryfall_id: None,
            collected: None,
            image: None,
        },
    ];
    let grouped_cards = group_by_set(&cards);
    assert_eq!(grouped_cards.len(), 2)
}

#[test]
fn correct_number_in_set() {
    let cards = vec![
        Card {
            name: "Card 1".to_string(),
            set_code: "aaa".to_string(),
            collector_number: "1".to_string(),
            scryfall_id: None,
            collected: None,
            image: None,
        },
        Card {
            name: "Card 2".to_string(),
            set_code: "aaa".to_string(),
            collector_number: "2".to_string(),
            scryfall_id: None,
            collected: None,
            image: None,
        },
        Card {
            name: "Card 1".to_string(),
            set_code: "bbb".to_string(),
            collector_number: "1".to_string(),
            scryfall_id: None,
            collected: None,
            image: None,
        },
    ];
    let grouped_cards = group_by_set(&cards);
    assert_eq!(grouped_cards.get("aaa").unwrap().len(), 2)
}

#[test]
fn groups_keep_card_order_and_miss_unknown_sets() {
    let cards = vec![
        user_card("A", "bbb", "3"),
        user_card("B", "aaa", "1"),
        user_card("C", "bbb", "1"),
    ];
    let groups = group_by_set(&cards);
    assert_eq!(groups.len(), 2);
    let bbb = groups.get("bbb").unwrap();
    assert_eq!(bbb.len(), 2);
    assert_eq!(bbb[0].name, "A");
    assert_eq!(bbb[1].name, "C");
    assert!(groups.get("ccc").is_none());
    let (codes, members) = groups.into_parts();
    assert_eq!(codes, vec!["bbb".to_string(), "aaa".to_string()]);
    assert_eq!(members[1][0].name, "B");
}

#[test]
fn group_of_no_cards_is_empty() {
    let groups = group_by_set(&vec![]);
    assert_eq!(groups.len(), 0);
}

#[test]
fn reports_mark_count_name_and_order_sets() {
    // The user owns 1 of 2 cards of "aaa" and 2 of 2 cards of "bbb".
    let cards = vec![
        user_card("One", "aaa", "1"),
        user_card("Two", "bbb", "2"),
        user_card("One b", "bbb", "1"),
        user_card("Again", "aaa", "1"),
    ];
    let bulk = vec![
        db_card("A10", "aaa", "10", "id-a10"),
        db_card("B2", "bbb", "2", "id-b2"),
        db_card("A1", "aaa", "1", "id-a1"),
        db_card("Z", "zzz", "1", "id-z"),
        db_card("B1", "bbb", "1", "id-b1"),
    ];
    let ranks = vec![Some(10), Some(2), Some(1), Some(1), Some(1)];
    let sets = SetsResponse {
        data: vec![set("bbb", Some("Beta")), set("aaa", Some("Alpha")), set("aaa", Some("Other"))],
    };
    assert!(can_process_data(&cards, &bulk, &ranks));
    let reports = process_data(cards, bulk, ranks, &sets);
    assert_eq!(reports.len(), 2);
    // "bbb" is complete, so it comes first although "aaa" was seen first.
    assert_eq!(reports[0].code, "bbb");
    assert_eq!(reports[0].name, Some("Beta".to_string()));
    assert_eq!(reports[0].set_count, 2);
    assert_eq!(reports[0].collected_count, 2);
    assert_eq!(reports[0].cards[0].name, "B1");
    assert_eq!(reports[0].cards[1].name, "B2");
    assert_eq!(reports[0].collected_cards.len(), 2);
    assert_eq!(reports[1].code, "aaa");
    assert_eq!(reports[1].name, Some("Alpha".to_string()));
    assert_eq!(reports[1].set_count, 2);
    assert_eq!(reports[1].collected_count, 1);
    assert_eq!(reports[1].cards[0].name, "A1");
    assert_eq!(reports[1].cards[0].collected, Some(true));
    assert_eq!(reports[1].cards[0].scryfall_id, Some("id-a1".to_string()));
    assert_eq!(reports[1].cards[1].name, "A10");
    assert_eq!(reports[1].cards[1].collected, Some(false));
    assert_eq!(reports[1].collected_cards[0].name, "One");
    assert_eq!(reports[1].collected_cards[1].name, "Again");
}

#[test]
fn equal_ranks_keep_database_order_and_ties_keep_first_seen_set() {
    let cards = vec![user_card("X", "ccc", "9"), user_card("Y", "ddd", "9")];
    let bulk = vec![
        db_card("D-first", "ddd", "5", "d1"),
        db_card("C1", "ccc", "5", "c1"),
        db_card("D-second", "ddd", "5", "d2"),
    ];
    let ranks = vec![Some(7), Some(7), Some(7)];
    let sets = SetsResponse { data: vec![] };
    let reports = process_data(cards, bulk, ranks, &sets);
    // Both sets have nothing collected: the first-seen set stays first.
    assert_eq!(reports[0].code, "ccc");
    assert_eq!(reports[0].name, None);
    assert_eq!(reports[1].code, "ddd");
    assert_eq!(reports[1].cards[0].name, "D-first");
    assert_eq!(reports[1].cards[1].name, "D-second");
}

#[test]
fn single_set_without_database_cards_is_reported_empty() {
    let cards = vec![user_card("Lone", "new", "1")];
    let bulk = vec![db_card("Other", "old", "1", "o1")];
    let ranks = vec![Some(1)];
    assert!(can_process_data(&cards, &bulk, &ranks));
    let reports = process_data(cards, bulk, ranks, &SetsResponse { data: vec![] });
    assert_eq!(reports.len(), 1);
    assert_eq!(reports[0].set_count, 0);
    assert_eq!(reports[0].collected_count, 0);
    assert!(reports[0].cards.is_empty());
}

#[test]
fn unorderable_inputs_are_refused() {
    // Two sets, one of which has no database card: completion cannot be compared.
    let cards = vec![user_card("A", "aaa", "1"), user_card("B", "new", "1")];
    let bulk = vec![db_card("A1", "aaa", "1", "a1")];
    assert!(!can_process_data(&cards, &bulk, &vec![Some(1)]));
    // A set of two database cards, one of which has no rank.
    let cards = vec![user_card("A", "aaa", "1")];
    let bulk = vec![db_card("A1", "aaa", "1", "a1"), db_card("A2", "aaa", "NaN", "a2")];
    assert!(!can_process_data(&cards, &bulk, &vec![Some(1), None]));
    // A lone unranked card is fine.
    let bulk = vec![db_card("A2", "aaa", "NaN", "a2")];
    assert!(can_process_data(&cards, &bulk, &vec![None]));
}
