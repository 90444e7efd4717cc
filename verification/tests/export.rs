use archidekt_live_set_completion::archidekt::{
    concat_pages, next_export_page, export_request, page_cards, page_count, remaining_requests, PAGE_SIZE,
};
use archidekt_live_set_completion::models::{ArchidektCard, Card};

fn card(name: &str) -> Card {
    Card {
        name: name.to_string(),
        set_code: "s".to_string(),
        collector_number: "1".to_string(),
        scryfall_id: None,
        collected: Some(true),
        image: None,
    }
}

#[test]
fn export_request_asks_for_four_columns() {
    let r = export_request(3);
    assert_eq!(
        r.fields,
        vec![
            "card__oracleCard__name".to_string(),
            "card__edition__editioncode".to_string(),
            "card__collectorNumber".to_string(),
            "card__uid".to_string(),
        ]
    );
    assert_eq!(r.game, 1);
    assert_eq!(r.page, 3);
    assert_eq!(r.page_size, 2500);
    assert!(!r.has_headers());
    assert!(export_request(1).has_headers());
}

#[test]
fn page_count_rounds_up_and_caps() {
    assert_eq!(page_count(0, PAGE_SIZE), 0);
    assert_eq!(page_count(1, PAGE_SIZE), 1);
    assert_eq!(page_count(2500, PAGE_SIZE), 1);
    assert_eq!(page_count(2501, PAGE_SIZE), 2);
    assert_eq!(page_count(637_500, PAGE_SIZE), 255);
    assert_eq!(page_count(637_501, PAGE_SIZE), 255);
    assert_eq!(page_count(10_000_000, PAGE_SIZE), 255);
    assert_eq!(page_count(7, 3), 3);
}

#[test]
fn remaining_requests_cover_pages_after_the_first() {
    assert!(remaining_requests(0).is_empty());
    assert!(remaining_requests(2500).is_empty());
    let pages: Vec<u8> = remaining_requests(7501).iter().map(|r| r.page).collect();
    assert_eq!(pages, vec![1, 2, 3]);
    assert_eq!(remaining_requests(5000).len(), 1);
    assert_eq!(remaining_requests(usize::MAX).len(), 254);
}

#[test]
fn page_cards_converts_rows() {
    let rows = vec![
        ArchidektCard {
            name: "A".to_string(),
            set_code: "x".to_string(),
            collector_number: "1".to_string(),
            scryfall_id: None,
        },
        ArchidektCard {
            name: "B".to_string(),
            set_code: "y".to_string(),
            collector_number: "2".to_string(),
            scryfall_id: Some("id".to_string()),
        },
    ];
    let (cards, total) = page_cards(rows, 4321);
    assert_eq!(total, 4321);
    assert_eq!(cards.len(), 2);
    assert_eq!(cards[1].name, "B");
    assert_eq!(cards[1].collected, Some(true));
}

#[test]
fn concat_pages_keeps_first_page_first() {
    let all = concat_pages(vec![card("a")], vec![vec![card("b"), card("c")], vec![], vec![card("d")]]);
    let names: Vec<String> = all.iter().map(|c| c.name.clone()).collect();
    assert_eq!(names, vec!["a", "b", "c", "d"]);
}

#[test]
fn sequential_walk_stops_when_no_more_rows() {
    assert_eq!(next_export_page(0, false), Some(1));
    assert_eq!(next_export_page(1, true), Some(2));
    assert_eq!(next_export_page(2, false), None);
    assert_eq!(next_export_page(254, true), Some(255));
}
