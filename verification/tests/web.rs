use archidekt_live_set_completion::web::{
    archidekt, index, process_url, redirect_target, rocket, style, CollectionPage, ContentKind,
    Method,
};

#[test]
fn collection_links_lead_to_their_collection() {
    let to = |u: &str| process_url(u).ok().unwrap();
    assert_eq!(to("https://archidekt.com/collection/v2/758741/"), "/archidekt/758741");
    assert_eq!(to("https://archidekt.com/collection/v2/758741"), "/archidekt/758741");
    assert_eq!(to("see https://archidekt.com/collection/v2/12/x"), "/archidekt/12");
    assert_eq!(to("https://archidekt.com/collection/v2/"), "/");
    assert_eq!(to("https://archidektXcom/collection/v2/5"), "/");
    assert_eq!(to("not a link"), "/");
}

#[test]
fn redirect_target_paths() {
    assert_eq!(redirect_target(Some("42".to_string())), "/archidekt/42");
    assert_eq!(redirect_target(None), "/");
}

#[test]
fn index_page_texts() {
    let p = index();
    assert_eq!(p.template, "index");
    assert_eq!(p.title, "Set Binder");
    assert_eq!(p.description, "Track every set. Complete your collection.");
}

#[test]
fn collection_page_shows_sets_or_error() {
    let page = archidekt(Ok(vec![1u8, 2]));
    assert_eq!(page.template(), "sets");
    match page {
        CollectionPage::Sets { sets, title, description } => {
            assert_eq!(sets, vec![1, 2]);
            assert_eq!(title, "Archidekt Set Binder");
            assert_eq!(description, "Set completion for an archidekt collection");
        }
        CollectionPage::Error { .. } => panic!("expected the sets page"),
    }
    let page = archidekt::<u8>(Err("boom".to_string()));
    assert_eq!(page.template(), "error");
    match page {
        CollectionPage::Error { message } => assert_eq!(message, "boom"),
        CollectionPage::Sets { .. } => panic!("expected the error page"),
    }
}

#[test]
fn stylesheet_is_css() {
    let (kind, body) = style("body{}");
    assert!(matches!(kind, ContentKind::Css));
    assert_eq!(body, "body{}");
}

#[test]
fn routes_are_mounted_at_root() {
    let m = rocket();
    assert_eq!(m.base, "/");
    let routes: Vec<(bool, String)> = m
        .routes
        .iter()
        .map(|r| (matches!(r.method, Method::Get), r.path.clone()))
        .collect();
    assert_eq!(
        routes,
        vec![
            (true, "/archidekt/<id>".to_string()),
            (true, "/".to_string()),
            (false, "/".to_string()),
            (true, "/style.css".to_string()),
        ]
    );
}
