use rexit::model::Post;
use rexit::rooms::{parse_rooms_listing, strip_quotes, RoomsError};
use rexit::saved::{collect_saved_pages, parse_saved_page, Page, SavedError};

fn post(title: &str, sub: &str, link: &str, imgs: &[&str]) -> Post {
    Post {
        title: title.to_string(),
        subreddit_name: sub.to_string(),
        permalink: link.to_string(),
        img_url: imgs.iter().map(|s| s.to_string()).collect(),
    }
}

fn link_item(link_title: &str, sub: &str, permalink: &str, preview_url: Option<&str>) -> String {
    let preview = match preview_url {
        Some(u) => format!(
            "{{\"images\":[{{\"source\":{{\"url\":\"{}\"}}}}]}}",
            u
        ),
        None => "null".to_string(),
    };
    format!(
        "{{\"data\":{{\"link_title\":\"{}\",\"title\":\"generic\",\"subreddit_name_prefixed\":\"{}\",\"permalink\":\"{}\",\"preview\":{}}}}}",
        link_title, sub, permalink, preview
    )
}

fn text_item(title: &str, sub: &str, permalink: &str) -> String {
    format!(
        "{{\"data\":{{\"link_title\":null,\"title\":\"{}\",\"subreddit_name_prefixed\":\"{}\",\"permalink\":\"{}\",\"preview\":null}}}}",
        title, sub, permalink
    )
}

fn page_body(items: &[String], after: Option<&str>) -> String {
    let after_txt = match after {
        Some(a) => format!("\"{}\"", a),
        None => "null".to_string(),
    };
    format!(
        "{{\"data\":{{\"children\":[{}],\"after\":{}}}}}",
        items.join(","),
        after_txt
    )
}

#[test]
fn mixed_link_and_text_posts_use_their_own_title_fields() {
    let body = page_body(
        &[
            link_item("A", "r/x", "/r/x/1", None),
            text_item("B", "r/y", "/r/y/2"),
        ],
        None,
    );
    let page = parse_saved_page(&body).expect("page must parse");
    assert_eq!(page.posts.len(), 2);
    assert_eq!(page.posts[0].title, "A");
    assert_eq!(page.posts[0].subreddit_name, "r/x");
    assert_eq!(page.posts[0].permalink, "/r/x/1");
    assert_eq!(page.posts[1].title, "B");
    assert_eq!(page.posts[1].subreddit_name, "r/y");
    assert!(page.after.is_none());
}

#[test]
fn image_urls_are_rewritten_onto_canonical_origin() {
    let body = page_body(
        &[link_item(
            "A",
            "r/pics",
            "/r/pics/1",
            Some("https://preview.redd.it/abc123.jpg?width=640&s=SECRET-REDACTED"),
        )],
        None,
    );
    let page = parse_saved_page(&body).expect("page must parse");
    assert_eq!(page.posts.len(), 1);
    assert_eq!(page.posts[0].img_url, vec!["https://i.redd.it/abc123.jpg"]);
}

#[test]
fn empty_saved_listing_yields_no_posts() {
    let body = "{\"data\":{\"children\":[],\"after\":null}}";
    let page = parse_saved_page(body).expect("page must parse");
    assert!(page.posts.is_empty());
    assert!(page.after.is_none());
}

#[test]
fn page_with_cursor_reports_next_token() {
    let body = page_body(&[text_item("B", "r/y", "/r/y/2")], Some("t3_abc"));
    let page = parse_saved_page(&body).expect("page must parse");
    assert_eq!(page.after.as_deref(), Some("t3_abc"));
}

#[test]
fn unparseable_body_is_its_own_error() {
    match parse_saved_page("this is not json {") {
        Err(SavedError::Unparseable) => {}
        other => panic!("expected an unparseable-body error, got {:?}", other.is_ok()),
    }
}

#[test]
fn missing_children_array_is_malformed() {
    match parse_saved_page("{\"data\":{\"children\":17,\"after\":null}}") {
        Err(SavedError::Malformed) => {}
        other => panic!("expected a malformed-page error, got {:?}", other.is_ok()),
    }
}

#[test]
fn non_string_cursor_is_malformed() {
    match parse_saved_page("{\"data\":{\"children\":[],\"after\":17}}") {
        Err(SavedError::Malformed) => {}
        other => panic!("expected a malformed-page error, got {:?}", other.is_ok()),
    }
}

#[test]
fn pagination_concatenates_pages_until_null_cursor() {
    let pages = vec![
        Page {
            posts: vec![post("A", "r/x", "/r/x/1", &[])],
            after: Some("t3_a".to_string()),
        },
        Page {
            posts: vec![post("B", "r/y", "/r/y/2", &[]), post("C", "r/z", "/r/z/3", &[])],
            after: Some("t3_b".to_string()),
        },
        Page {
            posts: vec![post("D", "r/w", "/r/w/4", &[])],
            after: None,
        },
    ];
    let list = collect_saved_pages(pages).expect("script ends with a null cursor");
    let titles: Vec<&str> = list.posts.iter().map(|p| p.title.as_str()).collect();
    assert_eq!(titles, vec!["A", "B", "C", "D"]);
}

#[test]
fn pagination_stops_at_first_null_cursor() {
    let pages = vec![
        Page {
            posts: vec![post("A", "r/x", "/r/x/1", &[])],
            after: None,
        },
        Page {
            posts: vec![post("B", "r/y", "/r/y/2", &[])],
            after: None,
        },
    ];
    let list = collect_saved_pages(pages).expect("first page already terminal");
    assert_eq!(list.posts.len(), 1);
    assert_eq!(list.posts[0].title, "A");
}

#[test]
fn pagination_script_without_terminal_page_yields_nothing() {
    let pages = vec![Page {
        posts: vec![post("A", "r/x", "/r/x/1", &[])],
        after: Some("t3_a".to_string()),
    }];
    assert!(collect_saved_pages(pages).is_none());
}

#[test]
fn joined_rooms_listing_is_parsed_in_order() {
    let body = "{\"joined_rooms\":[\"!abc:reddit.com\",\"!def:reddit.com\"]}";
    let ids = parse_rooms_listing(body).expect("listing must parse");
    assert_eq!(ids, vec!["!abc:reddit.com", "!def:reddit.com"]);
}

#[test]
fn rooms_listing_error_taxonomy() {
    match parse_rooms_listing("nope{") {
        Err(RoomsError::Unparseable) => {}
        other => panic!("expected an unparseable-body error, got {:?}", other.is_ok()),
    }
    match parse_rooms_listing("{\"joined_rooms\":17}") {
        Err(RoomsError::Malformed) => {}
        other => panic!("expected a malformed-listing error, got {:?}", other.is_ok()),
    }
}

#[test]
fn strip_quotes_removes_every_double_quote() {
    assert_eq!(strip_quotes("\"!abc:reddit.com\""), "!abc:reddit.com");
    assert_eq!(strip_quotes("no quotes"), "no quotes");
    assert_eq!(strip_quotes("\"\"\""), "");
}
