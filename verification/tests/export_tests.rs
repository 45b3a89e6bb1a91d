use rexit::export::{
    export_room_chats_csv, export_room_chats_txt, export_saved_posts_csv, export_saved_posts_txt,
};
use rexit::jsoncodec::{export_room_chats_json, export_saved_posts_json, parse_room_chats_json};
use rexit::model::{Content, Image, Message, Post, Room};
use rexit::rooms::derived_room_name;

fn text_msg(author: &str, ts: i64, body: &str) -> Message {
    Message {
        author: author.to_string(),
        timestamp: ts,
        content: Content::Message(body.to_string()),
    }
}

fn image_msg(author: &str, ts: i64, id: &str, ext: &str, data: Vec<u8>) -> Message {
    Message {
        author: author.to_string(),
        timestamp: ts,
        content: Content::Image(Image {
            id: id.to_string(),
            extension: ext.to_string(),
            data,
        }),
    }
}

fn sample_room() -> Room {
    Room {
        id: "!fTxOL9GzJaZR71aLRSYstHNVR5j_Zi82L4hIVyjdHuw:reddit.com".to_string(),
        messages: Some(vec![
            text_msg("alice", 0, "hi"),
            image_msg("bob", 1234567890, "img1", "png", vec![1, 2, 255]),
        ]),
    }
}

#[test]
fn txt_export_one_line_per_message() {
    let room = sample_room();
    let out = export_room_chats_txt(&room);
    assert_eq!(
        out,
        "[1970-01-01T00:00:00Z] alice: hi\n[2009-02-13T23:31:30Z] bob: FILE: img1\n"
    );
    assert_eq!(out.lines().count(), 2);
}

#[test]
fn txt_export_empty_room() {
    let room = Room {
        id: "!abcdefghijk:reddit.com".to_string(),
        messages: Some(Vec::new()),
    };
    assert_eq!(export_room_chats_txt(&room), "");
}

#[test]
fn csv_export_header_plus_one_line_per_message() {
    let room = sample_room();
    let out = export_room_chats_csv(&room);
    assert_eq!(
        out,
        "timestamp, author, message\n1970-01-01T00:00:00Z, alice, hi\n2009-02-13T23:31:30Z, bob, FILE: img1\n"
    );
    assert_eq!(out.lines().count(), 3);
}

#[test]
fn csv_export_empty_room_is_header_only() {
    let room = Room {
        id: "!abcdefghijk:reddit.com".to_string(),
        messages: Some(Vec::new()),
    };
    let out = export_room_chats_csv(&room);
    assert_eq!(out, "timestamp, author, message\n");
    assert_eq!(out.lines().count(), 1);
}

#[test]
fn json_export_exact_shape() {
    let room = Room {
        id: "!r:x".to_string(),
        messages: Some(vec![text_msg("alice", 0, "hi")]),
    };
    let out = export_room_chats_json(&room);
    assert_eq!(
        out,
        "{\"id\":\"!r:x\",\"messages\":[{\"author\":\"alice\",\"timestamp\":0,\"content\":{\"Message\":\"hi\"}}]}"
    );
}

#[test]
fn json_round_trip_mixed_room() {
    let room = sample_room();
    let out = export_room_chats_json(&room);
    let back = parse_room_chats_json(&out).expect("export must parse back");
    assert_eq!(back.id, room.id);
    let a = back.messages.as_ref().unwrap();
    let b = room.messages.as_ref().unwrap();
    assert_eq!(a.len(), b.len());
    for (x, y) in a.iter().zip(b.iter()) {
        assert_eq!(x.author, y.author);
        assert_eq!(x.timestamp, y.timestamp);
        match (&x.content, &y.content) {
            (Content::Message(s), Content::Message(t)) => assert_eq!(s, t),
            (Content::Image(p), Content::Image(q)) => {
                assert_eq!(p.id, q.id);
                assert_eq!(p.extension, q.extension);
                assert_eq!(p.data, q.data);
            }
            _ => panic!("content variant changed in round trip"),
        }
    }
}

#[test]
fn json_round_trip_escapes_and_negative_timestamp() {
    let room = Room {
        id: "!weird\"id\\x:y".to_string(),
        messages: Some(vec![text_msg("a\"b\\c", -86400, "quote \" backslash \\ done")]),
    };
    let out = export_room_chats_json(&room);
    let back = parse_room_chats_json(&out).expect("export must parse back");
    assert_eq!(back.id, room.id);
    let a = back.messages.as_ref().unwrap();
    assert_eq!(a.len(), 1);
    assert_eq!(a[0].author, "a\"b\\c");
    assert_eq!(a[0].timestamp, -86400);
    match &a[0].content {
        Content::Message(t) => assert_eq!(t, "quote \" backslash \\ done"),
        _ => panic!("wrong variant"),
    }
}

#[test]
fn json_export_escapes_control_characters() {
    let room = Room {
        id: "!r:x".to_string(),
        messages: Some(vec![text_msg("alice", 0, "line1\nline2\ttab")]),
    };
    let out = export_room_chats_json(&room);
    assert_eq!(
        out,
        "{\"id\":\"!r:x\",\"messages\":[{\"author\":\"alice\",\"timestamp\":0,\"content\":{\"Message\":\"line1\\u000aline2\\u0009tab\"}}]}"
    );
    let back = parse_room_chats_json(&out).expect("export must parse back");
    match &back.messages.as_ref().unwrap()[0].content {
        Content::Message(t) => assert_eq!(t, "line1\nline2\ttab"),
        _ => panic!("wrong variant"),
    }
}

#[test]
fn parse_rejects_trailing_garbage() {
    assert!(parse_room_chats_json("{\"id\":\"x\",\"messages\":[]}garbage").is_none());
    assert!(parse_room_chats_json("not json at all").is_none());
}

#[test]
fn saved_posts_txt_and_csv_render() {
    let posts = vec![Post {
        title: "Da fehlt doch was".to_string(),
        subreddit_name: "r/hamburg".to_string(),
        permalink: "/r/hamburg/comments/134bv4v/da_fehlt_doch_was/".to_string(),
        img_url: vec!["https://i.redd.it/a.jpg".to_string()],
    }];
    let txt = export_saved_posts_txt(&posts);
    assert_eq!(
        txt,
        "Title: Da fehlt doch was, Subreddit: r/hamburg, Permalink: /r/hamburg/comments/134bv4v/da_fehlt_doch_was/, Images [\"https://i.redd.it/a.jpg\"]\n"
    );
    let csv = export_saved_posts_csv(&posts);
    assert_eq!(
        csv,
        "Title, Subreddit, Permalink, Images\nDa fehlt doch was, r/hamburg, /r/hamburg/comments/134bv4v/da_fehlt_doch_was/, [\"https://i.redd.it/a.jpg\"]\n"
    );
}

#[test]
fn saved_posts_empty_batch_exports() {
    let posts: Vec<Post> = Vec::new();
    assert_eq!(export_saved_posts_txt(&posts), "");
    assert_eq!(
        export_saved_posts_csv(&posts),
        "Title, Subreddit, Permalink, Images\n"
    );
    assert_eq!(export_saved_posts_json(&posts), "[]");
}

#[test]
fn saved_posts_json_shape() {
    let posts = vec![Post {
        title: "A".to_string(),
        subreddit_name: "r/x".to_string(),
        permalink: "/r/x/1".to_string(),
        img_url: vec!["https://i.redd.it/a.jpg".to_string(), "https://i.redd.it/b.png".to_string()],
    }];
    assert_eq!(
        export_saved_posts_json(&posts),
        "[{\"title\":\"A\",\"subreddit_name\":\"r/x\",\"permalink\":\"/r/x/1\",\"img_url\":[\"https://i.redd.it/a.jpg\",\"https://i.redd.it/b.png\"]}]"
    );
}

#[test]
fn room_name_is_nine_chars_after_sigil() {
    let name = derived_room_name("!fTxOL9GzJaZR71aLRSYstHNVR5j_Zi82L4hIVyjdHuw:reddit.com");
    assert_eq!(name, "fTxOL9GzJ");
}
