use vstd::prelude::*;
use crate::model::{Content, Image, Message, Post, Room};
use crate::timefmt::{rfc3339_of, rfc3339_utc_secs, ts_in_range};

verus! {

/// No newline occurs in `s`.
pub open spec fn nl_free(s: Seq<char>) -> bool {
    forall|i: int| 0 <= i < s.len() ==> s[i] != '\n'
}

/// How many lines a rendering holds: one per terminating newline.
pub open spec fn line_count(s: Seq<char>) -> nat
    decreases s.len(),
{
    if s.len() == 0 {
        0
    } else {
        (if s.first() == '\n' {
            1nat
        } else {
            0nat
        }) + line_count(s.drop_first())
    }
}

/// The concatenation of `f` over every element of `s`, in order.
pub open spec fn cat_map<A>(f: spec_fn(A) -> Seq<char>, s: Seq<A>) -> Seq<char>
    decreases s.len(),
{
    if s.len() == 0 {
        Seq::empty()
    } else {
        f(s.first()) + cat_map(f, s.drop_first())
    }
}

pub proof fn lemma_cat_map_push<A>(f: spec_fn(A) -> Seq<char>, s: Seq<A>, x: A)
    ensures
        cat_map(f, s.push(x)) == cat_map(f, s) + f(x),
    decreases s.len(),
{
    if s.len() == 0 {
        assert(s =~= Seq::<A>::empty());
        assert(s.push(x).drop_first() =~= Seq::<A>::empty());
        assert(cat_map(f, Seq::<A>::empty()) == Seq::<char>::empty());
        assert(cat_map(f, s.push(x)) =~= f(x) + Seq::<char>::empty());
        assert(f(x) + Seq::<char>::empty() =~= f(x));
        assert(cat_map(f, s) + f(x) =~= f(x));
    } else {
        assert(s.push(x).drop_first() =~= s.drop_first().push(x));
        lemma_cat_map_push(f, s.drop_first(), x);
        assert(cat_map(f, s.push(x)) =~= cat_map(f, s) + f(x));
    }
}

pub proof fn lemma_line_count_concat(a: Seq<char>, b: Seq<char>)
    ensures
        line_count(a + b) == line_count(a) + line_count(b),
    decreases a.len(),
{
    if a.len() == 0 {
        assert(a + b =~= b);
    } else {
        assert((a + b).drop_first() =~= a.drop_first() + b);
        lemma_line_count_concat(a.drop_first(), b);
    }
}

/// A newline-free rendering holds no line terminator.
pub proof fn lemma_line_count_nl_free(s: Seq<char>)
    requires
        nl_free(s),
    ensures
        line_count(s) == 0,
    decreases s.len(),
{
    if s.len() > 0 {
        lemma_line_count_nl_free(s.drop_first());
    }
}

/// The body text of a message as it appears in the text and CSV exports:
/// the text itself, or a `FILE:` reference to the image.
pub open spec fn body_of(c: Content) -> Seq<char> {
    match c {
        Content::Message(t) => t@,
        Content::Image(img) => "FILE: "@ + img.id@,
    }
}

/// One line of the plain-text export.
pub open spec fn txt_line(m: Message) -> Seq<char> {
    "["@ + rfc3339_of(m.timestamp) + "] "@ + m.author@ + ": "@ + body_of(m.content) + "\n"@
}

/// The whole plain-text export of a message sequence.
pub open spec fn txt_lines(ms: Seq<Message>) -> Seq<char> {
    cat_map(|m: Message| txt_line(m), ms)
}

/// One appended line of the CSV export: the three fields comma-separated,
/// the body rendered by the same rule as the text export.
pub open spec fn csv_line(m: Message) -> Seq<char> {
    rfc3339_of(m.timestamp) + ", "@ + m.author@ + ", "@ + body_of(m.content) + "\n"@
}

/// The CSV header line.
pub open spec fn csv_header() -> Seq<char> {
    "timestamp, author, message\n"@
}

/// The whole CSV export of a message sequence: header plus one line each.
pub open spec fn csv_lines(ms: Seq<Message>) -> Seq<char> {
    csv_header() + cat_map(|m: Message| csv_line(m), ms)
}

/// The resolved messages of a room (empty if unresolved; exports demand a
/// resolved room).
pub open spec fn msgs_of(room: Room) -> Seq<Message> {
    match room.messages {
        Option::Some(v) => v@,
        Option::None => Seq::empty(),
    }
}

/// Every field of the message that reaches an export line is newline-free,
/// so the message occupies exactly one line.
pub open spec fn msg_nl_free(m: Message) -> bool {
    &&& nl_free(m.author@)
    &&& match m.content {
        Content::Message(t) => nl_free(t@),
        Content::Image(img) => nl_free(img.id@),
    }
}

/// The timestamp of every message lies in the formatter's range.
pub open spec fn msgs_ts_in_range(ms: Seq<Message>) -> bool {
    forall|i: int| 0 <= i < ms.len() ==> ts_in_range(#[trigger] ms[i].timestamp)
}

proof fn lemma_body_nl_free(m: Message)
    requires
        msg_nl_free(m),
    ensures
        nl_free(body_of(m.content)),
{
    match m.content {
        Content::Message(t) => {
        },
        Content::Image(img) => {
            reveal_strlit("FILE: ");
        },
    }
}

/// A rendered message line holds exactly one newline, at its end, whenever
/// the message's fields and its formatted timestamp are newline-free.
proof fn lemma_one_line(pre: Seq<char>, nl: Seq<char>)
    requires
        nl_free(pre),
        nl == "\n"@,
    ensures
        line_count(pre + nl) == 1,
{
    reveal_strlit("\n");
    lemma_line_count_concat(pre, nl);
    lemma_line_count_nl_free(pre);
    assert(nl.drop_first() =~= Seq::<char>::empty());
    assert(line_count(Seq::<char>::empty()) == 0);
    assert(line_count(nl) == 1);
}

proof fn lemma_txt_line_count(m: Message)
    requires
        msg_nl_free(m),
        nl_free(rfc3339_of(m.timestamp)),
    ensures
        line_count(txt_line(m)) == 1,
{
    reveal_strlit("[");
    reveal_strlit("] ");
    reveal_strlit(": ");
    lemma_body_nl_free(m);
    let pre = "["@ + rfc3339_of(m.timestamp) + "] "@ + m.author@ + ": "@ + body_of(m.content);
    assert(txt_line(m) =~= pre + "\n"@);
    lemma_one_line(pre, "\n"@);
}

proof fn lemma_csv_line_count(m: Message)
    requires
        msg_nl_free(m),
        nl_free(rfc3339_of(m.timestamp)),
    ensures
        line_count(csv_line(m)) == 1,
{
    reveal_strlit(", ");
    reveal_strlit("\n");
    lemma_body_nl_free(m);
    let pre = rfc3339_of(m.timestamp) + ", "@ + m.author@ + ", "@ + body_of(m.content);
    assert(csv_line(m) =~= pre + "\n"@);
    lemma_one_line(pre, "\n"@);
}

/// Renders one message as a line of the plain-text export.
fn render_txt_line(m: &Message) -> (r: String)
    requires
        ts_in_range(m.timestamp),
    ensures
        r@ == txt_line(*m),
        nl_free(rfc3339_of(m.timestamp)),
{
    let mut line = String::new();
    line.append("[");
    let ts = rfc3339_utc_secs(m.timestamp);
    line.append(ts.as_str());
    line.append("] ");
    line.append(m.author.as_str());
    line.append(": ");
    match &m.content {
        Content::Message(t) => {
            line.append(t.as_str());
        },
        Content::Image(img) => {
            line.append("FILE: ");
            line.append(img.id.as_str());
        },
    }
    line.append("\n");
    proof {
        assert(line@ =~= txt_line(*m));
    }
    line
}

/// Renders one message as an appended line of the CSV export, so that a
/// writer can append the file one message at a time.
pub fn render_csv_line(m: &Message) -> (r: String)
    requires
        ts_in_range(m.timestamp),
    ensures
        r@ == csv_line(*m),
        nl_free(rfc3339_of(m.timestamp)),
{
    let mut line = String::new();
    let ts = rfc3339_utc_secs(m.timestamp);
    line.append(ts.as_str());
    line.append(", ");
    line.append(m.author.as_str());
    line.append(", ");
    match &m.content {
        Content::Message(t) => {
            line.append(t.as_str());
        },
        Content::Image(img) => {
            line.append("FILE: ");
            line.append(img.id.as_str());
        },
    }
    line.append("\n");
    proof {
        assert(line@ =~= csv_line(*m));
    }
    line
}

/// A URL as it appears inside the exported bracketed list.
pub open spec fn quoted(u: Seq<char>) -> Seq<char> {
    "\""@ + u + "\""@
}

pub open spec fn urls_items(urls: Seq<Seq<char>>) -> Seq<char> {
    if urls.len() == 0 {
        Seq::empty()
    } else {
        quoted(urls.first()) + cat_map(|u: Seq<char>| ", "@ + quoted(u), urls.drop_first())
    }
}

/// The bracketed rendering of a post's image URLs: every URL, in order,
/// quoted and comma-separated.
pub open spec fn urls_list(urls: Seq<Seq<char>>) -> Seq<char> {
    "["@ + urls_items(urls) + "]"@
}

/// Renders the bracketed image-URL list of a post.
fn render_urls_list(urls: &Vec<String>) -> (r: String)
    ensures
        r@ == urls_list(urls@.map_values(|u: String| u@)),
{
    let ghost us = urls@.map_values(|u: String| u@);
    let ghost g = |u: Seq<char>| ", "@ + quoted(u);
    let mut out = String::new();
    out.append("[");
    let mut i: usize = 0;
    proof {
        assert(us.take(0) =~= Seq::<Seq<char>>::empty());
        assert(out@ =~= "["@ + urls_items(us.take(0)));
    }
    while i < urls.len()
        invariant
            0 <= i <= urls.len(),
            us == urls@.map_values(|u: String| u@),
            g == (|u: Seq<char>| ", "@ + quoted(u)),
            out@ == "["@ + urls_items(us.take(i as int)),
        decreases urls.len() - i,
    {
        if i > 0 {
            out.append(", ");
        }
        out.append("\"");
        out.append(urls[i].as_str());
        out.append("\"");
        proof {
            let prev = us.take(i as int);
            let cur = us.take(i as int + 1);
            if i == 0 {
                assert(cur.drop_first() =~= Seq::<Seq<char>>::empty());
                assert(cat_map(g, Seq::<Seq<char>>::empty()) == Seq::<char>::empty());
                assert(urls_items(cur) =~= quoted(us[0]));
                assert(out@ =~= "["@ + urls_items(cur));
            } else {
                assert(cur.drop_first() =~= prev.drop_first().push(us[i as int]));
                lemma_cat_map_push(g, prev.drop_first(), us[i as int]);
                assert(urls_items(cur) =~= urls_items(prev) + (", "@ + quoted(us[i as int])));
                assert(out@ =~= "["@ + urls_items(cur));
            }
        }
        i = i + 1;
    }
    out.append("]");
    proof {
        assert(us.take(us.len() as int) =~= us);
        assert(out@ =~= urls_list(us));
    }
    out
}

/// One line of the saved-posts text export.
pub open spec fn post_txt_line(p: Post) -> Seq<char> {
    "Title: "@ + p.title@ + ", Subreddit: "@ + p.subreddit_name@ + ", Permalink: "@ + p.permalink@
        + ", Images "@ + urls_list(p@.img_url) + "\n"@
}

/// The whole saved-posts text export.
pub open spec fn posts_txt(ps: Seq<Post>) -> Seq<char> {
    cat_map(|p: Post| post_txt_line(p), ps)
}

/// One appended line of the saved-posts CSV export.
pub open spec fn post_csv_line(p: Post) -> Seq<char> {
    p.title@ + ", "@ + p.subreddit_name@ + ", "@ + p.permalink@ + ", "@ + urls_list(p@.img_url)
        + "\n"@
}

/// The saved-posts CSV header line.
pub open spec fn posts_csv_header() -> Seq<char> {
    "Title, Subreddit, Permalink, Images\n"@
}

/// The whole saved-posts CSV export: header plus one line per post.
pub open spec fn posts_csv(ps: Seq<Post>) -> Seq<char> {
    posts_csv_header() + cat_map(|p: Post| post_csv_line(p), ps)
}

fn render_post_txt_line(p: &Post) -> (r: String)
    ensures
        r@ == post_txt_line(*p),
{
    let mut line = String::new();
    line.append("Title: ");
    line.append(p.title.as_str());
    line.append(", Subreddit: ");
    line.append(p.subreddit_name.as_str());
    line.append(", Permalink: ");
    line.append(p.permalink.as_str());
    line.append(", Images ");
    let lst = render_urls_list(&p.img_url);
    line.append(lst.as_str());
    line.append("\n");
    proof {
        assert(line@ =~= post_txt_line(*p));
    }
    line
}

fn render_post_csv_line(p: &Post) -> (r: String)
    ensures
        r@ == post_csv_line(*p),
{
    let mut line = String::new();
    line.append(p.title.as_str());
    line.append(", ");
    line.append(p.subreddit_name.as_str());
    line.append(", ");
    line.append(p.permalink.as_str());
    line.append(", ");
    let lst = render_urls_list(&p.img_url);
    line.append(lst.as_str());
    line.append("\n");
    proof {
        assert(line@ =~= post_csv_line(*p));
    }
    line
}

/// The saved-posts text export: one line per post, in order; empty for an
/// empty batch.
pub fn export_saved_posts_txt(posts: &Vec<Post>) -> (r: String)
    ensures
        r@ == posts_txt(posts@),
{
    let ghost s = posts@;
    let ghost f = |p: Post| post_txt_line(p);
    let mut out = String::new();
    let mut i: usize = 0;
    proof {
        assert(s.take(0) =~= Seq::<Post>::empty());
    }
    while i < posts.len()
        invariant
            0 <= i <= posts.len(),
            posts@ == s,
            f == (|p: Post| post_txt_line(p)),
            out@ == cat_map(f, s.take(i as int)),
        decreases posts.len() - i,
    {
        let line = render_post_txt_line(&posts[i]);
        out.append(line.as_str());
        proof {
            lemma_cat_map_push(f, s.take(i as int), s[i as int]);
            assert(s.take(i as int).push(s[i as int]) =~= s.take(i as int + 1));
        }
        i = i + 1;
    }
    proof {
        assert(s.take(s.len() as int) =~= s);
    }
    out
}

/// The saved-posts CSV export: the header line, then one line per post, in
/// order; header-only for an empty batch.
pub fn export_saved_posts_csv(posts: &Vec<Post>) -> (r: String)
    ensures
        r@ == posts_csv(posts@),
{
    let ghost s = posts@;
    let ghost f = |p: Post| post_csv_line(p);
    let mut out = String::new();
    out.append("Title, Subreddit, Permalink, Images\n");
    let mut i: usize = 0;
    proof {
        assert(s.take(0) =~= Seq::<Post>::empty());
        assert(out@ =~= posts_csv_header() + cat_map(f, s.take(0)));
    }
    while i < posts.len()
        invariant
            0 <= i <= posts.len(),
            posts@ == s,
            f == (|p: Post| post_csv_line(p)),
            out@ == posts_csv_header() + cat_map(f, s.take(i as int)),
        decreases posts.len() - i,
    {
        let line = render_post_csv_line(&posts[i]);
        out.append(line.as_str());
        proof {
            lemma_cat_map_push(f, s.take(i as int), s[i as int]);
            assert(s.take(i as int).push(s[i as int]) =~= s.take(i as int + 1));
            assert(out@ =~= posts_csv_header() + cat_map(f, s.take(i as int + 1)));
        }
        i = i + 1;
    }
    proof {
        assert(s.take(s.len() as int) =~= s);
    }
    out
}

/// The file name an exported image is written under: its identifier and
/// its inferred suffix.
pub fn image_file_name(img: &Image) -> (r: String)
    ensures
        r@ == img.id@ + "."@ + img.extension@,
{
    let mut out = String::new();
    out.append(img.id.as_str());
    out.append(".");
    out.append(img.extension.as_str());
    proof {
        assert(out@ =~= img.id@ + "."@ + img.extension@);
    }
    out
}

/// The plain-text export of a room: one line per resolved message, in
/// order. When every message is newline-free the rendering holds exactly
/// one line per message.
pub fn export_room_chats_txt(room: &Room) -> (r: String)
    requires
        room.messages is Some,
        msgs_ts_in_range(msgs_of(*room)),
    ensures
        r@ == txt_lines(msgs_of(*room)),
        (forall|i: int|
            0 <= i < msgs_of(*room).len() ==> msg_nl_free(#[trigger] msgs_of(*room)[i]))
            ==> line_count(r@) == msgs_of(*room).len(),
{
    let ms = room.messages();
    let ghost s = msgs_of(*room);
    let ghost f = |m: Message| txt_line(m);
    let mut out = String::new();
    let mut i: usize = 0;
    proof {
        assert(s.take(0) =~= Seq::<Message>::empty());
    }
    while i < ms.len()
        invariant
            0 <= i <= ms.len(),
            ms@ == s,
            msgs_ts_in_range(s),
            out@ == cat_map(f, s.take(i as int)),
            f == (|m: Message| txt_line(m)),
            (forall|j: int| 0 <= j < i ==> msg_nl_free(#[trigger] s[j])) ==> line_count(out@)
                == i,
            forall|j: int| 0 <= j < i ==> nl_free(rfc3339_of(#[trigger] s[j].timestamp)),
        decreases ms.len() - i,
    {
        let line = render_txt_line(&ms[i]);
        let ghost old_out = out@;
        out.append(line.as_str());
        proof {
            lemma_cat_map_push(f, s.take(i as int), s[i as int]);
            assert(s.take(i as int).push(s[i as int]) =~= s.take(i as int + 1));
            lemma_line_count_concat(old_out, line@);
            if forall|j: int| 0 <= j < i + 1 ==> msg_nl_free(#[trigger] s[j]) {
                lemma_txt_line_count(s[i as int]);
            }
        }
        i = i + 1;
    }
    proof {
        assert(s.take(s.len() as int) =~= s);
    }
    out
}

/// The CSV export of a room: the header line, then one line per resolved
/// message, in order. When every message is newline-free the rendering
/// holds exactly one more line than the room holds messages, even for an
/// empty room.
pub fn export_room_chats_csv(room: &Room) -> (r: String)
    requires
        room.messages is Some,
        msgs_ts_in_range(msgs_of(*room)),
    ensures
        r@ == csv_lines(msgs_of(*room)),
        (forall|i: int|
            0 <= i < msgs_of(*room).len() ==> msg_nl_free(#[trigger] msgs_of(*room)[i]))
            ==> line_count(r@) == msgs_of(*room).len() + 1,
{
    let ms = room.messages();
    let ghost s = msgs_of(*room);
    let ghost f = |m: Message| csv_line(m);
    let mut out = String::new();
    out.append("timestamp, author, message\n");
    proof {
        reveal_strlit("timestamp, author, message\n");
        reveal_strlit("timestamp, author, message");
        assert(csv_header() =~= "timestamp, author, message"@ + "\n"@) by {
            reveal_strlit("\n");
        }
        lemma_one_line("timestamp, author, message"@, "\n"@);
        assert(s.take(0) =~= Seq::<Message>::empty());
        assert(out@ =~= csv_header() + cat_map(f, s.take(0)));
    }
    let mut i: usize = 0;
    while i < ms.len()
        invariant
            0 <= i <= ms.len(),
            ms@ == s,
            msgs_ts_in_range(s),
            out@ == csv_header() + cat_map(f, s.take(i as int)),
            f == (|m: Message| csv_line(m)),
            (forall|j: int| 0 <= j < i ==> msg_nl_free(#[trigger] s[j])) ==> line_count(out@)
                == i + 1,
            forall|j: int| 0 <= j < i ==> nl_free(rfc3339_of(#[trigger] s[j].timestamp)),
        decreases ms.len() - i,
    {
        let line = render_csv_line(&ms[i]);
        let ghost old_out = out@;
        out.append(line.as_str());
        proof {
            lemma_cat_map_push(f, s.take(i as int), s[i as int]);
            assert(s.take(i as int).push(s[i as int]) =~= s.take(i as int + 1));
            assert(out@ =~= csv_header() + cat_map(f, s.take(i as int + 1)));
            lemma_line_count_concat(old_out, line@);
            if forall|j: int| 0 <= j < i + 1 ==> msg_nl_free(#[trigger] s[j]) {
                lemma_csv_line_count(s[i as int]);
            }
        }
        i = i + 1;
    }
    proof {
        assert(s.take(s.len() as int) =~= s);
    }
    out
}

} // verus!
