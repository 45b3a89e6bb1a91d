use vstd::prelude::*;
use vstd::arithmetic::div_mod::lemma_fundamental_div_mod;
use crate::export::msgs_of;
use crate::model::{Content, Message, Post, Room};
use crate::strutil::push_char;
use crate::timefmt::ts_in_range;

verus! {

// The JSON export format. Strings are quoted with double-quote and
// backslash escaped by a backslash; every other character stands as
// itself. Timestamps are decimal integers, image payloads arrays of
// decimal bytes, and the content variant is spelled out by its tag.

/// A lower-case hexadecimal digit character.
pub open spec fn hex_char(d: nat) -> char {
    if d < 10 {
        digit_char(d)
    } else if d == 10 {
        'a'
    } else if d == 11 {
        'b'
    } else if d == 12 {
        'c'
    } else if d == 13 {
        'd'
    } else if d == 14 {
        'e'
    } else {
        'f'
    }
}

/// How one character appears inside a JSON string literal: quote and
/// backslash escaped by a backslash, control characters as a four-digit
/// code escape, every other character as itself.
pub open spec fn esc_char(c: char) -> Seq<char> {
    if c == '"' || c == '\\' {
        seq!['\\', c]
    } else if (c as u32) < 32 {
        seq![
            '\\',
            'u',
            '0',
            '0',
            hex_char(((c as u32) / 16) as nat),
            hex_char(((c as u32) % 16) as nat),
        ]
    } else {
        seq![c]
    }
}

/// How a text appears inside a JSON string literal.
pub open spec fn esc(s: Seq<char>) -> Seq<char>
    decreases s.len(),
{
    if s.len() == 0 {
        Seq::empty()
    } else {
        esc_char(s.first()) + esc(s.drop_first())
    }
}

/// A JSON string literal.
pub open spec fn jstr(s: Seq<char>) -> Seq<char> {
    seq!['"'] + esc(s) + seq!['"']
}

/// The decimal digit characters of a number, most significant first.
pub open spec fn dec_digits(n: nat) -> Seq<char>
    decreases n,
{
    if n < 10 {
        seq![digit_char(n)]
    } else {
        dec_digits(n / 10) + seq![digit_char(n % 10)]
    }
}

pub open spec fn digit_char(d: nat) -> char {
    if d == 0 {
        '0'
    } else if d == 1 {
        '1'
    } else if d == 2 {
        '2'
    } else if d == 3 {
        '3'
    } else if d == 4 {
        '4'
    } else if d == 5 {
        '5'
    } else if d == 6 {
        '6'
    } else if d == 7 {
        '7'
    } else if d == 8 {
        '8'
    } else {
        '9'
    }
}

/// A decimal integer, with a leading minus for negative values.
pub open spec fn int_text(n: int) -> Seq<char> {
    if n < 0 {
        seq!['-'] + dec_digits((-n) as nat)
    } else {
        dec_digits(n as nat)
    }
}

/// The elements rendered by `f`, joined by `sep`.
pub open spec fn joined<A>(f: spec_fn(A) -> Seq<char>, sep: Seq<char>, s: Seq<A>) -> Seq<char>
    decreases s.len(),
{
    if s.len() == 0 {
        Seq::empty()
    } else if s.len() == 1 {
        f(s.first())
    } else {
        f(s.first()) + sep + joined(f, sep, s.drop_first())
    }
}

pub proof fn lemma_joined_push<A>(f: spec_fn(A) -> Seq<char>, sep: Seq<char>, s: Seq<A>, x: A)
    ensures
        joined(f, sep, s.push(x)) == if s.len() == 0 {
            f(x)
        } else {
            joined(f, sep, s) + sep + f(x)
        },
    decreases s.len(),
{
    if s.len() == 0 {
        assert(s.push(x).len() == 1);
        assert(s.push(x).first() == x);
    } else if s.len() == 1 {
        assert(s.push(x).drop_first() =~= s.drop_first().push(x));
        assert(s.drop_first() =~= Seq::<A>::empty());
        assert(s.push(x).drop_first() =~= seq![x]);
        assert(joined(f, sep, seq![x]) == f(x));
        assert(joined(f, sep, s.push(x)) =~= f(s.first()) + sep + f(x));
        assert(joined(f, sep, s) == f(s.first()));
    } else {
        assert(s.push(x).drop_first() =~= s.drop_first().push(x));
        lemma_joined_push(f, sep, s.drop_first(), x);
        assert(joined(f, sep, s.push(x)) =~= joined(f, sep, s) + sep + f(x));
    }
}

/// The JSON form of a message's content, its variant spelled out.
pub open spec fn content_json(c: Content) -> Seq<char> {
    match c {
        Content::Message(t) => "{\"Message\":"@ + jstr(t@) + "}"@,
        Content::Image(img) => "{\"Image\":{\"id\":"@ + jstr(img.id@) + ",\"extension\":"@ + jstr(
            img.extension@,
        ) + ",\"data\":["@ + joined(|b: u8| dec_digits(b as nat), ","@, img.data@) + "]}}"@,
    }
}

/// The JSON form of one message.
pub open spec fn msg_json(m: Message) -> Seq<char> {
    "{\"author\":"@ + jstr(m.author@) + ",\"timestamp\":"@ + int_text(m.timestamp as int)
        + ",\"content\":"@ + content_json(m.content) + "}"@
}

/// The JSON form of a message list.
pub open spec fn msgs_json(ms: Seq<Message>) -> Seq<char> {
    "["@ + joined(|m: Message| msg_json(m), ","@, ms) + "]"@
}

/// The JSON form of a resolved room: its identifier and its full message
/// list.
pub open spec fn room_json(room: Room) -> Seq<char> {
    "{\"id\":"@ + jstr(room.id@) + ",\"messages\":"@ + msgs_json(msgs_of(room)) + "}"@
}

/// The JSON form of one saved post.
pub open spec fn post_json(p: Post) -> Seq<char> {
    "{\"title\":"@ + jstr(p.title@) + ",\"subreddit_name\":"@ + jstr(p.subreddit_name@)
        + ",\"permalink\":"@ + jstr(p.permalink@) + ",\"img_url\":["@ + joined(
        |u: Seq<char>| jstr(u),
        ","@,
        p@.img_url,
    ) + "]}"@
}

/// The JSON form of a saved-posts batch: an array with one object per
/// post, `[]` for an empty batch.
pub open spec fn posts_json(ps: Seq<Post>) -> Seq<char> {
    "["@ + joined(|p: Post| post_json(p), ","@, ps) + "]"@
}

proof fn lemma_esc_push(s: Seq<char>, c: char)
    ensures
        esc(s.push(c)) == esc(s) + esc_char(c),
    decreases s.len(),
{
    if s.len() == 0 {
        assert(s.push(c).drop_first() =~= Seq::<char>::empty());
        assert(esc(Seq::<char>::empty()) == Seq::<char>::empty());
        assert(esc(s.push(c)) =~= esc_char(c) + Seq::<char>::empty());
        assert(esc(s.push(c)) =~= esc(s) + esc_char(c));
    } else {
        assert(s.push(c).drop_first() =~= s.drop_first().push(c));
        lemma_esc_push(s.drop_first(), c);
        assert(esc(s.push(c)) =~= esc(s) + esc_char(c));
    }
}

/// Writes the JSON string literal of `s`.
fn write_jstr(out: &mut String, s: &str)
    ensures
        final(out)@ == old(out)@ + jstr(s@),
{
    let ghost base = out@;
    push_char(out, '"');
    let n = s.unicode_len();
    let mut i: usize = 0;
    proof {
        assert(s@.take(0) =~= Seq::<char>::empty());
        assert(out@ =~= base + seq!['"'] + esc(s@.take(0)));
    }
    while i < n
        invariant
            0 <= i <= n,
            n == s@.len(),
            out@ == base + seq!['"'] + esc(s@.take(i as int)),
        decreases n - i,
    {
        let c = s.get_char(i);
        let u = c as u32;
        if c == '"' || c == '\\' {
            push_char(out, '\\');
            push_char(out, c);
        } else if u < 32 {
            push_char(out, '\\');
            push_char(out, 'u');
            push_char(out, '0');
            push_char(out, '0');
            push_char(out, hex_of(u / 16));
            push_char(out, hex_of(u % 16));
        } else {
            push_char(out, c);
        }
        proof {
            lemma_esc_push(s@.take(i as int), c);
            assert(s@.take(i as int).push(c) =~= s@.take(i as int + 1));
            assert(out@ =~= base + seq!['"'] + esc(s@.take(i as int + 1)));
        }
        i = i + 1;
    }
    push_char(out, '"');
    proof {
        assert(s@.take(s@.len() as int) =~= s@);
        assert(out@ =~= base + jstr(s@));
    }
}

fn digit_of(d: u64) -> (c: char)
    requires
        d < 10,
    ensures
        c == digit_char(d as nat),
{
    if d == 0 {
        '0'
    } else if d == 1 {
        '1'
    } else if d == 2 {
        '2'
    } else if d == 3 {
        '3'
    } else if d == 4 {
        '4'
    } else if d == 5 {
        '5'
    } else if d == 6 {
        '6'
    } else if d == 7 {
        '7'
    } else if d == 8 {
        '8'
    } else {
        '9'
    }
}

fn hex_of(d: u32) -> (c: char)
    requires
        d < 16,
    ensures
        c == hex_char(d as nat),
{
    if d == 0 {
        '0'
    } else if d == 1 {
        '1'
    } else if d == 2 {
        '2'
    } else if d == 3 {
        '3'
    } else if d == 4 {
        '4'
    } else if d == 5 {
        '5'
    } else if d == 6 {
        '6'
    } else if d == 7 {
        '7'
    } else if d == 8 {
        '8'
    } else if d == 9 {
        '9'
    } else if d == 10 {
        'a'
    } else if d == 11 {
        'b'
    } else if d == 12 {
        'c'
    } else if d == 13 {
        'd'
    } else if d == 14 {
        'e'
    } else {
        'f'
    }
}

proof fn lemma_hex_inj(a: nat, b: nat)
    requires
        a < 16,
        b < 16,
        hex_char(a) == hex_char(b),
    ensures
        a == b,
{
}

fn hex_val(c: char) -> (r: Option<u32>)
    ensures
        r matches Some(d) ==> d < 16 && c == hex_char(d as nat),
        (exists|d: nat| d < 16 && c == hex_char(d)) ==> r is Some,
{
    if c == '0' {
        Option::Some(0)
    } else if c == '1' {
        Option::Some(1)
    } else if c == '2' {
        Option::Some(2)
    } else if c == '3' {
        Option::Some(3)
    } else if c == '4' {
        Option::Some(4)
    } else if c == '5' {
        Option::Some(5)
    } else if c == '6' {
        Option::Some(6)
    } else if c == '7' {
        Option::Some(7)
    } else if c == '8' {
        Option::Some(8)
    } else if c == '9' {
        Option::Some(9)
    } else if c == 'a' {
        Option::Some(10)
    } else if c == 'b' {
        Option::Some(11)
    } else if c == 'c' {
        Option::Some(12)
    } else if c == 'd' {
        Option::Some(13)
    } else if c == 'e' {
        Option::Some(14)
    } else if c == 'f' {
        Option::Some(15)
    } else {
        proof {
            assert forall|d: nat| d < 16 implies c != hex_char(d) by {
                if d < 10 {
                    assert(hex_char(d) == digit_char(d));
                }
            }
        }
        Option::None
    }
}

/// The control character with the given code.
fn ctl_char(code: u32) -> (c: char)
    requires
        code < 32,
    ensures
        c as u32 == code,
{
    if code == 0 {
        '\u{00}'
    } else if code == 1 {
        '\u{01}'
    } else if code == 2 {
        '\u{02}'
    } else if code == 3 {
        '\u{03}'
    } else if code == 4 {
        '\u{04}'
    } else if code == 5 {
        '\u{05}'
    } else if code == 6 {
        '\u{06}'
    } else if code == 7 {
        '\u{07}'
    } else if code == 8 {
        '\u{08}'
    } else if code == 9 {
        '\u{09}'
    } else if code == 10 {
        '\u{0a}'
    } else if code == 11 {
        '\u{0b}'
    } else if code == 12 {
        '\u{0c}'
    } else if code == 13 {
        '\u{0d}'
    } else if code == 14 {
        '\u{0e}'
    } else if code == 15 {
        '\u{0f}'
    } else if code == 16 {
        '\u{10}'
    } else if code == 17 {
        '\u{11}'
    } else if code == 18 {
        '\u{12}'
    } else if code == 19 {
        '\u{13}'
    } else if code == 20 {
        '\u{14}'
    } else if code == 21 {
        '\u{15}'
    } else if code == 22 {
        '\u{16}'
    } else if code == 23 {
        '\u{17}'
    } else if code == 24 {
        '\u{18}'
    } else if code == 25 {
        '\u{19}'
    } else if code == 26 {
        '\u{1a}'
    } else if code == 27 {
        '\u{1b}'
    } else if code == 28 {
        '\u{1c}'
    } else if code == 29 {
        '\u{1d}'
    } else if code == 30 {
        '\u{1e}'
    } else {
        '\u{1f}'
    }
}

/// Writes the decimal digits of `n`.
fn write_u64(out: &mut String, n: u64)
    ensures
        final(out)@ == old(out)@ + dec_digits(n as nat),
    decreases n,
{
    if n < 10 {
        push_char(out, digit_of(n));
        proof {
            assert(out@ =~= old(out)@ + dec_digits(n as nat));
        }
    } else {
        write_u64(out, n / 10);
        push_char(out, digit_of(n % 10));
        proof {
            assert(out@ =~= old(out)@ + dec_digits(n as nat));
        }
    }
}

/// Writes a timestamp as a decimal integer.
fn write_ts(out: &mut String, ts: i64)
    requires
        ts_in_range(ts),
    ensures
        final(out)@ == old(out)@ + int_text(ts as int),
{
    if ts < 0 {
        push_char(out, '-');
        let mag: u64 = (-(ts as i128)) as u64;
        write_u64(out, mag);
        proof {
            assert(mag as nat == (-(ts as int)) as nat);
            assert(out@ =~= old(out)@ + int_text(ts as int));
        }
    } else {
        write_u64(out, ts as u64);
    }
}

fn write_content(out: &mut String, c: &Content)
    ensures
        final(out)@ == old(out)@ + content_json(*c),
{
    let ghost base = out@;
    match c {
        Content::Message(t) => {
            out.append("{\"Message\":");
            write_jstr(out, t.as_str());
            out.append("}");
            proof {
                assert(out@ =~= base + content_json(*c));
            }
        },
        Content::Image(img) => {
            out.append("{\"Image\":{\"id\":");
            write_jstr(out, img.id.as_str());
            out.append(",\"extension\":");
            write_jstr(out, img.extension.as_str());
            out.append(",\"data\":[");
            let ghost mid = out@;
            let ghost bs = img.data@;
            let ghost g = |x: u8| ","@ + dec_digits(x as nat);
            let mut j: usize = 0;
            proof {
                assert(bs.take(0) =~= Seq::<u8>::empty());
                assert(out@ =~= mid + joined(|b: u8| dec_digits(b as nat), ","@, bs.take(0)));
            }
            while j < img.data.len()
                invariant
                    0 <= j <= img.data.len(),
                    bs == img.data@,
                    g == (|x: u8| ","@ + dec_digits(x as nat)),
                    out@ == mid + joined(|b: u8| dec_digits(b as nat), ","@, bs.take(j as int)),
                decreases img.data.len() - j,
            {
                if j > 0 {
                    out.append(",");
                    proof {
                        reveal_strlit(",");
                    }
                }
                let b = img.data[j];
                write_u64(out, b as u64);
                proof {
                    let prev = bs.take(j as int);
                    let cur = bs.take(j as int + 1);
                    let f = |b: u8| dec_digits(b as nat);
                    lemma_joined_push(f, ","@, prev, bs[j as int]);
                    assert(prev.push(bs[j as int]) =~= cur);
                    assert(out@ =~= mid + joined(f, ","@, cur));
                }
                j = j + 1;
            }
            out.append("]}}");
            proof {
                assert(bs.take(bs.len() as int) =~= bs);
                assert(out@ =~= base + content_json(*c));
            }
        },
    }
}

fn write_msg(out: &mut String, m: &Message)
    requires
        ts_in_range(m.timestamp),
    ensures
        final(out)@ == old(out)@ + msg_json(*m),
{
    let ghost base = out@;
    out.append("{\"author\":");
    write_jstr(out, m.author.as_str());
    out.append(",\"timestamp\":");
    write_ts(out, m.timestamp);
    out.append(",\"content\":");
    write_content(out, &m.content);
    out.append("}");
    proof {
        assert(out@ =~= base + msg_json(*m));
    }
}

/// The JSON export of a room: its identifier and its complete resolved
/// message list, the content variant spelled out.
pub fn export_room_chats_json(room: &Room) -> (r: String)
    requires
        room.messages is Some,
        crate::export::msgs_ts_in_range(msgs_of(*room)),
    ensures
        r@ == room_json(*room),
{
    let ghost ms = msgs_of(*room);
    let ghost f = |m: Message| msg_json(m);
    let ghost g = |m: Message| ","@ + msg_json(m);
    let mut out = String::new();
    out.append("{\"id\":");
    write_jstr(&mut out, room.id.as_str());
    out.append(",\"messages\":");
    out.append("[");
    let ghost mid = out@;
    let msgs = room.messages();
    let mut i: usize = 0;
    proof {
        assert(ms.take(0) =~= Seq::<Message>::empty());
        assert(out@ =~= mid + joined(f, ","@, ms.take(0)));
    }
    while i < msgs.len()
        invariant
            0 <= i <= msgs.len(),
            ms == msgs@,
            crate::export::msgs_ts_in_range(ms),
            f == (|m: Message| msg_json(m)),
            g == (|m: Message| ","@ + msg_json(m)),
            out@ == mid + joined(f, ","@, ms.take(i as int)),
        decreases msgs.len() - i,
    {
        if i > 0 {
            out.append(",");
            proof {
                reveal_strlit(",");
            }
        }
        write_msg(&mut out, &msgs[i]);
        proof {
            let prev = ms.take(i as int);
            let cur = ms.take(i as int + 1);
            lemma_joined_push(f, ","@, prev, ms[i as int]);
            assert(prev.push(ms[i as int]) =~= cur);
            assert(out@ =~= mid + joined(f, ","@, cur));
        }
        i = i + 1;
    }
    out.append("]");
    out.append("}");
    proof {
        assert(ms.take(ms.len() as int) =~= ms);
        assert(out@ =~= room_json(*room));
    }
    out
}

fn write_post(out: &mut String, p: &Post)
    ensures
        final(out)@ == old(out)@ + post_json(*p),
{
    let ghost base = out@;
    out.append("{\"title\":");
    write_jstr(out, p.title.as_str());
    out.append(",\"subreddit_name\":");
    write_jstr(out, p.subreddit_name.as_str());
    out.append(",\"permalink\":");
    write_jstr(out, p.permalink.as_str());
    out.append(",\"img_url\":[");
    let ghost mid = out@;
    let ghost us = p@.img_url;
    let ghost f = |u: Seq<char>| jstr(u);
    let ghost g = |u: Seq<char>| ","@ + jstr(u);
    let mut j: usize = 0;
    proof {
        assert(us.take(0) =~= Seq::<Seq<char>>::empty());
        assert(out@ =~= mid + joined(f, ","@, us.take(0)));
    }
    while j < p.img_url.len()
        invariant
            0 <= j <= p.img_url.len(),
            us == p@.img_url,
            us.len() == p.img_url.len(),
            forall|k: int| 0 <= k < us.len() ==> us[k] == #[trigger] p.img_url@[k]@,
            f == (|u: Seq<char>| jstr(u)),
            g == (|u: Seq<char>| ","@ + jstr(u)),
            out@ == mid + joined(f, ","@, us.take(j as int)),
        decreases p.img_url.len() - j,
    {
        if j > 0 {
            out.append(",");
            proof {
                reveal_strlit(",");
            }
        }
        write_jstr(out, p.img_url[j].as_str());
        proof {
            let prev = us.take(j as int);
            let cur = us.take(j as int + 1);
            lemma_joined_push(f, ","@, prev, us[j as int]);
            assert(prev.push(us[j as int]) =~= cur);
            assert(out@ =~= mid + joined(f, ","@, cur));
        }
        j = j + 1;
    }
    out.append("]}");
    proof {
        assert(us.take(us.len() as int) =~= us);
        assert(out@ =~= base + post_json(*p));
    }
}

/// The JSON export of a saved-posts batch: one object per post, in order,
/// an empty array for an empty batch.
pub fn export_saved_posts_json(posts: &Vec<Post>) -> (r: String)
    ensures
        r@ == posts_json(posts@),
{
    let ghost s = posts@;
    let ghost f = |p: Post| post_json(p);
    let ghost g = |p: Post| ","@ + post_json(p);
    let mut out = String::new();
    out.append("[");
    let ghost mid = out@;
    let mut i: usize = 0;
    proof {
        assert(s.take(0) =~= Seq::<Post>::empty());
        assert(out@ =~= mid + joined(f, ","@, s.take(0)));
    }
    while i < posts.len()
        invariant
            0 <= i <= posts.len(),
            s == posts@,
            f == (|p: Post| post_json(p)),
            g == (|p: Post| ","@ + post_json(p)),
            out@ == mid + joined(f, ","@, s.take(i as int)),
        decreases posts.len() - i,
    {
        if i > 0 {
            out.append(",");
            proof {
                reveal_strlit(",");
            }
        }
        write_post(&mut out, &posts[i]);
        proof {
            let prev = s.take(i as int);
            let cur = s.take(i as int + 1);
            lemma_joined_push(f, ","@, prev, s[i as int]);
            assert(prev.push(s[i as int]) =~= cur);
            assert(out@ =~= mid + joined(f, ","@, cur));
        }
        i = i + 1;
    }
    out.append("]");
    proof {
        assert(s.take(s.len() as int) =~= s);
        assert(out@ =~= posts_json(s));
    }
    out
}

// ---------------------------------------------------------------------
// Parsing the export format back. Every parse function is total and
// panic-free on arbitrary input; on input that is the rendering of a
// known value (the ghost witness, marked live by `active`) it is proved
// to succeed with exactly that value and to consume exactly its
// rendering.
// ---------------------------------------------------------------------

/// `frag` stands in `s` at position `i`.
pub open spec fn region(s: Seq<char>, i: int, frag: Seq<char>) -> bool {
    0 <= i && i + frag.len() <= s.len() && s.subrange(i, i + frag.len() as int) == frag
}

proof fn lemma_region_index(s: Seq<char>, i: int, frag: Seq<char>, j: int)
    requires
        region(s, i, frag),
        0 <= j < frag.len(),
    ensures
        s[i + j] == frag[j],
{
    assert(s.subrange(i, i + frag.len() as int)[j] == frag[j]);
}

proof fn lemma_region_split(s: Seq<char>, i: int, a: Seq<char>, b: Seq<char>)
    requires
        region(s, i, a + b),
    ensures
        region(s, i, a),
        region(s, i + a.len() as int, b),
{
    let ab = a + b;
    assert(s.subrange(i, i + a.len() as int) =~= a) by {
        assert forall|j: int| 0 <= j < a.len() implies s.subrange(i, i + a.len() as int)[j] == a[j] by {
            assert(s.subrange(i, i + ab.len() as int)[j] == ab[j]);
        }
    }
    assert(s.subrange(i + a.len(), i + ab.len() as int) =~= b) by {
        assert forall|j: int|
            0 <= j < b.len() implies s.subrange(i + a.len(), i + ab.len() as int)[j] == b[j] by {
            assert(s.subrange(i, i + ab.len() as int)[a.len() + j] == ab[a.len() + j]);
        }
    }
}

proof fn lemma_esc_concat(a: Seq<char>, b: Seq<char>)
    ensures
        esc(a + b) == esc(a) + esc(b),
    decreases a.len(),
{
    if a.len() == 0 {
        assert(a + b =~= b);
        assert(esc(a) == Seq::<char>::empty());
        assert(esc(a + b) =~= esc(a) + esc(b));
    } else {
        assert((a + b).len() > 0);
        assert((a + b).first() == a.first());
        assert((a + b).drop_first() =~= a.drop_first() + b);
        lemma_esc_concat(a.drop_first(), b);
        assert(esc(a + b) =~= esc(a) + esc(b));
    }
}

proof fn lemma_esc_at(t: Seq<char>, m: int)
    requires
        0 <= m < t.len(),
    ensures
        esc(t) == esc(t.take(m)) + esc_char(t[m]) + esc(t.skip(m + 1)),
{
    assert(t =~= t.take(m) + t.skip(m));
    lemma_esc_concat(t.take(m), t.skip(m));
    assert(t.skip(m).len() > 0);
    assert(t.skip(m).first() == t[m]);
    assert(t.skip(m).drop_first() =~= t.skip(m + 1));
    assert(esc(t.skip(m)) == esc_char(t[m]) + esc(t.skip(m + 1)));
    assert(esc(t) =~= esc(t.take(m)) + esc_char(t[m]) + esc(t.skip(m + 1)));
}

/// A decimal digit character.
pub open spec fn is_dig(c: char) -> bool {
    48 <= (c as u32) <= 57
}

pub open spec fn dval(c: char) -> int {
    (c as u32) - 48
}

/// The number a digit string denotes.
pub open spec fn num_of(ds: Seq<char>) -> int
    decreases ds.len(),
{
    if ds.len() == 0 {
        0
    } else {
        num_of(ds.drop_last()) * 10 + dval(ds.last())
    }
}

proof fn lemma_digit_char(d: nat)
    requires
        d < 10,
    ensures
        is_dig(digit_char(d)),
        dval(digit_char(d)) == d,
{
}

proof fn lemma_dec_digits_are_digits(n: nat)
    ensures
        forall|j: int| 0 <= j < dec_digits(n).len() ==> is_dig(#[trigger] dec_digits(n)[j]),
        dec_digits(n).len() >= 1,
    decreases n,
{
    if n < 10 {
        lemma_digit_char(n);
    } else {
        lemma_dec_digits_are_digits(n / 10);
        lemma_digit_char(n % 10);
        assert(forall|j: int|
            0 <= j < dec_digits((n / 10) as nat).len() ==> #[trigger] dec_digits(n)[j]
                == dec_digits((n / 10) as nat)[j]);
        assert(dec_digits(n).last() == digit_char(n % 10));
    }
}

proof fn lemma_num_of_dec(n: nat)
    ensures
        num_of(dec_digits(n)) == n,
    decreases n,
{
    if n < 10 {
        lemma_digit_char(n);
        assert(dec_digits(n).drop_last() =~= Seq::<char>::empty());
        assert(dec_digits(n).last() == digit_char(n));
        assert(num_of(Seq::<char>::empty()) == 0);
        assert(num_of(dec_digits(n)) == 0 * 10 + dval(digit_char(n)));
    } else {
        lemma_num_of_dec(n / 10);
        lemma_digit_char(n % 10);
        assert(dec_digits(n).drop_last() =~= dec_digits((n / 10) as nat));
        assert(dec_digits(n).last() == digit_char(n % 10));
        assert(num_of(dec_digits(n)) == num_of(dec_digits((n / 10) as nat)) * 10 + dval(
            digit_char(n % 10),
        ));
        lemma_fundamental_div_mod(n as int, 10);
        assert((n / 10) * 10 + (n % 10) == n);
    }
}

proof fn lemma_num_nonneg(ds: Seq<char>)
    requires
        forall|j: int| 0 <= j < ds.len() ==> is_dig(#[trigger] ds[j]),
    ensures
        num_of(ds) >= 0,
    decreases ds.len(),
{
    if ds.len() > 0 {
        assert(forall|j: int|
            0 <= j < ds.drop_last().len() ==> #[trigger] ds.drop_last()[j] == ds[j]);
        lemma_num_nonneg(ds.drop_last());
    }
}

proof fn lemma_num_prefix(ds: Seq<char>, m: int)
    requires
        forall|j: int| 0 <= j < ds.len() ==> is_dig(#[trigger] ds[j]),
        0 <= m <= ds.len(),
    ensures
        num_of(ds.take(m)) <= num_of(ds),
    decreases ds.len() - m,
{
    if m == ds.len() {
        assert(ds.take(m) =~= ds);
    } else {
        assert(ds.take(m + 1).drop_last() =~= ds.take(m));
        assert(ds.take(m + 1).last() == ds[m]);
        assert(forall|j: int| 0 <= j < m ==> #[trigger] ds.take(m)[j] == ds[j]);
        lemma_num_nonneg(ds.take(m));
        assert(num_of(ds.take(m + 1)) == num_of(ds.take(m)) * 10 + dval(ds[m]));
        assert(num_of(ds.take(m)) * 10 >= num_of(ds.take(m)));
        lemma_num_prefix(ds, m + 1);
    }
}

proof fn lemma_joined_split_at<A>(f: spec_fn(A) -> Seq<char>, sep: Seq<char>, s: Seq<A>, m: int)
    requires
        1 <= m < s.len(),
    ensures
        joined(f, sep, s) == joined(f, sep, s.take(m)) + sep + joined(f, sep, s.skip(m)),
    decreases m,
{
    if m == 1 {
        assert(s.take(1) =~= seq![s.first()]);
        assert(joined(f, sep, seq![s.first()]) == f(s.first()));
        assert(s.skip(1) =~= s.drop_first());
        assert(joined(f, sep, s) =~= joined(f, sep, s.take(1)) + sep + joined(f, sep, s.skip(1)));
    } else {
        lemma_joined_split_at(f, sep, s.drop_first(), m - 1);
        assert(s.drop_first().take(m - 1) =~= s.take(m).drop_first());
        assert(s.take(m).first() == s.first());
        assert(s.take(m).len() == m);
        assert(s.drop_first().skip(m - 1) =~= s.skip(m));
        assert(joined(f, sep, s) =~= joined(f, sep, s.take(m)) + sep + joined(f, sep, s.skip(m)));
    }
}

/// The characters of `s`, in order.
fn to_chars(s: &str) -> (r: Vec<char>)
    ensures
        r@ == s@,
{
    let n = s.unicode_len();
    let mut out: Vec<char> = Vec::new();
    let mut i: usize = 0;
    proof {
        assert(s@.take(0) =~= Seq::<char>::empty());
    }
    while i < n
        invariant
            0 <= i <= n,
            n == s@.len(),
            out@ == s@.take(i as int),
        decreases n - i,
    {
        out.push(s.get_char(i));
        proof {
            assert(s@.take(i as int).push(s@[i as int]) =~= s@.take(i as int + 1));
        }
        i = i + 1;
    }
    proof {
        assert(s@.take(s@.len() as int) =~= s@);
    }
    out
}

/// Consumes exactly the literal `lit` at position `i`.
fn expect_lit(cs: &Vec<char>, i: usize, lit: &str, Ghost(active): Ghost<bool>) -> (r: Option<
    usize,
>)
    requires
        i <= cs@.len(),
        active ==> region(cs@, i as int, lit@),
    ensures
        active ==> (r matches Some(j) && j == i + lit@.len()),
        r matches Some(j) ==> i <= j <= cs@.len() && j == i + lit@.len(),
{
    let ln = lit.unicode_len();
    let cl = cs.len();
    if cl - i < ln {
        proof {
            if active {
                assert(false);
            }
        }
        return Option::None;
    }
    let mut k: usize = 0;
    while k < ln
        invariant
            0 <= k <= ln,
            ln == lit@.len(),
            cl == cs@.len(),
            i + ln <= cl,
            active ==> region(cs@, i as int, lit@),
        decreases ln - k,
    {
        if cs[i + k] != lit.get_char(k) {
            proof {
                if active {
                    lemma_region_index(cs@, i as int, lit@, k as int);
                    assert(false);
                }
            }
            return Option::None;
        }
        k = k + 1;
    }
    Option::Some(i + ln)
}

/// Parses a JSON string literal at position `i`.
fn parse_jstring(
    cs: &Vec<char>,
    i: usize,
    Ghost(active): Ghost<bool>,
    Ghost(t): Ghost<Seq<char>>,
) -> (r: Option<(String, usize)>)
    requires
        i <= cs@.len(),
        active ==> region(cs@, i as int, jstr(t)),
    ensures
        active ==> (r matches Some(p) && p.0@ == t && p.1 == i + jstr(t).len()),
        r matches Some(p) ==> i < p.1 <= cs@.len(),
{
    if i >= cs.len() {
        proof {
            if active {
                assert(jstr(t).len() >= 2);
                assert(false);
            }
        }
        return Option::None;
    }
    if cs[i] != '"' {
        proof {
            if active {
                lemma_region_index(cs@, i as int, jstr(t), 0);
                assert(jstr(t)[0] == '"');
                assert(false);
            }
        }
        return Option::None;
    }
    let mut out = String::new();
    let mut k: usize = i + 1;
    let ghost mut m: int = 0;
    proof {
        assert(t.take(0) =~= Seq::<char>::empty());
        assert(esc(Seq::<char>::empty()) == Seq::<char>::empty());
    }
    #[verifier::loop_isolation(false)]
    loop
        invariant
            i + 1 <= k,
            k <= cs@.len() + 1,
            active ==> {
                &&& 0 <= m <= t.len()
                &&& out@ == t.take(m)
                &&& k == i + 1 + esc(t.take(m)).len()
            },
        decreases cs@.len() + 1 - k,
    {
        proof {
            if active && m < t.len() {
                lemma_esc_at(t, m);
                assert(jstr(t) =~= seq!['"'] + (esc(t.take(m)) + esc_char(t[m]) + esc(
                    t.skip(m + 1),
                )) + seq!['"']);
            }
            if active && m == t.len() {
                assert(t.take(m) =~= t);
                assert(jstr(t)[1 + esc(t).len() as int] == '"');
            }
        }
        if k >= cs.len() {
            proof {
                if active {
                    if m < t.len() {
                        assert(((k - i) as int) < jstr(t).len());
                        assert(false);
                    } else {
                        assert(((k - i) as int) < jstr(t).len());
                        assert(false);
                    }
                }
            }
            return Option::None;
        }
        let c = cs[k];
        if c == '"' {
            proof {
                if active {
                    if m < t.len() {
                        lemma_region_index(cs@, i as int, jstr(t), (k - i) as int);
                        assert(jstr(t)[(k - i) as int] == esc_char(t[m])[0]);
                        assert(esc_char(t[m])[0] != '"');
                        assert(false);
                    }
                    assert(out@ == t);
                    assert((k + 1 - i) as int == jstr(t).len());
                }
            }
            return Option::Some((out, k + 1));
        } else if c == '\\' {
            if k + 1 >= cs.len() {
                proof {
                    if active {
                        assert(m < t.len()) by {
                            if m == t.len() {
                                lemma_region_index(cs@, i as int, jstr(t), (k - i) as int);
                                assert(false);
                            }
                        }
                        lemma_region_index(cs@, i as int, jstr(t), (k - i) as int);
                        assert(esc_char(t[m])[0] == '\\');
                        assert(esc_char(t[m]).len() >= 2);
                        assert(((k + 1 - i) as int) < jstr(t).len());
                        assert(false);
                    }
                }
                return Option::None;
            }
            let c2 = cs[k + 1];
            proof {
                if active {
                    assert(m < t.len()) by {
                        if m == t.len() {
                            lemma_region_index(cs@, i as int, jstr(t), (k - i) as int);
                            assert(false);
                        }
                    }
                    lemma_region_index(cs@, i as int, jstr(t), (k - i) as int);
                    assert(esc_char(t[m])[0] == '\\');
                    lemma_region_index(cs@, i as int, jstr(t), (k + 1 - i) as int);
                    assert(jstr(t)[(k + 1 - i) as int] == esc_char(t[m])[1]);
                    assert(c2 == esc_char(t[m])[1]);
                }
            }
            if c2 == 'u' {
                if cs.len() - k < 6 {
                    proof {
                        if active {
                            assert((t[m] as u32) < 32);
                            assert(esc_char(t[m]).len() == 6);
                            assert(((k + 5 - i) as int) < jstr(t).len());
                            assert(false);
                        }
                    }
                    return Option::None;
                }
                let c3 = cs[k + 2];
                let c4 = cs[k + 3];
                let h1c = cs[k + 4];
                let h0c = cs[k + 5];
                proof {
                    if active {
                        assert((t[m] as u32) < 32);
                        lemma_region_index(cs@, i as int, jstr(t), (k + 2 - i) as int);
                        lemma_region_index(cs@, i as int, jstr(t), (k + 3 - i) as int);
                        lemma_region_index(cs@, i as int, jstr(t), (k + 4 - i) as int);
                        lemma_region_index(cs@, i as int, jstr(t), (k + 5 - i) as int);
                        assert(c3 == '0' && c4 == '0');
                        assert(h1c == hex_char((((t[m] as u32) / 16) as nat)));
                        assert(h0c == hex_char((((t[m] as u32) % 16) as nat)));
                    }
                }
                if c3 != '0' || c4 != '0' {
                    proof {
                        if active {
                            assert(false);
                        }
                    }
                    return Option::None;
                }
                let h1 = match hex_val(h1c) {
                    Option::Some(d) => d,
                    Option::None => {
                        proof {
                            if active {
                                assert(false);
                            }
                        }
                        return Option::None;
                    },
                };
                let h0 = match hex_val(h0c) {
                    Option::Some(d) => d,
                    Option::None => {
                        proof {
                            if active {
                                assert(false);
                            }
                        }
                        return Option::None;
                    },
                };
                proof {
                    if active {
                        lemma_hex_inj(h1 as nat, ((t[m] as u32) / 16) as nat);
                        lemma_hex_inj(h0 as nat, ((t[m] as u32) % 16) as nat);
                        assert(h1 * 16 + h0 == t[m] as u32);
                    }
                }
                let code = h1 * 16 + h0;
                if code >= 32 {
                    proof {
                        if active {
                            assert(false);
                        }
                    }
                    return Option::None;
                }
                let ch = ctl_char(code);
                push_char(&mut out, ch);
                proof {
                    if active {
                        assert(ch as u32 == t[m] as u32);
                        vstd::utf8::char_u32_cast(ch, code);
                        vstd::utf8::char_u32_cast(t[m], code);
                        assert(ch == t[m]);
                        lemma_esc_push(t.take(m), t[m]);
                        assert(t.take(m).push(t[m]) =~= t.take(m + 1));
                        m = m + 1;
                        assert(out@ == t.take(m));
                    }
                }
                k = k + 6;
            } else {
                push_char(&mut out, c2);
                proof {
                    if active {
                        assert(t[m] == '"' || t[m] == '\\') by {
                            if t[m] != '"' && t[m] != '\\' {
                                assert(esc_char(t[m])[1] == 'u');
                                assert(false);
                            }
                        }
                        assert(c2 == t[m]);
                        lemma_esc_push(t.take(m), t[m]);
                        assert(t.take(m).push(t[m]) =~= t.take(m + 1));
                        m = m + 1;
                        assert(out@ == t.take(m));
                    }
                }
                k = k + 2;
            }
        } else {
            push_char(&mut out, c);
            proof {
                if active {
                    assert(m < t.len()) by {
                        if m == t.len() {
                            lemma_region_index(cs@, i as int, jstr(t), (k - i) as int);
                            assert(false);
                        }
                    }
                    lemma_region_index(cs@, i as int, jstr(t), (k - i) as int);
                    assert(jstr(t)[(k - i) as int] == esc_char(t[m])[0]);
                    assert(esc_char(t[m])[0] == c);
                    assert(c != '\\' && c != '"');
                    assert(t[m] == c);
                    lemma_esc_push(t.take(m), t[m]);
                    assert(t.take(m).push(t[m]) =~= t.take(m + 1));
                    m = m + 1;
                    assert(out@ == t.take(m));
                }
            }
            k = k + 1;
        }
    }
}

/// Parses an unsigned decimal number at position `i`; the digit run must
/// be followed by a non-digit.
fn parse_dec(cs: &Vec<char>, i: usize, Ghost(active): Ghost<bool>, Ghost(n): Ghost<nat>) -> (r:
    Option<(u64, usize)>)
    requires
        i <= cs@.len(),
        active ==> {
            &&& n <= 8_000_000_000_000
            &&& region(cs@, i as int, dec_digits(n))
            &&& i + dec_digits(n).len() < cs@.len()
            &&& !is_dig(cs@[i + dec_digits(n).len() as int])
        },
    ensures
        active ==> (r matches Some(p) && p.0 as nat == n && p.1 == i + dec_digits(n).len()),
        r matches Some(p) ==> i < p.1 <= cs@.len(),
{
    let cl = cs.len();
    let mut k: usize = i;
    let mut acc: u64 = 0;
    let ghost ds = dec_digits(n);
    proof {
        if active {
            lemma_dec_digits_are_digits(n);
            lemma_num_of_dec(n);
            assert(ds.take(0) =~= Seq::<char>::empty());
            assert(num_of(Seq::<char>::empty()) == 0);
        }
    }
    let mut done = false;
    #[verifier::loop_isolation(false)]
    while !done
        invariant
            i <= k <= cl,
            active ==> {
                &&& (k - i) as int <= ds.len()
                &&& acc as int == num_of(ds.take((k - i) as int))
                &&& acc as nat <= n
                &&& (done ==> (k - i) as int == ds.len())
            },
        decreases (cl - k) + (if done {
            0int
        } else {
            1int
        }),
    {
        if k >= cl {
            proof {
                if active {
                    assert(((k - i) as int) < ds.len() || (k - i) as int == ds.len());
                    assert(false);
                }
            }
            done = true;
        } else {
            let c = cs[k];
            let u = c as u32;
            if u < 48 || u > 57 {
                proof {
                    if active {
                        let m = (k - i) as int;
                        if m < ds.len() {
                            lemma_region_index(cs@, i as int, ds, m);
                            assert(is_dig(c));
                            assert(false);
                        }
                    }
                }
                done = true;
            } else {
                if acc > 800_000_000_000_000 {
                    proof {
                        if active {
                            assert(false);
                        }
                    }
                    return Option::None;
                }
                let d = (u - 48) as u64;
                acc = acc * 10 + d;
                proof {
                    if active {
                        let m = (k - i) as int;
                        assert(m < ds.len()) by {
                            if m == ds.len() {
                                assert(!is_dig(cs@[i + ds.len() as int]));
                                assert(false);
                            }
                        }
                        lemma_region_index(cs@, i as int, ds, m);
                        assert(c == ds[m]);
                        assert(ds.take(m + 1).drop_last() =~= ds.take(m));
                        assert(ds.take(m + 1).last() == ds[m]);
                        assert(dval(c) == d as int);
                        assert(forall|j: int| 0 <= j < ds.len() ==> is_dig(#[trigger] ds[j]));
                        lemma_num_prefix(ds, m + 1);
                    }
                }
                k = k + 1;
            }
        }
    }
    if k == i {
        proof {
            if active {
                assert(ds.len() >= 1);
                assert(false);
            }
        }
        return Option::None;
    }
    proof {
        if active {
            assert(ds.take(ds.len() as int) =~= ds);
        }
    }
    Option::Some((acc, k))
}

/// Parses a timestamp (a decimal integer, possibly negative) at `i`; the
/// digit run must be followed by a non-digit.
fn parse_ts(cs: &Vec<char>, i: usize, Ghost(active): Ghost<bool>, Ghost(ts): Ghost<i64>) -> (r:
    Option<(i64, usize)>)
    requires
        i <= cs@.len(),
        active ==> {
            &&& ts_in_range(ts)
            &&& region(cs@, i as int, int_text(ts as int))
            &&& i + int_text(ts as int).len() < cs@.len()
            &&& !is_dig(cs@[i + int_text(ts as int).len() as int])
        },
    ensures
        active ==> (r matches Some(p) && p.0 == ts && p.1 == i + int_text(ts as int).len()),
        r matches Some(p) ==> i < p.1 <= cs@.len(),
{
    proof {
        if active {
            lemma_dec_digits_are_digits(if ts < 0 {
                (-(ts as int)) as nat
            } else {
                ts as nat
            });
        }
    }
    if i >= cs.len() {
        proof {
            if active {
                assert(int_text(ts as int).len() >= 1);
                assert(false);
            }
        }
        return Option::None;
    }
    if cs[i] == '-' {
        let ghost mag: nat = if ts < 0 {
            (-(ts as int)) as nat
        } else {
            0
        };
        proof {
            if active {
                assert(ts < 0) by {
                    if ts >= 0 {
                        lemma_region_index(cs@, i as int, int_text(ts as int), 0);
                        assert(is_dig(cs@[i as int]));
                        assert(false);
                    }
                }
                lemma_region_split(cs@, i as int, seq!['-'], dec_digits(mag));
            }
        }
        match parse_dec(cs, i + 1, Ghost(active), Ghost(mag)) {
            Option::Some((v, j)) => {
                if v > 8_000_000_000_000 {
                    proof {
                        if active {
                            assert(false);
                        }
                    }
                    return Option::None;
                }
                let out: i64 = -(v as i64);
                proof {
                    if active {
                        assert(out == ts);
                    }
                }
                Option::Some((out, j))
            },
            Option::None => {
                proof {
                    if active {
                        assert(false);
                    }
                }
                Option::None
            },
        }
    } else {
        let ghost mag: nat = if ts >= 0 {
            ts as nat
        } else {
            0
        };
        proof {
            if active {
                assert(ts >= 0) by {
                    if ts < 0 {
                        lemma_region_index(cs@, i as int, int_text(ts as int), 0);
                        assert(cs@[i as int] == '-');
                        assert(false);
                    }
                }
            }
        }
        match parse_dec(cs, i, Ghost(active), Ghost(mag)) {
            Option::Some((v, j)) => {
                if v > 8_000_000_000_000 {
                    proof {
                        if active {
                            assert(false);
                        }
                    }
                    return Option::None;
                }
                let out: i64 = v as i64;
                proof {
                    if active {
                        assert(out == ts);
                    }
                }
                Option::Some((out, j))
            },
            Option::None => {
                proof {
                    if active {
                        assert(false);
                    }
                }
                Option::None
            },
        }
    }
}

/// Where element `m` of a bracketed list stands.
pub open spec fn items_off<A>(i: int, f: spec_fn(A) -> Seq<char>, xs: Seq<A>, m: int) -> int {
    if m == 0 {
        i
    } else {
        i + joined(f, ","@, xs.take(m)).len() + 1
    }
}

proof fn lemma_items_layout<A>(s: Seq<char>, i: int, f: spec_fn(A) -> Seq<char>, xs: Seq<A>, m: int)
    requires
        region(s, i, joined(f, ","@, xs) + "]"@),
        0 <= m < xs.len(),
    ensures
        region(s, items_off(i, f, xs, m), f(xs[m])),
        items_off(i, f, xs, m) + f(xs[m]).len() < s.len(),
        m < xs.len() - 1 ==> s[items_off(i, f, xs, m) + f(xs[m]).len()] == ',',
        m == xs.len() - 1 ==> s[items_off(i, f, xs, m) + f(xs[m]).len()] == ']',
        m < xs.len() - 1 ==> items_off(i, f, xs, m + 1) == items_off(i, f, xs, m) + f(
            xs[m],
        ).len() + 1,
        m == xs.len() - 1 ==> i + joined(f, ","@, xs).len() == items_off(i, f, xs, m) + f(
            xs[m],
        ).len(),
{
    reveal_strlit(",");
    reveal_strlit("]");
    let items = joined(f, ","@, xs);
    let off = items_off(i, f, xs, m);
    if m == 0 {
        if xs.len() == 1 {
            assert(items == f(xs[0]));
            lemma_region_split(s, i, f(xs[0]), "]"@);
            lemma_region_index(s, i + f(xs[0]).len(), "]"@, 0);
        } else {
            assert(xs.first() == xs[0]);
            assert(items == f(xs[0]) + ","@ + joined(f, ","@, xs.drop_first()));
            assert(items + "]"@ =~= f(xs[0]) + (","@ + (joined(f, ","@, xs.drop_first())
                + "]"@)));
            lemma_region_split(s, i, f(xs[0]), ","@ + (joined(f, ","@, xs.drop_first()) + "]"@));
            lemma_region_index(
                s,
                i + f(xs[0]).len(),
                ","@ + (joined(f, ","@, xs.drop_first()) + "]"@),
                0,
            );
            assert(xs.take(1) =~= seq![xs[0]]);
            assert(joined(f, ","@, seq![xs[0]]) == f(xs[0]));
        }
    } else {
        lemma_joined_split_at(f, ","@, xs, m);
        assert(items == joined(f, ","@, xs.take(m)) + ","@ + joined(f, ","@, xs.skip(m)));
        let pre = joined(f, ","@, xs.take(m));
        let sk = xs.skip(m);
        assert(sk.first() == xs[m]);
        if m == xs.len() - 1 {
            assert(sk.len() == 1);
            assert(joined(f, ","@, sk) == f(xs[m]));
            assert(items + "]"@ =~= (pre + ","@) + (f(xs[m]) + "]"@));
            lemma_region_split(s, i, pre + ","@, f(xs[m]) + "]"@);
            lemma_region_split(s, i + pre.len() + 1, f(xs[m]), "]"@);
            lemma_region_index(s, i + pre.len() + 1 + f(xs[m]).len(), "]"@, 0);
        } else {
            assert(sk.len() >= 2);
            assert(sk.drop_first() =~= xs.skip(m + 1));
            assert(joined(f, ","@, sk) == f(xs[m]) + ","@ + joined(f, ","@, xs.skip(m + 1)));
            assert(items + "]"@ =~= (pre + ","@) + (f(xs[m]) + (","@ + (joined(
                f,
                ","@,
                xs.skip(m + 1),
            ) + "]"@))));
            lemma_region_split(s, i, pre + ","@, f(xs[m]) + (","@ + (joined(f, ","@, xs.skip(m + 1))
                + "]"@)));
            lemma_region_split(
                s,
                i + pre.len() + 1,
                f(xs[m]),
                ","@ + (joined(f, ","@, xs.skip(m + 1)) + "]"@),
            );
            lemma_region_index(
                s,
                i + pre.len() + 1 + f(xs[m]).len(),
                ","@ + (joined(f, ","@, xs.skip(m + 1)) + "]"@),
                0,
            );
            assert(xs.take(m).push(xs[m]) =~= xs.take(m + 1));
            lemma_joined_push(f, ","@, xs.take(m), xs[m]);
        }
    }
}

/// Parses the comma-separated items and closing bracket of a byte array.
fn parse_byte_items(
    cs: &Vec<char>,
    i: usize,
    Ghost(active): Ghost<bool>,
    Ghost(bs): Ghost<Seq<u8>>,
) -> (r: Option<(Vec<u8>, usize)>)
    requires
        i <= cs@.len(),
        active ==> region(cs@, i as int, joined(|b: u8| dec_digits(b as nat), ","@, bs) + "]"@),
    ensures
        active ==> (r matches Some(p) && p.0@ == bs && p.1 == i + joined(
            |b: u8| dec_digits(b as nat),
            ","@,
            bs,
        ).len() + 1),
        r matches Some(p) ==> i < p.1 <= cs@.len(),
{
    let cl = cs.len();
    let ghost f = |b: u8| dec_digits(b as nat);
    proof {
        reveal_strlit("]");
        reveal_strlit(",");
    }
    if i >= cl {
        proof {
            if active {
                assert(false);
            }
        }
        return Option::None;
    }
    let mut out: Vec<u8> = Vec::new();
    if cs[i] == ']' {
        proof {
            if active {
                if bs.len() > 0 {
                    lemma_items_layout(cs@, i as int, f, bs, 0);
                    lemma_region_index(cs@, i as int, f(bs[0]), 0);
                    lemma_dec_digits_are_digits(bs[0] as nat);
                    assert(is_dig(cs@[i as int]));
                    assert(false);
                }
                assert(bs.len() == 0);
                assert(joined(f, ","@, bs) == Seq::<char>::empty());
                assert(out@ =~= bs);
                lemma_region_index(cs@, i as int, joined(f, ","@, bs) + "]"@, 0);
            }
        }
        return Option::Some((out, i + 1));
    }
    proof {
        if active {
            if bs.len() == 0 {
                assert(joined(f, ","@, bs) == Seq::<char>::empty());
                lemma_region_index(cs@, i as int, joined(f, ","@, bs) + "]"@, 0);
                assert(false);
            }
        }
    }
    let mut k: usize = i;
    let ghost mut m: int = 0;
    proof {
        if active {
            assert(out@ =~= bs.take(0));
        }
    }
    #[verifier::loop_isolation(false)]
    loop
        invariant
            i <= k <= cl,
            active ==> {
                &&& 0 <= m < bs.len()
                &&& out@ == bs.take(m)
                &&& k as int == items_off(i as int, f, bs, m)
            },
        decreases cl - k,
    {
        proof {
            if active {
                lemma_items_layout(cs@, i as int, f, bs, m);
            }
        }
        let v = match parse_dec(cs, k, Ghost(active), Ghost((if m >= 0 && m < bs.len() {
            bs[m]
        } else {
            0
        }) as nat)) {
            Option::Some(p) => p,
            Option::None => {
                proof {
                    if active {
                        assert(false);
                    }
                }
                return Option::None;
            },
        };
        let (val, j) = v;
        if val > 255 {
            proof {
                if active {
                    assert(false);
                }
            }
            return Option::None;
        }
        out.push(val as u8);
        if j >= cl {
            proof {
                if active {
                    assert(false);
                }
            }
            return Option::None;
        }
        let c = cs[j];
        if c == ',' {
            proof {
                if active {
                    assert(m < bs.len() - 1) by {
                        if m == bs.len() - 1 {
                            assert(cs@[j as int] == ']');
                            assert(false);
                        }
                    }
                    assert(bs.take(m).push(bs[m]) =~= bs.take(m + 1));
                    m = m + 1;
                }
            }
            k = j + 1;
        } else if c == ']' {
            proof {
                if active {
                    assert(m == bs.len() - 1) by {
                        if m < bs.len() - 1 {
                            assert(cs@[j as int] == ',');
                            assert(false);
                        }
                    }
                    assert(bs.take(m).push(bs[m]) =~= bs.take(m + 1));
                    assert(bs.take(bs.len() as int) =~= bs);
                    assert(out@ == bs);
                }
            }
            return Option::Some((out, j + 1));
        } else {
            proof {
                if active {
                    assert(false);
                }
            }
            return Option::None;
        }
    }
}

/// Two contents hold the same payload.
pub open spec fn content_like(a: Content, b: Content) -> bool {
    match (a, b) {
        (Content::Message(x), Content::Message(y)) => x@ == y@,
        (Content::Image(p), Content::Image(q)) => p.id@ == q.id@ && p.extension@ == q.extension@
            && p.data@ == q.data@,
        _ => false,
    }
}

/// Two messages hold the same author, timestamp and payload.
pub open spec fn msg_like(a: Message, b: Message) -> bool {
    a.author@ == b.author@ && a.timestamp == b.timestamp && content_like(a.content, b.content)
}

/// Two rooms hold the same identifier and the same resolved messages.
pub open spec fn room_like(a: Room, b: Room) -> bool {
    a.id@ == b.id@ && match (a.messages, b.messages) {
        (Option::Some(x), Option::Some(y)) => x@.len() == y@.len() && forall|j: int|
            0 <= j < x@.len() ==> msg_like(#[trigger] x@[j], y@[j]),
        _ => false,
    }
}

proof fn lemma_content_json_like(a: Content, b: Content)
    requires
        content_like(a, b),
    ensures
        content_json(a) == content_json(b),
{
}

proof fn lemma_msg_json_like(a: Message, b: Message)
    requires
        msg_like(a, b),
    ensures
        msg_json(a) == msg_json(b),
{
    lemma_content_json_like(a.content, b.content);
}

proof fn lemma_msgs_joined_like(xs: Seq<Message>, ys: Seq<Message>)
    requires
        xs.len() == ys.len(),
        forall|j: int| 0 <= j < xs.len() ==> msg_like(#[trigger] xs[j], ys[j]),
    ensures
        joined(|m: Message| msg_json(m), ","@, xs) == joined(|m: Message| msg_json(m), ","@, ys),
    decreases xs.len(),
{
    let f = |m: Message| msg_json(m);
    if xs.len() > 0 {
        lemma_msg_json_like(xs[0], ys[0]);
        assert(f(xs.first()) == f(ys.first()));
        if xs.len() > 1 {
            assert(forall|j: int|
                0 <= j < xs.drop_first().len() ==> msg_like(
                    #[trigger] xs.drop_first()[j],
                    ys.drop_first()[j],
                ));
            lemma_msgs_joined_like(xs.drop_first(), ys.drop_first());
        }
    }
}

/// The export of a room depends only on its identifier and message views.
pub proof fn lemma_room_json_like(a: Room, b: Room)
    requires
        room_like(a, b),
    ensures
        room_json(a) == room_json(b),
{
    lemma_msgs_joined_like(msgs_of(a), msgs_of(b));
}

proof fn lemma_drop_prefix(p: Seq<char>, x: Seq<char>, y: Seq<char>)
    requires
        p + x == p + y,
    ensures
        x == y,
{
    assert(x =~= (p + x).skip(p.len() as int));
    assert(y =~= (p + y).skip(p.len() as int));
}

proof fn lemma_first_drop_eq<A>(a: Seq<A>, b: Seq<A>)
    requires
        a.len() > 0,
        b.len() > 0,
        a.first() == b.first(),
        a.drop_first() == b.drop_first(),
    ensures
        a == b,
{
    assert(a.drop_first().len() == a.len() - 1);
    assert(b.drop_first().len() == b.len() - 1);
    assert(a.len() == b.len());
    assert forall|i: int| 0 <= i < a.len() implies a[i] == b[i] by {
        if i > 0 {
            assert(a.drop_first()[i - 1] == a[i]);
            assert(b.drop_first()[i - 1] == b[i]);
            assert(a.drop_first()[i - 1] == b.drop_first()[i - 1]);
        }
    }
    assert(a =~= b);
}

#[verifier::rlimit(60)]
proof fn lemma_esc_term_inj(a: Seq<char>, b: Seq<char>, x: Seq<char>, y: Seq<char>)
    requires
        esc(a) + seq!['"'] + x == esc(b) + seq!['"'] + y,
    ensures
        a == b,
        x == y,
    decreases a.len(),
{
    let sa = esc(a) + seq!['"'] + x;
    let sb = esc(b) + seq!['"'] + y;
    if a.len() == 0 && b.len() == 0 {
        assert(esc(a) == Seq::<char>::empty());
        assert(esc(b) == Seq::<char>::empty());
        assert(seq!['"'] + x =~= sa);
        assert(seq!['"'] + y =~= sb);
        lemma_drop_prefix(seq!['"'], x, y);
        assert(a =~= b);
    } else if a.len() == 0 {
        assert(esc(a) == Seq::<char>::empty());
        assert(sa[0] == '"');
        assert(esc(b) == esc_char(b.first()) + esc(b.drop_first()));
        assert(sb[0] == esc_char(b.first())[0]);
        assert(esc_char(b.first())[0] != '"');
        assert(false);
    } else if b.len() == 0 {
        assert(esc(b) == Seq::<char>::empty());
        assert(sb[0] == '"');
        assert(esc(a) == esc_char(a.first()) + esc(a.drop_first()));
        assert(sa[0] == esc_char(a.first())[0]);
        assert(esc_char(a.first())[0] != '"');
        assert(false);
    } else {
        let a0 = a.first();
        let b0 = b.first();
        assert(esc(a) == esc_char(a0) + esc(a.drop_first()));
        assert(esc(b) == esc_char(b0) + esc(b.drop_first()));
        assert(sa[0] == esc_char(a0)[0]);
        assert(sb[0] == esc_char(b0)[0]);
        let pa = a0 == '"' || a0 == '\\';
        let pb = b0 == '"' || b0 == '\\';
        let ka = !pa && (a0 as u32) < 32;
        let kb = !pb && (b0 as u32) < 32;
        if !pa && !ka && !pb && !kb {
            assert(sa[0] == a0);
            assert(sb[0] == b0);
            assert(a0 == b0);
            assert(esc(a.drop_first()) + seq!['"'] + x =~= sa.skip(1));
            assert(esc(b.drop_first()) + seq!['"'] + y =~= sb.skip(1));
            lemma_esc_term_inj(a.drop_first(), b.drop_first(), x, y);
            lemma_first_drop_eq(a, b);
        } else if (pa || ka) && !pb && !kb {
            assert(sa[0] == '\\');
            assert(sb[0] == b0);
            assert(false);
        } else if !pa && !ka && (pb || kb) {
            assert(sb[0] == '\\');
            assert(sa[0] == a0);
            assert(false);
        } else if pa && kb {
            assert(sa[1] == a0);
            assert(sb[1] == 'u');
            assert(false);
        } else if ka && pb {
            assert(sa[1] == 'u');
            assert(sb[1] == b0);
            assert(false);
        } else if pa && pb {
            assert(sa[1] == a0);
            assert(sb[1] == b0);
            assert(a0 == b0);
            assert(esc(a.drop_first()) + seq!['"'] + x =~= sa.skip(2));
            assert(esc(b.drop_first()) + seq!['"'] + y =~= sb.skip(2));
            lemma_esc_term_inj(a.drop_first(), b.drop_first(), x, y);
            lemma_first_drop_eq(a, b);
        } else {
            assert(ka && kb);
            assert(sa[4] == hex_char(((a0 as u32) / 16) as nat));
            assert(sb[4] == hex_char(((b0 as u32) / 16) as nat));
            assert(sa[5] == hex_char(((a0 as u32) % 16) as nat));
            assert(sb[5] == hex_char(((b0 as u32) % 16) as nat));
            lemma_hex_inj(((a0 as u32) / 16) as nat, ((b0 as u32) / 16) as nat);
            lemma_hex_inj(((a0 as u32) % 16) as nat, ((b0 as u32) % 16) as nat);
            assert(a0 as u32 == b0 as u32);
            vstd::utf8::char_u32_cast(a0, a0 as u32);
            vstd::utf8::char_u32_cast(b0, b0 as u32);
            assert(a0 == b0);
            assert(esc(a.drop_first()) + seq!['"'] + x =~= sa.skip(6));
            assert(esc(b.drop_first()) + seq!['"'] + y =~= sb.skip(6));
            lemma_esc_term_inj(a.drop_first(), b.drop_first(), x, y);
            lemma_first_drop_eq(a, b);
        }
    }
}

proof fn lemma_jstr_inj(a: Seq<char>, b: Seq<char>, x: Seq<char>, y: Seq<char>)
    requires
        jstr(a) + x == jstr(b) + y,
    ensures
        a == b,
        x == y,
{
    assert(jstr(a) + x =~= seq!['"'] + (esc(a) + seq!['"'] + x));
    assert(jstr(b) + y =~= seq!['"'] + (esc(b) + seq!['"'] + y));
    lemma_drop_prefix(seq!['"'], esc(a) + seq!['"'] + x, esc(b) + seq!['"'] + y);
    lemma_esc_term_inj(a, b, x, y);
}

proof fn lemma_digits_term_inj(n: nat, m: nat, x: Seq<char>, y: Seq<char>)
    requires
        dec_digits(n) + x == dec_digits(m) + y,
        x.len() > 0,
        !is_dig(x[0]),
        y.len() > 0,
        !is_dig(y[0]),
    ensures
        n == m,
        x == y,
{
    lemma_dec_digits_are_digits(n);
    lemma_dec_digits_are_digits(m);
    let da = dec_digits(n);
    let db = dec_digits(m);
    let s = da + x;
    assert(da.len() == db.len()) by {
        if da.len() < db.len() {
            assert(s[da.len() as int] == x[0]);
            assert((db + y)[da.len() as int] == db[da.len() as int]);
            assert(is_dig(db[da.len() as int]));
            assert(false);
        }
        if db.len() < da.len() {
            assert((db + y)[db.len() as int] == y[0]);
            assert(s[db.len() as int] == da[db.len() as int]);
            assert(is_dig(da[db.len() as int]));
            assert(false);
        }
    }
    assert(da =~= db) by {
        assert forall|i: int| 0 <= i < da.len() implies da[i] == db[i] by {
            assert(s[i] == da[i]);
            assert((db + y)[i] == db[i]);
        }
    }
    lemma_num_of_dec(n);
    lemma_num_of_dec(m);
    lemma_drop_prefix(da, x, y);
}

proof fn lemma_int_text_term_inj(n: int, m: int, x: Seq<char>, y: Seq<char>)
    requires
        int_text(n) + x == int_text(m) + y,
        x.len() > 0,
        !is_dig(x[0]),
        y.len() > 0,
        !is_dig(y[0]),
    ensures
        n == m,
        x == y,
{
    if n < 0 && m < 0 {
        assert(int_text(n) + x =~= seq!['-'] + (dec_digits((-n) as nat) + x));
        assert(int_text(m) + y =~= seq!['-'] + (dec_digits((-m) as nat) + y));
        lemma_drop_prefix(seq!['-'], dec_digits((-n) as nat) + x, dec_digits((-m) as nat) + y);
        lemma_digits_term_inj((-n) as nat, (-m) as nat, x, y);
    } else if n < 0 {
        lemma_dec_digits_are_digits(m as nat);
        assert((int_text(n) + x)[0] == '-');
        assert((int_text(m) + y)[0] == dec_digits(m as nat)[0]);
        assert(is_dig(dec_digits(m as nat)[0]));
        assert(false);
    } else if m < 0 {
        lemma_dec_digits_are_digits(n as nat);
        assert((int_text(m) + y)[0] == '-');
        assert((int_text(n) + x)[0] == dec_digits(n as nat)[0]);
        assert(is_dig(dec_digits(n as nat)[0]));
        assert(false);
    } else {
        lemma_digits_term_inj(n as nat, m as nat, x, y);
    }
}

proof fn lemma_bytes_items_term_inj(bs: Seq<u8>, ds: Seq<u8>, x: Seq<char>, y: Seq<char>)
    requires
        joined(|b: u8| dec_digits(b as nat), ","@, bs) + x == joined(
            |b: u8| dec_digits(b as nat),
            ","@,
            ds,
        ) + y,
        x.len() > 0,
        x[0] == ']',
        y.len() > 0,
        y[0] == ']',
    ensures
        bs == ds,
        x == y,
    decreases bs.len(),
{
    reveal_strlit(",");
    let fb = |b: u8| dec_digits(b as nat);
    let s = joined(fb, ","@, bs) + x;
    if bs.len() == 0 && ds.len() == 0 {
        assert(joined(fb, ","@, bs) == Seq::<char>::empty());
        assert(joined(fb, ","@, ds) == Seq::<char>::empty());
        assert(x =~= s);
        assert(y =~= joined(fb, ","@, ds) + y);
        assert(bs =~= ds);
    } else if bs.len() == 0 {
        lemma_dec_digits_are_digits(ds[0] as nat);
        assert(joined(fb, ","@, bs) == Seq::<char>::empty());
        assert(s[0] == x[0]);
        let ya = if ds.len() == 1 {
            y
        } else {
            ","@ + joined(fb, ","@, ds.drop_first()) + y
        };
        assert(joined(fb, ","@, ds) + y =~= fb(ds[0]) + ya);
        assert(s[0] == fb(ds[0])[0]);
        assert(is_dig(fb(ds[0])[0]));
        assert(false);
    } else if ds.len() == 0 {
        lemma_dec_digits_are_digits(bs[0] as nat);
        assert(joined(fb, ","@, ds) == Seq::<char>::empty());
        let xa = if bs.len() == 1 {
            x
        } else {
            ","@ + joined(fb, ","@, bs.drop_first()) + x
        };
        assert(s =~= fb(bs[0]) + xa);
        assert((joined(fb, ","@, ds) + y)[0] == y[0]);
        assert(s[0] == fb(bs[0])[0]);
        assert(is_dig(fb(bs[0])[0]));
        assert(false);
    } else {
        let xa = if bs.len() == 1 {
            x
        } else {
            ","@ + (joined(fb, ","@, bs.drop_first()) + x)
        };
        let ya = if ds.len() == 1 {
            y
        } else {
            ","@ + (joined(fb, ","@, ds.drop_first()) + y)
        };
        assert(joined(fb, ","@, bs) + x =~= fb(bs[0]) + xa);
        assert(joined(fb, ","@, ds) + y =~= fb(ds[0]) + ya);
        assert(xa[0] == ']' || xa[0] == ',');
        assert(ya[0] == ']' || ya[0] == ',');
        assert(!is_dig(xa[0]));
        assert(!is_dig(ya[0]));
        lemma_digits_term_inj(bs[0] as nat, ds[0] as nat, xa, ya);
        if bs.len() == 1 && ds.len() == 1 {
            assert(bs =~= ds);
        } else if bs.len() == 1 {
            assert(xa[0] == ']');
            assert(ya[0] == ',');
            assert(false);
        } else if ds.len() == 1 {
            assert(xa[0] == ',');
            assert(ya[0] == ']');
            assert(false);
        } else {
            lemma_drop_prefix(
                ","@,
                joined(fb, ","@, bs.drop_first()) + x,
                joined(fb, ","@, ds.drop_first()) + y,
            );
            lemma_bytes_items_term_inj(bs.drop_first(), ds.drop_first(), x, y);
            lemma_first_drop_eq(bs, ds);
        }
    }
}

proof fn lemma_content_json_inj(ca: Content, cb: Content, x: Seq<char>, y: Seq<char>)
    requires
        content_json(ca) + x == content_json(cb) + y,
    ensures
        content_like(ca, cb),
        x == y,
{
    reveal_strlit("{\"Message\":");
    reveal_strlit("{\"Image\":{\"id\":");
    reveal_strlit(",\"extension\":");
    reveal_strlit(",\"data\":[");
    reveal_strlit("]}}");
    reveal_strlit("}");
    let s = content_json(ca) + x;
    match (ca, cb) {
        (Content::Message(ta), Content::Message(tb)) => {
            assert(content_json(ca) + x =~= "{\"Message\":"@ + (jstr(ta@) + ("}"@ + x)));
            assert(content_json(cb) + y =~= "{\"Message\":"@ + (jstr(tb@) + ("}"@ + y)));
            lemma_drop_prefix("{\"Message\":"@, jstr(ta@) + ("}"@ + x), jstr(tb@) + ("}"@ + y));
            lemma_jstr_inj(ta@, tb@, "}"@ + x, "}"@ + y);
            lemma_drop_prefix("}"@, x, y);
        },
        (Content::Image(pa), Content::Image(pb)) => {
            let fb = |b: u8| dec_digits(b as nat);
            let ra = jstr(pa.id@) + (",\"extension\":"@ + (jstr(pa.extension@) + (",\"data\":["@ + (
            joined(fb, ","@, pa.data@) + ("]}}"@ + x)))));
            let rb = jstr(pb.id@) + (",\"extension\":"@ + (jstr(pb.extension@) + (",\"data\":["@ + (
            joined(fb, ","@, pb.data@) + ("]}}"@ + y)))));
            assert(content_json(ca) + x =~= "{\"Image\":{\"id\":"@ + ra);
            assert(content_json(cb) + y =~= "{\"Image\":{\"id\":"@ + rb);
            lemma_drop_prefix("{\"Image\":{\"id\":"@, ra, rb);
            lemma_jstr_inj(
                pa.id@,
                pb.id@,
                ",\"extension\":"@ + (jstr(pa.extension@) + (",\"data\":["@ + (joined(
                    fb,
                    ","@,
                    pa.data@,
                ) + ("]}}"@ + x)))),
                ",\"extension\":"@ + (jstr(pb.extension@) + (",\"data\":["@ + (joined(
                    fb,
                    ","@,
                    pb.data@,
                ) + ("]}}"@ + y)))),
            );
            lemma_drop_prefix(
                ",\"extension\":"@,
                jstr(pa.extension@) + (",\"data\":["@ + (joined(fb, ","@, pa.data@) + ("]}}"@
                    + x))),
                jstr(pb.extension@) + (",\"data\":["@ + (joined(fb, ","@, pb.data@) + ("]}}"@
                    + y))),
            );
            lemma_jstr_inj(
                pa.extension@,
                pb.extension@,
                ",\"data\":["@ + (joined(fb, ","@, pa.data@) + ("]}}"@ + x)),
                ",\"data\":["@ + (joined(fb, ","@, pb.data@) + ("]}}"@ + y)),
            );
            lemma_drop_prefix(
                ",\"data\":["@,
                joined(fb, ","@, pa.data@) + ("]}}"@ + x),
                joined(fb, ","@, pb.data@) + ("]}}"@ + y),
            );
            assert(("]}}"@ + x)[0] == ']');
            assert(("]}}"@ + y)[0] == ']');
            lemma_bytes_items_term_inj(pa.data@, pb.data@, "]}}"@ + x, "]}}"@ + y);
            lemma_drop_prefix("]}}"@, x, y);
        },
        (Content::Message(ta), Content::Image(pb)) => {
            assert(s[2] == "{\"Message\":"@[2]);
            assert((content_json(cb) + y)[2] == "{\"Image\":{\"id\":"@[2]);
            assert(false);
        },
        (Content::Image(pa), Content::Message(tb)) => {
            assert(s[2] == "{\"Image\":{\"id\":"@[2]);
            assert((content_json(cb) + y)[2] == "{\"Message\":"@[2]);
            assert(false);
        },
    }
}

#[verifier::rlimit(60)]
proof fn lemma_msg_json_inj(ma: Message, mb: Message, x: Seq<char>, y: Seq<char>)
    requires
        msg_json(ma) + x == msg_json(mb) + y,
    ensures
        msg_like(ma, mb),
        x == y,
{
    reveal_strlit("{\"author\":");
    reveal_strlit(",\"timestamp\":");
    reveal_strlit(",\"content\":");
    reveal_strlit("}");
    let ita = int_text(ma.timestamp as int);
    let itb = int_text(mb.timestamp as int);
    let ra = jstr(ma.author@) + (",\"timestamp\":"@ + (ita + (",\"content\":"@ + (content_json(
        ma.content,
    ) + ("}"@ + x)))));
    let rb = jstr(mb.author@) + (",\"timestamp\":"@ + (itb + (",\"content\":"@ + (content_json(
        mb.content,
    ) + ("}"@ + y)))));
    assert(msg_json(ma) + x =~= "{\"author\":"@ + ra);
    assert(msg_json(mb) + y =~= "{\"author\":"@ + rb);
    lemma_drop_prefix("{\"author\":"@, ra, rb);
    lemma_jstr_inj(
        ma.author@,
        mb.author@,
        ",\"timestamp\":"@ + (ita + (",\"content\":"@ + (content_json(ma.content) + ("}"@ + x)))),
        ",\"timestamp\":"@ + (itb + (",\"content\":"@ + (content_json(mb.content) + ("}"@ + y)))),
    );
    lemma_drop_prefix(
        ",\"timestamp\":"@,
        ita + (",\"content\":"@ + (content_json(ma.content) + ("}"@ + x))),
        itb + (",\"content\":"@ + (content_json(mb.content) + ("}"@ + y))),
    );
    let ta = ",\"content\":"@ + (content_json(ma.content) + ("}"@ + x));
    let tb = ",\"content\":"@ + (content_json(mb.content) + ("}"@ + y));
    assert(ta[0] == ',');
    assert(tb[0] == ',');
    assert(!is_dig(','));
    lemma_int_text_term_inj(ma.timestamp as int, mb.timestamp as int, ta, tb);
    lemma_drop_prefix(
        ",\"content\":"@,
        content_json(ma.content) + ("}"@ + x),
        content_json(mb.content) + ("}"@ + y),
    );
    lemma_content_json_inj(ma.content, mb.content, "}"@ + x, "}"@ + y);
    lemma_drop_prefix("}"@, x, y);
}

#[verifier::rlimit(60)]
proof fn lemma_msgs_items_term_inj(xs: Seq<Message>, ys: Seq<Message>, x: Seq<char>, y: Seq<char>)
    requires
        joined(|m: Message| msg_json(m), ","@, xs) + x == joined(
            |m: Message| msg_json(m),
            ","@,
            ys,
        ) + y,
        x.len() > 0,
        x[0] == ']',
        y.len() > 0,
        y[0] == ']',
    ensures
        xs.len() == ys.len(),
        forall|j: int| 0 <= j < xs.len() ==> msg_like(#[trigger] xs[j], ys[j]),
        x == y,
    decreases xs.len(),
{
    reveal_strlit(",");
    reveal_strlit("{\"author\":");
    let f = |m: Message| msg_json(m);
    if xs.len() == 0 && ys.len() == 0 {
        assert(joined(f, ","@, xs) == Seq::<char>::empty());
        assert(joined(f, ","@, ys) == Seq::<char>::empty());
        assert(x =~= joined(f, ","@, xs) + x);
        assert(y =~= joined(f, ","@, ys) + y);
    } else if xs.len() == 0 {
        assert(joined(f, ","@, xs) == Seq::<char>::empty());
        let ya = if ys.len() == 1 {
            y
        } else {
            ","@ + (joined(f, ","@, ys.drop_first()) + y)
        };
        assert(joined(f, ","@, ys) + y =~= f(ys[0]) + ya);
        assert((joined(f, ","@, xs) + x)[0] == x[0]);
        assert(f(ys[0])[0] == '{');
        assert(false);
    } else if ys.len() == 0 {
        assert(joined(f, ","@, ys) == Seq::<char>::empty());
        let xa = if xs.len() == 1 {
            x
        } else {
            ","@ + (joined(f, ","@, xs.drop_first()) + x)
        };
        assert(joined(f, ","@, xs) + x =~= f(xs[0]) + xa);
        assert((joined(f, ","@, ys) + y)[0] == y[0]);
        assert(f(xs[0])[0] == '{');
        assert(false);
    } else {
        let xa = if xs.len() == 1 {
            x
        } else {
            ","@ + (joined(f, ","@, xs.drop_first()) + x)
        };
        let ya = if ys.len() == 1 {
            y
        } else {
            ","@ + (joined(f, ","@, ys.drop_first()) + y)
        };
        assert(joined(f, ","@, xs) + x =~= f(xs[0]) + xa);
        assert(joined(f, ","@, ys) + y =~= f(ys[0]) + ya);
        lemma_msg_json_inj(xs[0], ys[0], xa, ya);
        if xs.len() == 1 && ys.len() == 1 {
        } else if xs.len() == 1 {
            assert(xa[0] == ']');
            assert(ya[0] == ',');
            assert(false);
        } else if ys.len() == 1 {
            assert(xa[0] == ',');
            assert(ya[0] == ']');
            assert(false);
        } else {
            lemma_drop_prefix(
                ","@,
                joined(f, ","@, xs.drop_first()) + x,
                joined(f, ","@, ys.drop_first()) + y,
            );
            lemma_msgs_items_term_inj(xs.drop_first(), ys.drop_first(), x, y);
            assert forall|j: int| 0 <= j < xs.len() implies msg_like(#[trigger] xs[j], ys[j]) by {
                if j > 0 {
                    assert(msg_like(xs.drop_first()[j - 1], ys.drop_first()[j - 1]));
                }
            }
        }
    }
}

/// Law: the JSON export pins a resolved room down: two resolved rooms with
/// the same export hold the same identifier and the same messages, so
/// parsing an export reconstructs the room it was made from.
#[verifier::rlimit(60)]
pub proof fn lemma_room_json_inj(a: Room, b: Room)
    requires
        a.messages is Some,
        b.messages is Some,
        room_json(a) == room_json(b),
    ensures
        room_like(a, b),
{
    reveal_strlit("{\"id\":");
    reveal_strlit(",\"messages\":");
    reveal_strlit("[");
    reveal_strlit("]");
    reveal_strlit("}");
    let f = |m: Message| msg_json(m);
    let ja = joined(f, ","@, msgs_of(a));
    let jb = joined(f, ","@, msgs_of(b));
    let ra = jstr(a.id@) + (",\"messages\":"@ + ("["@ + (ja + ("]"@ + "}"@))));
    let rb = jstr(b.id@) + (",\"messages\":"@ + ("["@ + (jb + ("]"@ + "}"@))));
    assert(room_json(a) =~= "{\"id\":"@ + ra);
    assert(room_json(b) =~= "{\"id\":"@ + rb);
    lemma_drop_prefix("{\"id\":"@, ra, rb);
    lemma_jstr_inj(
        a.id@,
        b.id@,
        ",\"messages\":"@ + ("["@ + (ja + ("]"@ + "}"@))),
        ",\"messages\":"@ + ("["@ + (jb + ("]"@ + "}"@))),
    );
    lemma_drop_prefix(",\"messages\":"@, "["@ + (ja + ("]"@ + "}"@)), "["@ + (jb + ("]"@ + "}"@)));
    lemma_drop_prefix("["@, ja + ("]"@ + "}"@), jb + ("]"@ + "}"@));
    assert(("]"@ + "}"@)[0] == ']');
    lemma_msgs_items_term_inj(msgs_of(a), msgs_of(b), "]"@ + "}"@, "]"@ + "}"@);
}

proof fn lemma_urls_items_term_inj(us: Seq<Seq<char>>, vs: Seq<Seq<char>>, x: Seq<char>, y: Seq<
    char,
>)
    requires
        joined(|u: Seq<char>| jstr(u), ","@, us) + x == joined(|u: Seq<char>| jstr(u), ","@, vs)
            + y,
        x.len() > 0,
        x[0] == ']',
        y.len() > 0,
        y[0] == ']',
    ensures
        us == vs,
        x == y,
    decreases us.len(),
{
    reveal_strlit(",");
    let f = |u: Seq<char>| jstr(u);
    if us.len() == 0 && vs.len() == 0 {
        assert(joined(f, ","@, us) == Seq::<char>::empty());
        assert(joined(f, ","@, vs) == Seq::<char>::empty());
        assert(x =~= joined(f, ","@, us) + x);
        assert(y =~= joined(f, ","@, vs) + y);
        assert(us =~= vs);
    } else if us.len() == 0 {
        assert(joined(f, ","@, us) == Seq::<char>::empty());
        let ya = if vs.len() == 1 {
            y
        } else {
            ","@ + (joined(f, ","@, vs.drop_first()) + y)
        };
        assert(joined(f, ","@, vs) + y =~= f(vs[0]) + ya);
        assert((joined(f, ","@, us) + x)[0] == x[0]);
        assert(f(vs[0])[0] == '"');
        assert(false);
    } else if vs.len() == 0 {
        assert(joined(f, ","@, vs) == Seq::<char>::empty());
        let xa = if us.len() == 1 {
            x
        } else {
            ","@ + (joined(f, ","@, us.drop_first()) + x)
        };
        assert(joined(f, ","@, us) + x =~= f(us[0]) + xa);
        assert((joined(f, ","@, vs) + y)[0] == y[0]);
        assert(f(us[0])[0] == '"');
        assert(false);
    } else {
        let xa = if us.len() == 1 {
            x
        } else {
            ","@ + (joined(f, ","@, us.drop_first()) + x)
        };
        let ya = if vs.len() == 1 {
            y
        } else {
            ","@ + (joined(f, ","@, vs.drop_first()) + y)
        };
        assert(joined(f, ","@, us) + x =~= f(us[0]) + xa);
        assert(joined(f, ","@, vs) + y =~= f(vs[0]) + ya);
        lemma_jstr_inj(us[0], vs[0], xa, ya);
        if us.len() == 1 && vs.len() == 1 {
            assert(us =~= vs);
        } else if us.len() == 1 {
            assert(xa[0] == ']');
            assert(ya[0] == ',');
            assert(false);
        } else if vs.len() == 1 {
            assert(xa[0] == ',');
            assert(ya[0] == ']');
            assert(false);
        } else {
            lemma_drop_prefix(
                ","@,
                joined(f, ","@, us.drop_first()) + x,
                joined(f, ","@, vs.drop_first()) + y,
            );
            lemma_urls_items_term_inj(us.drop_first(), vs.drop_first(), x, y);
            lemma_first_drop_eq(us, vs);
        }
    }
}

#[verifier::rlimit(60)]
proof fn lemma_post_json_inj(pa: Post, pb: Post, x: Seq<char>, y: Seq<char>)
    requires
        post_json(pa) + x == post_json(pb) + y,
    ensures
        pa@ == pb@,
        x == y,
{
    reveal_strlit("{\"title\":");
    reveal_strlit(",\"subreddit_name\":");
    reveal_strlit(",\"permalink\":");
    reveal_strlit(",\"img_url\":[");
    reveal_strlit("]}");
    let f = |u: Seq<char>| jstr(u);
    let ra = jstr(pa.title@) + (",\"subreddit_name\":"@ + (jstr(pa.subreddit_name@) + (
    ",\"permalink\":"@ + (jstr(pa.permalink@) + (",\"img_url\":["@ + (joined(f, ","@, pa@.img_url)
        + ("]}"@ + x)))))));
    let rb = jstr(pb.title@) + (",\"subreddit_name\":"@ + (jstr(pb.subreddit_name@) + (
    ",\"permalink\":"@ + (jstr(pb.permalink@) + (",\"img_url\":["@ + (joined(f, ","@, pb@.img_url)
        + ("]}"@ + y)))))));
    assert(post_json(pa) + x =~= "{\"title\":"@ + ra);
    assert(post_json(pb) + y =~= "{\"title\":"@ + rb);
    lemma_drop_prefix("{\"title\":"@, ra, rb);
    lemma_jstr_inj(
        pa.title@,
        pb.title@,
        ",\"subreddit_name\":"@ + (jstr(pa.subreddit_name@) + (",\"permalink\":"@ + (jstr(
            pa.permalink@,
        ) + (",\"img_url\":["@ + (joined(f, ","@, pa@.img_url) + ("]}"@ + x)))))),
        ",\"subreddit_name\":"@ + (jstr(pb.subreddit_name@) + (",\"permalink\":"@ + (jstr(
            pb.permalink@,
        ) + (",\"img_url\":["@ + (joined(f, ","@, pb@.img_url) + ("]}"@ + y)))))),
    );
    lemma_drop_prefix(
        ",\"subreddit_name\":"@,
        jstr(pa.subreddit_name@) + (",\"permalink\":"@ + (jstr(pa.permalink@) + (",\"img_url\":["@
            + (joined(f, ","@, pa@.img_url) + ("]}"@ + x))))),
        jstr(pb.subreddit_name@) + (",\"permalink\":"@ + (jstr(pb.permalink@) + (",\"img_url\":["@
            + (joined(f, ","@, pb@.img_url) + ("]}"@ + y))))),
    );
    lemma_jstr_inj(
        pa.subreddit_name@,
        pb.subreddit_name@,
        ",\"permalink\":"@ + (jstr(pa.permalink@) + (",\"img_url\":["@ + (joined(
            f,
            ","@,
            pa@.img_url,
        ) + ("]}"@ + x)))),
        ",\"permalink\":"@ + (jstr(pb.permalink@) + (",\"img_url\":["@ + (joined(
            f,
            ","@,
            pb@.img_url,
        ) + ("]}"@ + y)))),
    );
    lemma_drop_prefix(
        ",\"permalink\":"@,
        jstr(pa.permalink@) + (",\"img_url\":["@ + (joined(f, ","@, pa@.img_url) + ("]}"@ + x))),
        jstr(pb.permalink@) + (",\"img_url\":["@ + (joined(f, ","@, pb@.img_url) + ("]}"@ + y))),
    );
    lemma_jstr_inj(
        pa.permalink@,
        pb.permalink@,
        ",\"img_url\":["@ + (joined(f, ","@, pa@.img_url) + ("]}"@ + x)),
        ",\"img_url\":["@ + (joined(f, ","@, pb@.img_url) + ("]}"@ + y)),
    );
    lemma_drop_prefix(
        ",\"img_url\":["@,
        joined(f, ","@, pa@.img_url) + ("]}"@ + x),
        joined(f, ","@, pb@.img_url) + ("]}"@ + y),
    );
    assert(("]}"@ + x)[0] == ']');
    assert(("]}"@ + y)[0] == ']');
    lemma_urls_items_term_inj(pa@.img_url, pb@.img_url, "]}"@ + x, "]}"@ + y);
    lemma_drop_prefix("]}"@, x, y);
    assert(pa@ =~= pb@);
}

#[verifier::rlimit(60)]
proof fn lemma_posts_items_term_inj(ps: Seq<Post>, qs: Seq<Post>, x: Seq<char>, y: Seq<char>)
    requires
        joined(|p: Post| post_json(p), ","@, ps) + x == joined(|p: Post| post_json(p), ","@, qs)
            + y,
        x.len() > 0,
        x[0] == ']',
        y.len() > 0,
        y[0] == ']',
    ensures
        ps.len() == qs.len(),
        forall|j: int| 0 <= j < ps.len() ==> #[trigger] ps[j]@ == qs[j]@,
        x == y,
    decreases ps.len(),
{
    reveal_strlit(",");
    reveal_strlit("{\"title\":");
    let f = |p: Post| post_json(p);
    if ps.len() == 0 && qs.len() == 0 {
        assert(joined(f, ","@, ps) == Seq::<char>::empty());
        assert(joined(f, ","@, qs) == Seq::<char>::empty());
        assert(x =~= joined(f, ","@, ps) + x);
        assert(y =~= joined(f, ","@, qs) + y);
    } else if ps.len() == 0 {
        assert(joined(f, ","@, ps) == Seq::<char>::empty());
        let ya = if qs.len() == 1 {
            y
        } else {
            ","@ + (joined(f, ","@, qs.drop_first()) + y)
        };
        assert(joined(f, ","@, qs) + y =~= f(qs[0]) + ya);
        assert((joined(f, ","@, ps) + x)[0] == x[0]);
        assert(f(qs[0])[0] == '{');
        assert(false);
    } else if qs.len() == 0 {
        assert(joined(f, ","@, qs) == Seq::<char>::empty());
        let xa = if ps.len() == 1 {
            x
        } else {
            ","@ + (joined(f, ","@, ps.drop_first()) + x)
        };
        assert(joined(f, ","@, ps) + x =~= f(ps[0]) + xa);
        assert((joined(f, ","@, qs) + y)[0] == y[0]);
        assert(f(ps[0])[0] == '{');
        assert(false);
    } else {
        let xa = if ps.len() == 1 {
            x
        } else {
            ","@ + (joined(f, ","@, ps.drop_first()) + x)
        };
        let ya = if qs.len() == 1 {
            y
        } else {
            ","@ + (joined(f, ","@, qs.drop_first()) + y)
        };
        assert(joined(f, ","@, ps) + x =~= f(ps[0]) + xa);
        assert(joined(f, ","@, qs) + y =~= f(qs[0]) + ya);
        lemma_post_json_inj(ps[0], qs[0], xa, ya);
        if ps.len() == 1 && qs.len() == 1 {
        } else if ps.len() == 1 {
            assert(xa[0] == ']');
            assert(ya[0] == ',');
            assert(false);
        } else if qs.len() == 1 {
            assert(xa[0] == ',');
            assert(ya[0] == ']');
            assert(false);
        } else {
            lemma_drop_prefix(
                ","@,
                joined(f, ","@, ps.drop_first()) + x,
                joined(f, ","@, qs.drop_first()) + y,
            );
            lemma_posts_items_term_inj(ps.drop_first(), qs.drop_first(), x, y);
            assert forall|j: int| 0 <= j < ps.len() implies #[trigger] ps[j]@ == qs[j]@ by {
                if j > 0 {
                    assert(ps.drop_first()[j - 1]@ == qs.drop_first()[j - 1]@);
                }
            }
        }
    }
}

/// Law: the JSON export pins a saved-posts batch down: two batches with
/// the same export hold the same posts, in the same order, field for
/// field, so parsing an export can only reconstruct the batch it was made
/// from.
pub proof fn lemma_posts_json_inj(ps: Seq<Post>, qs: Seq<Post>)
    requires
        posts_json(ps) == posts_json(qs),
    ensures
        ps.len() == qs.len(),
        forall|j: int| 0 <= j < ps.len() ==> #[trigger] ps[j]@ == qs[j]@,
{
    reveal_strlit("[");
    reveal_strlit("]");
    let f = |p: Post| post_json(p);
    assert(posts_json(ps) =~= "["@ + (joined(f, ","@, ps) + "]"@));
    assert(posts_json(qs) =~= "["@ + (joined(f, ","@, qs) + "]"@));
    lemma_drop_prefix("["@, joined(f, ","@, ps) + "]"@, joined(f, ","@, qs) + "]"@);
    assert("]"@[0] == ']');
    lemma_posts_items_term_inj(ps, qs, "]"@, "]"@);
}

/// Parses one message's content at position `i`.
fn parse_content(cs: &Vec<char>, i: usize, Ghost(active): Ghost<bool>, Ghost(gc): Ghost<
    Content,
>) -> (r: Option<(Content, usize)>)
    requires
        i <= cs@.len(),
        active ==> region(cs@, i as int, content_json(gc)),
    ensures
        active ==> (r matches Some(p) && content_like(p.0, gc) && p.1 == i + content_json(
            gc,
        ).len()),
        r matches Some(p) ==> i < p.1 <= cs@.len(),
{
    proof {
        reveal_strlit("{\"Message\":");
        reveal_strlit("{\"Image\":{\"id\":");
        reveal_strlit("}");
        reveal_strlit(",\"extension\":");
        reveal_strlit(",\"data\":[");
        reveal_strlit("]}}");
        reveal_strlit("]");
        reveal_strlit("}}");
    }
    if cs.len() - i < 3 {
        proof {
            if active {
                assert(false);
            }
        }
        return Option::None;
    }
    let c2 = cs[i + 2];
    if c2 == 'M' {
        let ghost tv = match gc {
            Content::Message(t) => t@,
            _ => Seq::<char>::empty(),
        };
        proof {
            if active {
                match gc {
                    Content::Message(t) => {
                    },
                    Content::Image(img) => {
                        lemma_region_index(cs@, i as int, content_json(gc), 2);
                        assert(content_json(gc)[2] == 'I');
                        assert(false);
                    },
                }
                let rest1 = jstr(tv) + "}"@;
                assert(content_json(gc) =~= "{\"Message\":"@ + rest1);
                lemma_region_split(cs@, i as int, "{\"Message\":"@, rest1);
                lemma_region_split(cs@, i + "{\"Message\":"@.len(), jstr(tv), "}"@);
            }
        }
        let j1 = match expect_lit(cs, i, "{\"Message\":", Ghost(active)) {
            Option::Some(j) => j,
            Option::None => {
                proof {
                    if active {
                        assert(false);
                    }
                }
                return Option::None;
            },
        };
        let (txt, j2) = match parse_jstring(cs, j1, Ghost(active), Ghost(tv)) {
            Option::Some(p) => p,
            Option::None => {
                proof {
                    if active {
                        assert(false);
                    }
                }
                return Option::None;
            },
        };
        let j3 = match expect_lit(cs, j2, "}", Ghost(active)) {
            Option::Some(j) => j,
            Option::None => {
                proof {
                    if active {
                        assert(false);
                    }
                }
                return Option::None;
            },
        };
        Option::Some((Content::Message(txt), j3))
    } else {
        let ghost (gid, gext, gdata) = match gc {
            Content::Image(img) => (img.id@, img.extension@, img.data@),
            _ => (Seq::<char>::empty(), Seq::<char>::empty(), Seq::<u8>::empty()),
        };
        let ghost fb = |b: u8| dec_digits(b as nat);
        proof {
            if active {
                match gc {
                    Content::Image(img) => {
                    },
                    Content::Message(t) => {
                        lemma_region_index(cs@, i as int, content_json(gc), 2);
                        assert(content_json(gc)[2] == 'M');
                        assert(false);
                    },
                }
                assert("]}}"@ =~= "]"@ + "}}"@);
                let items = joined(fb, ","@, gdata);
                let rest3 = (items + "]"@) + "}}"@;
                let rest2 = jstr(gext) + (",\"data\":["@ + rest3);
                let rest1 = jstr(gid) + (",\"extension\":"@ + rest2);
                assert(content_json(gc) =~= "{\"Image\":{\"id\":"@ + rest1);
                lemma_region_split(cs@, i as int, "{\"Image\":{\"id\":"@, rest1);
                lemma_region_split(
                    cs@,
                    i + "{\"Image\":{\"id\":"@.len(),
                    jstr(gid),
                    ",\"extension\":"@ + rest2,
                );
                lemma_region_split(
                    cs@,
                    i + "{\"Image\":{\"id\":"@.len() + jstr(gid).len(),
                    ",\"extension\":"@,
                    rest2,
                );
                lemma_region_split(
                    cs@,
                    i + "{\"Image\":{\"id\":"@.len() + jstr(gid).len() + ",\"extension\":"@.len(),
                    jstr(gext),
                    ",\"data\":["@ + rest3,
                );
                lemma_region_split(
                    cs@,
                    i + "{\"Image\":{\"id\":"@.len() + jstr(gid).len() + ",\"extension\":"@.len()
                        + jstr(gext).len(),
                    ",\"data\":["@,
                    rest3,
                );
                lemma_region_split(
                    cs@,
                    i + "{\"Image\":{\"id\":"@.len() + jstr(gid).len() + ",\"extension\":"@.len()
                        + jstr(gext).len() + ",\"data\":["@.len(),
                    items + "]"@,
                    "}}"@,
                );
            }
        }
        let j1 = match expect_lit(cs, i, "{\"Image\":{\"id\":", Ghost(active)) {
            Option::Some(j) => j,
            Option::None => {
                proof {
                    if active {
                        assert(false);
                    }
                }
                return Option::None;
            },
        };
        let (idv, j2) = match parse_jstring(cs, j1, Ghost(active), Ghost(gid)) {
            Option::Some(p) => p,
            Option::None => {
                proof {
                    if active {
                        assert(false);
                    }
                }
                return Option::None;
            },
        };
        let j3 = match expect_lit(cs, j2, ",\"extension\":", Ghost(active)) {
            Option::Some(j) => j,
            Option::None => {
                proof {
                    if active {
                        assert(false);
                    }
                }
                return Option::None;
            },
        };
        let (extv, j4) = match parse_jstring(cs, j3, Ghost(active), Ghost(gext)) {
            Option::Some(p) => p,
            Option::None => {
                proof {
                    if active {
                        assert(false);
                    }
                }
                return Option::None;
            },
        };
        let j5 = match expect_lit(cs, j4, ",\"data\":[", Ghost(active)) {
            Option::Some(j) => j,
            Option::None => {
                proof {
                    if active {
                        assert(false);
                    }
                }
                return Option::None;
            },
        };
        let (datav, j6) = match parse_byte_items(cs, j5, Ghost(active), Ghost(gdata)) {
            Option::Some(p) => p,
            Option::None => {
                proof {
                    if active {
                        assert(false);
                    }
                }
                return Option::None;
            },
        };
        let j7 = match expect_lit(cs, j6, "}}", Ghost(active)) {
            Option::Some(j) => j,
            Option::None => {
                proof {
                    if active {
                        assert(false);
                    }
                }
                return Option::None;
            },
        };
        let img = crate::model::Image { id: idv, extension: extv, data: datav };
        Option::Some((Content::Image(img), j7))
    }
}

/// Parses one message object at position `i`.
fn parse_msg(cs: &Vec<char>, i: usize, Ghost(active): Ghost<bool>, Ghost(gm): Ghost<Message>) -> (r:
    Option<(Message, usize)>)
    requires
        i <= cs@.len(),
        active ==> region(cs@, i as int, msg_json(gm)) && ts_in_range(gm.timestamp),
    ensures
        active ==> (r matches Some(p) && msg_like(p.0, gm) && p.1 == i + msg_json(gm).len()),
        r matches Some(p) ==> i < p.1 <= cs@.len(),
{
    proof {
        reveal_strlit("{\"author\":");
        reveal_strlit(",\"timestamp\":");
        reveal_strlit(",\"content\":");
        reveal_strlit("}");
        if active {
            let it = int_text(gm.timestamp as int);
            let cj = content_json(gm.content);
            let rest3 = cj + "}"@;
            let rest2 = it + (",\"content\":"@ + rest3);
            let rest1 = jstr(gm.author@) + (",\"timestamp\":"@ + rest2);
            assert(msg_json(gm) =~= "{\"author\":"@ + rest1);
            lemma_region_split(cs@, i as int, "{\"author\":"@, rest1);
            lemma_region_split(cs@, i + "{\"author\":"@.len(), jstr(gm.author@), ",\"timestamp\":"@
                + rest2);
            lemma_region_split(
                cs@,
                i + "{\"author\":"@.len() + jstr(gm.author@).len(),
                ",\"timestamp\":"@,
                rest2,
            );
            lemma_region_split(
                cs@,
                i + "{\"author\":"@.len() + jstr(gm.author@).len() + ",\"timestamp\":"@.len(),
                it,
                ",\"content\":"@ + rest3,
            );
            lemma_region_index(
                cs@,
                i + "{\"author\":"@.len() + jstr(gm.author@).len() + ",\"timestamp\":"@.len()
                    + it.len(),
                ",\"content\":"@ + rest3,
                0,
            );
            lemma_region_split(
                cs@,
                i + "{\"author\":"@.len() + jstr(gm.author@).len() + ",\"timestamp\":"@.len()
                    + it.len(),
                ",\"content\":"@,
                rest3,
            );
            lemma_region_split(
                cs@,
                i + "{\"author\":"@.len() + jstr(gm.author@).len() + ",\"timestamp\":"@.len()
                    + it.len() + ",\"content\":"@.len(),
                cj,
                "}"@,
            );
        }
    }
    let j1 = match expect_lit(cs, i, "{\"author\":", Ghost(active)) {
        Option::Some(j) => j,
        Option::None => {
            proof {
                if active {
                    assert(false);
                }
            }
            return Option::None;
        },
    };
    let (author, j2) = match parse_jstring(cs, j1, Ghost(active), Ghost(gm.author@)) {
        Option::Some(p) => p,
        Option::None => {
            proof {
                if active {
                    assert(false);
                }
            }
            return Option::None;
        },
    };
    let j3 = match expect_lit(cs, j2, ",\"timestamp\":", Ghost(active)) {
        Option::Some(j) => j,
        Option::None => {
            proof {
                if active {
                    assert(false);
                }
            }
            return Option::None;
        },
    };
    let (ts, j4) = match parse_ts(cs, j3, Ghost(active), Ghost(gm.timestamp)) {
        Option::Some(p) => p,
        Option::None => {
            proof {
                if active {
                    assert(false);
                }
            }
            return Option::None;
        },
    };
    let j5 = match expect_lit(cs, j4, ",\"content\":", Ghost(active)) {
        Option::Some(j) => j,
        Option::None => {
            proof {
                if active {
                    assert(false);
                }
            }
            return Option::None;
        },
    };
    let (content, j6) = match parse_content(cs, j5, Ghost(active), Ghost(gm.content)) {
        Option::Some(p) => p,
        Option::None => {
            proof {
                if active {
                    assert(false);
                }
            }
            return Option::None;
        },
    };
    let j7 = match expect_lit(cs, j6, "}", Ghost(active)) {
        Option::Some(j) => j,
        Option::None => {
            proof {
                if active {
                    assert(false);
                }
            }
            return Option::None;
        },
    };
    let m = Message { author, timestamp: ts, content };
    Option::Some((m, j7))
}

/// Parses the comma-separated message objects and closing bracket of a
/// message list.
fn parse_msg_items(
    cs: &Vec<char>,
    i: usize,
    Ghost(active): Ghost<bool>,
    Ghost(ms): Ghost<Seq<Message>>,
) -> (r: Option<(Vec<Message>, usize)>)
    requires
        i <= cs@.len(),
        active ==> {
            &&& region(cs@, i as int, joined(|m: Message| msg_json(m), ","@, ms) + "]"@)
            &&& forall|j: int| 0 <= j < ms.len() ==> ts_in_range(#[trigger] ms[j].timestamp)
        },
    ensures
        active ==> (r matches Some(p) && p.0@.len() == ms.len() && (forall|j: int|
            0 <= j < ms.len() ==> msg_like(#[trigger] p.0@[j], ms[j])) && p.1 == i + joined(
            |m: Message| msg_json(m),
            ","@,
            ms,
        ).len() + 1),
        r matches Some(p) ==> i < p.1 <= cs@.len(),
{
    let cl = cs.len();
    let ghost f = |m: Message| msg_json(m);
    proof {
        reveal_strlit("]");
        reveal_strlit(",");
        reveal_strlit("{\"author\":");
    }
    if i >= cl {
        proof {
            if active {
                assert(false);
            }
        }
        return Option::None;
    }
    let mut out: Vec<Message> = Vec::new();
    if cs[i] == ']' {
        proof {
            if active {
                if ms.len() > 0 {
                    lemma_items_layout(cs@, i as int, f, ms, 0);
                    lemma_region_index(cs@, i as int, f(ms[0]), 0);
                    assert(msg_json(ms[0])[0] == '{');
                    assert(false);
                }
                assert(ms.len() == 0);
                assert(joined(f, ","@, ms) == Seq::<char>::empty());
                lemma_region_index(cs@, i as int, joined(f, ","@, ms) + "]"@, 0);
            }
        }
        return Option::Some((out, i + 1));
    }
    proof {
        if active {
            if ms.len() == 0 {
                assert(joined(f, ","@, ms) == Seq::<char>::empty());
                lemma_region_index(cs@, i as int, joined(f, ","@, ms) + "]"@, 0);
                assert(false);
            }
        }
    }
    let mut k: usize = i;
    let ghost mut m: int = 0;
    #[verifier::loop_isolation(false)]
    loop
        invariant
            i <= k <= cl,
            active ==> {
                &&& 0 <= m < ms.len()
                &&& out@.len() == m
                &&& forall|j: int| 0 <= j < m ==> msg_like(#[trigger] out@[j], ms[j])
                &&& k as int == items_off(i as int, f, ms, m)
            },
        decreases cl - k,
    {
        proof {
            if active {
                lemma_items_layout(cs@, i as int, f, ms, m);
            }
        }
        let ghost gm = if active && 0 <= m < ms.len() {
            ms[m]
        } else {
            arbitrary()
        };
        let v = match parse_msg(cs, k, Ghost(active), Ghost(gm)) {
            Option::Some(p) => p,
            Option::None => {
                proof {
                    if active {
                        assert(false);
                    }
                }
                return Option::None;
            },
        };
        let (msg, j) = v;
        out.push(msg);
        if j >= cl {
            proof {
                if active {
                    assert(false);
                }
            }
            return Option::None;
        }
        let c = cs[j];
        if c == ',' {
            proof {
                if active {
                    assert(m < ms.len() - 1) by {
                        if m == ms.len() - 1 {
                            assert(cs@[j as int] == ']');
                            assert(false);
                        }
                    }
                    m = m + 1;
                }
            }
            k = j + 1;
        } else if c == ']' {
            proof {
                if active {
                    assert(m == ms.len() - 1) by {
                        if m < ms.len() - 1 {
                            assert(cs@[j as int] == ',');
                            assert(false);
                        }
                    }
                }
            }
            return Option::Some((out, j + 1));
        } else {
            proof {
                if active {
                    assert(false);
                }
            }
            return Option::None;
        }
    }
}

/// `room` is a resolved room within the formatter's timestamp range whose
/// JSON export is exactly `s`.
pub open spec fn room_src(room: Room, s: Seq<char>) -> bool {
    &&& room.messages is Some
    &&& crate::export::msgs_ts_in_range(msgs_of(room))
    &&& s == room_json(room)
}

/// Parses the JSON export of a room. On any text that is the export of
/// some resolved room, parsing succeeds, and the room it yields is itself
/// resolved and exports back to exactly that text: printing after parsing
/// is the identity on exported rooms.
pub fn parse_room_chats_json(s: &str) -> (r: Option<Room>)
    ensures
        (exists|room: Room| #[trigger] room_src(room, s@)) ==> (r matches Some(r2) && room_src(
            r2,
            s@,
        )),
{
    let cs = to_chars(s);
    let ghost active = exists|room: Room| room_src(room, s@);
    let ghost w: Room = if active {
        choose|room: Room| room_src(room, s@)
    } else {
        arbitrary()
    };
    let ghost gms = msgs_of(w);
    let ghost f = |m: Message| msg_json(m);
    proof {
        reveal_strlit("{\"id\":");
        reveal_strlit(",\"messages\":");
        reveal_strlit("[");
        reveal_strlit("]");
        reveal_strlit("}");
        if active {
            assert(room_src(w, s@));
            assert(cs@.subrange(0, room_json(w).len() as int) =~= room_json(w));
            assert(region(cs@, 0, room_json(w)));
            let items = joined(f, ","@, gms);
            assert(msgs_json(gms) =~= "["@ + ((items + "]"@)));
            let rest2 = "["@ + ((items + "]"@) + "}"@);
            let rest1 = jstr(w.id@) + (",\"messages\":"@ + rest2);
            assert(room_json(w) =~= "{\"id\":"@ + rest1);
            lemma_region_split(cs@, 0, "{\"id\":"@, rest1);
            lemma_region_split(cs@, "{\"id\":"@.len() as int, jstr(w.id@), ",\"messages\":"@
                + rest2);
            lemma_region_split(
                cs@,
                "{\"id\":"@.len() + jstr(w.id@).len() as int,
                ",\"messages\":"@,
                rest2,
            );
            lemma_region_split(
                cs@,
                "{\"id\":"@.len() + jstr(w.id@).len() + ",\"messages\":"@.len() as int,
                "["@,
                (items + "]"@) + "}"@,
            );
            lemma_region_split(
                cs@,
                "{\"id\":"@.len() + jstr(w.id@).len() + ",\"messages\":"@.len() + 1int,
                items + "]"@,
                "}"@,
            );
        }
    }
    let j1 = match expect_lit(&cs, 0, "{\"id\":", Ghost(active)) {
        Option::Some(j) => j,
        Option::None => {
            proof {
                if active {
                    assert(false);
                }
            }
            return Option::None;
        },
    };
    let (idv, j2) = match parse_jstring(&cs, j1, Ghost(active), Ghost(w.id@)) {
        Option::Some(p) => p,
        Option::None => {
            proof {
                if active {
                    assert(false);
                }
            }
            return Option::None;
        },
    };
    let j3 = match expect_lit(&cs, j2, ",\"messages\":", Ghost(active)) {
        Option::Some(j) => j,
        Option::None => {
            proof {
                if active {
                    assert(false);
                }
            }
            return Option::None;
        },
    };
    let j4 = match expect_lit(&cs, j3, "[", Ghost(active)) {
        Option::Some(j) => j,
        Option::None => {
            proof {
                if active {
                    assert(false);
                }
            }
            return Option::None;
        },
    };
    let (msgs, j5) = match parse_msg_items(&cs, j4, Ghost(active), Ghost(gms)) {
        Option::Some(p) => p,
        Option::None => {
            proof {
                if active {
                    assert(false);
                }
            }
            return Option::None;
        },
    };
    let j6 = match expect_lit(&cs, j5, "}", Ghost(active)) {
        Option::Some(j) => j,
        Option::None => {
            proof {
                if active {
                    assert(false);
                }
            }
            return Option::None;
        },
    };
    if j6 != cs.len() {
        proof {
            if active {
                assert(j6 as int == room_json(w).len());
                assert(false);
            }
        }
        return Option::None;
    }
    let r2 = Room { id: idv, messages: Option::Some(msgs) };
    proof {
        if active {
            assert(room_like(r2, w));
            lemma_room_json_like(r2, w);
            assert(crate::export::msgs_ts_in_range(msgs_of(r2))) by {
                assert forall|j: int|
                    0 <= j < msgs_of(r2).len() implies ts_in_range(
                    #[trigger] msgs_of(r2)[j].timestamp,
                ) by {
                    assert(msg_like(msgs_of(r2)[j], gms[j]));
                }
            }
            assert(room_src(r2, s@));
        }
    }
    Option::Some(r2)
}

} // verus!
