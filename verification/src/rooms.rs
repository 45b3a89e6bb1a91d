use vstd::prelude::*;
use crate::saved::{json_parses, parse_json};
use crate::strutil::push_char;

verus! {

/// The JSON renderings of the elements of the document's `joined_rooms`
/// array, in order, or `None` where there is no array there.
pub uninterp spec fn joined_rooms_texts(v: serde_json::Value) -> Option<Seq<Seq<char>>>;

/// Relies on serde_json's `Value` indexing, `Value::as_array`, and the
/// `Display` rendering of `Value`, which depends on the value alone.
#[verifier::external_body]
fn joined_rooms_raw(v: &serde_json::Value) -> (r: Option<Vec<String>>)
    ensures
        match r {
            Option::Some(ids) => joined_rooms_texts(*v) == Some(ids@.map_values(|s: String| s@)),
            Option::None => joined_rooms_texts(*v) is None,
        },
{
    v["joined_rooms"].as_array().map(|a| a.iter().map(|x| x.to_string()).collect())
}

/// `s` with every double-quote removed, as the room lister strips the
/// quotes that the JSON rendering of an identifier carries.
pub open spec fn without_quotes(s: Seq<char>) -> Seq<char>
    decreases s.len(),
{
    if s.len() == 0 {
        Seq::empty()
    } else {
        (if s.first() == '"' {
            Seq::<char>::empty()
        } else {
            seq![s.first()]
        }) + without_quotes(s.drop_first())
    }
}

proof fn lemma_without_quotes_push(s: Seq<char>, c: char)
    ensures
        without_quotes(s.push(c)) == without_quotes(s) + (if c == '"' {
            Seq::<char>::empty()
        } else {
            seq![c]
        }),
    decreases s.len(),
{
    let tail = if c == '"' {
        Seq::<char>::empty()
    } else {
        seq![c]
    };
    if s.len() == 0 {
        assert(s.push(c).drop_first() =~= Seq::<char>::empty());
        assert(without_quotes(Seq::<char>::empty()) == Seq::<char>::empty());
        assert(without_quotes(s.push(c)) =~= tail);
        assert(without_quotes(s) + tail =~= tail);
    } else {
        assert(s.push(c).drop_first() =~= s.drop_first().push(c));
        lemma_without_quotes_push(s.drop_first(), c);
        assert(without_quotes(s.push(c)) =~= without_quotes(s) + tail);
    }
}

/// Removes every double-quote from `s`.
pub fn strip_quotes(s: &str) -> (r: String)
    ensures
        r@ == without_quotes(s@),
{
    let n = s.unicode_len();
    let mut out = String::new();
    let mut i: usize = 0;
    proof {
        assert(s@.take(0) =~= Seq::<char>::empty());
    }
    while i < n
        invariant
            0 <= i <= n,
            n == s@.len(),
            out@ == without_quotes(s@.take(i as int)),
        decreases n - i,
    {
        let c = s.get_char(i);
        proof {
            lemma_without_quotes_push(s@.take(i as int), c);
            assert(s@.take(i as int).push(c) =~= s@.take(i as int + 1));
        }
        if c != '"' {
            push_char(&mut out, c);
            proof {
                assert(out@ =~= without_quotes(s@.take(i as int + 1)));
            }
        }
        i = i + 1;
    }
    proof {
        assert(s@.take(s@.len() as int) =~= s@);
    }
    out
}

/// How the room lister fails: the listing body is not valid JSON, or it
/// holds no `joined_rooms` array.
#[derive(Debug)]
pub enum RoomsError {
    Unparseable,
    Malformed,
}

/// The identifiers `ids` are exactly the document's `joined_rooms` texts
/// with their quotes stripped, in order.
pub open spec fn ids_match_listing(v: serde_json::Value, ids: Seq<Seq<char>>) -> bool {
    match joined_rooms_texts(v) {
        Option::Some(raw) => ids.len() == raw.len() && forall|k: int|
            0 <= k < raw.len() ==> #[trigger] ids[k] == without_quotes(raw[k]),
        Option::None => false,
    }
}

/// The room identifiers of a parsed joined-rooms listing: each element of
/// the `joined_rooms` array rendered as text with its quotes stripped, in
/// order. Fails exactly where the document holds no such array.
pub fn rooms_from_listing(v: &serde_json::Value) -> (r: Result<Vec<String>, RoomsError>)
    ensures
        match r {
            Result::Ok(ids) => ids_match_listing(*v, ids@.map_values(|s: String| s@)),
            Result::Err(e) => e == RoomsError::Malformed && joined_rooms_texts(*v) is None,
        },
{
    let raw = match joined_rooms_raw(v) {
        Option::Some(ids) => ids,
        Option::None => {
            return Result::Err(RoomsError::Malformed);
        },
    };
    let ghost rawv = raw@.map_values(|s: String| s@);
    let mut ids: Vec<String> = Vec::new();
    let mut i: usize = 0;
    while i < raw.len()
        invariant
            0 <= i <= raw.len(),
            rawv == raw@.map_values(|s: String| s@),
            joined_rooms_texts(*v) == Some(rawv),
            ids@.len() == i,
            forall|k: int| 0 <= k < i ==> #[trigger] ids@[k]@ == without_quotes(rawv[k]),
        decreases raw.len() - i,
    {
        let id = strip_quotes(raw[i].as_str());
        ids.push(id);
        i = i + 1;
    }
    Result::Ok(ids)
}

/// Parses a joined-rooms listing body and extracts the room identifiers.
/// Whether the body parses is decided by the JSON parser; whatever document
/// came back, the result is exactly that document's identifier list, and
/// each error names its cause.
pub fn parse_rooms_listing(body: &str) -> (r: Result<Vec<String>, RoomsError>)
    ensures
        r matches Result::Ok(ids) ==> json_parses(body@) && exists|v: serde_json::Value|
            #![trigger joined_rooms_texts(v)]
            ids_match_listing(v, ids@.map_values(|s: String| s@)),
        !json_parses(body@) ==> (r matches Result::Err(e) && e == RoomsError::Unparseable),
        (r matches Result::Err(e) && e == RoomsError::Malformed) ==> json_parses(body@)
            && exists|v: serde_json::Value| #![trigger joined_rooms_texts(v)] joined_rooms_texts(
            v,
        ) is None,
{
    let v = match parse_json(body) {
        Option::Some(v) => v,
        Option::None => {
            return Result::Err(RoomsError::Unparseable);
        },
    };
    let ids = match rooms_from_listing(&v) {
        Result::Ok(ids) => ids,
        Result::Err(e) => {
            proof {
                assert(joined_rooms_texts(v) is None);
            }
            return Result::Err(e);
        },
    };
    proof {
        assert(ids_match_listing(v, ids@.map_values(|s: String| s@)));
    }
    Result::Ok(ids)
}

/// The file-name stem a room's exports are written under: the nine
/// characters of the identifier after its leading sigil. Assumes the
/// messaging service's minimum identifier length; shorter identifiers are
/// rejected by contract, since slicing them would fail.
pub fn derived_room_name(id: &str) -> (r: String)
    requires
        id@.len() >= 10,
    ensures
        r@ == id@.subrange(1, 10),
{
    let sub = id.substring_char(1, 10);
    sub.to_owned()
}

} // verus!
