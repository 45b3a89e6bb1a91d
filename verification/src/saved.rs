use vstd::prelude::*;
use crate::model::{Post, PostV, SavedList};

verus! {

#[verifier::external_type_specification]
#[verifier::external_body]
pub struct ExValue(serde_json::Value);

// A parsed saved-posts page is an opaque document; the names below say what
// it holds at the places this fetcher reads: the saved items live under
// `data.children`, each item's fields under its own `data` object, and the
// pagination cursor under `data.after`.

/// The string at `data.children[i].data.<field>` of the document, or `None`
/// where that place is absent or not a string.
pub uninterp spec fn item_field_str(v: serde_json::Value, i: int, field: Seq<char>) -> Option<
    Seq<char>,
>;

/// Whether `data.children[i].data.<field>` is null or absent.
pub uninterp spec fn item_field_null(v: serde_json::Value, i: int, field: Seq<char>) -> bool;

/// The cached preview URLs at `data.children[i].data.preview.images[*].source.url`,
/// in source order, or `None` where the images collection is absent or some
/// entry carries no string there.
pub uninterp spec fn item_preview_urls(v: serde_json::Value, i: int) -> Option<Seq<Seq<char>>>;

/// How many saved items the document's `data.children` array holds, or
/// `None` where there is no array there.
pub uninterp spec fn page_item_count(v: serde_json::Value) -> Option<int>;

/// The string at `data.after`, or `None` where it is absent or not a string.
pub uninterp spec fn page_after_str(v: serde_json::Value) -> Option<Seq<char>>;

/// Whether `data.after` is null or absent.
pub uninterp spec fn page_after_null(v: serde_json::Value) -> bool;

/// Whether a text is a valid JSON document: what decides the parser's
/// outcome, a function of the text alone.
pub uninterp spec fn json_parses(s: Seq<char>) -> bool;

/// Relies on serde_json::from_str: parses a whole JSON document, `Err` on
/// text that is not valid JSON; the outcome depends on the text alone.
#[verifier::external_body]
pub(crate) fn parse_json(s: &str) -> (r: Option<serde_json::Value>)
    ensures
        r is Some <==> json_parses(s@),
{
    serde_json::from_str(s).ok()
}

/// Relies on serde_json's `Value` indexing, which yields `Null` for any
/// missing or mismatched step, and on `Value::as_str`.
#[verifier::external_body]
fn item_str(v: &serde_json::Value, i: usize, field: &str) -> (r: Option<String>)
    ensures
        match r {
            Option::Some(s) => item_field_str(*v, i as int, field@) == Some(s@),
            Option::None => item_field_str(*v, i as int, field@) is None,
        },
{
    v["data"]["children"][i]["data"][field].as_str().map(|s| s.to_string())
}

/// Relies on serde_json's `Value` indexing and `Value::is_null`.
#[verifier::external_body]
fn item_is_null(v: &serde_json::Value, i: usize, field: &str) -> (r: bool)
    ensures
        r == item_field_null(*v, i as int, field@),
{
    v["data"]["children"][i]["data"][field].is_null()
}

/// Relies on serde_json's `Value` indexing, `Value::as_array` and
/// `Value::as_str` to read every preview entry's cached source URL.
#[verifier::external_body]
fn item_previews(v: &serde_json::Value, i: usize) -> (r: Option<Vec<String>>)
    ensures
        match r {
            Option::Some(urls) => item_preview_urls(*v, i as int) == Some(
                urls@.map_values(|u: String| u@),
            ),
            Option::None => item_preview_urls(*v, i as int) is None,
        },
{
    v["data"]["children"][i]["data"]["preview"]["images"].as_array()?.iter().map(
        |im| im["source"]["url"].as_str().map(|s| s.to_string()),
    ).collect()
}

/// Relies on serde_json's `Value` indexing and `Value::as_array`.
#[verifier::external_body]
fn children_len(v: &serde_json::Value) -> (r: Option<usize>)
    ensures
        match r {
            Option::Some(n) => page_item_count(*v) == Some(n as int),
            Option::None => page_item_count(*v) is None,
        },
{
    v["data"]["children"].as_array().map(|a| a.len())
}

/// Relies on serde_json's `Value` indexing and `Value::as_str`.
#[verifier::external_body]
fn after_str(v: &serde_json::Value) -> (r: Option<String>)
    ensures
        match r {
            Option::Some(s) => page_after_str(*v) == Some(s@),
            Option::None => page_after_str(*v) is None,
        },
{
    v["data"]["after"].as_str().map(|s| s.to_string())
}

/// Relies on serde_json's `Value` indexing and `Value::is_null`.
#[verifier::external_body]
fn after_is_null(v: &serde_json::Value) -> (r: bool)
    ensures
        r == page_after_null(*v),
{
    v["data"]["after"].is_null()
}

/// The path component of `s` read as an absolute URL, or `None` where `s`
/// is no such URL.
pub uninterp spec fn url_path_of(s: Seq<char>) -> Option<Seq<char>>;

/// Relies on url::Url::parse and Url::path: both depend on the text alone.
#[verifier::external_body]
fn parse_url_path(s: &str) -> (r: Option<String>)
    ensures
        match r {
            Option::Some(p) => url_path_of(s@) == Some(p@),
            Option::None => url_path_of(s@) is None,
        },
{
    match url::Url::parse(s) {
        Ok(u) => Some(u.path().to_string()),
        Err(_) => None,
    }
}

/// How this fetcher fails on one page: the body is not valid JSON, or the
/// parsed document misses a place the extraction must read.
#[derive(Debug)]
pub enum SavedError {
    Unparseable,
    Malformed,
}

/// One fetched page: its extracted posts and the cursor of the next page
/// (`None` once the listing is exhausted).
pub struct Page {
    pub posts: Vec<Post>,
    pub after: Option<String>,
}

/// The canonical, uncached form of an image URL: the cached URL's path
/// rewritten onto the stable media origin.
pub open spec fn canonical_img(path: Seq<char>) -> Seq<char> {
    "https://i.redd.it"@ + path
}

pub open spec fn path_or_empty(o: Option<Seq<char>>) -> Seq<char> {
    match o {
        Option::Some(p) => p,
        Option::None => Seq::empty(),
    }
}

/// The canonical image URLs of item `i`: empty where the item has a null
/// preview, otherwise every cached preview URL rewritten onto the canonical
/// origin; `None` where the preview data or some URL is malformed.
pub open spec fn spec_imgs(v: serde_json::Value, i: int) -> Option<Seq<Seq<char>>> {
    if item_field_null(v, i, "preview"@) {
        Some(Seq::empty())
    } else {
        match item_preview_urls(v, i) {
            Option::Some(urls) => if forall|j: int|
                0 <= j < urls.len() ==> url_path_of(#[trigger] urls[j]) is Some {
                Some(Seq::new(urls.len(), |j: int| canonical_img(path_or_empty(url_path_of(urls[j])))))
            } else {
                None
            },
            Option::None => None,
        }
    }
}

/// The title of item `i`: an item with a non-null link title is a link
/// post and takes its title from there; any other item is a text post and
/// takes the plain title field.
pub open spec fn spec_title(v: serde_json::Value, i: int) -> Option<Seq<char>> {
    if !item_field_null(v, i, "link_title"@) {
        item_field_str(v, i, "link_title"@)
    } else {
        item_field_str(v, i, "title"@)
    }
}

/// The post extracted from item `i`, or `None` where a field this fetcher
/// must read is missing or malformed.
pub open spec fn spec_item(v: serde_json::Value, i: int) -> Option<PostV> {
    match (
        spec_title(v, i),
        item_field_str(v, i, "subreddit_name_prefixed"@),
        item_field_str(v, i, "permalink"@),
        spec_imgs(v, i),
    ) {
        (Option::Some(t), Option::Some(sr), Option::Some(pl), Option::Some(imgs)) => Some(
            PostV { title: t, subreddit_name: sr, permalink: pl, img_url: imgs },
        ),
        _ => None,
    }
}

pub open spec fn post_or_empty(o: Option<PostV>) -> PostV {
    match o {
        Option::Some(p) => p,
        Option::None => PostV {
            title: Seq::empty(),
            subreddit_name: Seq::empty(),
            permalink: Seq::empty(),
            img_url: Seq::empty(),
        },
    }
}

/// All posts of the page, in source order, or `None` where the children
/// array is missing or some item is malformed.
pub open spec fn spec_page_posts(v: serde_json::Value) -> Option<Seq<PostV>> {
    match page_item_count(v) {
        Option::Some(n) => if forall|i: int| 0 <= i < n ==> spec_item(v, i) is Some {
            Some(Seq::new(n as nat, |i: int| post_or_empty(spec_item(v, i))))
        } else {
            None
        },
        Option::None => None,
    }
}

/// The page's pagination outcome: `Some(None)` where the cursor is null
/// (the listing is exhausted), `Some(Some(token))` where a next page
/// exists, `None` where the cursor is neither null nor a string.
pub open spec fn spec_after(v: serde_json::Value) -> Option<Option<Seq<char>>> {
    if page_after_null(v) {
        Some(None)
    } else {
        match page_after_str(v) {
            Option::Some(s) => Some(Some(s)),
            Option::None => None,
        }
    }
}

pub open spec fn posts_view(ps: Seq<Post>) -> Seq<PostV> {
    ps.map_values(|p: Post| p@)
}

pub open spec fn opt_str_view(o: Option<String>) -> Option<Seq<char>> {
    match o {
        Option::Some(s) => Some(s@),
        Option::None => None,
    }
}

/// Rewrites the canonical image URLs of item `i`, in source order.
fn extract_imgs(v: &serde_json::Value, i: usize) -> (r: Result<Vec<String>, SavedError>)
    ensures
        match r {
            Result::Ok(urls) => spec_imgs(*v, i as int) == Some(urls@.map_values(|u: String| u@)),
            Result::Err(e) => e == SavedError::Malformed && spec_imgs(*v, i as int) is None,
        },
{
    if item_is_null(v, i, "preview") {
        let out: Vec<String> = Vec::new();
        proof {
            assert(out@.map_values(|u: String| u@) =~= Seq::<Seq<char>>::empty());
        }
        return Result::Ok(out);
    }
    let raw = match item_previews(v, i) {
        Option::Some(urls) => urls,
        Option::None => {
            return Result::Err(SavedError::Malformed);
        },
    };
    let ghost rawv = raw@.map_values(|u: String| u@);
    let mut out: Vec<String> = Vec::new();
    let mut j: usize = 0;
    while j < raw.len()
        invariant
            0 <= j <= raw.len(),
            rawv == raw@.map_values(|u: String| u@),
            item_preview_urls(*v, i as int) == Some(rawv),
            !item_field_null(*v, i as int, "preview"@),
            forall|k: int| 0 <= k < j ==> url_path_of(#[trigger] rawv[k]) is Some,
            out@.len() == j,
            forall|k: int|
                0 <= k < j ==> #[trigger] out@[k]@ == canonical_img(
                    path_or_empty(url_path_of(rawv[k])),
                ),
        decreases raw.len() - j,
    {
        let path = match parse_url_path(raw[j].as_str()) {
            Option::Some(p) => p,
            Option::None => {
                proof {
                    assert(url_path_of(rawv[j as int]) is None);
                }
                return Result::Err(SavedError::Malformed);
            },
        };
        let mut u = String::new();
        u.append("https://i.redd.it");
        u.append(path.as_str());
        out.push(u);
        j = j + 1;
    }
    proof {
        let imgs = spec_imgs(*v, i as int);
        assert(imgs == Some(
            Seq::new(rawv.len(), |k: int| canonical_img(path_or_empty(url_path_of(rawv[k])))),
        ));
        assert(out@.map_values(|u: String| u@) =~= Seq::new(
            rawv.len(),
            |k: int| canonical_img(path_or_empty(url_path_of(rawv[k]))),
        ));
    }
    Result::Ok(out)
}

/// Extracts one saved item, classifying it as a link post or a text post
/// by its link-title field.
fn extract_item(v: &serde_json::Value, i: usize) -> (r: Result<Post, SavedError>)
    ensures
        match r {
            Result::Ok(p) => spec_item(*v, i as int) == Some(p@),
            Result::Err(e) => e == SavedError::Malformed && spec_item(*v, i as int) is None,
        },
{
    let title_opt = if !item_is_null(v, i, "link_title") {
        item_str(v, i, "link_title")
    } else {
        item_str(v, i, "title")
    };
    let title = match title_opt {
        Option::Some(t) => t,
        Option::None => {
            return Result::Err(SavedError::Malformed);
        },
    };
    let subreddit_name = match item_str(v, i, "subreddit_name_prefixed") {
        Option::Some(s) => s,
        Option::None => {
            return Result::Err(SavedError::Malformed);
        },
    };
    let permalink = match item_str(v, i, "permalink") {
        Option::Some(s) => s,
        Option::None => {
            return Result::Err(SavedError::Malformed);
        },
    };
    let img_url = match extract_imgs(v, i) {
        Result::Ok(u) => u,
        Result::Err(e) => {
            return Result::Err(e);
        },
    };
    let p = Post { title, subreddit_name, permalink, img_url };
    proof {
        assert(spec_item(*v, i as int) == Some(p@)) by {
            assert(post_or_empty(spec_item(*v, i as int)) =~= p@);
        }
    }
    Result::Ok(p)
}

/// Extracts a whole saved-posts page: every item in source order, and the
/// cursor of the next page. Fails exactly where the document misses a
/// place the extraction must read.
pub fn extract_page(v: &serde_json::Value) -> (r: Result<Page, SavedError>)
    ensures
        match r {
            Result::Ok(page) => spec_page_posts(*v) == Some(posts_view(page.posts@))
                && spec_after(*v) == Some(opt_str_view(page.after)),
            Result::Err(e) => e == SavedError::Malformed && (spec_page_posts(*v) is None
                || spec_after(*v) is None),
        },
{
    let n = match children_len(v) {
        Option::Some(n) => n,
        Option::None => {
            return Result::Err(SavedError::Malformed);
        },
    };
    let mut posts: Vec<Post> = Vec::new();
    let mut i: usize = 0;
    while i < n
        invariant
            0 <= i <= n,
            page_item_count(*v) == Some(n as int),
            posts@.len() == i,
            forall|k: int| 0 <= k < i ==> #[trigger] spec_item(*v, k) == Some(posts@[k]@),
        decreases n - i,
    {
        let p = match extract_item(v, i) {
            Result::Ok(p) => p,
            Result::Err(e) => {
                return Result::Err(e);
            },
        };
        posts.push(p);
        i = i + 1;
    }
    let after = if after_is_null(v) {
        Option::None
    } else {
        match after_str(v) {
            Option::Some(s) => Option::Some(s),
            Option::None => {
                return Result::Err(SavedError::Malformed);
            },
        }
    };
    proof {
        assert(spec_page_posts(*v) == Some(posts_view(posts@))) by {
            assert(posts_view(posts@) =~= Seq::new(n as nat, |k: int| post_or_empty(spec_item(*v, k))));
        }
    }
    Result::Ok(Page { posts, after })
}

/// Parses one raw page body and extracts it. Whether the body parses is
/// decided by the JSON parser; whatever document came back, the result is
/// exactly that document's extraction, and each error names its cause.
pub fn parse_saved_page(body: &str) -> (r: Result<Page, SavedError>)
    ensures
        r matches Result::Ok(page) ==> json_parses(body@) && exists|v: serde_json::Value|
            spec_page_posts(v) == Some(posts_view(page.posts@)) && spec_after(v) == Some(
                opt_str_view(page.after),
            ),
        !json_parses(body@) ==> (r matches Result::Err(e) && e == SavedError::Unparseable),
        (r matches Result::Err(e) && e == SavedError::Malformed) ==> json_parses(body@)
            && exists|v: serde_json::Value|
            #![trigger spec_page_posts(v)]
            (spec_page_posts(v) is None || spec_after(v) is None),
{
    let v = match parse_json(body) {
        Option::Some(v) => v,
        Option::None => {
            return Result::Err(SavedError::Unparseable);
        },
    };
    let page = match extract_page(&v) {
        Result::Ok(p) => p,
        Result::Err(e) => {
            proof {
                assert(spec_page_posts(v) is None || spec_after(v) is None);
            }
            return Result::Err(e);
        },
    };
    proof {
        assert(spec_page_posts(v) == Some(posts_view(page.posts@)) && spec_after(v) == Some(
            opt_str_view(page.after),
        ));
    }
    Result::Ok(page)
}

/// What a finite script of pages yields when the fetcher walks it from the
/// first page: the concatenation of every page's posts up to and including
/// the first exhausted page, or `None` where the script ends before any
/// page reports the listing exhausted.
pub open spec fn spec_collect(pages: Seq<Page>) -> Option<Seq<Post>>
    decreases pages.len(),
{
    if pages.len() == 0 {
        None
    } else if pages.first().after is None {
        Some(pages.first().posts@)
    } else {
        match spec_collect(pages.drop_first()) {
            Option::Some(rest) => Some(pages.first().posts@ + rest),
            Option::None => None,
        }
    }
}

/// Law: an item that carries a non-null link title is a link post and
/// always takes its title from the link-title field, whatever the plain
/// title field holds.
pub proof fn lemma_link_post_title(v: serde_json::Value, i: int)
    requires
        !item_field_null(v, i, "link_title"@),
    ensures
        spec_title(v, i) == item_field_str(v, i, "link_title"@),
{
}

/// Law: every extracted image URL lies on the canonical media origin and
/// keeps its cached URL's path unchanged, in source order.
pub proof fn lemma_img_urls_canonical(v: serde_json::Value, i: int)
    requires
        spec_imgs(v, i) is Some,
        !item_field_null(v, i, "preview"@),
    ensures
        match (spec_imgs(v, i), item_preview_urls(v, i)) {
            (Option::Some(imgs), Option::Some(cached)) => imgs.len() == cached.len()
                && forall|j: int|
                0 <= j < imgs.len() ==> #[trigger] imgs[j] == "https://i.redd.it"@ + path_or_empty(
                    url_path_of(cached[j]),
                ),
            _ => false,
        },
{
}

/// The concatenation of every page's posts, in page order.
pub open spec fn cat_posts(pages: Seq<Page>) -> Seq<Post>
    decreases pages.len(),
{
    if pages.len() == 0 {
        Seq::empty()
    } else {
        pages.first().posts@ + cat_posts(pages.drop_first())
    }
}

/// Law: on a script whose every page but the last carries a cursor and
/// whose last page reports the listing exhausted, the pagination walk
/// terminates with the concatenation of all pages' posts, in page order.
pub proof fn lemma_collect_concatenates(pages: Seq<Page>)
    requires
        pages.len() > 0,
        forall|i: int| 0 <= i < pages.len() - 1 ==> pages[i].after is Some,
        pages.last().after is None,
    ensures
        spec_collect(pages) == Some(cat_posts(pages)),
    decreases pages.len(),
{
    if pages.len() == 1 {
        assert(pages.first() == pages.last());
        assert(pages.drop_first() =~= Seq::<Page>::empty());
        assert(cat_posts(Seq::<Page>::empty()) == Seq::<Post>::empty());
        assert(cat_posts(pages) =~= pages.first().posts@ + Seq::<Post>::empty());
        assert(cat_posts(pages) =~= pages.first().posts@);
    } else {
        assert(pages.first() == pages[0]);
        assert(pages[0].after is Some);
        let tail = pages.drop_first();
        assert(tail.last() == pages.last());
        assert(forall|i: int| 0 <= i < tail.len() - 1 ==> #[trigger] tail[i].after is Some);
        lemma_collect_concatenates(tail);
    }
}

/// Appends one page's posts to the accumulator and hands back the cursor
/// that decides whether fetching continues.
pub fn apply_page(acc: &mut Vec<Post>, page: Page) -> (next: Option<String>)
    ensures
        final(acc)@ == old(acc)@ + page.posts@,
        next == page.after,
{
    let Page { mut posts, after } = page;
    acc.append(&mut posts);
    after
}

/// Walks a script of already-fetched pages exactly as the pagination loop
/// would: pages are taken in order, every page's posts are appended, and
/// the walk stops with the first page whose cursor is null. Yields `None`
/// where the script is exhausted before any terminal page.
pub fn collect_saved_pages(pages: Vec<Page>) -> (r: Option<SavedList>)
    ensures
        match r {
            Option::Some(sl) => spec_collect(pages@) == Some(sl.posts@),
            Option::None => spec_collect(pages@) is None,
        },
{
    let ghost all = pages@;
    let mut rest = pages;
    let mut acc: Vec<Post> = Vec::new();
    #[verifier::loop_isolation(false)]
    while rest.len() > 0
        invariant
            match spec_collect(rest@) {
                Option::Some(tail) => spec_collect(all) == Some(acc@ + tail),
                Option::None => spec_collect(all) is None,
            },
        decreases rest@.len(),
    {
        let ghost prev = rest@;
        let page = rest.remove(0);
        proof {
            assert(rest@ =~= prev.drop_first());
        }
        let ghost accv = acc@;
        let ghost pposts = page.posts@;
        let ghost pafter = page.after;
        let next = apply_page(&mut acc, page);
        if next.is_none() {
            proof {
                assert(prev.len() > 0);
                assert(prev.first().posts@ == pposts);
                assert(prev.first().after is None);
                assert(spec_collect(prev) == Some(pposts));
                assert(spec_collect(all) == Some(accv + pposts));
                assert(accv + pposts =~= acc@);
                assert(spec_collect(all) == Some(acc@));
            }
            return Option::Some(SavedList { posts: acc });
        }
        proof {
            assert(pafter is Some);
            match spec_collect(rest@) {
                Option::Some(tail) => {
                    assert(spec_collect(prev) == Some(pposts + tail));
                    assert(accv + (pposts + tail) =~= (accv + pposts) + tail);
                    assert(accv + pposts =~= acc@);
                },
                Option::None => {
                    assert(spec_collect(prev) is None);
                },
            }
        }
    }
    Option::None
}

} // verus!
