//! Search-engine documents of a tenant: the XML sitemap and the news sitemap, the cache
//! file of a served path, and the sealing of service tokens.
use crate::chat::hex_text;
use crate::text::{format_i64, int_text};
use aes_gcm::aead::{Aead, KeyInit};
use md5::Digest;
use quick_xml::events::{BytesDecl, BytesEnd, BytesStart, BytesText, Event};
use rand::RngCore;
use quick_xml::Writer;
use vstd::prelude::*;
use vstd::utf8::*;

verus! {

#[verifier::external_type_specification]
#[verifier::external_body]
pub struct ExIoError(std::io::Error);

#[verifier::external_type_specification]
#[verifier::external_body]
pub struct ExFromUtf8Error(std::string::FromUtf8Error);

/// What an escaped character of text content (or, where `attribute`, of an attribute value)
/// reads: the markup characters and `\r` become entities, and in attribute values `\n` and
/// `\t` do too.
pub open spec fn escaped_char(c: char, attribute: bool) -> Seq<char> {
    if c == '<' {
        "&lt;"@
    } else if c == '>' {
        "&gt;"@
    } else if c == '&' {
        "&amp;"@
    } else if c == '\'' {
        "&apos;"@
    } else if c == '"' {
        "&quot;"@
    } else if c == '\r' {
        "&#13;"@
    } else if attribute && c == '\n' {
        "&#10;"@
    } else if attribute && c == '\t' {
        "&#9;"@
    } else {
        seq![c]
    }
}

/// The escaped form of `s`, character by character.
pub open spec fn escaped(s: Seq<char>, attribute: bool) -> Seq<char>
    decreases s.len(),
{
    if s.len() == 0 {
        seq![]
    } else {
        escaped(s.drop_last(), attribute) + escaped_char(s.last(), attribute)
    }
}

/// The attributes of a start tag: each as a space, its key, `="`, its escaped value and `"`.
pub open spec fn attributes_text(attributes: Seq<(Seq<char>, Seq<char>)>) -> Seq<char>
    decreases attributes.len(),
{
    if attributes.len() == 0 {
        seq![]
    } else {
        attributes_text(attributes.drop_last()) + " "@ + attributes.last().0 + "=\""@
            + escaped(attributes.last().1, true) + "\""@
    }
}

/// The XML declaration the documents start with.
pub open spec fn declaration() -> Seq<char> {
    "<?xml version=\"1.0\" encoding=\"UTF-8\"?>"@
}

/// A start tag with its attributes.
pub open spec fn start_tag(name: Seq<char>, attributes: Seq<(Seq<char>, Seq<char>)>) -> Seq<char> {
    "<"@ + name + attributes_text(attributes) + ">"@
}

/// An end tag.
pub open spec fn end_tag(name: Seq<char>) -> Seq<char> {
    "</"@ + name + ">"@
}

/// An element that holds only text.
pub open spec fn element(name: Seq<char>, text: Seq<char>) -> Seq<char> {
    start_tag(name, seq![]) + escaped(text, false) + end_tag(name)
}

/// The attribute pairs of `attributes` as text.
pub open spec fn pairs_view(attributes: Seq<(String, String)>) -> Seq<(Seq<char>, Seq<char>)> {
    attributes.map_values(|p: (String, String)| (p.0@, p.1@))
}

/// Encoding a concatenation encodes each part.
proof fn lemma_encode_concat(a: Seq<char>, b: Seq<char>)
    ensures
        encode_utf8(a + b) == encode_utf8(a) + encode_utf8(b),
    decreases a.len(),
{
    if a.len() > 0 {
        assert((a + b).drop_first() =~= a.drop_first() + b);
        lemma_encode_concat(a.drop_first(), b);
        assert(encode_utf8(a + b) =~= encode_utf8(a) + encode_utf8(b));
    } else {
        assert(a + b =~= b);
    }
}

/// Calls `quick_xml::Writer::write_event` with `BytesDecl::new("1.0", Some("UTF-8"), None)`
/// on a writer without indentation over `out`: the declaration
/// `<?xml version="1.0" encoding="UTF-8"?>` is appended. `write_event` fails only where the
/// underlying writer fails, and writing to a `Vec<u8>` appends to it, growing it as needed,
/// so the call succeeds.
#[verifier::external_body]
fn write_declaration(out: &mut Vec<u8>) -> (r: Result<(), std::io::Error>)
    ensures
        r is Ok,
        final(out)@ == old(out)@ + encode_utf8(declaration()),
{
    Writer::new(out).write_event(Event::Decl(BytesDecl::new("1.0", Some("UTF-8"), None)))
}

/// Calls `quick_xml::Writer::write_event` with `BytesStart::new(name)` and, through
/// `with_attributes`, the given attributes: `<`, the name, each attribute as ` key="value"`
/// with the value escaped, and `>` are appended. `write_event` fails only where the
/// underlying writer fails, and writing to a `Vec<u8>` appends to it, growing it as needed,
/// so the call succeeds.
#[verifier::external_body]
fn write_start(out: &mut Vec<u8>, name: &str, attributes: &Vec<(String, String)>) -> (r: Result<(), std::io::Error>)
    ensures
        r is Ok,
        final(out)@ == old(out)@ + encode_utf8(start_tag(name@, pairs_view(attributes@))),
{
    let tag = BytesStart::new(name).with_attributes(attributes.iter().map(|p| (p.0.as_str(), p.1.as_str())));
    Writer::new(out).write_event(Event::Start(tag))
}

/// Calls `quick_xml::Writer::write_event` with `BytesText::new(text)`: the text, escaped by
/// `quick_xml::escape::escape`, is appended. `write_event` fails only where the underlying
/// writer fails, and writing to a `Vec<u8>` appends to it, growing it as needed, so the call
/// succeeds.
#[verifier::external_body]
fn write_text(out: &mut Vec<u8>, text: &str) -> (r: Result<(), std::io::Error>)
    ensures
        r is Ok,
        final(out)@ == old(out)@ + encode_utf8(escaped(text@, false)),
{
    Writer::new(out).write_event(Event::Text(BytesText::new(text)))
}

/// Calls `quick_xml::Writer::write_event` with `BytesEnd::new(name)`: `</`, the name and `>`
/// are appended. `write_event` fails only where the underlying writer fails, and writing to a
/// `Vec<u8>` appends to it, growing it as needed, so the call succeeds.
#[verifier::external_body]
fn write_end(out: &mut Vec<u8>, name: &str) -> (r: Result<(), std::io::Error>)
    ensures
        r is Ok,
        final(out)@ == old(out)@ + encode_utf8(end_tag(name@)),
{
    Writer::new(out).write_event(Event::End(BytesEnd::new(name)))
}

/// Calls `String::from_utf8`, which accepts exactly the valid UTF-8 byte strings and keeps
/// their characters.
#[verifier::external_body]
fn string_from_utf8(bytes: Vec<u8>) -> (r: Result<String, std::string::FromUtf8Error>)
    ensures
        r is Ok <==> valid_utf8(bytes@),
        r matches Ok(s) ==> s@ == decode_utf8(bytes@),
{
    String::from_utf8(bytes)
}

/// Writes an element that holds only text; writing to a vector always succeeds.
fn write_element(out: &mut Vec<u8>, name: &str, text: &str) -> (r: Result<(), std::io::Error>)
    ensures
        r is Ok,
        final(out)@ == old(out)@ + encode_utf8(element(name@, text@)),
{
    let no_attributes: Vec<(String, String)> = Vec::new();
    write_start(out, name, &no_attributes)?;
    write_text(out, text)?;
    write_end(out, name)?;
    proof {
        assert(pairs_view(no_attributes@) =~= seq![]);
        lemma_encode_concat(start_tag(name@, seq![]), escaped(text@, false));
        lemma_encode_concat(start_tag(name@, seq![]) + escaped(text@, false), end_tag(name@));
        assert(old(out)@ + encode_utf8(start_tag(name@, seq![])) + encode_utf8(escaped(text@, false))
            + encode_utf8(end_tag(name@)) =~= old(out)@ + encode_utf8(element(name@, text@)));
    }
    Ok(())
}

/// A page of a tenant's sitemap.
pub struct Site {
    pub loc: String,
    pub freq: String,
    /// The priority as the text the sitemap carries.
    pub priority: String,
    /// When the page last changed, in seconds since the Unix epoch.
    pub lastmod: i64,
}

/// A news article of a tenant.
pub struct Article {
    pub title: String,
    pub loc: String,
    pub name: String,
    pub language: String,
    pub keywords: Option<String>,
    /// When the article was published, in seconds since the Unix epoch.
    pub published_at: i64,
}

/// Why a document could not be built.
#[derive(Debug, PartialEq, Eq)]
pub enum SeoError {
    /// The tenant has no page.
    EmptySitemap,
    /// A date lies outside the calendar that the date formatting covers.
    DateOutOfRange,
    /// The XML writer failed.
    Write,
    /// The written bytes are not UTF-8.
    Encoding,
}

/// The `YYYY-MM-DD` text of the UTC day that holds the instant `secs` seconds after the
/// Unix epoch.
pub uninterp spec fn calendar_date(secs: i64) -> Seq<char>;

/// Calls `chrono::DateTime::<Utc>::from_timestamp(secs, 0)` and formats the instant with
/// `%Y-%m-%d`: a function of `secs` alone (UTC, no locale). `chrono` refuses only instants
/// outside its calendar, which runs from the year 262143 BCE to the year 262142 CE; every
/// instant within 8 000 000 000 000 seconds of the epoch (about 253 500 years) lies inside
/// it and gives `Some`. Exactly where the calendar ends is not stated.
#[verifier::external_body]
pub(crate) fn utc_date_text(secs: i64) -> (r: Option<String>)
    ensures
        r matches Some(t) ==> t@ == calendar_date(secs),
        -8_000_000_000_000 <= secs <= 8_000_000_000_000 ==> r is Some,
{
    match chrono::DateTime::from_timestamp(secs, 0) {
        Some(instant) => Some(instant.format("%Y-%m-%d").to_string()),
        None => None,
    }
}

/// Whether the instant `secs` (seconds since the epoch) lies within 8 000 000 000 000
/// seconds of the epoch, where every instant has a calendar date.
pub open spec fn in_calendar(secs: i64) -> bool {
    -8_000_000_000_000 <= secs <= 8_000_000_000_000
}

/// Whether every page last changed on a calendar date.
pub open spec fn sites_in_calendar(sites: Seq<Site>) -> bool {
    forall|i: int| 0 <= i < sites.len() ==> in_calendar(#[trigger] sites[i].lastmod)
}

/// Whether every article was published on a calendar date.
pub open spec fn articles_in_calendar(articles: Seq<Article>) -> bool {
    forall|i: int| 0 <= i < articles.len() ==> in_calendar(#[trigger] articles[i].published_at)
}

/// The `<url>` entry of a page.
pub open spec fn site_url(site: Site) -> Seq<char> {
    start_tag("url"@, seq![]) + element("loc"@, site.loc@) + element("lastmod"@, calendar_date(site.lastmod))
        + element("changefreq"@, site.freq@) + element("priority"@, site.priority@) + end_tag("url"@)
}

/// The `<url>` entries of the pages, in order.
pub open spec fn site_urls(sites: Seq<Site>) -> Seq<char>
    decreases sites.len(),
{
    if sites.len() == 0 {
        seq![]
    } else {
        site_urls(sites.drop_last()) + site_url(sites.last())
    }
}

/// The namespace of sitemaps.
pub open spec fn sitemap_namespace() -> (Seq<char>, Seq<char>) {
    ("xmlns"@, "http://www.sitemaps.org/schemas/sitemap/0.9"@)
}

/// The sitemap of the pages: the declaration, then a `<urlset>` in the sitemap namespace
/// with one `<url>` per page.
pub open spec fn sitemap_document(sites: Seq<Site>) -> Seq<char> {
    declaration() + start_tag("urlset"@, seq![sitemap_namespace()]) + site_urls(sites) + end_tag("urlset"@)
}

/// Writes the `<url>` entry of a page.
fn write_site(out: &mut Vec<u8>, site: &Site) -> (r: Result<(), SeoError>)
    ensures
        r is Ok ==> final(out)@ == old(out)@ + encode_utf8(site_url(*site)),
        in_calendar(site.lastmod) ==> r is Ok,
        r is Err ==> r == Err::<(), SeoError>(SeoError::DateOutOfRange),
{
    let no_attributes: Vec<(String, String)> = Vec::new();
    let lastmod = match utc_date_text(site.lastmod) {
        Some(t) => t,
        None => return Err(SeoError::DateOutOfRange),
    };
    if write_start(out, "url", &no_attributes).is_err() {
        return Err(SeoError::Write);
    }
    let ghost after_start = out@;
    if write_element(out, "loc", site.loc.as_str()).is_err() {
        return Err(SeoError::Write);
    }
    let ghost after_loc = out@;
    if write_element(out, "lastmod", lastmod.as_str()).is_err() {
        return Err(SeoError::Write);
    }
    let ghost after_lastmod = out@;
    if write_element(out, "changefreq", site.freq.as_str()).is_err() {
        return Err(SeoError::Write);
    }
    let ghost after_freq = out@;
    if write_element(out, "priority", site.priority.as_str()).is_err() {
        return Err(SeoError::Write);
    }
    let ghost after_priority = out@;
    if write_end(out, "url").is_err() {
        return Err(SeoError::Write);
    }
    proof {
        assert(pairs_view(no_attributes@) =~= seq![]);
        let a = start_tag("url"@, seq![]);
        let b = element("loc"@, site.loc@);
        let c = element("lastmod"@, calendar_date(site.lastmod));
        let d = element("changefreq"@, site.freq@);
        let e = element("priority"@, site.priority@);
        let f = end_tag("url"@);
        lemma_encode_concat(a, b);
        lemma_encode_concat(a + b, c);
        lemma_encode_concat(a + b + c, d);
        lemma_encode_concat(a + b + c + d, e);
        lemma_encode_concat(a + b + c + d + e, f);
        assert(out@ =~= old(out)@ + encode_utf8(site_url(*site)));
    }
    Ok(())
}

/// Turns the written bytes into the document text.
fn into_text(out: Vec<u8>, Ghost(document): Ghost<Seq<char>>) -> (r: Result<String, SeoError>)
    requires
        out@ == encode_utf8(document),
    ensures
        r matches Ok(s) && s@ == document,
{
    proof {
        encode_utf8_valid_utf8(document);
        encode_utf8_decode_utf8(document);
    }
    match string_from_utf8(out) {
        Ok(s) => Ok(s),
        Err(_) => Err(SeoError::Encoding),
    }
}

/// The XML sitemap of a tenant's pages. A tenant without pages has no sitemap; otherwise
/// the document lists every page, in order, with its location, the day it last changed,
/// how often it changes and its priority.
pub fn sitemap_xml(sites: &Vec<Site>) -> (r: Result<String, SeoError>)
    ensures
        sites@.len() == 0 <==> r == Err::<String, SeoError>(SeoError::EmptySitemap),
        r matches Ok(s) ==> s@ == sitemap_document(sites@),
        sites@.len() > 0 && sites_in_calendar(sites@) ==> (r matches Ok(s) && s@ == sitemap_document(sites@)),
        r is Err && sites@.len() > 0 ==> r == Err::<String, SeoError>(SeoError::DateOutOfRange),
{
    if sites.len() == 0 {
        return Err(SeoError::EmptySitemap);
    }
    let mut out: Vec<u8> = Vec::new();
    if write_declaration(&mut out).is_err() {
        return Err(SeoError::Write);
    }
    let mut urlset: Vec<(String, String)> = Vec::new();
    urlset.push(("xmlns".to_owned(), "http://www.sitemaps.org/schemas/sitemap/0.9".to_owned()));
    if write_start(&mut out, "urlset", &urlset).is_err() {
        return Err(SeoError::Write);
    }
    let ghost head = declaration() + start_tag("urlset"@, seq![sitemap_namespace()]);
    proof {
        assert(pairs_view(urlset@) =~= seq![sitemap_namespace()]);
        lemma_encode_concat(declaration(), start_tag("urlset"@, seq![sitemap_namespace()]));
        assert(sites@.take(0) =~= Seq::<Site>::empty());
        assert(head + site_urls(sites@.take(0)) =~= head);
    }
    let mut i: usize = 0;
    while i < sites.len()
        invariant
            0 < sites@.len(),
            i <= sites@.len(),
            out@ == encode_utf8(head + site_urls(sites@.take(i as int))),
        decreases sites@.len() - i,
    {
        let ghost before = out@;
        match write_site(&mut out, &sites[i]) {
            Ok(()) => {},
            Err(e) => {
                proof {
                    assert(!in_calendar(sites@[i as int].lastmod));
                }
                return Err(e);
            },
        }
        proof {
            assert(sites@.take(i + 1).drop_last() =~= sites@.take(i as int));
            lemma_encode_concat(head + site_urls(sites@.take(i as int)), site_url(sites@[i as int]));
            assert(head + site_urls(sites@.take(i + 1)) =~= head + site_urls(sites@.take(i as int)) + site_url(sites@[i as int]));
        }
        i = i + 1;
    }
    if write_end(&mut out, "urlset").is_err() {
        return Err(SeoError::Write);
    }
    proof {
        assert(sites@.take(i as int) =~= sites@);
        lemma_encode_concat(head + site_urls(sites@), end_tag("urlset"@));
        assert(head + site_urls(sites@) + end_tag("urlset"@) =~= sitemap_document(sites@));
    }
    into_text(out, Ghost(sitemap_document(sites@)))
}

/// The `<url>` entry of an article: its location and its `<news>` block with the
/// publication's name and language, the publication day, the title and, where there are
/// any, the keywords.
pub open spec fn article_url(article: Article) -> Seq<char> {
    start_tag("url"@, seq![]) + element("loc"@, article.loc@) + start_tag("news"@, seq![])
        + start_tag("publication"@, seq![]) + element("name"@, article.name@)
        + element("language"@, article.language@) + end_tag("publication"@)
        + element("publication_date"@, calendar_date(article.published_at))
        + element("title"@, article.title@) + keywords_element(article.keywords) + end_tag("news"@)
        + end_tag("url"@)
}

/// The `<keywords>` element of an article that has keywords; nothing otherwise.
pub open spec fn keywords_element(keywords: Option<String>) -> Seq<char> {
    match keywords {
        Some(k) => element("keywords"@, k@),
        None => seq![],
    }
}

/// The `<url>` entries of the articles, in order.
pub open spec fn article_urls(articles: Seq<Article>) -> Seq<char>
    decreases articles.len(),
{
    if articles.len() == 0 {
        seq![]
    } else {
        article_urls(articles.drop_last()) + article_url(articles.last())
    }
}

/// The namespace of news sitemaps.
pub open spec fn news_namespace() -> (Seq<char>, Seq<char>) {
    ("xmlns:news"@, "http://www.google.com/schemas/sitemap-news/0.9"@)
}

/// The news sitemap of the articles: the declaration, then a `<urlset>` in the sitemap and
/// news namespaces with one `<url>` per article.
pub open spec fn news_document(articles: Seq<Article>) -> Seq<char> {
    declaration() + start_tag("urlset"@, seq![sitemap_namespace(), news_namespace()])
        + article_urls(articles) + end_tag("urlset"@)
}

/// The news sitemap of a tenant without articles: an empty `<urlset>` in both namespaces.
pub open spec fn empty_news_document() -> Seq<char> {
    "<?xml version=\"1.0\" encoding=\"UTF-8\"?><urlset xmlns=\"http://www.sitemaps.org/schemas/sitemap/0.9\" xmlns:news=\"http://www.google.com/schemas/sitemap-news/0.9\" />"@
}

/// Writes `name` as a start tag without attributes, mapping a failure.
fn open_tag(out: &mut Vec<u8>, name: &str) -> (r: Result<(), SeoError>)
    ensures
        r is Ok,
        final(out)@ == old(out)@ + encode_utf8(start_tag(name@, seq![])),
{
    let no_attributes: Vec<(String, String)> = Vec::new();
    proof {
        assert(pairs_view(no_attributes@) =~= seq![]);
    }
    match write_start(out, name, &no_attributes) {
        Ok(()) => Ok(()),
        Err(_) => Err(SeoError::Write),
    }
}

/// Writes `name` as an end tag, mapping a failure.
fn close_tag(out: &mut Vec<u8>, name: &str) -> (r: Result<(), SeoError>)
    ensures
        r is Ok,
        final(out)@ == old(out)@ + encode_utf8(end_tag(name@)),
{
    match write_end(out, name) {
        Ok(()) => Ok(()),
        Err(_) => Err(SeoError::Write),
    }
}

/// Writes a text element, mapping a failure.
fn text_element(out: &mut Vec<u8>, name: &str, text: &str) -> (r: Result<(), SeoError>)
    ensures
        r is Ok,
        final(out)@ == old(out)@ + encode_utf8(element(name@, text@)),
{
    match write_element(out, name, text) {
        Ok(()) => Ok(()),
        Err(_) => Err(SeoError::Write),
    }
}

/// Appending the encoding of one more part extends the encoding of what was written.
proof fn lemma_append_part(start: Seq<u8>, written: Seq<char>, part: Seq<char>)
    ensures
        start + encode_utf8(written) + encode_utf8(part) == start + encode_utf8(written + part),
{
    lemma_encode_concat(written, part);
    assert(start + encode_utf8(written) + encode_utf8(part) =~= start + encode_utf8(written + part));
}

/// Writes the `<publication>` block of an article.
fn write_publication(out: &mut Vec<u8>, article: &Article) -> (r: Result<(), SeoError>)
    ensures
        r is Ok,
        final(out)@ == old(out)@ + encode_utf8(start_tag("publication"@, seq![])
            + element("name"@, article.name@) + element("language"@, article.language@)
            + end_tag("publication"@)),
{
    let ghost start = out@;
    open_tag(out, "publication")?;
    let ghost mut written = start_tag("publication"@, seq![]);
    assert(out@ =~= start + encode_utf8(written));
    text_element(out, "name", article.name.as_str())?;
    proof {
        lemma_append_part(start, written, element("name"@, article.name@));
        written = written + element("name"@, article.name@);
    }
    text_element(out, "language", article.language.as_str())?;
    proof {
        lemma_append_part(start, written, element("language"@, article.language@));
        written = written + element("language"@, article.language@);
    }
    close_tag(out, "publication")?;
    proof {
        lemma_append_part(start, written, end_tag("publication"@));
    }
    Ok(())
}

/// Writes the `<url>` entry of an article.
fn write_article(out: &mut Vec<u8>, article: &Article) -> (r: Result<(), SeoError>)
    ensures
        r is Ok ==> final(out)@ == old(out)@ + encode_utf8(article_url(*article)),
        in_calendar(article.published_at) ==> r is Ok,
        r is Err ==> r == Err::<(), SeoError>(SeoError::DateOutOfRange),
{
    let published = match utc_date_text(article.published_at) {
        Some(t) => t,
        None => return Err(SeoError::DateOutOfRange),
    };
    let ghost start = out@;
    open_tag(out, "url")?;
    let ghost mut written = start_tag("url"@, seq![]);
    assert(out@ =~= start + encode_utf8(written));
    text_element(out, "loc", article.loc.as_str())?;
    proof {
        lemma_append_part(start, written, element("loc"@, article.loc@));
        written = written + element("loc"@, article.loc@);
    }
    open_tag(out, "news")?;
    proof {
        lemma_append_part(start, written, start_tag("news"@, seq![]));
        written = written + start_tag("news"@, seq![]);
    }
    let ghost publication = start_tag("publication"@, seq![]) + element("name"@, article.name@)
        + element("language"@, article.language@) + end_tag("publication"@);
    write_publication(out, article)?;
    proof {
        lemma_append_part(start, written, publication);
        written = written + publication;
    }
    text_element(out, "publication_date", published.as_str())?;
    proof {
        lemma_append_part(start, written, element("publication_date"@, calendar_date(article.published_at)));
        written = written + element("publication_date"@, calendar_date(article.published_at));
    }
    text_element(out, "title", article.title.as_str())?;
    proof {
        lemma_append_part(start, written, element("title"@, article.title@));
        written = written + element("title"@, article.title@);
    }
    match &article.keywords {
        Some(k) => {
            text_element(out, "keywords", k.as_str())?;
        },
        None => {
            assert(encode_utf8(keywords_element(article.keywords)) =~= Seq::<u8>::empty());
            assert(out@ =~= start + encode_utf8(written) + encode_utf8(keywords_element(article.keywords)));
        },
    }
    proof {
        lemma_append_part(start, written, keywords_element(article.keywords));
        written = written + keywords_element(article.keywords);
    }
    close_tag(out, "news")?;
    proof {
        lemma_append_part(start, written, end_tag("news"@));
        written = written + end_tag("news"@);
    }
    close_tag(out, "url")?;
    proof {
        lemma_append_part(start, written, end_tag("url"@));
        written = written + end_tag("url"@);
        assert(written =~= article_url(*article));
    }
    Ok(())
}

/// The news sitemap of a tenant's articles. A tenant without articles gets an empty
/// `<urlset>`; otherwise the document lists every article, in order.
pub fn news_xml(articles: &Vec<Article>) -> (r: Result<String, SeoError>)
    ensures
        articles@.len() == 0 ==> (r matches Ok(s) && s@ == empty_news_document()),
        articles@.len() > 0 ==> (r matches Ok(s) ==> s@ == news_document(articles@)),
        articles@.len() > 0 && articles_in_calendar(articles@) ==> (r matches Ok(s) && s@ == news_document(articles@)),
        r is Err ==> r == Err::<String, SeoError>(SeoError::DateOutOfRange),
{
    if articles.len() == 0 {
        return Ok("<?xml version=\"1.0\" encoding=\"UTF-8\"?><urlset xmlns=\"http://www.sitemaps.org/schemas/sitemap/0.9\" xmlns:news=\"http://www.google.com/schemas/sitemap-news/0.9\" />".to_owned());
    }
    let mut out: Vec<u8> = Vec::new();
    if write_declaration(&mut out).is_err() {
        return Err(SeoError::Write);
    }
    let mut urlset: Vec<(String, String)> = Vec::new();
    urlset.push(("xmlns".to_owned(), "http://www.sitemaps.org/schemas/sitemap/0.9".to_owned()));
    urlset.push(("xmlns:news".to_owned(), "http://www.google.com/schemas/sitemap-news/0.9".to_owned()));
    if write_start(&mut out, "urlset", &urlset).is_err() {
        return Err(SeoError::Write);
    }
    let ghost head = declaration() + start_tag("urlset"@, seq![sitemap_namespace(), news_namespace()]);
    proof {
        assert(pairs_view(urlset@) =~= seq![sitemap_namespace(), news_namespace()]);
        lemma_encode_concat(declaration(), start_tag("urlset"@, seq![sitemap_namespace(), news_namespace()]));
        assert(articles@.take(0) =~= Seq::<Article>::empty());
        assert(head + article_urls(articles@.take(0)) =~= head);
    }
    let mut i: usize = 0;
    while i < articles.len()
        invariant
            0 < articles@.len(),
            i <= articles@.len(),
            out@ == encode_utf8(head + article_urls(articles@.take(i as int))),
        decreases articles@.len() - i,
    {
        match write_article(&mut out, &articles[i]) {
            Ok(()) => {},
            Err(e) => {
                proof {
                    assert(!in_calendar(articles@[i as int].published_at));
                }
                return Err(e);
            },
        }
        proof {
            assert(articles@.take(i + 1).drop_last() =~= articles@.take(i as int));
            lemma_encode_concat(head + article_urls(articles@.take(i as int)), article_url(articles@[i as int]));
            assert(head + article_urls(articles@.take(i + 1)) =~= head + article_urls(articles@.take(i as int))
                + article_url(articles@[i as int]));
        }
        i = i + 1;
    }
    close_tag(&mut out, "urlset")?;
    proof {
        assert(articles@.take(i as int) =~= articles@);
        lemma_encode_concat(head + article_urls(articles@), end_tag("urlset"@));
        assert(head + article_urls(articles@) + end_tag("urlset"@) =~= news_document(articles@));
    }
    match into_text(out, Ghost(news_document(articles@))) {
        Ok(s) => Ok(s),
        Err(_) => Err(SeoError::Write),
    }
}

/// The MD5 digest of `data`.
pub uninterp spec fn md5_digest(data: Seq<u8>) -> Seq<u8>;

/// Calls `md5::Md5::digest` and formats the digest with `{:x}`, which writes each of its
/// sixteen bytes as two lowercase hexadecimal digits, the high half first.
#[verifier::external_body]
fn md5_hex(data: &[u8]) -> (r: String)
    ensures
        r@ == hex_text(md5_digest(data@)),
        r@.len() == 32,
{
    format!("{:x}", md5::Md5::digest(data))
}

/// The cache key of a served path: the host followed by the path, with a `/` put between
/// them when the path does not start with one.
pub open spec fn cache_key(host: Seq<char>, path: Seq<char>) -> Seq<char> {
    if path.len() > 0 && path[0] == '/' {
        host + path
    } else {
        host + "/"@ + path
    }
}

/// Where the reverse proxy caches a served path: under `/var/cache/nginx`, in the directory
/// named by the last hexadecimal digit of the key's MD5 digest and the subdirectory named by
/// the two digits before it, the file named by the whole digest.
pub open spec fn cache_file(host: Seq<char>, path: Seq<char>) -> Seq<char> {
    let hash = hex_text(md5_digest(encode_utf8(cache_key(host, path))));
    "/var/cache/nginx/"@ + hash.subrange(31, 32) + "/"@ + hash.subrange(29, 31) + "/"@ + hash
}

/// The file in which the reverse proxy caches `path` of `host`, which a purge removes.
pub fn cache_file_path(host: &str, path: &str) -> (r: String)
    ensures
        r@ == cache_file(host@, path@),
{
    let mut key = String::new();
    key.append(host);
    let starts_with_slash = path.unicode_len() > 0 && path.get_char(0) == '/';
    if !starts_with_slash {
        key.append("/");
    }
    key.append(path);
    proof {
        reveal_strlit("/");
        assert(key@ =~= cache_key(host@, path@));
    }
    let hash = md5_hex(key.as_str().as_bytes());
    let mut file = String::new();
    file.append("/var/cache/nginx/");
    file.append(hash.as_str().substring_char(31, 32));
    file.append("/");
    file.append(hash.as_str().substring_char(29, 31));
    file.append("/");
    file.append(hash.as_str());
    file
}

#[verifier::external_type_specification]
#[verifier::external_body]
pub struct ExAeadError(aes_gcm::Error);

/// What AES-256-GCM seals `plain` into under `key` and `nonce`, without associated data:
/// the ciphertext followed by the tag.
pub uninterp spec fn aes_gcm_sealed(key: Seq<u8>, nonce: Seq<u8>, plain: Seq<u8>) -> Seq<u8>;

/// What AES-256-GCM opens `sealed` into under `key` and `nonce`, without associated data;
/// `None` where it refuses.
pub uninterp spec fn aes_gcm_opened(key: Seq<u8>, nonce: Seq<u8>, sealed: Seq<u8>) -> Option<Seq<u8>>;

/// The longest plaintext that AES-GCM seals.
pub open spec fn aes_gcm_plain_max() -> int {
    0x10_0000_0000
}

/// Calls `aes_gcm::Aes256Gcm::new` on `Key::from_slice(key)` (which takes exactly 32 bytes)
/// and `Aead::encrypt` with `Nonce::from_slice(nonce)` (exactly 12 bytes). As the source
/// shows, sealing fails only for a plaintext longer than `P_MAX` (2^36 bytes); the sealed
/// bytes are a function of key, nonce and plaintext, and opening them with the same key and
/// nonce gives the plaintext back.
#[verifier::external_body]
fn aes_gcm_encrypt(key: &[u8], nonce: &[u8], plain: &[u8]) -> (r: Result<Vec<u8>, aes_gcm::Error>)
    requires
        key@.len() == 32,
        nonce@.len() == 12,
    ensures
        r is Ok <==> plain@.len() <= aes_gcm_plain_max(),
        r matches Ok(c) ==> c@ == aes_gcm_sealed(key@, nonce@, plain@) && aes_gcm_opened(key@, nonce@, c@)
            == Some(plain@),
{
    let cipher = aes_gcm::Aes256Gcm::new(aes_gcm::Key::<aes_gcm::Aes256Gcm>::from_slice(key));
    cipher.encrypt(aes_gcm::Nonce::from_slice(nonce), plain)
}

/// Calls `aes_gcm::Aes256Gcm::new` on `Key::from_slice(key)` and `Aead::decrypt` with
/// `Nonce::from_slice(nonce)`: a function of key, nonce and sealed bytes.
#[verifier::external_body]
fn aes_gcm_decrypt(key: &[u8], nonce: &[u8], sealed: &[u8]) -> (r: Result<Vec<u8>, aes_gcm::Error>)
    requires
        key@.len() == 32,
        nonce@.len() == 12,
    ensures
        r matches Ok(p) ==> aes_gcm_opened(key@, nonce@, sealed@) == Some(p@),
        r is Err ==> aes_gcm_opened(key@, nonce@, sealed@) is None,
{
    let cipher = aes_gcm::Aes256Gcm::new(aes_gcm::Key::<aes_gcm::Aes256Gcm>::from_slice(key));
    cipher.decrypt(aes_gcm::Nonce::from_slice(nonce), sealed)
}

/// Calls `rand::RngCore::fill_bytes` on twelve zero bytes: twelve random bytes. Which they
/// are is left open.
#[verifier::external_body]
fn random_nonce(rng: &mut rand::rngs::ThreadRng) -> (r: Vec<u8>)
    ensures
        r@.len() == 12,
{
    let mut nonce = [0u8; 12];
    rng.fill_bytes(&mut nonce);
    nonce.to_vec()
}

/// Why a service token could not be sealed or opened.
#[derive(Debug, PartialEq, Eq)]
pub enum TokenError {
    /// The token is longer than AES-GCM seals.
    TooLong,
    /// The stored bytes are shorter than a nonce.
    TooShort,
    /// The stored bytes do not open under the master key.
    Decrypt,
    /// The opened bytes are not UTF-8 text.
    NotUtf8,
}

/// The stored form of a token sealed under `key` with `nonce`: the nonce followed by the
/// sealed UTF-8 bytes of the token.
pub open spec fn sealed_token(key: Seq<u8>, nonce: Seq<u8>, token: Seq<char>) -> Seq<u8> {
    nonce + aes_gcm_sealed(key, nonce, encode_utf8(token))
}

/// What opening the stored bytes under `key` gives: the first twelve bytes are the nonce,
/// the rest is opened with it, and the result must be UTF-8 text.
pub open spec fn opened_token(key: Seq<u8>, stored: Seq<u8>) -> Result<Seq<char>, TokenError> {
    if stored.len() < 12 {
        Err(TokenError::TooShort)
    } else {
        match aes_gcm_opened(key, stored.take(12), stored.skip(12)) {
            None => Err(TokenError::Decrypt),
            Some(p) => if valid_utf8(p) {
                Ok(decode_utf8(p))
            } else {
                Err(TokenError::NotUtf8)
            },
        }
    }
}

/// Seals a service token under the 32-byte master key with the given 12-byte nonce. The
/// stored bytes open back into the token.
pub fn seal_token_with(master_key: &str, nonce: &[u8], token: &str) -> (r: Result<Vec<u8>, TokenError>)
    requires
        encode_utf8(master_key@).len() == 32,
        nonce@.len() == 12,
    ensures
        r is Ok <==> encode_utf8(token@).len() <= aes_gcm_plain_max(),
        r is Err ==> r == Err::<Vec<u8>, TokenError>(TokenError::TooLong),
        r matches Ok(stored) ==> stored@ == sealed_token(encode_utf8(master_key@), nonce@, token@)
            && opened_token(encode_utf8(master_key@), stored@) == Ok::<Seq<char>, TokenError>(token@),
{
    let key = master_key.as_bytes();
    let plain = token.as_bytes();
    match aes_gcm_encrypt(key, nonce, plain) {
        Ok(sealed) => {
            let mut stored: Vec<u8> = Vec::new();
            let mut i: usize = 0;
            while i < nonce.len()
                invariant
                    i <= nonce@.len(),
                    stored@ == nonce@.take(i as int),
                decreases nonce@.len() - i,
            {
                stored.push(nonce[i]);
                proof {
                    assert(nonce@.take(i + 1) =~= nonce@.take(i as int).push(nonce@[i as int]));
                }
                i = i + 1;
            }
            let mut j: usize = 0;
            while j < sealed.len()
                invariant
                    j <= sealed@.len(),
                    stored@ == nonce@ + sealed@.take(j as int),
                decreases sealed@.len() - j,
            {
                stored.push(sealed[j]);
                proof {
                    assert(sealed@.take(j + 1) =~= sealed@.take(j as int).push(sealed@[j as int]));
                }
                j = j + 1;
            }
            proof {
                assert(nonce@.take(12) =~= nonce@);
                assert(sealed@.take(j as int) =~= sealed@);
                assert(stored@.take(12) =~= nonce@);
                assert(stored@.skip(12) =~= sealed@);
                encode_utf8_valid_utf8(token@);
                encode_utf8_decode_utf8(token@);
            }
            Ok(stored)
        },
        Err(_) => Err(TokenError::TooLong),
    }
}

/// Seals a service token under the 32-byte master key with a fresh random nonce. The stored
/// bytes open back into the token, whichever nonce was drawn.
pub fn seal_token(master_key: &str, token: &str) -> (r: Result<Vec<u8>, TokenError>)
    requires
        encode_utf8(master_key@).len() == 32,
    ensures
        r is Ok <==> encode_utf8(token@).len() <= aes_gcm_plain_max(),
        r is Err ==> r == Err::<Vec<u8>, TokenError>(TokenError::TooLong),
        r matches Ok(stored) ==> stored@.len() >= 12 && stored@ == sealed_token(encode_utf8(master_key@),
            stored@.take(12), token@) && opened_token(encode_utf8(master_key@), stored@)
            == Ok::<Seq<char>, TokenError>(token@),
{
    let mut rng = crate::simulator::thread_rng();
    let nonce = random_nonce(&mut rng);
    let r = seal_token_with(master_key, nonce.as_slice(), token);
    proof {
        if r is Ok {
            assert(r->Ok_0@.take(12) =~= nonce@);
        }
    }
    r
}

/// Opens the stored bytes of a service token under the 32-byte master key.
pub fn open_token(master_key: &str, stored: &[u8]) -> (r: Result<String, TokenError>)
    requires
        encode_utf8(master_key@).len() == 32,
    ensures
        r is Ok <==> opened_token(encode_utf8(master_key@), stored@) is Ok,
        r matches Ok(s) ==> opened_token(encode_utf8(master_key@), stored@) == Ok::<Seq<char>, TokenError>(s@),
        r matches Err(e) ==> opened_token(encode_utf8(master_key@), stored@) == Err::<Seq<char>, TokenError>(e),
{
    if stored.len() < 12 {
        return Err(TokenError::TooShort);
    }
    let (nonce, sealed) = stored.split_at(12);
    proof {
        assert(nonce@ =~= stored@.take(12));
        assert(sealed@ =~= stored@.skip(12));
    }
    match aes_gcm_decrypt(master_key.as_bytes(), nonce, sealed) {
        Ok(plain) => match string_from_utf8(plain) {
            Ok(s) => Ok(s),
            Err(_) => Err(TokenError::NotUtf8),
        },
        Err(_) => Err(TokenError::Decrypt),
    }
}

/// What a published file is.
#[derive(Clone, Copy, Debug, PartialEq, Eq, Structural)]
pub enum Published {
    Sitemap,
    News,
}

/// Where a published file is stored: under the tenant, in `sitemaps` or `news`, by its name
/// (`untitled.xml` for a sitemap and `news.xml` for news when the upload has none).
pub open spec fn published_path(tenant_id: i64, kind: Published, file_name: Option<Seq<char>>) -> Seq<char> {
    let folder = match kind {
        Published::Sitemap => "/sitemaps/"@,
        Published::News => "/news/"@,
    };
    let name = match file_name {
        Some(n) => n,
        None => match kind {
            Published::Sitemap => "untitled.xml"@,
            Published::News => "news.xml"@,
        },
    };
    int_text(tenant_id as int) + folder + name
}

/// The storage key of a published file.
pub fn published_key(tenant_id: i64, kind: Published, file_name: Option<&str>) -> (r: String)
    ensures
        r@ == published_path(tenant_id, kind, match file_name {
            Some(n) => Some(n@),
            None => None,
        }),
{
    let mut key = format_i64(tenant_id);
    match kind {
        Published::Sitemap => key.append("/sitemaps/"),
        Published::News => key.append("/news/"),
    }
    let name = match file_name {
        Some(n) => n,
        None => match kind {
            Published::Sitemap => "untitled.xml",
            Published::News => "news.xml",
        },
    };
    key.append(name);
    key
}

} // verus!
