use vnscope::seo::{
    cache_file_path, news_xml, open_token, seal_token, seal_token_with, sitemap_xml, Article, SeoError, Site,
    TokenError,
};

const HEAD: &str = "<?xml version=\"1.0\" encoding=\"UTF-8\"?>";

fn site(loc: &str, lastmod: i64) -> Site {
    Site { loc: loc.to_string(), freq: "daily".to_string(), priority: "0.8".to_string(), lastmod }
}

#[test]
fn sitemap_of_no_page_is_refused() {
    assert_eq!(sitemap_xml(&vec![]), Err(SeoError::EmptySitemap));
}

#[test]
fn sitemap_lists_pages_in_order() {
    let xml = sitemap_xml(&vec![site("https://a.vn/", 1700000000), site("https://a.vn/b", 0)]).unwrap();
    let expected = format!(
        "{HEAD}<urlset xmlns=\"http://www.sitemaps.org/schemas/sitemap/0.9\">\
         <url><loc>https://a.vn/</loc><lastmod>2023-11-14</lastmod><changefreq>daily</changefreq><priority>0.8</priority></url>\
         <url><loc>https://a.vn/b</loc><lastmod>1970-01-01</lastmod><changefreq>daily</changefreq><priority>0.8</priority></url>\
         </urlset>"
    );
    assert_eq!(xml, expected);
}

#[test]
fn sitemap_escapes_text() {
    let xml = sitemap_xml(&vec![site("https://a.vn/x?a=1&b=<2>'\"", -1)]).unwrap();
    assert!(xml.contains("<loc>https://a.vn/x?a=1&amp;b=&lt;2&gt;&apos;&quot;</loc>"));
    assert!(xml.contains("<lastmod>1969-12-31</lastmod>"));
}

fn article(keywords: Option<&str>) -> Article {
    Article {
        title: "Gold & silver".to_string(),
        loc: "https://a.vn/news/1".to_string(),
        name: "A News".to_string(),
        language: "vi".to_string(),
        keywords: keywords.map(|k| k.to_string()),
        published_at: 1700000000,
    }
}

#[test]
fn news_of_no_article_is_an_empty_urlset() {
    let xml = news_xml(&vec![]).unwrap();
    assert_eq!(
        xml,
        format!(
            "{HEAD}<urlset xmlns=\"http://www.sitemaps.org/schemas/sitemap/0.9\" \
             xmlns:news=\"http://www.google.com/schemas/sitemap-news/0.9\" />"
        )
    );
}

#[test]
fn news_lists_articles_with_optional_keywords() {
    let xml = news_xml(&vec![article(Some("gold")), article(None)]).unwrap();
    let entry = |keywords: &str| {
        format!(
            "<url><loc>https://a.vn/news/1</loc><news><publication><name>A News</name><language>vi</language>\
             </publication><publication_date>2023-11-14</publication_date><title>Gold &amp; silver</title>{keywords}\
             </news></url>"
        )
    };
    let expected = format!(
        "{HEAD}<urlset xmlns=\"http://www.sitemaps.org/schemas/sitemap/0.9\" \
         xmlns:news=\"http://www.google.com/schemas/sitemap-news/0.9\">{}{}</urlset>",
        entry("<keywords>gold</keywords>"),
        entry("")
    );
    assert_eq!(xml, expected);
}

#[test]
fn cache_file_of_a_path() {
    assert_eq!(
        cache_file_path("example.com", "a/b.png"),
        "/var/cache/nginx/5/3a/c56d24c687cc5cfc1fcac904944d73a5"
    );
    // A leading slash is not doubled.
    assert_eq!(cache_file_path("example.com", "/a/b.png"), cache_file_path("example.com", "a/b.png"));
    assert_eq!(
        cache_file_path("example.com", "x"),
        "/var/cache/nginx/e/7c/e2ca4ab5f2059e26a693456df323a7ce"
    );
}

const KEY: &str = "0123456789abcdef0123456789abcdef";

#[test]
fn sealed_token_is_nonce_then_aes_gcm() {
    let stored = seal_token_with(KEY, b"abcdefghijkl", "secret-token").unwrap();
    let mut expected = b"abcdefghijkl".to_vec();
    expected.extend_from_slice(&[
        26, 169, 170, 205, 174, 145, 64, 167, 12, 119, 151, 127, 87, 254, 222, 200, 132, 47, 232, 16, 210, 0, 141,
        125, 43, 225, 56, 80,
    ]);
    assert_eq!(stored, expected);
    assert_eq!(open_token(KEY, &stored), Ok("secret-token".to_string()));
}

#[test]
fn sealed_token_opens_back() {
    let stored = seal_token(KEY, "tok\u{e9}n").unwrap();
    assert_eq!(stored.len(), 12 + "tok\u{e9}n".len() + 16);
    assert_eq!(open_token(KEY, &stored), Ok("tok\u{e9}n".to_string()));
    // Two seals draw different nonces.
    let again = seal_token(KEY, "tok\u{e9}n").unwrap();
    assert_ne!(stored[..12], again[..12]);
}

#[test]
fn token_open_errors() {
    assert_eq!(open_token(KEY, &[1, 2, 3]), Err(TokenError::TooShort));
    let mut stored = seal_token(KEY, "secret").unwrap();
    let n = stored.len();
    stored[n - 1] ^= 1;
    assert_eq!(open_token(KEY, &stored), Err(TokenError::Decrypt));
    let other = "fedcba9876543210fedcba9876543210";
    let stored = seal_token(KEY, "secret").unwrap();
    assert_eq!(open_token(other, &stored), Err(TokenError::Decrypt));
}

#[test]
fn token_that_is_not_text_is_refused() {
    let mut stored = b"abcdefghijkl".to_vec();
    // The AES-256-GCM sealing of the bytes 0xff 0xfe under KEY and this nonce.
    stored.extend_from_slice(&[150, 50, 178, 175, 128, 17, 195, 16, 50, 198, 211, 220, 84, 84, 67, 207, 162, 123]);
    assert_eq!(open_token(KEY, &stored), Err(TokenError::NotUtf8));
}

use vnscope::seo::{published_key, Published};

#[test]
fn published_file_keys() {
    assert_eq!(published_key(42, Published::Sitemap, Some("a.xml")), "42/sitemaps/a.xml");
    assert_eq!(published_key(42, Published::Sitemap, None), "42/sitemaps/untitled.xml");
    assert_eq!(published_key(-3, Published::News, None), "-3/news/news.xml");
}

#[test]
fn dates_beyond_the_calendar_are_refused() {
    assert_eq!(sitemap_xml(&vec![site("https://a.vn/", i64::MAX)]), Err(SeoError::DateOutOfRange));
    assert!(sitemap_xml(&vec![site("https://a.vn/", 8_000_000_000_000)]).is_ok());
}
