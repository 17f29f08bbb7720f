use ratmail::links::extract_href_links_with_text;
use ratmail::links::{best_link_text, extract_attr_value, link_label_for_text};
use ratmail::types::LinkInfo;
use ratmail::links::extract_links;
use ratmail::display::{display_from_parts, normalize_bracketed_urls, normalize_display_text};
use ratmail::render::{ProtocolCache, accepts_render_event, derived_theme_key, tile_spans};
use ratmail::content::{
    block_remote_assets, block_remote_css_urls, cid_data_url, inline_cid_images, is_horizontal_rule,
    normalize_link_text, prepare_html_from_parts, strip_html_tags,
};

fn count(hay: &str, needle: &str) -> usize {
    hay.matches(needle).count()
}

#[test]
fn remote_block_rewrites_both_sites() {
    let html = "<body><img src=\"https://a/b.png\"><div style=\"background: url(https://c/d.png)\"></div></body>";
    let prepared = prepare_html_from_parts(html, &[], false);
    assert_eq!(count(&prepared.html, "ratmail-blocked://remote"), 2);
    assert_eq!(prepared.blocked_remote, 2);
    assert!(!prepared.html.contains("https://"));
}

#[test]
fn allowed_remote_keeps_html() {
    let html = "<img src=\"https://a/b.png\">";
    let prepared = prepare_html_from_parts(html, &[], true);
    assert_eq!(prepared.html, html);
    assert_eq!(prepared.blocked_remote, 0);
}

#[test]
fn css_pass_keeps_local_references() {
    let (out, n) = block_remote_css_urls(&"a url( 'cid:x' ) b url(http://h/i) c".chars().collect::<Vec<char>>());
    let out: String = out.into_iter().collect();
    assert_eq!(out, "a url( 'cid:x' ) b url(\"ratmail-blocked://remote\") c");
    assert_eq!(n, 1);
    let (all, m) = block_remote_assets("<img src='http://x/y'>");
    assert_eq!(all, "<img src='ratmail-blocked://remote'>");
    let (bg, n) = block_remote_assets("<td background=\"https://x/y.png\">");
    assert_eq!(bg, "<td background=\"ratmail-blocked://remote\">");
    assert_eq!(n, 1);
    assert_eq!(m, 1);
}

#[test]
fn cid_images_are_inlined() {
    let url = cid_data_url("image/png", &[1, 2, 3]);
    assert_eq!(url, "data:image/png;base64,AQID");
    let out = inline_cid_images("<img src=\"cid:logo\"><img src='cid:logo'>", &[("logo".to_string(), url.clone())]);
    assert_eq!(out, format!("<img src=\"{url}\"><img src='{url}'>"));
}

#[test]
fn link_text_and_rules() {
    assert_eq!(strip_html_tags("<b>Hi</b> <i>there</i>"), "Hi there");
    assert_eq!(normalize_link_text("  <span>Read\n  more</span> "), Some("Read more".to_string()));
    assert_eq!(normalize_link_text("<img src=x>"), None);
    assert!(is_horizontal_rule(" - - - "));
    assert!(is_horizontal_rule("───"));
    assert!(!is_horizontal_rule("--"));
    assert!(!is_horizontal_rule("-a-"));
}

#[test]
fn anchors_give_urls_and_best_text() {
    let html = "<p><A HREF=\"https://a.example/x\">Read <b>more</b></a> <a href='https://b.example' aria-label='Bee'><img src=x></a> <a href=https://c.example>C</a></p>";
    let pairs = extract_href_links_with_text(html);
    assert_eq!(
        pairs,
        vec![
            ("https://a.example/x".to_string(), "Read more".to_string()),
            ("https://b.example".to_string(), "Bee".to_string()),
            ("https://c.example".to_string(), "C".to_string()),
        ]
    );
}

#[test]
fn attribute_values_and_labels() {
    assert_eq!(extract_attr_value("<img ALT= \" Logo \">", "alt"), Some("Logo".to_string()));
    assert_eq!(extract_attr_value("<img alt = \"Logo\">", "alt"), None);
    assert_eq!(extract_attr_value("<img alt=logo>", "alt"), None);
    assert_eq!(extract_attr_value("<img alt=''>", "alt"), None);
    assert_eq!(best_link_text("<a title='T'>", "<img alt='A'>"), "T");
    assert_eq!(best_link_text("<a>", "<img alt='A'>"), "A");
    let links = vec![
        LinkInfo { url: "u1".to_string(), text: Some("One".to_string()), from_html: true },
        LinkInfo { url: "u2".to_string(), text: None, from_html: true },
        LinkInfo { url: "u3".to_string(), text: None, from_html: false },
    ];
    assert_eq!(link_label_for_text(&links, 0), Some("One".to_string()));
    assert_eq!(link_label_for_text(&links, 1), Some("Image Link 2".to_string()));
    assert_eq!(link_label_for_text(&links, 2), None);
    assert_eq!(link_label_for_text(&links, 3), None);
}

#[test]
fn links_merge_html_then_text() {
    let html = "<a href=\"https://x.example/a\"></a><a href=\"https://x.example/a\">Alpha</a>";
    let links = extract_links("see https://x.example/a and https://y.example/b", Some(html));
    assert_eq!(links.len(), 2);
    assert_eq!(links[0].url, "https://x.example/a");
    assert_eq!(links[0].text, Some("Alpha".to_string()));
    assert!(links[0].from_html);
    assert_eq!(links[1].url, "https://y.example/b");
    assert_eq!(links[1].text, None);
    assert!(!links[1].from_html);
}

#[test]
fn display_text_is_tidied_and_labelled() {
    assert_eq!(normalize_display_text("a\r\n\r\n\r\nb\r-----\n[ x ]"), "a\n\nb\n[x]");
    assert_eq!(normalize_bracketed_urls("go [\nhttps://z.example ] [a\nb] [open"), "go [https://z.example] [ab] [open");
    let text = "Hello &amp; welcome\nDocs [https://d.example/x]\n";
    let html = "<a href=\"https://d.example/x\">Docs</a>";
    let first = display_from_parts(text, Some(html));
    let second = display_from_parts(text, Some(html));
    assert_eq!(first.text, "Hello & welcome\n[Docs]\n");
    assert_eq!(first.text, second.text);
    assert_eq!(first.links, second.links);
}

#[test]
fn tiles_cover_the_page() {
    assert_eq!(tile_spans(250, 100, None), vec![(0, 100), (100, 100), (200, 50)]);
    assert_eq!(tile_spans(250, 100, Some(2)), vec![(0, 100), (100, 100)]);
    assert_eq!(tile_spans(0, 100, None), vec![]);
    assert_eq!(derived_theme_key("dark"), "dark:bgv2");
    assert!(accepts_render_event(Some(4), 800, 120, 4, 800, 120));
    assert!(!accepts_render_event(Some(4), 800, 120, 5, 800, 120));
    assert!(!accepts_render_event(None, 800, 120, 4, 800, 120));
}

#[test]
fn protocol_cache_keeps_sixteen_most_recent() {
    let mut cache = ProtocolCache::new();
    for i in 0..20 {
        cache.touch((1, i));
    }
    assert_eq!(cache.keys.len(), 16);
    assert_eq!(cache.keys[0], (1, 19));
    assert!(!cache.contains((1, 3)));
    assert!(cache.contains((1, 4)));
    cache.touch((1, 4));
    assert_eq!(cache.keys[0], (1, 4));
    assert_eq!(cache.keys.len(), 16);
    cache.purge();
    assert!(cache.keys.is_empty());
}
