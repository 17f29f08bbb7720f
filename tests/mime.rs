use ratmail::imap::{format_date_display, sort_by_date_desc, fetch_chunks, imap_search_query, search_window_of, sort_uids_desc, summary_from_headers, uses_implicit_tls};
use ratmail::mime::{collect_cid_map, MailPart, extract_attachment_data, extract_attachments, extract_display, prepare_html, ContentError};
use ratmail::types::{ImapMessageSummary, SyncMode};
use ratmail::cli::{send_recipients, RecipientError};

const MULTI: &str = "From: a@x.com\r\nSubject: T\r\nMIME-Version: 1.0\r\nContent-Type: multipart/mixed; boundary=\"b1\"\r\n\r\n--b1\r\nContent-Type: multipart/alternative; boundary=\"b2\"\r\n\r\n--b2\r\nContent-Type: text/plain; charset=utf-8\r\n\r\nHello plain https://p.example/x\r\n--b2\r\nContent-Type: text/html; charset=utf-8\r\n\r\n<p>Hi <img src=\"cid:logo\"><img src=\"https://r.example/i.png\"></p>\r\n--b2--\r\n--b1\r\nContent-Type: image/png\r\nContent-ID: <logo>\r\nContent-Transfer-Encoding: base64\r\n\r\nAQID\r\n--b1\r\nContent-Type: application/pdf; name=\"inv.pdf\"\r\nContent-Disposition: attachment; filename=\"invoice.pdf\"\r\nContent-Transfer-Encoding: base64\r\n\r\nAAECAwQ=\r\n--b1--\r\n";

#[test]
fn search_queries_follow_the_mode() {
    assert_eq!(imap_search_query(&SyncMode::Incremental { last_seen_uid: 41 }, (2026, 1, 1), (2026, 1, 2)), "UID 42:*");
    assert_eq!(imap_search_query(&SyncMode::Initial { days: 30 }, (2026, 1, 5), (2026, 2, 4)), "SINCE 5-Jan-2026");
    assert_eq!(
        imap_search_query(&SyncMode::Backfill { before_ts: 0, window_days: 7 }, (2025, 12, 1), (2025, 12, 8)),
        "SINCE 1-Dec-2025 BEFORE 8-Dec-2025"
    );
    assert_eq!(search_window_of(&SyncMode::Initial { days: 2 }, 1_000_000), (1_000_000 - 172_800, 1_000_000));
    assert_eq!(search_window_of(&SyncMode::Backfill { before_ts: 500_000, window_days: 1 }, 9), (413_600, 500_000));
    assert!(uses_implicit_tls(465));
    assert!(!uses_implicit_tls(587));
}

#[test]
fn fetch_chunks_go_highest_first() {
    assert_eq!(sort_uids_desc(&[3, 9, 1, 9]), vec![9, 9, 3, 1]);
    assert_eq!(fetch_chunks(&[5, 1, 7, 3, 2], 2), vec!["7,5".to_string(), "3,2".to_string(), "1".to_string()]);
    assert_eq!(fetch_chunks(&[5, 1], 0), vec!["5".to_string(), "1".to_string()]);
    assert!(fetch_chunks(&[], 10).is_empty());
}

#[test]
fn summaries_come_from_headers() {
    let s = summary_from_headers(7, None, "Mon, 05 Jan 2026".to_string(), None, false);
    assert_eq!(s.subject, "(no subject)");
    assert_eq!(s.preview, "(no subject)");
    assert!(s.unread);
    assert_eq!(s.from, "");
    let t = summary_from_headers(8, Some("Hi".to_string()), String::new(), Some("a@x.com".to_string()), true);
    assert_eq!((t.subject.as_str(), t.preview.as_str(), t.unread, t.uid), ("Hi", "Hi", false, 8));
}

#[test]
fn display_prefers_plain_text_and_collects_links() {
    let d = extract_display(MULTI.as_bytes(), 80).unwrap();
    assert!(d.text.starts_with("Hello plain"));
    assert!(d.links.iter().any(|l| l.url == "https://p.example/x" && !l.from_html));
    let html_only = "Content-Type: text/html\r\n\r\n<p>Read <a href=\"https://d.example\">docs</a></p>";
    let d = extract_display(html_only.as_bytes(), 80).unwrap();
    assert!(d.links.iter().any(|l| l.url == "https://d.example" && l.text.as_deref() == Some("docs")));
    let empty = "Content-Type: multipart/mixed; boundary=\"z\"\r\n\r\n--z\r\nContent-Type: image/png\r\n\r\nxx\r\n--z--\r\n";
    assert_eq!(extract_display(empty.as_bytes(), 80).unwrap_err(), ContentError::NoDisplayableBody);
}

#[test]
fn attachments_are_listed_and_read() {
    let list = extract_attachments(MULTI.as_bytes()).unwrap();
    assert_eq!(list.len(), 1);
    assert_eq!(list[0].filename, "invoice.pdf");
    assert_eq!(list[0].mime, "application/pdf");
    assert_eq!(list[0].size, 5);
    let data = extract_attachment_data(MULTI.as_bytes(), 0).unwrap().unwrap();
    assert_eq!(data.data, vec![0, 1, 2, 3, 4]);
    assert!(extract_attachment_data(MULTI.as_bytes(), 1).unwrap().is_none());
}

#[test]
fn prepared_html_inlines_and_blocks() {
    let p = prepare_html(MULTI.as_bytes(), false).unwrap().unwrap();
    assert!(p.html.contains("ratmail-blocked://remote"));
    assert!(!p.html.contains("https://r.example"));
    assert_eq!(p.blocked_remote, 1);
    let plain = "Content-Type: text/plain\r\n\r\nno html";
    assert!(prepare_html(plain.as_bytes(), false).unwrap().is_none());
}

#[test]
fn content_ids_map_to_data_urls() {
    let part = MailPart {
        subpart_count: 0,
        mimetype: "IMAGE/PNG".to_string(),
        attachment: false,
        filename: None,
        name_param: None,
        content_id: Some(" <logo@x> ".to_string()),
        body: None,
        raw: Some(vec![1, 2, 3]),
    };
    let map = collect_cid_map(&vec![part]);
    assert_eq!(map, vec![("logo@x".to_string(), "data:image/png;base64,AQID".to_string())]);
}

#[test]
fn dates_are_shown_with_padded_days() {
    assert_eq!(format_date_display("  Sat, 7   Feb 2026 10:00:00 +0000 "), "Sat, 07 Feb 2026 10:00:00 +0000");
    assert_eq!(format_date_display("Sat, 007 Feb 2026 10:00:00 +0000"), "Sat, 07 Feb 2026 10:00:00 +0000");
    assert_eq!(format_date_display(" not a date "), "not a date");
    assert_eq!(format_date_display("7 Feb 2026 10:00:00 +0000"), "7 Feb 2026 10:00:00 +0000");
}

#[test]
fn fetched_summaries_sort_newest_first() {
    let m = |uid: u32, date: &str| ImapMessageSummary {
        uid,
        date: date.to_string(),
        from: String::new(),
        subject: String::new(),
        unread: false,
        preview: String::new(),
    };
    let list = vec![
        m(1, "Mon, 05 Jan 2026 10:00:00 +0000"),
        m(2, "bad"),
        m(3, "Wed, 07 Jan 2026 10:00:00 +0000"),
        m(4, "also bad"),
    ];
    let uids: Vec<u32> = sort_by_date_desc(&list).iter().map(|s| s.uid).collect();
    assert_eq!(uids, vec![3, 1, 2, 4]);
}

#[test]
fn recipients_are_parsed_and_required() {
    let (to, cc, bcc) = send_recipients("A <a@x.com>", " ", "b@y.com").unwrap();
    assert_eq!(to, vec!["a@x.com".to_string()]);
    assert!(cc.is_empty());
    assert_eq!(bcc, vec!["b@y.com".to_string()]);
    assert_eq!(send_recipients("", "  ", "").unwrap_err(), RecipientError::NoRecipients);
    assert_eq!(send_recipients("not an address", "", "").unwrap_err(), RecipientError::InvalidAddress);
}
