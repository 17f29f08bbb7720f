use ratmail::cli::{parse_from_addrs, extract_email, from_matches_filter, imap_error_context_label, spec_matches_attachments_cli, SearchSpec};
use ratmail::types::{AttachmentMeta, ImapErrorContext};
use ratmail::types::LinkInfo;
use ratmail::display::normalize_bracketed_labels;
use ratmail::util::{percent_decode, link_display_label, should_retry, should_show_to, text_preview_from_bytes, format_size, imap_date_from_parts, is_imap_bye, looks_like_email, placeholders, safe_filename, slugify_name, uid_set};

#[test]
fn from_filter_matches_name_or_email() {
    let raw = "Alice Example <alice@example.com>";
    assert!(from_matches_filter(raw, "alice"));
    assert!(from_matches_filter(raw, "example.com"));
    assert!(!from_matches_filter(raw, "bob"));
}

#[test]
fn attachment_filters_match_names_and_types() {
    let mut spec = SearchSpec::default();
    spec.attachment_name.push("invoice".to_string());
    spec.attachment_type.push("pdf".to_string());
    let attachments = vec![AttachmentMeta {
        filename: "invoice-2025.pdf".to_string(),
        mime: "application/pdf".to_string(),
        size: 1024,
    }];
    assert!(spec_matches_attachments_cli(&spec, &attachments));
}

#[test]
fn attachment_filters_fail_when_requirements_missing() {
    let mut spec = SearchSpec::default();
    spec.attachment_name.push("invoice".to_string());
    spec.attachment_type.push("pdf".to_string());
    let attachments = vec![AttachmentMeta {
        filename: "photo.jpg".to_string(),
        mime: "image/jpeg".to_string(),
        size: 10,
    }];
    assert!(!spec_matches_attachments_cli(&spec, &attachments));
}

#[test]
fn extract_email_prefers_angle_addr() {
    assert_eq!(extract_email("Alice Example <alice@example.com>"), "alice@example.com");
    assert_eq!(extract_email("bob@example.com"), "bob@example.com");
}

#[test]
fn imap_error_context_label_formats_fetch_body() {
    let label = imap_error_context_label(&ImapErrorContext::FetchBody {
        message_id: 42,
        folder_name: "INBOX".to_string(),
        uid: 99,
    });
    assert_eq!(label, "fetch-body id=42 folder=INBOX uid=99");
}

#[test]
fn imap_error_context_label_formats_move_messages() {
    let label = imap_error_context_label(&ImapErrorContext::MoveMessages {
        folder_name: "INBOX".to_string(),
        target_folder: "Archive".to_string(),
        count: 3,
    });
    assert_eq!(label, "move-messages INBOX -> Archive (3)");
}

#[test]
fn imap_error_context_label_formats_delete_messages() {
    let label = imap_error_context_label(&ImapErrorContext::DeleteMessages {
        folder_name: "Spam".to_string(),
        count: 2,
    });
    assert_eq!(label, "delete-messages Spam (2)");
}

#[test]
fn sender_filter_uses_parsed_group_addresses() {
    assert!(from_matches_filter("Team: ann@corp.example, bo@corp.example;", "BO@CORP"));
    assert!(!from_matches_filter("Team: ann@corp.example;", "zed"));
}

#[test]
fn type_filter_falls_back_to_extension() {
    let mut spec = SearchSpec::default();
    spec.attachment_type.push("zip".to_string());
    let attachments = vec![AttachmentMeta {
        filename: "Archive.ZIP".to_string(),
        mime: "application/octet-stream".to_string(),
        size: 5,
    }];
    assert!(spec_matches_attachments_cli(&spec, &attachments));
    assert!(spec.needs_attachments());
    assert!(spec.needs_raw());
}

#[test]
fn utility_formats() {
    assert_eq!(uid_set(&[3, 17, 4000]), "3,17,4000");
    assert_eq!(uid_set(&[]), "");
    assert!(is_imap_bye("IMAP: Bye Response from server"));
    assert!(!is_imap_bye("timeout"));
    assert_eq!(imap_date_from_parts(2025, 2, 7), "7-Feb-2025");
    assert_eq!(imap_date_from_parts(2025, 13, 1), "1-Jan-2025");
    assert_eq!(placeholders(3), "?, ?, ?");
    assert_eq!(placeholders(0), "");
    assert_eq!(slugify_name("  Work Mail!! "), "work-mail");
    assert_eq!(slugify_name("***"), "account");
    assert!(looks_like_email(" a@b.com "));
    assert!(!looks_like_email("a@b@c.com"));
    assert!(!looks_like_email("http://a@b.com"));
    assert_eq!(format_size(512), "512 B");
    assert_eq!(format_size(1536), "2 KB");
    assert_eq!(format_size(3 * 1024 * 1024), "3 MB");
    assert_eq!(safe_filename("/tmp/dir/report.pdf"), "report.pdf");
    assert_eq!(safe_filename("dir/"), "dir");
    assert_eq!(safe_filename(".."), "attachment");
}

#[test]
fn recipient_line_and_link_labels() {
    assert!(!should_show_to("  ", "me@x.com"));
    assert!(should_show_to("a@x.com, me@x.com", "Me <me@x.com>"));
    assert!(!should_show_to("ME@X.COM", "Me <me@x.com>"));
    assert!(should_show_to("other@x.com", "Me <me@x.com>"));
    let link = LinkInfo { url: "https://u".to_string(), text: None, from_html: true };
    assert_eq!(link_display_label(&link, Some(2)), "Image Link 3");
    assert_eq!(link_display_label(&link, None), "Image Link");
    let plain = LinkInfo { url: "https://u".to_string(), text: None, from_html: false };
    assert_eq!(link_display_label(&plain, Some(0)), "https://u");
    assert_eq!(normalize_bracketed_labels("[  a ] [b"), "[a] [b");
}

#[test]
fn retry_only_once_on_bye() {
    assert!(should_retry("Bye Response received", 0));
    assert!(!should_retry("Bye Response received", 1));
    assert!(!should_retry("login failed", 0));
}

#[test]
fn text_preview_rules() {
    assert_eq!(text_preview_from_bytes(b"a\0b", false), None);
    assert_eq!(text_preview_from_bytes(&[0xff, 0xfe], false), None);
    assert_eq!(text_preview_from_bytes(b"", false), Some("(empty file)".to_string()));
    assert_eq!(text_preview_from_bytes(b"one\r\ntwo", false), Some("one\ntwo\n".to_string()));
    assert_eq!(text_preview_from_bytes(b"one", true), Some("one\n...\n(truncated)\n".to_string()));
    let many: String = (0..250).map(|i| format!("{i}\n")).collect();
    let out = text_preview_from_bytes(many.as_bytes(), false).unwrap();
    assert_eq!(out.lines().count(), 202);
    assert!(out.ends_with("199\n...\n(truncated)\n"));
}

#[test]
fn from_addresses_come_from_the_address_parser() {
    assert_eq!(
        parse_from_addrs("A <a@x.com>, Team: b@y.com, c@z.com;"),
        vec!["a@x.com".to_string(), "b@y.com".to_string(), "c@z.com".to_string()]
    );
    assert_eq!(parse_from_addrs("not an address"), vec!["not an address".to_string()]);
    assert!(parse_from_addrs("   ").is_empty());
}

#[test]
fn percent_decoding_reads_escapes_and_plus() {
    assert_eq!(percent_decode("a%20b+c%2Fd"), "a b c/d");
    assert_eq!(percent_decode("100%"), "100%");
    assert_eq!(percent_decode("%zz"), "%zz");
    assert_eq!(percent_decode("%C3%A9"), "é");
}
