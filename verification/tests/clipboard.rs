use kyde::clipboard::{dest_for, file_url_to_path, percent_decode, read_files};

#[test]
fn decodes_local_file_urls() {
    assert_eq!(
        file_url_to_path("file:///Users/kyle/My%20File.txt"),
        Some("/Users/kyle/My File.txt".to_string())
    );
    // Host segment (rare) is skipped; path starts at the first slash after it.
    assert_eq!(
        file_url_to_path("file://localhost/tmp/a.rs"),
        Some("/tmp/a.rs".to_string())
    );
    assert_eq!(file_url_to_path("https://example.com"), None);
}

#[test]
fn address_without_a_path_keeps_the_host() {
    assert_eq!(file_url_to_path("file://host"), Some("host".to_string()));
    assert_eq!(file_url_to_path("file://"), Some(String::new()));
}

#[test]
fn escapes_are_decoded_and_others_kept() {
    assert_eq!(percent_decode("%c3%A9"), "é");
    assert_eq!(percent_decode("100%"), "100%");
    assert_eq!(percent_decode("%2"), "%2");
    assert_eq!(percent_decode("%zz"), "%zz");
    assert_eq!(percent_decode("a%2Fb"), "a/b");
    // A byte that is no UTF-8 by itself.
    assert_eq!(percent_decode("%ff"), "\u{fffd}");
}

#[test]
fn plain_text_stays_as_it_is_when_decoded() {
    assert_eq!(percent_decode("naïve/path.txt"), "naïve/path.txt");
}

#[test]
fn clipboard_keeps_only_files() {
    let urls = vec![
        "file:///a/b.txt".to_string(),
        "https://example.com/x".to_string(),
        "file:///c%20d".to_string(),
    ];
    assert_eq!(read_files(&urls), vec!["/a/b.txt".to_string(), "/c d".to_string()]);
    assert_eq!(read_files(&Vec::new()), Vec::<String>::new());
}

#[test]
fn copies_keep_their_file_name() {
    assert_eq!(dest_for("/a/b.txt", "/dst"), Some("/dst/b.txt".to_string()));
    assert_eq!(dest_for("/a/b/", "/dst/"), Some("/dst/b".to_string()));
    assert_eq!(dest_for("/", "/dst"), None);
    assert_eq!(dest_for("/a/..", "/dst"), None);
}

#[test]
fn decoding_undoes_encoding() {
    let text = "50% of é/ü [x]~";
    let upper: String = text.bytes().map(|b| format!("%{b:02X}")).collect();
    let lower: String = text.bytes().map(|b| format!("%{b:02x}")).collect();
    assert_eq!(percent_decode(&upper), text);
    assert_eq!(percent_decode(&lower), text);
    // Only what has to be written as an escape.
    assert_eq!(percent_decode(&text.replace('%', "%25")), text);
    assert_eq!(
        file_url_to_path(&format!("file:///{upper}")),
        Some(format!("/{text}"))
    );
}
