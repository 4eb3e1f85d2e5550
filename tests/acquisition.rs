use shred_sort::acquire::{file_name, links_from_csv};
use shred_sort::layout::{columns, piece, PIECES_PER_IMAGE};

#[test]
fn links_are_first_fields_after_header() {
    let text = "code,note\nhttps://a.org/x/one.png,first\nhttps://a.org/y/two.png,second\n";
    assert_eq!(
        links_from_csv(text),
        Some(vec!["https://a.org/x/one.png".to_string(), "https://a.org/y/two.png".to_string()])
    );
}

#[test]
fn header_only_sheet_has_no_links() {
    assert_eq!(links_from_csv("code\n"), Some(vec![]));
}

#[test]
fn ragged_sheet_is_rejected() {
    assert_eq!(links_from_csv("a,b\n1,2\n3\n"), None);
}

#[test]
fn file_name_is_last_path_segment() {
    assert_eq!(file_name("https://example.com/strips/abc123.png"), Some("abc123.png".to_string()));
    assert_eq!(file_name("https://example.com/strips/a.png?x=1"), Some("a.png".to_string()));
}

#[test]
fn file_name_rejects_unusable_links() {
    assert_eq!(file_name("https://example.com/strips/"), None);
    assert_eq!(file_name("not a link"), None);
    assert_eq!(file_name("mailto:someone@example.com"), None);
}

#[test]
fn chains_are_laid_out_with_gaps() {
    let chains = vec![vec![4, 2], vec![], vec![7, 1, 0]];
    let (width, cols) = columns(&chains).unwrap();
    assert_eq!(width, 3 + 5);
    assert_eq!(cols, vec![vec![0, 1], vec![], vec![4, 5, 6]]);
}

#[test]
fn no_chains_no_columns() {
    assert_eq!(columns(&vec![]), Some((0, vec![])));
}

#[test]
fn pieces_are_spaced_bands() {
    assert_eq!(PIECES_PER_IMAGE, 5);
    let first = piece(0);
    assert_eq!((first.x, first.y, first.width, first.height), (200, 103, 10, 10330));
    assert_eq!((first.out_width, first.out_height), (10, 1033));
    assert_eq!(piece(4).x, 1040);
}
