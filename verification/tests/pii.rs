use cgb_kdf::pii::PiiMasker;

#[test]
fn pii_masker_emails() {
    let m = PiiMasker::new();
    let out = m.mask("contact: user@example.com for more");
    assert!(out.contains("<EMAIL>"));
    assert!(!out.contains("user@example.com"));
}

#[test]
fn pii_masker_phone_jp() {
    let m = PiiMasker::new();
    let out = m.mask("Call 03-1234-5678 now");
    assert!(out.contains("<PHONE>"));
}

#[test]
fn pii_masker_card() {
    let m = PiiMasker::new();
    let out = m.mask("Card 4111-1111-1111-1111 expires");
    assert!(out.contains("<CARD>"));
}

#[test]
fn pii_masker_hex_blob() {
    let m = PiiMasker::new();
    let out = m.mask("sha256 = abcdef0123456789abcdef0123456789abcd");
    assert!(out.contains("<HEX>"));
}

#[test]
fn masking_order_and_plain_text() {
    let m = PiiMasker::new();
    assert_eq!(m.mask("nothing to hide"), "nothing to hide");
    // the card rule runs first, so a 16-digit run is a card, not a phone
    assert_eq!(m.mask("0123456789012345"), "<CARD>");
    assert_eq!(m.mask("a@b.co 09012345678"), "<EMAIL> <PHONE>");
}

#[test]
fn links_are_read_from_masked_text() {
    let m = PiiMasker::new();
    let links = m.note_links("See [[Alpha]] and [[mail me at x@y.org|alias]]").unwrap();
    assert_eq!(links, vec!["Alpha".to_string(), "mail me at <EMAIL>".to_string()]);
}
