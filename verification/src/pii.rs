//! PII masking of note text before links are read from it: card numbers,
//! e-mail addresses, Japanese phone numbers and long hex blobs are replaced
//! by placeholders, in that order. The rules are regular expressions run by
//! the regex crate; what each replacement gives is named below.

use vstd::prelude::*;
use regex::Regex;
use crate::vault::{extract_wikilinks, links_from, string_views};

verus! {

#[verifier::external_type_specification]
#[verifier::external_body]
pub struct ExRegex(regex::Regex);

/// The text with every card-like run of 16 digits (optionally grouped by 4
/// with `-` or space) replaced by `<CARD>`.
pub uninterp spec fn cards_masked(text: Seq<char>) -> Seq<char>;

/// The text with every e-mail address replaced by `<EMAIL>`.
pub uninterp spec fn emails_masked(text: Seq<char>) -> Seq<char>;

/// The text with every Japanese phone number replaced by `<PHONE>`.
pub uninterp spec fn phones_masked(text: Seq<char>) -> Seq<char>;

/// The text with every hex blob of 32 or more digits replaced by `<HEX>`.
pub uninterp spec fn hex_masked(text: Seq<char>) -> Seq<char>;

/// The text after all four rules, applied in order.
pub open spec fn pii_masked(text: Seq<char>) -> Seq<char> {
    hex_masked(phones_masked(emails_masked(cards_masked(text))))
}

/// `Regex::new` of the card rule; the pattern is a valid constant, so the
/// `unwrap` never panics. Nothing is stated of the compiled value.
#[verifier::external_body]
fn card_rule() -> Regex {
    Regex::new(r"\b\d{4}[- ]?\d{4}[- ]?\d{4}[- ]?\d{4}\b").unwrap()
}

/// `Regex::new` of the e-mail rule (a valid constant pattern).
#[verifier::external_body]
fn email_rule() -> Regex {
    Regex::new(r"[A-Za-z0-9._%+-]+@[A-Za-z0-9.-]+\.[A-Za-z]{2,}").unwrap()
}

/// `Regex::new` of the phone rule (a valid constant pattern).
#[verifier::external_body]
fn phone_rule() -> Regex {
    Regex::new(r"\b0\d{1,4}-\d{1,4}-\d{3,4}\b|\b0\d{9,10}\b").unwrap()
}

/// `Regex::new` of the hex rule (a valid constant pattern).
#[verifier::external_body]
fn hex_rule() -> Regex {
    Regex::new(r"\b[0-9a-fA-F]{32,}\b").unwrap()
}

/// The four masking rules, compiled once.
pub struct PiiMasker {
    email: Regex,
    phone: Regex,
    card: Regex,
    hex: Regex,
}

impl PiiMasker {
    /// Compiles the four rules.
    pub fn new() -> Self {
        PiiMasker { email: email_rule(), phone: phone_rule(), card: card_rule(), hex: hex_rule() }
    }

    /// `Regex::replace_all` of the card rule with `<CARD>`; claimed: the
    /// result is `cards_masked` of the text (the field holds the card rule,
    /// as `new` alone builds a masker).
    #[verifier::external_body]
    fn mask_cards(&self, text: &str) -> (r: String)
        ensures
            r@ == cards_masked(text@),
    {
        self.card.replace_all(text, "<CARD>").into_owned()
    }

    /// `Regex::replace_all` of the e-mail rule with `<EMAIL>`; claimed: the
    /// result is `emails_masked` of the text.
    #[verifier::external_body]
    fn mask_emails(&self, text: &str) -> (r: String)
        ensures
            r@ == emails_masked(text@),
    {
        self.email.replace_all(text, "<EMAIL>").into_owned()
    }

    /// `Regex::replace_all` of the phone rule with `<PHONE>`; claimed: the
    /// result is `phones_masked` of the text.
    #[verifier::external_body]
    fn mask_phones(&self, text: &str) -> (r: String)
        ensures
            r@ == phones_masked(text@),
    {
        self.phone.replace_all(text, "<PHONE>").into_owned()
    }

    /// `Regex::replace_all` of the hex rule with `<HEX>`; claimed: the result
    /// is `hex_masked` of the text.
    #[verifier::external_body]
    fn mask_hex(&self, text: &str) -> (r: String)
        ensures
            r@ == hex_masked(text@),
    {
        self.hex.replace_all(text, "<HEX>").into_owned()
    }

    /// Masks cards, then e-mail addresses, then phone numbers, then hex
    /// blobs.
    pub fn mask(&self, text: &str) -> (r: String)
        ensures
            r@ == pii_masked(text@),
    {
        let t = self.mask_cards(text);
        let t = self.mask_emails(t.as_str());
        let t = self.mask_phones(t.as_str());
        self.mask_hex(t.as_str())
    }

    /// The wiki-link targets of a note, read from its masked text; `None`
    /// when the masked text is too long to scan (within two chars of
    /// `usize::MAX`).
    pub fn note_links(&self, content: &str) -> (links: Option<Vec<String>>)
        ensures
            match links {
                Some(l) => pii_masked(content@).len() < usize::MAX - 2 && string_views(l@) == links_from(
                    pii_masked(content@),
                    0,
                ),
                None => pii_masked(content@).len() >= usize::MAX - 2,
            },
    {
        let masked = self.mask(content);
        if masked.as_str().unicode_len() >= usize::MAX - 2 {
            return None;
        }
        Some(extract_wikilinks(masked.as_str()))
    }
}

impl Default for PiiMasker {
    /// The masker with the four rules, as `new` builds it.
    fn default() -> Self {
        PiiMasker::new()
    }
}

} // verus!
