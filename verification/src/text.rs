//! Text keys: link targets, stable note hashes and label names.

use vstd::prelude::*;
use vstd::string::*;
use crate::labels::{label_name, NodeLabel};

verus! {

/// What `str::to_lowercase` gives for a string: the Unicode lower-case
/// mapping of each char, with the context rules that std applies.
pub uninterp spec fn lowercase(s: Seq<char>) -> Seq<char>;

/// What `DefaultHasher::new()` gives after hashing the string and finishing.
pub uninterp spec fn default_hash(s: Seq<char>) -> u64;

/// The chars that Unicode's White_Space property names; `str::trim` removes these.
pub open spec fn is_white_space(c: char) -> bool {
    let x = c as u32;
    (0x9 <= x && x <= 0xd) || x == 0x20 || x == 0x85 || x == 0xa0 || x == 0x1680 || (0x2000 <= x
        && x <= 0x200a) || x == 0x2028 || x == 0x2029 || x == 0x202f || x == 0x205f || x == 0x3000
}

/// `s` without its leading white space.
pub open spec fn trim_start_spec(s: Seq<char>) -> Seq<char>
    decreases s.len(),
{
    if s.len() > 0 && is_white_space(s[0]) {
        trim_start_spec(s.drop_first())
    } else {
        s
    }
}

/// `s` without its trailing white space.
pub open spec fn trim_end_spec(s: Seq<char>) -> Seq<char>
    decreases s.len(),
{
    if s.len() > 0 && is_white_space(s.last()) {
        trim_end_spec(s.drop_last())
    } else {
        s
    }
}

/// `s` without leading and trailing white space.
pub open spec fn trim_spec(s: Seq<char>) -> Seq<char> {
    trim_end_spec(trim_start_spec(s))
}

/// `s` with every trailing repetition of `pat` removed.
pub open spec fn strip_suffixes(s: Seq<char>, pat: Seq<char>) -> Seq<char>
    decreases s.len(),
{
    if pat.len() > 0 && s.len() >= pat.len() && s.subrange(s.len() - pat.len(), s.len() as int)
        == pat {
        strip_suffixes(s.subrange(0, s.len() - pat.len()), pat)
    } else {
        s
    }
}

/// Whether every char is a lower-case ASCII letter or `_`.
pub open spec fn is_plain_lower(s: Seq<char>) -> bool {
    forall|i: int| 0 <= i < s.len() ==> ('a' <= #[trigger] s[i] <= 'z' || s[i] == '_')
}

/// `str::to_lowercase`; claimed: the result is `lowercase` of the argument,
/// and a string of lower-case ASCII letters and `_` comes back unchanged
/// (these chars are their own lower case).
#[verifier::external_body]
fn lowercase_of(s: &str) -> (r: String)
    ensures
        r@ == lowercase(s@),
        is_plain_lower(s@) ==> r@ == s@,
{
    s.to_lowercase()
}

/// `str::trim`; claimed: leading and trailing chars with the White_Space
/// property are removed, as std documents.
#[verifier::external_body]
fn trim_of(s: &str) -> (r: &str)
    ensures
        r@ == trim_spec(s@),
{
    s.trim()
}

/// `str::trim_end_matches` with a string pattern; claimed: every trailing
/// repetition of the pattern is removed, as std documents.
#[verifier::external_body]
fn trim_end_matches_of<'a>(s: &'a str, pat: &str) -> (r: &'a str)
    requires
        pat@.len() > 0,
    ensures
        r@ == strip_suffixes(s@, pat@),
{
    s.trim_end_matches(pat)
}

/// `BuildHasher::hash_one` with the default hasher (a fresh `DefaultHasher`
/// hashing the string); claimed: the result is `default_hash` of the string
/// (such a hasher always starts from the same state).
#[verifier::external_body]
fn default_hash_of(s: &str) -> (h: u64)
    ensures
        h == default_hash(s@),
{
    std::hash::BuildHasher::hash_one(
        &std::hash::BuildHasherDefault::<std::collections::hash_map::DefaultHasher>::default(),
        s,
    )
}

/// `str::chars` collected; claimed: the chars of the string, in order.
#[verifier::external_body]
pub(crate) fn chars_of(s: &str) -> (v: Vec<char>)
    ensures
        v@ == s@,
{
    s.chars().collect()
}

/// A run of chars collected into a string; claimed: the string holds exactly
/// those chars.
#[verifier::external_body]
pub(crate) fn string_of(v: &Vec<char>, from: usize, to: usize) -> (r: String)
    requires
        from <= to <= v.len(),
    ensures
        r@ == v@.subrange(from as int, to as int),
{
    v[from..to].iter().collect()
}

/// The canonical key of a wiki-link target: lower case, then trailing
/// `.md` removed (in any case, since the target is lower-cased first), then
/// surrounding white space removed.
pub open spec fn link_key(s: Seq<char>) -> Seq<char> {
    trim_spec(strip_suffixes(lowercase(s), seq!['.', 'm', 'd']))
}

/// Normalizes a wiki-link target: link targets are case-insensitive and may
/// omit the `.md` extension.
pub fn normalize_link_target(s: &str) -> (r: String)
    ensures
        r@ == link_key(s@),
{
    let md = ".md";
    proof {
        reveal_strlit(".md");
    }
    assert(md@ == seq!['.', 'm', 'd']);
    let lower = lowercase_of(s);
    let base = trim_end_matches_of(lower.as_str(), md);
    String::from_str(trim_of(base))
}

/// Removes leading and trailing white space.
pub fn trim_str(s: &str) -> (r: String)
    ensures
        r@ == trim_spec(s@),
{
    String::from_str(trim_of(s))
}

/// Lower-cases a string (the key under which notes are registered).
pub fn to_lower(s: &str) -> (r: String)
    ensures
        r@ == lowercase(s@),
{
    lowercase_of(s)
}

/// Seed for a node's pseudo-random generator: the std default hash of its id.
pub fn hash_to_seed(s: &str) -> (h: u64)
    ensures
        h == default_hash(s@),
{
    default_hash_of(s)
}

pub const FNV_OFFSET: u64 = 0xcbf29ce484222325;

pub const FNV_PRIME: u64 = 0x100000001b3;

/// One FNV-1a step.
pub open spec fn fnv_step(h: u64, b: u8) -> u64 {
    (h ^ (b as u64)).wrapping_mul(FNV_PRIME)
}

/// FNV-1a (64 bit) of a byte string.
pub open spec fn fnv1a(bytes: Seq<u8>) -> u64
    decreases bytes.len(),
{
    if bytes.len() == 0 {
        FNV_OFFSET
    } else {
        fnv_step(fnv1a(bytes.drop_last()), bytes.last())
    }
}

/// The two halves of a 64-bit hash folded into 32 bits.
pub open spec fn fold32(h: u64) -> u32 {
    (h as u32) ^ ((h >> 32u64) as u32)
}

/// The lower-case hex digit for `d < 16`.
pub open spec fn hex_char(d: int) -> char {
    if d < 10 {
        (('0' as int) + d) as char
    } else {
        (('a' as int) + d - 10) as char
    }
}

/// `x` as eight lower-case hex digits, most significant first.
pub open spec fn hex8(x: u32) -> Seq<char> {
    seq![
        hex_char((x / 0x1000_0000) as int % 16),
        hex_char((x / 0x100_0000) as int % 16),
        hex_char((x / 0x10_0000) as int % 16),
        hex_char((x / 0x1_0000) as int % 16),
        hex_char((x / 0x1000) as int % 16),
        hex_char((x / 0x100) as int % 16),
        hex_char((x / 0x10) as int % 16),
        hex_char(x as int % 16),
    ]
}

/// The one-char string of a hex digit.
fn hex_digit(d: u32) -> (s: &'static str)
    requires
        d < 16,
    ensures
        s@ == seq![hex_char(d as int)],
{
    let s = match d {
        0 => "0",
        1 => "1",
        2 => "2",
        3 => "3",
        4 => "4",
        5 => "5",
        6 => "6",
        7 => "7",
        8 => "8",
        9 => "9",
        10 => "a",
        11 => "b",
        12 => "c",
        13 => "d",
        14 => "e",
        _ => "f",
    };
    proof {
        reveal_strlit("0");
        reveal_strlit("1");
        reveal_strlit("2");
        reveal_strlit("3");
        reveal_strlit("4");
        reveal_strlit("5");
        reveal_strlit("6");
        reveal_strlit("7");
        reveal_strlit("8");
        reveal_strlit("9");
        reveal_strlit("a");
        reveal_strlit("b");
        reveal_strlit("c");
        reveal_strlit("d");
        reveal_strlit("e");
        reveal_strlit("f");
    }
    assert(s@ =~= seq![hex_char(d as int)]);
    s
}

/// A stable eight-hex-digit hash of a string: FNV-1a over its UTF-8 bytes,
/// the two 32-bit halves folded by xor.
pub fn stable_hash_hex8(s: &str) -> (r: String)
    ensures
        r@ == hex8(fold32(fnv1a(s.spec_bytes()))),
{
    let bytes = s.as_bytes();
    let mut h: u64 = FNV_OFFSET;
    let mut i: usize = 0;
    while i < bytes.len()
        invariant
            i <= bytes.len(),
            bytes@ == s.spec_bytes(),
            h == fnv1a(bytes@.take(i as int)),
        decreases bytes.len() - i,
    {
        assert(bytes@.take(i + 1).drop_last() =~= bytes@.take(i as int));
        h = (h ^ (bytes[i] as u64)).wrapping_mul(FNV_PRIME);
        i = i + 1;
    }
    assert(bytes@.take(bytes.len() as int) =~= bytes@);
    let x: u32 = (h as u32) ^ ((h >> 32u64) as u32);
    let mut out = String::new();
    let mut div: u32 = 0x1000_0000;
    let ghost digits = hex8(x);
    let mut k: usize = 0;
    while k < 8
        invariant
            k <= 8,
            digits == hex8(x),
            out@ == digits.take(k as int),
            div == (if k == 0 {
                0x1000_0000u32
            } else if k == 1 {
                0x100_0000u32
            } else if k == 2 {
                0x10_0000u32
            } else if k == 3 {
                0x1_0000u32
            } else if k == 4 {
                0x1000u32
            } else if k == 5 {
                0x100u32
            } else if k == 6 {
                0x10u32
            } else if k == 7 {
                1u32
            } else {
                0u32
            }),
        decreases 8 - k,
    {
        let d = (x / div) % 16;
        out.append(hex_digit(d));
        assert(out@ =~= digits.take(k + 1));
        div = div / 16;
        k = k + 1;
    }
    assert(digits.take(8) =~= digits);
    out
}

/// The label that a lower-case name stands for.
pub open spec fn label_for_name(name: Seq<char>) -> NodeLabel {
    if name == "isolated_truth"@ {
        NodeLabel::IsolatedTruth
    } else if name == "normal"@ {
        NodeLabel::Normal
    } else if name == "garbage"@ {
        NodeLabel::Garbage
    } else {
        NodeLabel::Unknown
    }
}

impl NodeLabel {
    /// Reads a label name, ignoring case; any other name is `Unknown`.
    pub fn parse_name(s: &str) -> (label: NodeLabel)
        ensures
            label == label_for_name(lowercase(s@)),
            is_plain_lower(s@) ==> label == label_for_name(s@),
    {
        let lower = lowercase_of(s);
        if lower == String::from_str("isolated_truth") {
            NodeLabel::IsolatedTruth
        } else if lower == String::from_str("normal") {
            NodeLabel::Normal
        } else if lower == String::from_str("garbage") {
            NodeLabel::Garbage
        } else {
            NodeLabel::Unknown
        }
    }
}

/// Every label's name is plain lower case and reads back as that label, so
/// parsing `as_str` gives the label again.
pub proof fn lemma_label_name_roundtrip(l: NodeLabel)
    ensures
        is_plain_lower(label_name(l)),
        label_for_name(label_name(l)) == l,
{
    reveal_strlit("isolated_truth");
    reveal_strlit("normal");
    reveal_strlit("garbage");
    reveal_strlit("unknown");
    assert("normal"@ != "isolated_truth"@) by {
        assert("normal"@.len() != "isolated_truth"@.len());
    }
    assert("garbage"@ != "isolated_truth"@) by {
        assert("garbage"@.len() != "isolated_truth"@.len());
    }
    assert("garbage"@ != "normal"@) by {
        assert("garbage"@.len() != "normal"@.len());
    }
    assert("unknown"@ != "isolated_truth"@) by {
        assert("unknown"@.len() != "isolated_truth"@.len());
    }
    assert("unknown"@ != "normal"@) by {
        assert("unknown"@.len() != "normal"@.len());
    }
    assert("unknown"@ != "garbage"@) by {
        assert("unknown"@[0] != "garbage"@[0]);
    }
}

impl std::str::FromStr for NodeLabel {
    type Err = std::convert::Infallible;

    fn from_str(s: &str) -> (r: Result<Self, Self::Err>)
        ensures
            r matches Ok(label) && label == label_for_name(lowercase(s@)),
            is_plain_lower(s@) ==> (r matches Ok(label) && label == label_for_name(s@)),
    {
        Ok(NodeLabel::parse_name(s))
    }
}

} // verus!
