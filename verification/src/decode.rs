//! From the bytes of a description file to its text.
//!
//! The character set is guessed by the `chardet` crate and the bytes are
//! decoded by the `encoding` crate. Neither is verified here: what is stated
//! of them below is taken on trust, and the decisions around the calls are
//! proved against it.
use vstd::prelude::*;
use vstd::string::StringExecFns;

verus! {

/// The character set that `chardet::detect` reports for `bytes`; empty where
/// it reports none.
pub uninterp spec fn detected_charset(bytes: Seq<u8>) -> Seq<char>;

/// Whether `encoding::label::encoding_from_whatwg_label` knows an encoding by
/// the name `label`.
pub uninterp spec fn encoding_known(label: Seq<char>) -> bool;

/// The text that the encoding named `label` decodes `bytes` to when the byte
/// sequences it cannot map are skipped.
pub uninterp spec fn lossy_decoding(label: Seq<char>, bytes: Seq<u8>) -> Seq<char>;

/// The character set that a fresh `chardet::UniversalDetector` reports after
/// it was fed `bytes` and then `probe`.
pub uninterp spec fn probed_charset(bytes: Seq<u8>, probe: Seq<u8>) -> Seq<char>;

/// A byte that `chardet` counts as belonging to a multi-byte or national
/// character set.
pub open spec fn is_high_byte(b: u8) -> bool {
    b >= 0x80 && b != 0xa0
}

/// `bytes` holds a high byte.
pub open spec fn has_high_byte(bytes: Seq<u8>) -> bool {
    exists|i: int| 0 <= i < bytes.len() && is_high_byte(#[trigger] bytes[i])
}

/// `bytes` holds an escape byte.
pub open spec fn has_escape(bytes: Seq<u8>) -> bool {
    exists|i: int| 0 <= i < bytes.len() && #[trigger] bytes[i] == 0x1b
}

/// The bytes that `chardet::detect` can be asked about. On bytes that hold an
/// escape byte and no high byte the detector relies on its escape-sequence
/// prober alone; where that prober recognises no character set, the
/// detector, asked for its verdict, runs into a branch it holds to be
/// unreachable and panics.
pub open spec fn charset_detectable(bytes: Seq<u8>) -> bool {
    has_high_byte(bytes) || !has_escape(bytes)
}

/// The character sets that the detector's escape-sequence prober can name.
pub open spec fn escape_charsets() -> Seq<Seq<char>> {
    seq!["HZ-GB-2312"@, "ISO-2022-CN"@, "ISO-2022-JP"@, "ISO-2022-KR"@]
}

/// What is fed to the detector after the bytes of a file that hold an escape
/// byte and no high byte: one high byte.
pub open spec fn probe() -> Seq<u8> {
    seq![0x80u8]
}

/// The label under which the `encoding` crate knows the character set that
/// `chardet` calls `charset`: three names differ, every other is kept.
pub open spec fn whatwg_label(charset: Seq<char>) -> Seq<char> {
    if charset == "CP932"@ {
        "windows-31j"@
    } else if charset == "CP949"@ {
        "windows-949"@
    } else if charset == "MacCyrillic"@ {
        "x-mac-cyrillic"@
    } else {
        charset
    }
}

/// Calls `chardet::detect` and keeps the name of the character set, the first
/// part of its answer. The detector is a function of the bytes alone; the
/// inputs on which it is known to panic are left out.
#[verifier::external_body]
fn detect_charset(bytes: &Vec<u8>) -> (r: String)
    requires
        charset_detectable(bytes@),
    ensures
        r@ == detected_charset(bytes@),
{
    chardet::detect(bytes).0
}

/// Does what `chardet::detect` does, with one feed more: makes a
/// `chardet::UniversalDetector`, feeds it `bytes` and then `probe`, and keeps
/// the name of the character set from what `close` answers. The high byte in
/// the probe takes the detector out of the state in which `close` panics.
/// Where the escape-sequence prober has recognised a character set in
/// `bytes`, the detector is done by then, passes the probe over, and answers
/// what `detect` answers for `bytes` alone.
#[verifier::external_body]
fn detect_charset_probed(bytes: &Vec<u8>, probe: &Vec<u8>) -> (r: String)
    requires
        has_high_byte(probe@),
    ensures
        r@ == probed_charset(bytes@, probe@),
{
    let mut detector = chardet::UniversalDetector::new();
    detector.feed(bytes);
    detector.feed(probe);
    detector.close().0
}

/// Calls `chardet::charset2encoding`, which renames `CP932`, `CP949` and
/// `MacCyrillic` and hands every other name back as it came.
#[verifier::external_body]
fn encoding_label(charset: &String) -> (r: String)
    ensures
        r@ == whatwg_label(charset@),
{
    chardet::charset2encoding(charset).to_string()
}

/// Calls `encoding::label::encoding_from_whatwg_label` and tells whether it
/// found an encoding.
#[verifier::external_body]
fn knows_encoding(label: &str) -> (r: bool)
    ensures
        r == encoding_known(label@),
{
    encoding::label::encoding_from_whatwg_label(label).is_some()
}

/// Looks the encoding up by its label and calls its `decode` with
/// `DecoderTrap::Ignore`. `decode` gives up only where the trap tells it to,
/// and this trap never does: a byte sequence that maps to no character is
/// dropped and decoding goes on. So there is always a text.
#[verifier::external_body]
fn decode_lossy(label: &str, bytes: &Vec<u8>) -> (r: Option<String>)
    requires
        encoding_known(label@),
    ensures
        r is Some,
        r->0@ == lossy_decoding(label@, bytes@),
{
    let coder = encoding::label::encoding_from_whatwg_label(label)?;
    coder.decode(bytes, encoding::DecoderTrap::Ignore).ok()
}

/// The character set of `bytes`, as far as the detector can be asked. Bytes
/// that hold an escape byte and no high byte have the character set that the
/// escape-sequence prober recognises in them, and none where it recognises
/// none: what the detector answers after the probe is taken only where it is
/// one of the prober's names.
pub open spec fn named_charset(bytes: Seq<u8>) -> Option<Seq<char>> {
    if charset_detectable(bytes) {
        Some(detected_charset(bytes))
    } else {
        let found = probed_charset(bytes, probe());
        if escape_charsets().contains(found) {
            Some(found)
        } else {
            None
        }
    }
}

/// The text of a description file with the bytes `bytes`: the decoding under
/// the character set that detection names, with whatever cannot be mapped
/// left out. A file without bytes has the empty text. `None` where detection
/// names no character set, or one that no decoder is known for; bytes that
/// map to no character never stand in the way.
pub open spec fn decoded(bytes: Seq<u8>) -> Option<Seq<char>> {
    if bytes.len() == 0 {
        Some(Seq::empty())
    } else {
        match named_charset(bytes) {
            None => None,
            Some(charset) => {
                let label = whatwg_label(charset);
                if encoding_known(label) {
                    Some(lossy_decoding(label, bytes))
                } else {
                    None
                }
            },
        }
    }
}

/// Tells whether `chardet::detect` can be asked about `bytes`.
pub fn is_detectable(bytes: &Vec<u8>) -> (r: bool)
    ensures
        r == charset_detectable(bytes@),
{
    let mut high = false;
    let mut escape = false;
    let mut i: usize = 0;
    while i < bytes.len()
        invariant
            i <= bytes.len(),
            high == has_high_byte(bytes@.take(i as int)),
            escape == has_escape(bytes@.take(i as int)),
        decreases bytes.len() - i,
    {
        let b = bytes[i];
        proof {
            let before = bytes@.take(i as int);
            let upto = bytes@.take(i + 1);
            assert(upto[i as int] == b);
            assert forall|j: int| 0 <= j < i implies before[j] == upto[j] by {}
            if has_high_byte(before) {
                let j = choose|j: int| 0 <= j < before.len() && is_high_byte(#[trigger] before[j]);
                assert(is_high_byte(upto[j]));
            }
            if has_escape(before) {
                let j = choose|j: int| 0 <= j < before.len() && #[trigger] before[j] == 0x1b;
                assert(upto[j] == 0x1b);
            }
            if has_high_byte(upto) && !is_high_byte(b) {
                let j = choose|j: int| 0 <= j < upto.len() && is_high_byte(#[trigger] upto[j]);
                assert(is_high_byte(before[j]));
            }
            if has_escape(upto) && b != 0x1b {
                let j = choose|j: int| 0 <= j < upto.len() && #[trigger] upto[j] == 0x1b;
                assert(before[j] == 0x1b);
            }
        }
        if b >= 0x80 && b != 0xa0 {
            high = true;
        }
        if b == 0x1b {
            escape = true;
        }
        i += 1;
    }
    proof {
        assert(bytes@.take(bytes.len() as int) =~= bytes@);
    }
    high || !escape
}

/// Tells whether `charset` is one of the names of the escape-sequence prober.
pub fn is_escape_charset(charset: &String) -> (r: bool)
    ensures
        r == escape_charsets().contains(charset@),
{
    let names = vec!["HZ-GB-2312", "ISO-2022-CN", "ISO-2022-JP", "ISO-2022-KR"];
    assert(names@.map_values(|s: &str| s@) =~= escape_charsets());
    let mut k: usize = 0;
    while k < names.len()
        invariant
            k <= names.len(),
            names@.map_values(|s: &str| s@) == escape_charsets(),
            forall|j: int| 0 <= j < k ==> escape_charsets()[j] != charset@,
        decreases names.len() - k,
    {
        proof {
            assert(escape_charsets().len() == names.len());
            assert(escape_charsets()[k as int] == names@.map_values(|s: &str| s@)[k as int]);
        }
        if String::from_str(names[k]) == *charset {
            return true;
        }
        k += 1;
    }
    false
}

/// Finds the character set of `bytes`.
pub fn name_charset(bytes: &Vec<u8>) -> (r: Option<String>)
    ensures
        match r {
            Some(charset) => named_charset(bytes@) == Some(charset@),
            None => named_charset(bytes@).is_none(),
        },
{
    if is_detectable(bytes) {
        Some(detect_charset(bytes))
    } else {
        let mut high: Vec<u8> = Vec::new();
        high.push(0x80);
        assert(high@ =~= probe());
        assert(is_high_byte(high@[0]));
        let found = detect_charset_probed(bytes, &high);
        if is_escape_charset(&found) {
            Some(found)
        } else {
            None
        }
    }
}

/// Decodes the bytes of a description file, guessing their character set.
pub fn decode_text(bytes: &Vec<u8>) -> (r: Option<String>)
    ensures
        match r {
            Some(text) => decoded(bytes@) == Some(text@),
            None => decoded(bytes@).is_none(),
        },
{
    if bytes.len() == 0 {
        return Some(String::new());
    }
    let charset = match name_charset(bytes) {
        Some(charset) => charset,
        None => { return None; },
    };
    let label = encoding_label(&charset);
    if !knows_encoding(label.as_str()) {
        return None;
    }
    decode_lossy(label.as_str(), bytes)
}

} // verus!
