//! Decoding of the strings that cross the boundary inwards.
//!
//! A string arrives as the bytes of a null-terminated sequence, or as nothing
//! at all where the caller passed a null pointer. Every string is copied into
//! an owned `String` before anything else is done with it.

use vstd::prelude::*;
use vstd::utf8::*;

verus! {

/// The text that `String::from_utf8_lossy` makes of a byte sequence: the
/// bytes read as UTF-8, each malformed part replaced by U+FFFD.
pub uninterp spec fn lossy_text(bytes: Seq<u8>) -> Seq<char>;

/// The text that an entry of a string array stands for. A null entry stands
/// for the empty string.
pub open spec fn entry_text(entry: Option<Seq<u8>>) -> Seq<char> {
    match entry {
        None => Seq::<char>::empty(),
        Some(bytes) => lossy_text(bytes),
    }
}

/// Calls `String::from_utf8_lossy`. Trusted: the result is the lossy reading
/// of the bytes, which is their exact decoding where they are well-formed
/// UTF-8.
#[verifier::external_body]
fn utf8_lossy(bytes: &Vec<u8>) -> (text: String)
    ensures
        text@ == lossy_text(bytes@),
        valid_utf8(bytes@) ==> text@ == decode_utf8(bytes@),
{
    String::from_utf8_lossy(bytes).into_owned()
}

/// Calls `std::str::from_utf8`. Trusted: it succeeds exactly on well-formed
/// UTF-8, and then yields the decoded text.
#[verifier::external_body]
fn utf8_strict(bytes: &Vec<u8>) -> (text: Option<String>)
    ensures
        text is Some <==> valid_utf8(bytes@),
        text matches Some(s) ==> s@ == decode_utf8(bytes@),
{
    match std::str::from_utf8(bytes) {
        Ok(s) => Some(s.to_owned()),
        Err(_) => None,
    }
}

/// Copies one string argument. A null argument decodes to the empty string,
/// malformed bytes decode lossily; neither is an error.
pub fn decode_text(entry: &Option<Vec<u8>>) -> (text: String)
    ensures
        text@ == entry_text(entry.deep_view()),
        *entry is None ==> text@.len() == 0,
        entry matches Some(bytes) ==> (valid_utf8(bytes@) ==> text@ == decode_utf8(bytes@)),
{
    match entry {
        None => String::new(),
        Some(bytes) => {
            assert(bytes.deep_view() =~= bytes@);
            utf8_lossy(bytes)
        },
    }
}

/// The texts that a string array stands for, entry by entry.
pub open spec fn entry_texts(entries: Seq<Option<Seq<u8>>>) -> Seq<Seq<char>> {
    Seq::new(entries.len(), |i: int| entry_text(entries[i]))
}

/// Copies a string array: one owned string per entry, in the order of the
/// entries. A null entry yields the empty string at its position and leaves
/// the other positions as they are.
pub fn decode_texts(entries: &Vec<Option<Vec<u8>>>) -> (texts: Vec<String>)
    ensures
        texts.deep_view() == entry_texts(entries.deep_view()),
        texts@.len() == entries@.len(),
        forall|i: int|
            0 <= i < entries@.len() && entries@[i] is None ==> (#[trigger] texts@[i])@.len() == 0,
        forall|i: int|
            0 <= i < entries@.len() ==> (entries@[i] matches Some(bytes) ==> (valid_utf8(bytes@)
                ==> (#[trigger] texts@[i])@ == decode_utf8(bytes@))),
{
    let mut texts: Vec<String> = Vec::with_capacity(entries.len());
    let mut i: usize = 0;
    while i < entries.len()
        invariant
            i <= entries@.len(),
            texts@.len() == i,
            forall|k: int|
                0 <= k < i ==> (#[trigger] texts@[k])@ == entry_text(entries@[k].deep_view()),
            forall|k: int|
                0 <= k < i ==> (entries@[k] matches Some(bytes) ==> (valid_utf8(bytes@) ==> (
                #[trigger] texts@[k])@ == decode_utf8(bytes@))),
        decreases entries@.len() - i,
    {
        let text = decode_text(&entries[i]);
        texts.push(text);
        i += 1;
    }
    assert(texts.deep_view() =~= entry_texts(entries.deep_view()));
    texts
}

/// Reads a string argument that must be well-formed: `None` for a null
/// argument and for bytes that are not UTF-8, the decoded text otherwise.
pub fn decode_strict(entry: &Option<Vec<u8>>) -> (text: Option<String>)
    ensures
        text is Some <==> (entry.deep_view() matches Some(bytes) && valid_utf8(bytes)),
        text matches Some(s) ==> s@ == decode_utf8(entry->0@),
{
    match entry {
        None => None,
        Some(bytes) => {
            assert(bytes.deep_view() =~= bytes@);
            utf8_strict(bytes)
        },
    }
}

} // verus!
