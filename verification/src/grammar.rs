//! What the decoder makes of a byte sequence, stated over `Seq<u8>`.
//!
//! Each function takes the bytes that are still to be read and gives back
//! the value read together with the number of bytes it took, or the error.
use vstd::prelude::*;
use crate::number::{parse_u64, trim};
use crate::value::{keys_ascending, DecodeError, SpecBencoding};
use crate::{BYTE_ARRAY_DIVIDER, DICTIONARY_END, DICTIONARY_START, LIST_END, LIST_START, NUMBER_END, NUMBER_START};

verus! {

/// The text of a number: the bytes before the first terminator `t`, which
/// is consumed too. Where `skip_start` holds, every `i` byte is passed
/// over and left out of the text. A byte that is not ASCII before the
/// terminator, or the lack of a terminator, is an error.
pub open spec fn number_text(s: Seq<u8>, t: u8, skip_start: bool) -> Result<(Seq<u8>, int), DecodeError>
    decreases s.len(),
{
    if s.len() == 0 {
        Err(DecodeError::UnterminatedNumber)
    } else if skip_start && s[0] == NUMBER_START {
        match number_text(s.drop_first(), t, skip_start) {
            Ok((text, n)) => Ok((text, n + 1)),
            Err(e) => Err(e),
        }
    } else if s[0] == t {
        Ok((Seq::empty(), 1))
    } else if s[0] >= 128 {
        Err(DecodeError::NonAsciiNumber)
    } else {
        match number_text(s.drop_first(), t, skip_start) {
            Ok((text, n)) => Ok((seq![s[0]] + text, n + 1)),
            Err(e) => Err(e),
        }
    }
}

/// A number ended by `t`: its text, trimmed of whitespace, read as a `u64`.
pub open spec fn spec_number(s: Seq<u8>, t: u8, skip_start: bool) -> Result<(u64, int), DecodeError> {
    match number_text(s, t, skip_start) {
        Ok((text, n)) => match parse_u64(trim(text)) {
            Some(v) => Ok((v, n)),
            None => Err(DecodeError::InvalidNumber),
        },
        Err(e) => Err(e),
    }
}

/// A byte string: its length, a `:`, then that many bytes, or as many as
/// are left where fewer are.
pub open spec fn spec_byte_string(s: Seq<u8>) -> Result<(Seq<u8>, int), DecodeError> {
    match spec_number(s, BYTE_ARRAY_DIVIDER, false) {
        Ok((len, n)) => {
            let rest = s.skip(n);
            let k = if len < rest.len() {
                len as int
            } else {
                rest.len() as int
            };
            Ok((rest.take(k), n + k))
        },
        Err(e) => Err(e),
    }
}

/// One value, chosen by its first byte; no byte at all reads as `Eof`.
pub open spec fn spec_value(s: Seq<u8>) -> Result<(SpecBencoding, int), DecodeError>
    decreases s.len(), 0nat,
{
    if s.len() == 0 {
        Ok((SpecBencoding::Eof, 0))
    } else if s[0] == DICTIONARY_START {
        match spec_dict_entries(s.drop_first()) {
            Ok((entries, m)) => if keys_ascending(entries) {
                Ok((SpecBencoding::Dictionary(collapse_keys(entries)), m + 1))
            } else {
                Err(DecodeError::UnsortedKeys)
            },
            Err(e) => Err(e),
        }
    } else if s[0] == LIST_START {
        match spec_list_items(s.drop_first()) {
            Ok((items, m)) => Ok((SpecBencoding::List(items), m + 1)),
            Err(e) => Err(e),
        }
    } else if s[0] == NUMBER_START {
        match spec_number(s, NUMBER_END, true) {
            Ok((v, n)) => Ok((SpecBencoding::Integer(v), n)),
            Err(e) => Err(e),
        }
    } else {
        match spec_byte_string(s) {
            Ok((b, n)) => Ok((SpecBencoding::ByteString(b), n)),
            Err(e) => Err(e),
        }
    }
}

/// The items of a list up to its end byte, which is consumed.
pub open spec fn spec_list_items(s: Seq<u8>) -> Result<(Seq<SpecBencoding>, int), DecodeError>
    decreases s.len(), 1nat,
{
    if s.len() == 0 {
        Err(DecodeError::UnterminatedList)
    } else if s[0] == LIST_END {
        Ok((Seq::empty(), 1))
    } else {
        match spec_value(s) {
            Ok((v, n)) => if 0 < n <= s.len() {
                match spec_list_items(s.skip(n)) {
                    Ok((items, m)) => Ok((seq![v] + items, n + m)),
                    Err(e) => Err(e),
                }
            } else {
                Err(DecodeError::UnterminatedList)
            },
            Err(e) => Err(e),
        }
    }
}

/// The key/value pairs of a dictionary, in the order in which they come, up
/// to its end byte (consumed) or to the end of the input.
pub open spec fn spec_dict_entries(s: Seq<u8>) -> Result<(Seq<(Seq<u8>, SpecBencoding)>, int), DecodeError>
    decreases s.len(), 1nat,
{
    if s.len() == 0 {
        Ok((Seq::empty(), 0))
    } else if s[0] == DICTIONARY_END {
        Ok((Seq::empty(), 1))
    } else {
        match spec_byte_string(s) {
            Ok((key, n1)) => if 0 < n1 <= s.len() {
                match spec_value(s.skip(n1)) {
                    Ok((v, n2)) => if 0 <= n2 <= s.len() - n1 {
                        match spec_dict_entries(s.skip(n1 + n2)) {
                            Ok((entries, m)) => Ok((seq![(key, v)] + entries, n1 + n2 + m)),
                            Err(e) => Err(e),
                        }
                    } else {
                        Err(DecodeError::UnterminatedList)
                    },
                    Err(e) => Err(e),
                }
            } else {
                Err(DecodeError::UnterminatedNumber)
            },
            Err(e) => Err(e),
        }
    }
}

/// The entries with each run of equal keys replaced by its last entry: a
/// later value for a key replaces an earlier one.
pub open spec fn collapse_keys(entries: Seq<(Seq<u8>, SpecBencoding)>) -> Seq<(Seq<u8>, SpecBencoding)>
    decreases entries.len(),
{
    if entries.len() == 0 {
        entries
    } else {
        let prev = collapse_keys(entries.drop_last());
        if prev.len() > 0 && prev.last().0 == entries.last().0 {
            prev.drop_last().push(entries.last())
        } else {
            prev.push(entries.last())
        }
    }
}

/// What `decode` gives back for the whole input `s`.
pub open spec fn spec_decode(s: Seq<u8>) -> Result<SpecBencoding, DecodeError> {
    match spec_value(s) {
        Ok((v, _)) => Ok(v),
        Err(e) => Err(e),
    }
}

/// The text of a number is shorter than what it consumes, which is at
/// least its terminator and at most the input.
pub proof fn lemma_number_text_bounds(s: Seq<u8>, t: u8, skip_start: bool)
    ensures
        number_text(s, t, skip_start) matches Ok((text, n)) ==> 0 < n <= s.len() && text.len() < n,
    decreases s.len(),
{
    if s.len() > 0 {
        lemma_number_text_bounds(s.drop_first(), t, skip_start);
    }
}

} // verus!
