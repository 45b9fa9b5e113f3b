//! The decoder: from Bencoded bytes to values.
use vstd::prelude::*;
use vstd::pervasive::unreached;
use crate::cursor::ByteIter;
use crate::laws::lemma_decoded_dicts_ordered;
use crate::grammar::{
    collapse_keys, lemma_number_text_bounds, number_text, spec_byte_string, spec_decode, spec_dict_entries,
    spec_list_items, spec_number, spec_value,
};
use crate::number::{parse_u64_exec, trim, trim_end, trim_start};
use crate::value::{
    bytes_eq, bytes_le, entry_views, keys_ascending, lemma_dictionary_view, lemma_list_view, seq_le, views, Bencoding, DecodeError,
    SpecBencoding,
};
use crate::{
    BYTE_ARRAY_DIVIDER, DICTIONARY_END, DICTIONARY_START, LIST_END, LIST_START, NUMBER_END, NUMBER_START,
};

verus! {

/// Skipping `a` bytes and then `b` bytes skips `a + b` bytes.
pub proof fn lemma_skip_skip(s: Seq<u8>, a: int, b: int)
    requires
        0 <= a,
        0 <= b,
        a + b <= s.len(),
    ensures
        s.skip(a).skip(b) == s.skip(a + b),
{
    assert(s.skip(a).skip(b) =~= s.skip(a + b));
}

/// Reads the text of a number ended by `t`, consuming the terminator.
fn read_number_text(iter: &mut ByteIter, t: u8, skip_start: bool) -> (r: Result<Vec<u8>, DecodeError>)
    ensures
        match number_text(old(iter)@, t, skip_start) {
            Ok((text, n)) => r matches Ok(v) && v@ == text && 0 < n <= old(iter)@.len()
                && final(iter)@ == old(iter)@.skip(n),
            Err(e) => r == Err::<Vec<u8>, DecodeError>(e),
        },
{
    let ghost s0 = iter@;
    let ghost mut consumed: int = 0;
    let mut text: Vec<u8> = Vec::new();
    proof {
        lemma_number_text_bounds(s0, t, skip_start);
        assert(s0.skip(0) =~= s0);
        assert(text@ + Seq::<u8>::empty() =~= Seq::<u8>::empty());
    }
    loop
        invariant
            s0 == old(iter)@,
            0 <= consumed <= s0.len(),
            iter@ == s0.skip(consumed),
            number_text(s0, t, skip_start) matches Ok((_, n)) ==> 0 < n <= s0.len(),
            number_text(s0, t, skip_start) == match number_text(iter@, t, skip_start) {
                Ok((rest, n)) => Ok((text@ + rest, consumed + n)),
                Err(e) => Err(e),
            },
        decreases iter@.len(),
    {
        let ghost cur = iter@;
        match iter.next() {
            None => {
                return Err(DecodeError::UnterminatedNumber);
            },
            Some(b) => {
                proof {
                    lemma_skip_skip(s0, consumed, 1);
                }
                if skip_start && b == NUMBER_START {
                    proof {
                        consumed = consumed + 1;
                    }
                } else if b == t {
                    assert(text@ + Seq::<u8>::empty() =~= text@);
                    return Ok(text);
                } else if b >= 128 {
                    return Err(DecodeError::NonAsciiNumber);
                } else {
                    let ghost before = text@;
                    text.push(b);
                    proof {
                        consumed = consumed + 1;
                        assert forall|rest: Seq<u8>| before + (seq![b] + rest) =~= text@ + rest by {}
                    }
                }
            },
        }
    }
}

/// The bounds of `text` once leading and trailing whitespace is left out.
fn trimmed_bounds(text: &Vec<u8>) -> (r: (usize, usize))
    ensures
        r.0 <= r.1 <= text@.len(),
        text@.subrange(r.0 as int, r.1 as int) == trim(text@),
{
    let ghost s = text@;
    let mut lo: usize = 0;
    assert(s.skip(0) =~= s);
    while lo < text.len() && (text[lo] == 32 || (9 <= text[lo] && text[lo] <= 13))
        invariant
            lo <= text@.len(),
            s == text@,
            trim_start(s) == trim_start(s.skip(lo as int)),
        decreases text@.len() - lo,
    {
        assert(s.skip(lo as int).drop_first() =~= s.skip(lo + 1));
        lo = lo + 1;
    }
    assert(trim_start(s) == s.skip(lo as int));
    let mut hi: usize = text.len();
    assert(s.skip(lo as int) =~= s.subrange(lo as int, hi as int));
    while hi > lo && (text[hi - 1] == 32 || (9 <= text[hi - 1] && text[hi - 1] <= 13))
        invariant
            lo <= hi <= text@.len(),
            s == text@,
            trim(s) == trim_end(s.subrange(lo as int, hi as int)),
        decreases hi - lo,
    {
        assert(s.subrange(lo as int, hi as int).drop_last() =~= s.subrange(lo as int, hi - 1));
        hi = hi - 1;
    }
    (lo, hi)
}

/// Reads a number ended by `t` and gives back its value.
fn read_number(iter: &mut ByteIter, t: u8, skip_start: bool) -> (r: Result<u64, DecodeError>)
    ensures
        match spec_number(old(iter)@, t, skip_start) {
            Ok((v, n)) => r == Ok::<u64, DecodeError>(v) && 0 < n <= old(iter)@.len()
                && final(iter)@ == old(iter)@.skip(n),
            Err(e) => r == Err::<u64, DecodeError>(e),
        },
{
    let text = match read_number_text(iter, t, skip_start) {
        Ok(text) => text,
        Err(e) => {
            return Err(e);
        },
    };
    let (lo, hi) = trimmed_bounds(&text);
    match parse_u64_exec(text.as_slice(), lo, hi) {
        Some(v) => Ok(v),
        None => Err(DecodeError::InvalidNumber),
    }
}

/// Reads an integer token such as `i42e`: every `i` byte is passed over,
/// and the number ends at `t`, which is consumed.
fn try_decode_number(iter: &mut ByteIter, t: u8) -> (r: Result<Bencoding, DecodeError>)
    ensures
        match spec_number(old(iter)@, t, true) {
            Ok((v, n)) => r == Ok::<Bencoding, DecodeError>(Bencoding::Integer(v)) && 0 < n <= old(iter)@.len()
                && final(iter)@ == old(iter)@.skip(n),
            Err(e) => r == Err::<Bencoding, DecodeError>(e),
        },
{
    match read_number(iter, t, true) {
        Ok(v) => Ok(Bencoding::Integer(v)),
        Err(e) => Err(e),
    }
}

/// Reads a number that has no start marker, such as the `3` of `3:abc`; it
/// ends at `t`, which is consumed.
fn try_decode_number_unmarked(iter: &mut ByteIter, t: u8) -> (r: Result<Bencoding, DecodeError>)
    ensures
        match spec_number(old(iter)@, t, false) {
            Ok((v, n)) => r == Ok::<Bencoding, DecodeError>(Bencoding::Integer(v)) && 0 < n <= old(iter)@.len()
                && final(iter)@ == old(iter)@.skip(n),
            Err(e) => r == Err::<Bencoding, DecodeError>(e),
        },
{
    match read_number(iter, t, false) {
        Ok(v) => Ok(Bencoding::Integer(v)),
        Err(e) => Err(e),
    }
}

/// Reads the length that prefixes a byte string, and the `:` after it.
fn try_extract_byte_string_length(iter: &mut ByteIter) -> (r: Result<u64, DecodeError>)
    ensures
        match spec_number(old(iter)@, BYTE_ARRAY_DIVIDER, false) {
            Ok((v, n)) => r == Ok::<u64, DecodeError>(v) && 0 < n <= old(iter)@.len()
                && final(iter)@ == old(iter)@.skip(n),
            Err(e) => r == Err::<u64, DecodeError>(e),
        },
{
    match try_decode_number_unmarked(iter, BYTE_ARRAY_DIVIDER) {
        Ok(Bencoding::Integer(v)) => Ok(v),
        Ok(_) => Err(DecodeError::InvalidNumber),
        Err(e) => Err(e),
    }
}

/// Consumes the next `k` bytes and gives them back.
fn take_bytes(iter: &mut ByteIter, k: usize) -> (r: Vec<u8>)
    requires
        k <= old(iter)@.len(),
    ensures
        r@ == old(iter)@.take(k as int),
        final(iter)@ == old(iter)@.skip(k as int),
{
    let ghost s0 = iter@;
    let mut buf: Vec<u8> = Vec::new();
    let mut j: usize = 0;
    assert(s0.skip(0) =~= s0);
    while j < k
        invariant
            k <= s0.len(),
            j <= k,
            buf@ == s0.take(j as int),
            iter@ == s0.skip(j as int),
        decreases k - j,
    {
        match iter.next() {
            Some(b) => {
                buf.push(b);
                proof {
                    lemma_skip_skip(s0, j as int, 1);
                    assert(buf@ =~= s0.take(j + 1));
                }
            },
            None => {
                assert(false);
            },
        }
        j = j + 1;
    }
    buf
}

/// Reads a byte string: its length, a `:`, then that many bytes, or as many
/// as are left where fewer are.
fn read_byte_string(iter: &mut ByteIter) -> (r: Result<Vec<u8>, DecodeError>)
    ensures
        match spec_byte_string(old(iter)@) {
            Ok((b, n)) => r matches Ok(v) && v@ == b && 0 < n <= old(iter)@.len()
                && final(iter)@ == old(iter)@.skip(n),
            Err(e) => r == Err::<Vec<u8>, DecodeError>(e),
        },
{
    let ghost s0 = iter@;
    let len = match try_extract_byte_string_length(iter) {
        Ok(len) => len,
        Err(e) => {
            return Err(e);
        },
    };
    let rem = iter.len();
    let k: usize = if len < rem as u64 {
        len as usize
    } else {
        rem
    };
    let buf = take_bytes(iter, k);
    proof {
        lemma_number_text_bounds(s0, BYTE_ARRAY_DIVIDER, false);
        let n1 = s0.len() - rem;
        lemma_skip_skip(s0, n1, k as int);
    }
    Ok(buf)
}

/// Reads a byte string token such as `3:abc`.
fn try_decode_byte_string(iter: &mut ByteIter) -> (r: Result<Bencoding, DecodeError>)
    ensures
        match spec_byte_string(old(iter)@) {
            Ok((b, n)) => r matches Ok(v) && v@ == SpecBencoding::ByteString(b)
                && 0 < n <= old(iter)@.len() && final(iter)@ == old(iter)@.skip(n),
            Err(e) => r == Err::<Bencoding, DecodeError>(e),
        },
{
    match read_byte_string(iter) {
        Ok(buf) => Ok(Bencoding::ByteString(buf)),
        Err(e) => Err(e),
    }
}

/// Reads the next `len` bytes as a byte string, or all that are left where
/// fewer are.
pub fn decode_byte_string_len(iter: &mut ByteIter, len: u8) -> (r: Bencoding)
    requires
        len > 0 || old(iter)@.len() == 0,
    ensures
        ({
            let k = if len < old(iter)@.len() { len as int } else { old(iter)@.len() as int };
            &&& r@ == SpecBencoding::ByteString(old(iter)@.take(k))
            &&& final(iter)@ == old(iter)@.skip(k)
        }),
{
    let rem = iter.len();
    let k: usize = if (len as usize) < rem {
        len as usize
    } else {
        rem
    };
    Bencoding::ByteString(take_bytes(iter, k))
}

/// `r` is what reading one value from `before` gives, and `after` is what is
/// left to read then.
pub open spec fn value_read(before: Seq<u8>, after: Seq<u8>, r: Result<Bencoding, DecodeError>) -> bool {
    match spec_value(before) {
        Ok((v, n)) => {
            &&& r matches Ok(b) && b@ == v
            &&& 0 <= n <= before.len()
            &&& before.len() > 0 ==> n > 0
            &&& after == before.skip(n)
        },
        Err(e) => r == Err::<Bencoding, DecodeError>(e),
    }
}

/// Each key of `entries` is at most the next one.
fn keys_in_order(entries: &Vec<(Vec<u8>, Bencoding)>) -> (r: bool)
    ensures
        r == keys_ascending(entry_views(entries@)),
{
    let ghost es = entry_views(entries@);
    let n = entries.len();
    if n == 0 {
        return true;
    }
    let mut i: usize = 0;
    while i < n - 1
        invariant
            n == entries@.len(),
            n > 0,
            es == entry_views(entries@),
            i < n,
            forall|j: int| 0 <= j < i ==> seq_le(#[trigger] es[j].0, es[j + 1].0),
        decreases n - i,
    {
        if !bytes_le(entries[i].0.as_slice(), entries[i + 1].0.as_slice()) {
            assert(!seq_le(es[i as int].0, es[i + 1].0));
            return false;
        }
        i = i + 1;
    }
    true
}

/// The entries with each run of equal keys replaced by its last entry.
fn collapse_entries(entries: Vec<(Vec<u8>, Bencoding)>) -> (r: Vec<(Vec<u8>, Bencoding)>)
    ensures
        entry_views(r@) == collapse_keys(entry_views(entries@)),
{
    let ghost es = entry_views(entries@);
    let mut rest = entries;
    let mut out: Vec<(Vec<u8>, Bencoding)> = Vec::new();
    let ghost mut i: int = 0;
    assert(entry_views(rest@) =~= es.skip(0));
    assert(entry_views(out@) =~= collapse_keys(es.take(0)));
    while rest.len() > 0
        invariant
            0 <= i <= es.len(),
            rest@.len() == es.len() - i,
            entry_views(rest@) == es.skip(i),
            entry_views(out@) == collapse_keys(es.take(i)),
        decreases rest@.len(),
    {
        let ghost before = out@;
        let ghost old_rest = rest@;
        let e = rest.remove(0);
        assert(rest@ =~= old_rest.skip(1));
        assert forall|j: int| 0 <= j < rest@.len() implies entry_views(rest@)[j] == es.skip(i + 1)[j] by {
            assert(entry_views(old_rest)[j + 1] == es.skip(i)[j + 1]);
        }
        assert(es.skip(i)[0] == entry_views(rest@.insert(0, e))[0]);
        let same = out.len() > 0 && bytes_eq(out[out.len() - 1].0.as_slice(), e.0.as_slice());
        if same {
            out.pop();
        }
        out.push(e);
        proof {
            assert(es.take(i + 1).drop_last() =~= es.take(i));
            assert(es.take(i + 1).last() == es[i]);
            assert(es[i] == (e.0@, e.1@));
            if same {
                assert(entry_views(out@) =~= entry_views(before).drop_last().push((e.0@, e.1@)));
            } else {
                assert(entry_views(out@) =~= entry_views(before).push((e.0@, e.1@)));
            }
            assert(entry_views(rest@) =~= es.skip(i + 1));
            i = i + 1;
        }
    }
    assert(es.take(i) =~= es);
    out
}

/// Reads one value, chosen by its next byte; at the end of the input it is
/// `Eof`.
fn try_decode_next(iter: &mut ByteIter) -> (r: Result<Bencoding, DecodeError>)
    ensures
        value_read(old(iter)@, final(iter)@, r),
    decreases old(iter)@.len(), 1nat,
{
    match iter.peek() {
        None => {
            assert(iter@.skip(0) =~= iter@);
            Ok(Bencoding::Eof)
        },
        Some(c) => {
            if c == DICTIONARY_START {
                try_decode_dictionary(iter)
            } else if c == LIST_START {
                try_decode_list(iter)
            } else if c == NUMBER_START {
                try_decode_number(iter, NUMBER_END)
            } else {
                try_decode_byte_string(iter)
            }
        },
    }
}

/// Reads a list: the start byte, its items, and its end byte.
fn try_decode_list(iter: &mut ByteIter) -> (r: Result<Bencoding, DecodeError>)
    requires
        old(iter)@.len() > 0,
        old(iter)@[0] == LIST_START,
    ensures
        value_read(old(iter)@, final(iter)@, r),
    decreases old(iter)@.len(), 0nat,
{
    iter.next();
    let ghost s0 = iter@;
    let ghost mut consumed: int = 0;
    let mut list: Vec<Bencoding> = Vec::new();
    assert(s0.skip(0) =~= s0);
    proof {
        match spec_list_items(s0) {
            Ok((vs, m)) => {
                assert(views(list@) + vs =~= vs);
            },
            Err(e) => {},
        }
    }
    loop
        invariant
            old(iter)@.len() > 0,
            old(iter)@[0] == LIST_START,
            s0 == old(iter)@.drop_first(),
            0 <= consumed <= s0.len(),
            iter@ == s0.skip(consumed),
            spec_list_items(s0) == match spec_list_items(iter@) {
                Ok((vs, m)) => Ok((views(list@) + vs, consumed + m)),
                Err(e) => Err(e),
            },
        decreases iter@.len(),
    {
        let ghost cur = iter@;
        match iter.peek() {
            None => {
                return Err(DecodeError::UnterminatedList);
            },
            Some(c) => {
                if c == LIST_END {
                    iter.next();
                    proof {
                        lemma_list_view(list);
                        assert(views(list@) + Seq::<SpecBencoding>::empty() =~= views(list@));
                        lemma_skip_skip(s0, consumed, 1);
                        lemma_skip_skip(old(iter)@, 1, consumed + 1);
                        assert(old(iter)@.drop_first() =~= old(iter)@.skip(1));
                    }
                    return Ok(Bencoding::List(list));
                }
            },
        }
        match try_decode_next(iter) {
            Ok(item) => {
                let ghost n = cur.len() - iter@.len();
                let ghost before = list@;
                list.push(item);
                proof {
                    lemma_skip_skip(s0, consumed, n);
                    assert(views(list@) =~= views(before).push(item@));
                    assert forall|vs: Seq<SpecBencoding>| views(before) + (seq![item@] + vs) =~= views(list@) + vs by {}
                    consumed = consumed + n;
                }
            },
            Err(e) => {
                return Err(e);
            },
        }
    }
}

/// Reads the entries of a dictionary, up to its end byte (consumed) or to
/// the end of the input.
fn read_dict_entries(iter: &mut ByteIter) -> (r: Result<Vec<(Vec<u8>, Bencoding)>, DecodeError>)
    ensures
        match spec_dict_entries(old(iter)@) {
            Ok((es, m)) => r matches Ok(v) && entry_views(v@) == es && 0 <= m <= old(iter)@.len()
                && final(iter)@ == old(iter)@.skip(m),
            Err(e) => r == Err::<Vec<(Vec<u8>, Bencoding)>, DecodeError>(e),
        },
    decreases old(iter)@.len(), 0nat,
{
    let ghost s0 = iter@;
    let ghost mut consumed: int = 0;
    let mut entries: Vec<(Vec<u8>, Bencoding)> = Vec::new();
    assert(s0.skip(0) =~= s0);
    proof {
        match spec_dict_entries(s0) {
            Ok((es, m)) => {
                assert(entry_views(entries@) + es =~= es);
            },
            Err(e) => {},
        }
    }
    loop
        invariant
            s0 == old(iter)@,
            0 <= consumed <= s0.len(),
            iter@ == s0.skip(consumed),
            spec_dict_entries(s0) == match spec_dict_entries(iter@) {
                Ok((es, m)) => Ok((entry_views(entries@) + es, consumed + m)),
                Err(e) => Err(e),
            },
        decreases iter@.len(),
    {
        let ghost cur = iter@;
        match iter.peek() {
            None => {
                proof {
                    assert(entry_views(entries@) + Seq::<(Seq<u8>, SpecBencoding)>::empty() =~= entry_views(entries@));
                    assert(s0.skip(consumed) =~= s0.skip(consumed + 0));
                }
                return Ok(entries);
            },
            Some(c) => {
                if c == DICTIONARY_END {
                    iter.next();
                    proof {
                        assert(entry_views(entries@) + Seq::<(Seq<u8>, SpecBencoding)>::empty() =~= entry_views(entries@));
                        lemma_skip_skip(s0, consumed, 1);
                    }
                    return Ok(entries);
                }
            },
        }
        let key = match read_byte_string(iter) {
            Ok(key) => key,
            Err(e) => {
                return Err(e);
            },
        };
        let ghost mid = iter@;
        let ghost n1 = cur.len() - mid.len();
        let value = match try_decode_next(iter) {
            Ok(value) => value,
            Err(e) => {
                return Err(e);
            },
        };
        let ghost n2 = mid.len() - iter@.len();
        let ghost before = entries@;
        entries.push((key, value));
        proof {
            lemma_skip_skip(cur, n1, n2);
            lemma_skip_skip(s0, consumed, n1 + n2);
            assert(entry_views(entries@) =~= entry_views(before).push((key@, value@)));
            assert forall|es: Seq<(Seq<u8>, SpecBencoding)>|
                entry_views(before) + (seq![(key@, value@)] + es) =~= entry_views(entries@) + es by {}
            consumed = consumed + n1 + n2;
        }
    }
}

/// Reads a dictionary: the start byte, its entries, and its end byte. Its
/// keys must come in sorted order; where a key comes twice, the later value
/// is kept.
fn try_decode_dictionary(iter: &mut ByteIter) -> (r: Result<Bencoding, DecodeError>)
    requires
        old(iter)@.len() > 0,
        old(iter)@[0] == DICTIONARY_START,
    ensures
        value_read(old(iter)@, final(iter)@, r),
    decreases old(iter)@.len(), 0nat,
{
    iter.next();
    let ghost s0 = iter@;
    let entries = match read_dict_entries(iter) {
        Ok(entries) => entries,
        Err(e) => {
            return Err(e);
        },
    };
    if !keys_in_order(&entries) {
        return Err(DecodeError::UnsortedKeys);
    }
    let dict = collapse_entries(entries);
    proof {
        lemma_dictionary_view(dict);
        let m = s0.len() - iter@.len();
        lemma_skip_skip(old(iter)@, 1, m);
        assert(old(iter)@.drop_first() =~= old(iter)@.skip(1));
    }
    Ok(Bencoding::Dictionary(dict))
}

/// Decodes the first value of `src`, or says why it cannot; bytes after
/// the value are not read. An empty `src` decodes to `Eof`.
pub fn try_decode(src: Vec<u8>) -> (r: Result<Bencoding, DecodeError>)
    ensures
        match r {
            Ok(b) => spec_decode(src@) == Ok::<SpecBencoding, DecodeError>(b@) && b@.dicts_ordered(),
            Err(e) => spec_decode(src@) == Err::<SpecBencoding, DecodeError>(e),
        },
{
    let mut iter = ByteIter::new(src.as_slice());
    proof {
        lemma_decoded_dicts_ordered(src@);
    }
    try_decode_next(&mut iter)
}

/// What reading one value from `before` gives when it succeeds, with
/// `after` what is left to read then.
pub open spec fn value_read_ok(before: Seq<u8>, after: Seq<u8>, r: Bencoding) -> bool {
    spec_value(before) matches Ok((v, n)) && r@ == v && after == before.skip(n)
}

/// Reads an integer token such as `i42e`: every `i` byte is passed over,
/// and the number ends at `t`, which is consumed. The token must be one.
fn decode_number(iter: &mut ByteIter, t: u8) -> (r: Bencoding)
    requires
        spec_number(old(iter)@, t, true) is Ok,
    ensures
        spec_number(old(iter)@, t, true) matches Ok((v, n)) && r == Bencoding::Integer(v)
            && final(iter)@ == old(iter)@.skip(n),
{
    match try_decode_number(iter, t) {
        Ok(b) => b,
        Err(_) => unreached(),
    }
}

/// Reads a number that has no start marker, such as the `3` of `3:abc`; it
/// ends at `t`, which is consumed. The bytes must hold such a number.
pub fn decode_number_unmarked(iter: &mut ByteIter, t: u8) -> (r: Bencoding)
    requires
        spec_number(old(iter)@, t, false) is Ok,
    ensures
        spec_number(old(iter)@, t, false) matches Ok((v, n)) && r == Bencoding::Integer(v)
            && final(iter)@ == old(iter)@.skip(n),
{
    match try_decode_number_unmarked(iter, t) {
        Ok(b) => b,
        Err(_) => unreached(),
    }
}

/// Reads the length that prefixes a byte string, and the `:` after it. The
/// bytes must start with such a length.
pub fn extract_byte_string_length(iter: &mut ByteIter) -> (r: u64)
    requires
        spec_number(old(iter)@, BYTE_ARRAY_DIVIDER, false) is Ok,
    ensures
        spec_number(old(iter)@, BYTE_ARRAY_DIVIDER, false) matches Ok((v, n)) && r == v
            && final(iter)@ == old(iter)@.skip(n),
{
    match decode_number_unmarked(iter, BYTE_ARRAY_DIVIDER) {
        Bencoding::Integer(v) => v,
        _ => unreached(),
    }
}

/// Reads a byte string token such as `3:abc`, which the bytes must hold.
fn decode_byte_string(iter: &mut ByteIter) -> (r: Bencoding)
    requires
        spec_byte_string(old(iter)@) is Ok,
    ensures
        spec_byte_string(old(iter)@) matches Ok((b, n)) && r@ == SpecBencoding::ByteString(b)
            && final(iter)@ == old(iter)@.skip(n),
{
    match try_decode_byte_string(iter) {
        Ok(b) => b,
        Err(_) => unreached(),
    }
}

/// Reads a list, which the bytes must hold.
fn decode_list(iter: &mut ByteIter) -> (r: Bencoding)
    requires
        old(iter)@.len() > 0,
        old(iter)@[0] == LIST_START,
        spec_value(old(iter)@) is Ok,
    ensures
        value_read_ok(old(iter)@, final(iter)@, r),
{
    match try_decode_list(iter) {
        Ok(b) => b,
        Err(_) => unreached(),
    }
}

/// Reads a dictionary, which the bytes must hold: its keys come in sorted
/// order.
fn decode_dictionary(iter: &mut ByteIter) -> (r: Bencoding)
    requires
        old(iter)@.len() > 0,
        old(iter)@[0] == DICTIONARY_START,
        spec_value(old(iter)@) is Ok,
    ensures
        value_read_ok(old(iter)@, final(iter)@, r),
{
    match try_decode_dictionary(iter) {
        Ok(b) => b,
        Err(_) => unreached(),
    }
}

/// Reads one value, chosen by its next byte, which the bytes must hold; at
/// the end of the input it is `Eof`.
fn decode_next(iter: &mut ByteIter) -> (r: Bencoding)
    requires
        spec_value(old(iter)@) is Ok,
    ensures
        value_read_ok(old(iter)@, final(iter)@, r),
{
    match iter.peek() {
        None => {
            assert(iter@.skip(0) =~= iter@);
            Bencoding::Eof
        },
        Some(c) => {
            if c == DICTIONARY_START {
                decode_dictionary(iter)
            } else if c == LIST_START {
                decode_list(iter)
            } else if c == NUMBER_START {
                decode_number(iter, NUMBER_END)
            } else {
                decode_byte_string(iter)
            }
        },
    }
}

/// Decodes the first value of `src`, which must be well formed (see
/// `try_decode` for the errors); bytes after the value are not read. An
/// empty `src` decodes to `Eof`.
pub fn decode(src: Vec<u8>) -> (r: Bencoding)
    requires
        spec_decode(src@) is Ok,
    ensures
        spec_decode(src@) == Ok::<SpecBencoding, DecodeError>(r@),
        r@.dicts_ordered(),
{
    let mut iter = ByteIter::new(src.as_slice());
    proof {
        lemma_decoded_dicts_ordered(src@);
    }
    decode_next(&mut iter)
}

/// Takes the next item of `iter`.
fn take_next<I: Iterator>(iter: &mut I) -> (r: Option<I::Item>)
    requires
        vstd::std_specs::iter::IteratorSpec::obeys_prophetic_iter_laws(old(iter)),
    ensures
        vstd::std_specs::iter::IteratorSpec::remaining(old(iter)).len() > 0 ==> {
            &&& vstd::std_specs::iter::IteratorSpec::remaining(final(iter))
                == vstd::std_specs::iter::IteratorSpec::remaining(old(iter)).drop_first()
            &&& r == Some(vstd::std_specs::iter::IteratorSpec::remaining(old(iter))[0])
        },
{
    iter.next()
}

/// Advances `iter` past its next item, which it must have.
pub fn iter_print<'a>(iter: &mut std::slice::Iter<'a, u32>)
    requires
        vstd::std_specs::iter::IteratorSpec::remaining(old(iter)).len() > 0,
    ensures
        vstd::std_specs::iter::IteratorSpec::remaining(final(iter))
            == vstd::std_specs::iter::IteratorSpec::remaining(old(iter)).drop_first(),
{
    let opt = take_next(iter);
    match opt {
        Some(_v) => {},
        None => {},
    }
}

} // verus!
