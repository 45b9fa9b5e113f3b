//! Properties that relate the encoder and the decoder.
use vstd::prelude::*;
use crate::grammar::{
    collapse_keys, number_text, spec_byte_string, spec_decode, spec_dict_entries, spec_list_items, spec_number,
    spec_value,
};
use crate::libencode::{
    encode_bytes, encode_entries, encode_items, insert_position, keys_of, sorted_positions, spec_encode,
};
use crate::number::{
    all_digits, decimal, is_digit, lemma_decimal, parse_u64, trim, trim_start,
};
use crate::value::{
    keys_ascending, keys_increasing, lemma_dict_entries_wf, lemma_list_items_ordered, lemma_list_items_wf, seq_le,
    seq_lt, SpecBencoding,
};
use crate::{BYTE_ARRAY_DIVIDER, DICTIONARY_END, DICTIONARY_START, LIST_END, LIST_START, NUMBER_END, NUMBER_START};

verus! {

/// The text of a number is read up to its terminator, which is consumed.
pub(crate) proof fn lemma_number_text_of(d: Seq<u8>, t: u8, rest: Seq<u8>, skip_start: bool)
    requires
        forall|i: int| 0 <= i < d.len() ==> (#[trigger] d[i]) != t && d[i] < 128,
        skip_start ==> forall|i: int| 0 <= i < d.len() ==> (#[trigger] d[i]) != NUMBER_START,
        skip_start ==> t != NUMBER_START,
    ensures
        number_text(d + seq![t] + rest, t, skip_start) == Ok::<(Seq<u8>, int), crate::value::DecodeError>(
            (d, d.len() + 1int),
        ),
    decreases d.len(),
{
    let s = d + seq![t] + rest;
    if d.len() == 0 {
        assert(d =~= Seq::<u8>::empty());
        assert(s[0] == t);
    } else {
        assert(s[0] == d[0]);
        assert(s.drop_first() =~= d.drop_first() + seq![t] + rest);
        lemma_number_text_of(d.drop_first(), t, rest, skip_start);
        assert(seq![d[0]] + d.drop_first() =~= d);
    }
}

/// Digits are left as they are by `trim`.
proof fn lemma_trim_digits(d: Seq<u8>)
    requires
        all_digits(d),
    ensures
        trim(d) == d,
{
    if d.len() > 0 {
        assert(is_digit(d[0]));
        assert(is_digit(d[d.len() - 1]));
    }
    assert(trim_start(d) == d);
}

/// The decimal writing of `n` reads back as `n`.
pub(crate) proof fn lemma_parse_decimal(n: nat)
    requires
        n <= u64::MAX,
    ensures
        parse_u64(trim(decimal(n))) == Some(n as u64),
{
    lemma_decimal(n);
    lemma_trim_digits(decimal(n));
}

/// The digits of a decimal writing are neither terminators nor `i`.
pub(crate) proof fn lemma_decimal_bytes(n: nat)
    ensures
        forall|i: int|
            0 <= i < decimal(n).len() ==> (#[trigger] decimal(n)[i]) != NUMBER_END && decimal(n)[i]
                != BYTE_ARRAY_DIVIDER && decimal(n)[i] != NUMBER_START && decimal(n)[i] < 128,
{
    lemma_decimal(n);
    assert forall|i: int| 0 <= i < decimal(n).len() implies (#[trigger] decimal(n)[i]) != NUMBER_END
        && decimal(n)[i] != BYTE_ARRAY_DIVIDER && decimal(n)[i] != NUMBER_START && decimal(n)[i] < 128 by {
        assert(is_digit(decimal(n)[i]));
    }
}

/// A byte string's encoding, whatever follows it, reads back as the byte
/// string.
pub(crate) proof fn lemma_bytes_roundtrip(b: Seq<u8>, rest: Seq<u8>)
    requires
        b.len() <= u64::MAX,
    ensures
        spec_byte_string(encode_bytes(b) + rest) == Ok::<(Seq<u8>, int), crate::value::DecodeError>(
            (b, encode_bytes(b).len() as int),
        ),
{
    let d = decimal(b.len());
    let s = encode_bytes(b) + rest;
    lemma_decimal_bytes(b.len());
    assert(s =~= d + seq![BYTE_ARRAY_DIVIDER] + (b + rest));
    lemma_number_text_of(d, BYTE_ARRAY_DIVIDER, b + rest, false);
    lemma_parse_decimal(b.len());
    assert(s.skip(d.len() + 1int) =~= b + rest);
    assert((b + rest).take(b.len() as int) =~= b);
}

/// The first byte of an encoding tells its kind, and is never an end byte.
proof fn lemma_encode_first_byte(v: SpecBencoding)
    requires
        v.wf(),
    ensures
        spec_encode(v).len() > 0,
        spec_encode(v)[0] != LIST_END,
        v is Integer <==> spec_encode(v)[0] == NUMBER_START,
        v is List <==> spec_encode(v)[0] == LIST_START,
        v is Dictionary <==> spec_encode(v)[0] == DICTIONARY_START,
{
    match v {
        SpecBencoding::ByteString(b) => {
            lemma_decimal(b.len());
            assert(spec_encode(v)[0] == decimal(b.len())[0]);
            assert(is_digit(decimal(b.len())[0]));
        },
        _ => {},
    }
}

/// Strictly increasing keys are ascending, and have nothing to collapse.
proof fn lemma_collapse_increasing(entries: Seq<(Seq<u8>, SpecBencoding)>)
    requires
        keys_increasing(entries),
    ensures
        keys_ascending(entries),
        collapse_keys(entries) == entries,
    decreases entries.len(),
{
    if entries.len() > 0 {
        let init = entries.drop_last();
        assert(keys_increasing(init)) by {
            assert forall|i: int| 0 <= i < init.len() - 1 implies crate::value::seq_lt(#[trigger] init[i].0, init[i + 1].0) by {
                assert(init[i] == entries[i] && init[i + 1] == entries[i + 1]);
            }
        }
        lemma_collapse_increasing(init);
        if init.len() > 0 {
            assert(init.last() == entries[entries.len() - 2]);
            assert(crate::value::seq_lt(entries[entries.len() - 2].0, entries[entries.len() - 1].0));
        }
        assert(init.push(entries.last()) =~= entries);
    }
}

/// Decoding the encoding of a value that can be encoded and whose
/// dictionaries hold each key once, in sorted order (as every decoded value
/// does), whatever bytes follow it, gives back that value and consumes
/// exactly its encoding.
pub proof fn lemma_decode_encode(v: SpecBencoding, rest: Seq<u8>)
    requires
        v.wf(),
        v.dicts_ordered(),
    ensures
        spec_value(spec_encode(v) + rest) == Ok::<(SpecBencoding, int), crate::value::DecodeError>(
            (v, spec_encode(v).len() as int),
        ),
    decreases v, 0nat,
{
    let s = spec_encode(v) + rest;
    match v {
        SpecBencoding::Integer(n) => {
            let d = decimal(n as nat);
            lemma_decimal_bytes(n as nat);
            assert(s[0] == NUMBER_START);
            assert(s.drop_first() =~= d + seq![NUMBER_END] + rest);
            lemma_number_text_of(d, NUMBER_END, rest, true);
            lemma_parse_decimal(n as nat);
            assert(number_text(s, NUMBER_END, true) == Ok::<(Seq<u8>, int), crate::value::DecodeError>(
                (d, d.len() + 2int),
            ));
        },
        SpecBencoding::ByteString(b) => {
            lemma_encode_first_byte(v);
            lemma_bytes_roundtrip(b, rest);
        },
        SpecBencoding::List(items) => {
            lemma_list_items_wf(items);
            lemma_list_items_ordered(items);
            assert(s.drop_first() =~= encode_items(items) + seq![LIST_END] + rest);
            lemma_items_roundtrip(items, rest);
        },
        SpecBencoding::Dictionary(entries) => {
            let order = sorted_positions(keys_of(entries), entries.len());
            lemma_dict_entries_wf(entries);
            assert(v matches SpecBencoding::Dictionary(w) && w == entries);
            assert(keys_increasing(entries));
            assert(forall|j: int| #![trigger entries[j]] 0 <= j < entries.len() ==> entries[j].1.dicts_ordered());
            lemma_sorted_positions_increasing(entries, entries.len());
            assert(s.drop_first() =~= encode_entries(entries, order) + seq![DICTIONARY_END] + rest);
            lemma_entries_roundtrip(entries, order, rest);
            assert(pick(entries, order) =~= entries);
            lemma_collapse_increasing(entries);
        },
        SpecBencoding::Eof => {},
    }
}

/// The items of a list are read back up to and including its end byte.
pub(crate) proof fn lemma_items_roundtrip(items: Seq<SpecBencoding>, rest: Seq<u8>)
    requires
        forall|i: int| 0 <= i < items.len() ==> (#[trigger] items[i]).wf(),
        forall|i: int| 0 <= i < items.len() ==> (#[trigger] items[i]).dicts_ordered(),
    ensures
        spec_list_items(encode_items(items) + seq![LIST_END] + rest) == Ok::<
            (Seq<SpecBencoding>, int),
            crate::value::DecodeError,
        >((items, encode_items(items).len() + 1int)),
    decreases items, 0nat,
{
    let s = encode_items(items) + seq![LIST_END] + rest;
    if items.len() == 0 {
        assert(items =~= Seq::<SpecBencoding>::empty());
        assert(encode_items(items).len() == 0);
        assert(s[0] == LIST_END);
    } else {
        let head = spec_encode(items[0]);
        let tail = encode_items(items.drop_first()) + seq![LIST_END] + rest;
        assert(s =~= head + tail);
        assert(items[0].wf());
        assert(items[0].dicts_ordered());
        lemma_encode_first_byte(items[0]);
        assert(s[0] == head[0]);
        lemma_decode_encode(items[0], tail);
        assert(s.skip(head.len() as int) =~= tail);
        assert forall|i: int| 0 <= i < items.drop_first().len() implies (#[trigger] items.drop_first()[i]).wf()
            && items.drop_first()[i].dicts_ordered() by {
            assert(items.drop_first()[i] == items[i + 1]);
        }
        lemma_items_roundtrip(items.drop_first(), rest);
        assert(seq![items[0]] + items.drop_first() =~= items);
    }
}

/// The entries of `entries` at the positions `order`, in that order.
pub open spec fn pick(entries: Seq<(Seq<u8>, SpecBencoding)>, order: Seq<int>) -> Seq<(Seq<u8>, SpecBencoding)> {
    Seq::new(order.len(), |i: int| entries[order[i]])
}

/// With strictly increasing keys, the sorted positions are `0..n` in order.
pub(crate) proof fn lemma_sorted_positions_increasing(entries: Seq<(Seq<u8>, SpecBencoding)>, n: nat)
    requires
        keys_increasing(entries),
        n <= entries.len(),
    ensures
        sorted_positions(keys_of(entries), n) == Seq::new(n, |i: int| i),
    decreases n,
{
    if n > 0 {
        lemma_sorted_positions_increasing(entries, (n - 1) as nat);
        let prev = Seq::new((n - 1) as nat, |i: int| i);
        if n > 1 {
            assert(prev.last() == n - 2);
            assert(seq_lt(entries[n - 2].0, entries[n - 1].0));
            assert(keys_of(entries)[n - 2] == entries[n - 2].0);
            assert(keys_of(entries)[n - 1] == entries[n - 1].0);
        }
        assert(sorted_positions(keys_of(entries), n) =~= Seq::new(n, |i: int| i));
    }
}

/// The entries of a dictionary written at `order` are read back, in that
/// order, up to and including its end byte.
pub(crate) proof fn lemma_entries_roundtrip(entries: Seq<(Seq<u8>, SpecBencoding)>, order: Seq<int>, rest: Seq<u8>)
    requires
        forall|i: int| 0 <= i < order.len() ==> 0 <= #[trigger] order[i] < entries.len(),
        forall|i: int| 0 <= i < entries.len() ==> (#[trigger] entries[i]).0.len() <= u64::MAX,
        forall|i: int| 0 <= i < entries.len() ==> (#[trigger] entries[i]).1.wf(),
        forall|i: int| 0 <= i < entries.len() ==> (#[trigger] entries[i]).1.dicts_ordered(),
    ensures
        spec_dict_entries(encode_entries(entries, order) + seq![DICTIONARY_END] + rest) == Ok::<
            (Seq<(Seq<u8>, SpecBencoding)>, int),
            crate::value::DecodeError,
        >((pick(entries, order), encode_entries(entries, order).len() + 1int)),
    decreases entries, order.len(),
{
    let s = encode_entries(entries, order) + seq![DICTIONARY_END] + rest;
    if order.len() == 0 {
        assert(pick(entries, order) =~= Seq::<(Seq<u8>, SpecBencoding)>::empty());
        assert(encode_entries(entries, order).len() == 0);
        assert(s[0] == DICTIONARY_END);
    } else {
        let k = order[0];
        assert(0 <= k < entries.len());
        let e = entries[k];
        let key = encode_bytes(e.0);
        let value = spec_encode(e.1);
        let tail = encode_entries(entries, order.drop_first()) + seq![DICTIONARY_END] + rest;
        assert(s =~= key + (value + tail));
        assert(e.0.len() <= u64::MAX);
        assert(e.1.wf());
        assert(e.1.dicts_ordered());
        lemma_decimal(e.0.len());
        assert(s[0] == decimal(e.0.len())[0]);
        assert(is_digit(decimal(e.0.len())[0]));
        lemma_bytes_roundtrip(e.0, value + tail);
        assert(s.skip(key.len() as int) =~= value + tail);
        assert(decreases_to!(entries => entries[k]));
        lemma_decode_encode(e.1, tail);
        lemma_encode_first_byte(e.1);
        assert(s.skip(key.len() + value.len() as int) =~= tail);
        let rest_order = order.drop_first();
        assert forall|i: int| 0 <= i < rest_order.len() implies 0 <= #[trigger] rest_order[i] < entries.len() by {
            assert(rest_order[i] == order[i + 1]);
        }
        lemma_entries_roundtrip(entries, rest_order, rest);
        assert(seq![e] + pick(entries, rest_order) =~= pick(entries, order));
    }
}

/// Decoding the encoding of a value that can be encoded, and whose
/// dictionaries are ordered, gives back that value.
pub proof fn lemma_decode_of_encode(v: SpecBencoding)
    requires
        v.wf(),
        v.dicts_ordered(),
    ensures
        spec_decode(spec_encode(v)) == Ok::<SpecBencoding, crate::value::DecodeError>(v),
{
    lemma_decode_encode(v, Seq::empty());
    assert(spec_encode(v) + Seq::<u8>::empty() =~= spec_encode(v));
}

/// Bytes that are the encoding of a value that can be encoded decode to a
/// value that can be encoded again, and encoding it gives back those bytes.
pub proof fn lemma_encode_of_decode(s: Seq<u8>, v: SpecBencoding)
    requires
        v.wf(),
        s == spec_encode(v),
    ensures
        spec_decode(s) matches Ok(w) && w.wf() && spec_encode(w) == s,
{
    lemma_decode_of_encode_normalizes(v);
    lemma_encode_normalize(v);
}

/// Collapsing runs of equal keys in ascending entries leaves strictly
/// increasing keys, each entry taken from the input, and the input's last
/// entry last.
pub(crate) proof fn lemma_collapse_ascending(entries: Seq<(Seq<u8>, SpecBencoding)>)
    requires
        keys_ascending(entries),
    ensures
        keys_increasing(collapse_keys(entries)),
        collapse_keys(entries).len() <= entries.len(),
        collapse_keys(entries).len() == 0 <==> entries.len() == 0,
        entries.len() > 0 ==> collapse_keys(entries).last() == entries.last(),
        forall|i: int|
            0 <= i < collapse_keys(entries).len() ==> exists|j: int|
                0 <= j < entries.len() && #[trigger] collapse_keys(entries)[i] == entries[j],
    decreases entries.len(),
{
    if entries.len() > 0 {
        let init = entries.drop_last();
        let x = entries.last();
        assert(keys_ascending(init)) by {
            assert forall|i: int| 0 <= i < init.len() - 1 implies seq_le(#[trigger] init[i].0, init[i + 1].0) by {
                assert(init[i] == entries[i] && init[i + 1] == entries[i + 1]);
            }
        }
        lemma_collapse_ascending(init);
        let p = collapse_keys(init);
        let c = collapse_keys(entries);
        if p.len() > 0 && p.last().0 == x.0 {
            assert(c == p.drop_last().push(x));
            assert forall|i: int| 0 <= i < c.len() - 1 implies seq_lt(#[trigger] c[i].0, c[i + 1].0) by {
                if i < c.len() - 2 {
                    assert(c[i] == p[i] && c[i + 1] == p[i + 1]);
                } else {
                    assert(c[i] == p[i] && c[i + 1] == x);
                    assert(seq_lt(p[i].0, p[i + 1].0));
                }
            }
            assert forall|i: int| 0 <= i < c.len() implies exists|j: int|
                0 <= j < entries.len() && #[trigger] c[i] == entries[j] by {
                if i < c.len() - 1 {
                    assert(c[i] == p[i]);
                    let j = choose|j: int| 0 <= j < init.len() && p[i] == init[j];
                    assert(init[j] == entries[j]);
                } else {
                    assert(c[i] == entries[entries.len() - 1]);
                }
            }
        } else {
            assert(c == p.push(x));
            assert forall|i: int| 0 <= i < c.len() - 1 implies seq_lt(#[trigger] c[i].0, c[i + 1].0) by {
                if i < c.len() - 2 {
                    assert(c[i] == p[i] && c[i + 1] == p[i + 1]);
                } else {
                    assert(c[i] == p.last() && c[i + 1] == x);
                    assert(p.last() == init.last());
                    assert(init.last() == entries[entries.len() - 2]);
                    assert(seq_le(entries[entries.len() - 2].0, entries[entries.len() - 1].0));
                }
            }
            assert forall|i: int| 0 <= i < c.len() implies exists|j: int|
                0 <= j < entries.len() && #[trigger] c[i] == entries[j] by {
                if i < c.len() - 1 {
                    assert(c[i] == p[i]);
                    let j = choose|j: int| 0 <= j < init.len() && p[i] == init[j];
                    assert(init[j] == entries[j]);
                } else {
                    assert(c[i] == entries[entries.len() - 1]);
                }
            }
        }
    }
}

/// Every value that `decode` gives back holds each key of each of its
/// dictionaries once, in sorted order.
pub proof fn lemma_decoded_dicts_ordered(s: Seq<u8>)
    ensures
        spec_value(s) matches Ok((v, _)) ==> v.dicts_ordered(),
    decreases s.len(), 0nat,
{
    if s.len() > 0 {
        if s[0] == DICTIONARY_START {
            lemma_decoded_entries_ordered(s.drop_first());
            if let Ok((entries, m)) = spec_dict_entries(s.drop_first()) {
                if keys_ascending(entries) {
                    lemma_collapse_ascending(entries);
                    let c = collapse_keys(entries);
                    assert forall|i: int| 0 <= i < c.len() implies (#[trigger] c[i]).1.dicts_ordered() by {
                        let j = choose|j: int| 0 <= j < entries.len() && c[i] == entries[j];
                    }
                }
            }
        } else if s[0] == LIST_START {
            lemma_decoded_items_ordered(s.drop_first());
        }
    }
}

proof fn lemma_decoded_items_ordered(s: Seq<u8>)
    ensures
        spec_list_items(s) matches Ok((items, _)) ==> forall|i: int|
            0 <= i < items.len() ==> (#[trigger] items[i]).dicts_ordered(),
    decreases s.len(), 1nat,
{
    if s.len() > 0 && s[0] != LIST_END {
        lemma_decoded_dicts_ordered(s);
        if let Ok((v, n)) = spec_value(s) {
            if 0 < n <= s.len() {
                lemma_decoded_items_ordered(s.skip(n));
                if let Ok((items, m)) = spec_list_items(s.skip(n)) {
                    let all = seq![v] + items;
                    assert forall|i: int| 0 <= i < all.len() implies (#[trigger] all[i]).dicts_ordered() by {
                        if i > 0 {
                            assert(all[i] == items[i - 1]);
                        }
                    }
                }
            }
        }
    }
}

proof fn lemma_decoded_entries_ordered(s: Seq<u8>)
    ensures
        spec_dict_entries(s) matches Ok((entries, _)) ==> forall|i: int|
            0 <= i < entries.len() ==> (#[trigger] entries[i]).1.dicts_ordered(),
    decreases s.len(), 1nat,
{
    if s.len() > 0 && s[0] != DICTIONARY_END {
        if let Ok((key, n1)) = spec_byte_string(s) {
            if 0 < n1 <= s.len() {
                lemma_decoded_dicts_ordered(s.skip(n1));
                if let Ok((v, n2)) = spec_value(s.skip(n1)) {
                    if 0 <= n2 <= s.len() - n1 {
                        lemma_decoded_entries_ordered(s.skip(n1 + n2));
                        if let Ok((entries, m)) = spec_dict_entries(s.skip(n1 + n2)) {
                            let all = seq![(key, v)] + entries;
                            assert forall|i: int| 0 <= i < all.len() implies (#[trigger] all[i]).1.dicts_ordered() by {
                                if i > 0 {
                                    assert(all[i] == entries[i - 1]);
                                }
                            }
                        }
                    }
                }
            }
        }
    }
}

/// Of two byte strings, one is at most the other.
pub(crate) proof fn lemma_seq_le_total(a: Seq<u8>, b: Seq<u8>)
    ensures
        seq_le(a, b) || seq_le(b, a),
    decreases a.len(),
{
    if a.len() > 0 && b.len() > 0 && a[0] == b[0] {
        lemma_seq_le_total(a.drop_first(), b.drop_first());
    }
}

/// The keys at `order` strictly increase.
pub open spec fn positions_increasing(order: Seq<int>, keys: Seq<Seq<u8>>) -> bool {
    forall|i: int| 0 <= i < order.len() - 1 ==> seq_lt(keys[#[trigger] order[i]], keys[order[i + 1]])
}

/// Inserting a position keeps the keys increasing, and ends with the
/// inserted position or with the last one before.
pub(crate) proof fn lemma_insert_position_increasing(order: Seq<int>, keys: Seq<Seq<u8>>, j: int)
    requires
        positions_increasing(order, keys),
    ensures
        positions_increasing(insert_position(order, keys, j), keys),
        insert_position(order, keys, j).len() > 0,
        insert_position(order, keys, j).last() == j || (order.len() > 0 && insert_position(order, keys, j).last()
            == order.last()),
    decreases order.len(),
{
    let r = insert_position(order, keys, j);
    if order.len() > 0 {
        let init = order.drop_last();
        let last = order.last();
        assert(positions_increasing(init, keys)) by {
            assert forall|i: int| 0 <= i < init.len() - 1 implies seq_lt(keys[#[trigger] init[i]], keys[init[i + 1]]) by {
                assert(init[i] == order[i] && init[i + 1] == order[i + 1]);
            }
        }
        if seq_lt(keys[last], keys[j]) {
            assert(r == order.push(j));
            assert forall|i: int| 0 <= i < r.len() - 1 implies seq_lt(keys[#[trigger] r[i]], keys[r[i + 1]]) by {
                if i < order.len() - 1 {
                    assert(r[i] == order[i] && r[i + 1] == order[i + 1]);
                } else {
                    assert(r[i] == last && r[i + 1] == j);
                }
            }
        } else if keys[last] == keys[j] {
            assert(r == init.push(j));
            assert forall|i: int| 0 <= i < r.len() - 1 implies seq_lt(keys[#[trigger] r[i]], keys[r[i + 1]]) by {
                if i < init.len() - 1 {
                    assert(r[i] == order[i] && r[i + 1] == order[i + 1]);
                } else {
                    assert(r[i] == order[i] && r[i + 1] == j);
                    assert(seq_lt(keys[order[i]], keys[order[i + 1]]));
                }
            }
        } else {
            lemma_seq_le_total(keys[last], keys[j]);
            assert(seq_lt(keys[j], keys[last]));
            lemma_insert_position_increasing(init, keys, j);
            let p = insert_position(init, keys, j);
            assert(r == p.push(last));
            if p.last() != j {
                assert(init.len() > 0 && p.last() == init.last());
                assert(init.last() == order[order.len() - 2]);
                assert(seq_lt(keys[order[order.len() - 2]], keys[order[order.len() - 1]]));
            }
            assert forall|i: int| 0 <= i < r.len() - 1 implies seq_lt(keys[#[trigger] r[i]], keys[r[i + 1]]) by {
                if i < p.len() - 1 {
                    assert(r[i] == p[i] && r[i + 1] == p[i + 1]);
                } else {
                    assert(r[i] == p.last() && r[i + 1] == last);
                }
            }
        }
    }
}

/// `encode` writes the keys of a dictionary in strictly increasing order:
/// the positions it writes, taken in order, have strictly increasing keys.
pub proof fn lemma_encode_sorts_keys(keys: Seq<Seq<u8>>, n: nat)
    ensures
        positions_increasing(sorted_positions(keys, n), keys),
    decreases n,
{
    if n > 0 {
        lemma_encode_sorts_keys(keys, (n - 1) as nat);
        lemma_insert_position_increasing(sorted_positions(keys, (n - 1) as nat), keys, n - 1);
    }
}

/// `v` with each dictionary, at any depth, written as `encode` writes it:
/// entries in sorted order of their keys, and of the entries with equal
/// keys only the last.
pub open spec fn normalize(v: SpecBencoding) -> SpecBencoding
    decreases v,
{
    match v {
        SpecBencoding::List(items) => SpecBencoding::List(
            Seq::new(
                items.len(),
                |i: int|
                    if 0 <= i < items.len() {
                        proof {
                            assert(decreases_to!(v => items));
                            assert(decreases_to!(items => items[i]));
                        }
                        normalize(items[i])
                    } else {
                        SpecBencoding::Eof
                    },
            ),
        ),
        SpecBencoding::Dictionary(entries) => {
            let order = sorted_positions(keys_of(entries), entries.len());
            SpecBencoding::Dictionary(
                Seq::new(
                    order.len(),
                    |i: int|
                        if 0 <= i < order.len() && 0 <= order[i] < entries.len() {
                            proof {
                                assert(decreases_to!(v => entries));
                                assert(decreases_to!(entries => entries[order[i]]));
                            }
                            (entries[order[i]].0, normalize(entries[order[i]].1))
                        } else {
                            (Seq::empty(), SpecBencoding::Eof)
                        },
                ),
            )
        },
        _ => v,
    }
}

/// Inserting a position below `n` into positions below `n` keeps them below
/// `n`.
proof fn lemma_insert_position_range(order: Seq<int>, keys: Seq<Seq<u8>>, j: int, n: int)
    requires
        0 <= j < n,
        forall|i: int| 0 <= i < order.len() ==> 0 <= #[trigger] order[i] < n,
    ensures
        forall|i: int|
            0 <= i < insert_position(order, keys, j).len() ==> 0 <= #[trigger] insert_position(order, keys, j)[i]
                < n,
    decreases order.len(),
{
    if order.len() > 0 {
        let init = order.drop_last();
        assert forall|i: int| 0 <= i < init.len() implies 0 <= #[trigger] init[i] < n by {
            assert(init[i] == order[i]);
        }
        lemma_insert_position_range(init, keys, j, n);
        let r = insert_position(order, keys, j);
        assert(order.last() == order[order.len() - 1]);
        assert forall|i: int| 0 <= i < r.len() implies 0 <= #[trigger] r[i] < n by {
            if seq_lt(keys[order.last()], keys[j]) {
                assert(r == order.push(j));
                if i < order.len() {
                    assert(r[i] == order[i]);
                }
            } else if keys[order.last()] == keys[j] {
                assert(r == init.push(j));
                if i < init.len() {
                    assert(r[i] == init[i]);
                }
            } else {
                let p = insert_position(init, keys, j);
                assert(r == p.push(order.last()));
                if i < p.len() {
                    assert(r[i] == p[i]);
                }
            }
        }
    }
}

/// The sorted positions of the first `n` keys lie in `0..n`.
pub(crate) proof fn lemma_sorted_positions_range(keys: Seq<Seq<u8>>, n: nat)
    ensures
        forall|i: int| 0 <= i < sorted_positions(keys, n).len() ==> 0 <= #[trigger] sorted_positions(keys, n)[i] < n,
    decreases n,
{
    if n > 0 {
        lemma_sorted_positions_range(keys, (n - 1) as nat);
        lemma_insert_position_range(sorted_positions(keys, (n - 1) as nat), keys, n - 1, n as int);
    }
}

/// The keys and values at `order`, one after the other.
pub open spec fn encode_pairs(pairs: Seq<(Seq<u8>, SpecBencoding)>) -> Seq<u8>
    decreases pairs.len(),
{
    if pairs.len() == 0 {
        Seq::empty()
    } else {
        encode_bytes(pairs[0].0) + spec_encode(pairs[0].1) + encode_pairs(pairs.drop_first())
    }
}

/// Writing the entries at `order` is writing the picked entries in order.
pub(crate) proof fn lemma_encode_entries_pick(entries: Seq<(Seq<u8>, SpecBencoding)>, order: Seq<int>)
    requires
        forall|i: int| 0 <= i < order.len() ==> 0 <= #[trigger] order[i] < entries.len(),
    ensures
        encode_entries(entries, order) == encode_pairs(pick(entries, order)),
    decreases order.len(),
{
    if order.len() > 0 {
        let rest = order.drop_first();
        assert forall|i: int| 0 <= i < rest.len() implies 0 <= #[trigger] rest[i] < entries.len() by {
            assert(rest[i] == order[i + 1]);
        }
        lemma_encode_entries_pick(entries, rest);
        assert(pick(entries, order).drop_first() =~= pick(entries, rest));
        assert(0 <= order[0] < entries.len());
    } else {
        assert(pick(entries, order).len() == 0);
    }
}

/// Items whose encodings are alike, place by place, encode alike.
proof fn lemma_encode_items_alike(a: Seq<SpecBencoding>, b: Seq<SpecBencoding>)
    requires
        a.len() == b.len(),
        forall|i: int| 0 <= i < a.len() ==> spec_encode(#[trigger] a[i]) == spec_encode(b[i]),
    ensures
        encode_items(a) == encode_items(b),
    decreases a.len(),
{
    if a.len() > 0 {
        assert(spec_encode(a[0]) == spec_encode(b[0]));
        assert forall|i: int| 0 <= i < a.drop_first().len() implies spec_encode(#[trigger] a.drop_first()[i])
            == spec_encode(b.drop_first()[i]) by {
            assert(a.drop_first()[i] == a[i + 1] && b.drop_first()[i] == b[i + 1]);
        }
        lemma_encode_items_alike(a.drop_first(), b.drop_first());
    }
}

/// Pairs with equal keys and alike-encoding values, place by place, encode
/// alike.
proof fn lemma_encode_pairs_alike(a: Seq<(Seq<u8>, SpecBencoding)>, b: Seq<(Seq<u8>, SpecBencoding)>)
    requires
        a.len() == b.len(),
        forall|i: int| 0 <= i < a.len() ==> (#[trigger] a[i]).0 == b[i].0 && spec_encode(a[i].1) == spec_encode(b[i].1),
    ensures
        encode_pairs(a) == encode_pairs(b),
    decreases a.len(),
{
    if a.len() > 0 {
        assert(a[0].0 == b[0].0 && spec_encode(a[0].1) == spec_encode(b[0].1));
        assert forall|i: int| 0 <= i < a.drop_first().len() implies (#[trigger] a.drop_first()[i]).0
            == b.drop_first()[i].0 && spec_encode(a.drop_first()[i].1) == spec_encode(b.drop_first()[i].1) by {
            assert(a.drop_first()[i] == a[i + 1] && b.drop_first()[i] == b[i + 1]);
        }
        lemma_encode_pairs_alike(a.drop_first(), b.drop_first());
    }
}

/// Encoding a value gives the same bytes as encoding its normal form, which
/// can be encoded too and whose dictionaries are ordered: `encode` ignores
/// the order of a dictionary's entries and keeps, of equal keys, the last.
pub proof fn lemma_encode_normalize(v: SpecBencoding)
    requires
        v.wf(),
    ensures
        spec_encode(normalize(v)) == spec_encode(v),
        normalize(v).wf(),
        normalize(v).dicts_ordered(),
    decreases v,
{
    match v {
        SpecBencoding::List(items) => {
            lemma_list_items_wf(items);
            let n = normalize(v);
            assert(n is List);
            let ni = n->List_0;
            assert(ni.len() == items.len());
            assert forall|i: int| 0 <= i < items.len() implies spec_encode(#[trigger] ni[i]) == spec_encode(items[i])
                && ni[i].wf() && ni[i].dicts_ordered() by {
                assert(ni[i] == normalize(items[i]));
                assert(decreases_to!(v => items));
                assert(decreases_to!(items => items[i]));
                lemma_encode_normalize(items[i]);
            }
            lemma_encode_items_alike(ni, items);
            assert(n == SpecBencoding::List(ni));
        },
        SpecBencoding::Dictionary(es) => {
            lemma_dict_entries_wf(es);
            let keys = keys_of(es);
            let order = sorted_positions(keys, es.len());
            lemma_sorted_positions_range(keys, es.len());
            lemma_encode_sorts_keys(keys, es.len());
            let n = normalize(v);
            assert(n is Dictionary);
            let ne = n->Dictionary_0;
            assert(ne.len() == order.len());
            let picked = pick(es, order);
            assert forall|i: int| 0 <= i < ne.len() implies (#[trigger] ne[i]).0 == picked[i].0 && spec_encode(ne[i].1)
                == spec_encode(picked[i].1) && ne[i].1.wf() && ne[i].1.dicts_ordered() && ne[i].0.len() <= u64::MAX by {
                let k = order[i];
                assert(0 <= k < es.len());
                assert(ne[i] == (es[k].0, normalize(es[k].1)));
                assert(picked[i] == es[k]);
                assert(decreases_to!(v => es));
                assert(decreases_to!(es => es[k]));
                lemma_encode_normalize(es[k].1);
            }
            assert forall|i: int| 0 <= i < ne.len() - 1 implies seq_lt(#[trigger] ne[i].0, ne[i + 1].0) by {
                assert(seq_lt(keys[order[i]], keys[order[i + 1]]));
                assert(ne[i].0 == es[order[i]].0 && ne[i + 1].0 == es[order[i + 1]].0);
            }
            assert(keys_increasing(ne));
            lemma_sorted_positions_increasing(ne, ne.len());
            let range = Seq::new(ne.len(), |i: int| i);
            assert(sorted_positions(keys_of(ne), ne.len()) == range);
            lemma_encode_entries_pick(ne, range);
            assert(pick(ne, range) =~= ne);
            lemma_encode_entries_pick(es, order);
            lemma_encode_pairs_alike(ne, picked);
            assert(n == SpecBencoding::Dictionary(ne));
        },
        _ => {},
    }
}

/// Decoding the encoding of any value that can be encoded gives back its
/// normal form: the value with each dictionary's entries sorted by key and,
/// of equal keys, only the last kept.
pub proof fn lemma_decode_of_encode_normalizes(v: SpecBencoding)
    requires
        v.wf(),
    ensures
        spec_decode(spec_encode(v)) == Ok::<SpecBencoding, crate::value::DecodeError>(normalize(v)),
{
    lemma_encode_normalize(v);
    lemma_decode_of_encode(normalize(v));
}

} // verus!
