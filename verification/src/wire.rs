//! The exact bytes of each kind of value, stated without the decoder, and
//! what the decoder reads from exactly those bytes.
use vstd::prelude::*;
use crate::grammar::{collapse_keys, spec_value};
use crate::laws::{
    encode_pairs, lemma_collapse_ascending, lemma_decode_encode, lemma_entries_roundtrip, lemma_encode_entries_pick, lemma_encode_sorts_keys, lemma_items_roundtrip,
    lemma_seq_le_total, lemma_sorted_positions_range, pick, positions_increasing,
};
use crate::libencode::{encode_bytes, encode_entries, encode_items, insert_position, keys_of, sorted_positions, spec_encode};
use crate::number::{
    all_digits, decimal, decimal_value, is_digit, is_trimmed_byte, lemma_decimal, lemma_decimal_value_prefix_le, trim,
    trim_end, trim_start,
};
use crate::value::{keys_ascending, keys_increasing, seq_le, seq_lt, DecodeError, SpecBencoding};
use crate::{BYTE_ARRAY_DIVIDER, DICTIONARY_END, DICTIONARY_START, LIST_END, LIST_START, NUMBER_END, NUMBER_START};

verus! {

/// The encodings of `items`, one after the other.
pub open spec fn concat_encodings(items: Seq<SpecBencoding>) -> Seq<u8> {
    items.map_values(|x: SpecBencoding| spec_encode(x)).flatten()
}

/// `decimal(n)` is the one writing of `n` in ASCII digits without a leading
/// zero: it is such a writing, and any such writing of `n` equals it.
pub proof fn lemma_decimal_canonical(n: nat, d: Seq<u8>)
    ensures
        decimal(n).len() >= 1,
        all_digits(decimal(n)),
        decimal(n).len() > 1 ==> decimal(n)[0] != 48,
        decimal_value(decimal(n)) == n,
        (d.len() >= 1 && all_digits(d) && (d.len() > 1 ==> d[0] != 48) && decimal_value(d) == n) ==> d
            == decimal(n),
    decreases d.len(),
{
    lemma_decimal(n);
    lemma_decimal_first_digit(n);
    if d.len() >= 1 && all_digits(d) && (d.len() > 1 ==> d[0] != 48) && decimal_value(d) == n {
        let init = d.drop_last();
        let r = d.last() - 48;
        assert(is_digit(d[d.len() - 1]));
        assert(0 <= r < 10);
        assert(n == decimal_value(init) * 10 + r);
        if d.len() == 1 {
            assert(init =~= Seq::<u8>::empty());
            assert(n == r);
            assert(d =~= decimal(n));
        } else {
            let q = decimal_value(init);
            assert(all_digits(init)) by {
                assert forall|i: int| 0 <= i < init.len() implies is_digit(#[trigger] init[i]) by {
                    assert(init[i] == d[i]);
                }
            }
            lemma_decimal_value_prefix_le(init, 1);
            let t = init.take(1);
            assert(t.drop_last() =~= Seq::<u8>::empty());
            assert(decimal_value(t.drop_last()) == 0);
            assert(t.last() == init[0]);
            assert(decimal_value(t) == init[0] - 48);
            assert(init[0] == d[0]);
            assert(q >= 1);
            assert(n / 10 == q && n % 10 == r) by (nonlinear_arith)
                requires
                    n == q * 10 + r,
                    0 <= r < 10,
            ;
            lemma_decimal_canonical((n / 10) as nat, init);
            assert(init == decimal((n / 10) as nat));
            assert(d =~= decimal((n / 10) as nat) + seq![(48 + n % 10) as u8]);
        }
    }
}

/// The first digit of the writing of a positive number is not zero.
proof fn lemma_decimal_first_digit(n: nat)
    ensures
        n >= 1 ==> decimal(n)[0] != 48,
        decimal(n).len() > 1 ==> n >= 10,
    decreases n,
{
    if n >= 10 {
        lemma_decimal_first_digit(n / 10);
        lemma_decimal(n / 10);
        assert(decimal(n)[0] == decimal(n / 10)[0]);
    }
}

/// An integer is written `i`, the decimal writing of its value, then `e`.
pub proof fn lemma_integer_encoding(n: u64)
    ensures
        spec_encode(SpecBencoding::Integer(n)) == seq![NUMBER_START] + decimal(n as nat) + seq![NUMBER_END],
{
}

/// Reading `i`, the decimal writing of a `u64`, then `e` gives that integer,
/// whatever follows.
pub proof fn lemma_integer_decoding(n: u64, rest: Seq<u8>)
    ensures
        spec_value(seq![NUMBER_START] + decimal(n as nat) + seq![NUMBER_END] + rest) == Ok::<
            (SpecBencoding, int),
            DecodeError,
        >((SpecBencoding::Integer(n), decimal(n as nat).len() + 2int)),
{
    let v = SpecBencoding::Integer(n);
    lemma_decode_encode(v, rest);
}

/// A byte string is written as the decimal writing of its length, `:`, then
/// its bytes.
pub proof fn lemma_byte_string_encoding(b: Seq<u8>)
    ensures
        spec_encode(SpecBencoding::ByteString(b)) == decimal(b.len()) + seq![BYTE_ARRAY_DIVIDER] + b,
{
}

/// Reading the decimal writing of a length, `:`, then that many bytes gives
/// those bytes, whatever follows.
pub proof fn lemma_byte_string_decoding(b: Seq<u8>, rest: Seq<u8>)
    requires
        b.len() <= u64::MAX,
    ensures
        spec_value(decimal(b.len()) + seq![BYTE_ARRAY_DIVIDER] + b + rest) == Ok::<(SpecBencoding, int), DecodeError>(
            (SpecBencoding::ByteString(b), decimal(b.len()).len() + 1int + b.len()),
        ),
{
    let v = SpecBencoding::ByteString(b);
    lemma_decode_encode(v, rest);
}

/// The encodings of items written one after the other are their
/// concatenation, in order.
proof fn lemma_encode_items_concat(items: Seq<SpecBencoding>)
    ensures
        encode_items(items) == concat_encodings(items),
    decreases items.len(),
{
    if items.len() > 0 {
        lemma_encode_items_concat(items.drop_first());
        let m = items.map_values(|x: SpecBencoding| spec_encode(x));
        assert(m.drop_first() =~= items.drop_first().map_values(|x: SpecBencoding| spec_encode(x)));
        assert(m.first() == spec_encode(items[0]));
    } else {
        assert(items.map_values(|x: SpecBencoding| spec_encode(x)) =~= Seq::<Seq<u8>>::empty());
    }
}

/// A list is written `l`, the encodings of its items in order, then `e`.
pub proof fn lemma_list_encoding(items: Seq<SpecBencoding>)
    ensures
        spec_encode(SpecBencoding::List(items)) == seq![LIST_START] + concat_encodings(items) + seq![LIST_END],
{
    lemma_encode_items_concat(items);
}

/// Reading `l`, the encodings of some values in order, then `e` gives the
/// list of those values in that order, whatever follows; the values are
/// ones that can be encoded and whose dictionaries are ordered.
pub proof fn lemma_list_decoding(items: Seq<SpecBencoding>, rest: Seq<u8>)
    requires
        forall|i: int| 0 <= i < items.len() ==> (#[trigger] items[i]).wf(),
        forall|i: int| 0 <= i < items.len() ==> (#[trigger] items[i]).dicts_ordered(),
    ensures
        spec_value(seq![LIST_START] + concat_encodings(items) + seq![LIST_END] + rest) == Ok::<
            (SpecBencoding, int),
            DecodeError,
        >((SpecBencoding::List(items), concat_encodings(items).len() + 2int)),
{
    lemma_encode_items_concat(items);
    let s = seq![LIST_START] + concat_encodings(items) + seq![LIST_END] + rest;
    assert(s.drop_first() =~= encode_items(items) + seq![LIST_END] + rest);
    lemma_items_roundtrip(items, rest);
}

/// Lexicographic order is transitive.
proof fn lemma_seq_le_trans(a: Seq<u8>, b: Seq<u8>, c: Seq<u8>)
    requires
        seq_le(a, b),
        seq_le(b, c),
    ensures
        seq_le(a, c),
    decreases a.len(),
{
    if a.len() > 0 && a[0] == b[0] && b[0] == c[0] {
        lemma_seq_le_trans(a.drop_first(), b.drop_first(), c.drop_first());
    }
}

/// Two byte strings each at most the other are equal.
proof fn lemma_seq_le_antisym(a: Seq<u8>, b: Seq<u8>)
    requires
        seq_le(a, b),
        seq_le(b, a),
    ensures
        a == b,
    decreases a.len(),
{
    if a.len() > 0 {
        lemma_seq_le_antisym(a.drop_first(), b.drop_first());
        assert(a =~= seq![a[0]] + a.drop_first());
        assert(b =~= seq![b[0]] + b.drop_first());
    } else {
        assert(b.len() == 0);
        assert(a =~= b);
    }
}

/// Strict lexicographic order is transitive.
proof fn lemma_seq_lt_trans(a: Seq<u8>, b: Seq<u8>, c: Seq<u8>)
    requires
        seq_lt(a, b),
        seq_lt(b, c),
    ensures
        seq_lt(a, c),
{
    lemma_seq_le_trans(a, b, c);
    if a == c {
        lemma_seq_le_antisym(a, b);
    }
}

/// With increasing keys, every key before the last is less than the last.
proof fn lemma_positions_below_last(order: Seq<int>, keys: Seq<Seq<u8>>)
    requires
        positions_increasing(order, keys),
    ensures
        forall|i: int| 0 <= i < order.len() - 1 ==> seq_lt(keys[#[trigger] order[i]], keys[order.last()]),
    decreases order.len(),
{
    if order.len() > 1 {
        let init = order.drop_last();
        assert(positions_increasing(init, keys)) by {
            assert forall|i: int| 0 <= i < init.len() - 1 implies seq_lt(keys[#[trigger] init[i]], keys[init[i + 1]]) by {
                assert(init[i] == order[i] && init[i + 1] == order[i + 1]);
            }
        }
        lemma_positions_below_last(init, keys);
        assert(seq_lt(keys[order[order.len() - 2]], keys[order.last()]));
        assert forall|i: int| 0 <= i < order.len() - 1 implies seq_lt(keys[#[trigger] order[i]], keys[order.last()]) by {
            if i < order.len() - 2 {
                assert(init[i] == order[i]);
                assert(init.last() == order[order.len() - 2]);
                lemma_seq_lt_trans(keys[order[i]], keys[order[order.len() - 2]], keys[order.last()]);
            }
        }
    }
}

/// Inserting position `j` keeps `j`, keeps every key that was there, and
/// keeps no other position with the key of `j`.
proof fn lemma_insert_position_keys(order: Seq<int>, keys: Seq<Seq<u8>>, j: int)
    requires
        positions_increasing(order, keys),
    ensures
        exists|i: int| 0 <= i < insert_position(order, keys, j).len() && #[trigger] insert_position(order, keys, j)[i] == j,
        forall|i: int|
            #![trigger order[i]]
            0 <= i < order.len() ==> exists|i2: int|
                0 <= i2 < insert_position(order, keys, j).len() && keys[#[trigger] insert_position(order, keys, j)[i2]]
                    == keys[order[i]],
        forall|i2: int|
            0 <= i2 < insert_position(order, keys, j).len() ==> #[trigger] insert_position(order, keys, j)[i2] == j || (
            keys[insert_position(order, keys, j)[i2]] != keys[j] && exists|i: int|
                0 <= i < order.len() && order[i] == insert_position(order, keys, j)[i2]),
    decreases order.len(),
{
    let r = insert_position(order, keys, j);
    if order.len() == 0 {
        assert(r[0] == j);
    } else {
        let init = order.drop_last();
        let last = order.last();
        lemma_positions_below_last(order, keys);
        if seq_lt(keys[last], keys[j]) {
            assert(r == order.push(j));
            assert(r[order.len() as int] == j);
            assert forall|i: int| #![trigger order[i]] 0 <= i < order.len() implies exists|i2: int|
                0 <= i2 < r.len() && keys[#[trigger] r[i2]] == keys[order[i]] by {
                assert(r[i] == order[i]);
            }
            assert forall|i2: int| 0 <= i2 < r.len() implies #[trigger] r[i2] == j || (keys[r[i2]] != keys[j]
                && exists|i: int| 0 <= i < order.len() && order[i] == r[i2]) by {
                if i2 < order.len() {
                    assert(r[i2] == order[i2]);
                    if i2 < order.len() - 1 {
                        lemma_seq_lt_trans(keys[order[i2]], keys[last], keys[j]);
                    }
                }
            }
        } else if keys[last] == keys[j] {
            assert(r == init.push(j));
            assert(r[init.len() as int] == j);
            assert forall|i: int| #![trigger order[i]] 0 <= i < order.len() implies exists|i2: int|
                0 <= i2 < r.len() && keys[#[trigger] r[i2]] == keys[order[i]] by {
                if i < init.len() {
                    assert(r[i] == order[i]);
                } else {
                    assert(r[init.len() as int] == j);
                }
            }
            assert forall|i2: int| 0 <= i2 < r.len() implies #[trigger] r[i2] == j || (keys[r[i2]] != keys[j]
                && exists|i: int| 0 <= i < order.len() && order[i] == r[i2]) by {
                if i2 < init.len() {
                    assert(r[i2] == order[i2]);
                }
            }
        } else {
            lemma_seq_le_total(keys[last], keys[j]);
            assert(seq_lt(keys[j], keys[last]));
            assert(positions_increasing(init, keys)) by {
                assert forall|i: int| 0 <= i < init.len() - 1 implies seq_lt(keys[#[trigger] init[i]], keys[init[i + 1]]) by {
                    assert(init[i] == order[i] && init[i + 1] == order[i + 1]);
                }
            }
            lemma_insert_position_keys(init, keys, j);
            let p = insert_position(init, keys, j);
            assert(r == p.push(last));
            let w = choose|i: int| 0 <= i < p.len() && p[i] == j;
            assert(r[w] == j);
            assert forall|i: int| #![trigger order[i]] 0 <= i < order.len() implies exists|i2: int|
                0 <= i2 < r.len() && keys[#[trigger] r[i2]] == keys[order[i]] by {
                if i < init.len() {
                    assert(init[i] == order[i]);
                    let i2 = choose|i2: int| 0 <= i2 < p.len() && keys[p[i2]] == keys[init[i]];
                    assert(r[i2] == p[i2]);
                } else {
                    assert(r[p.len() as int] == last);
                }
            }
            assert forall|i2: int| 0 <= i2 < r.len() implies #[trigger] r[i2] == j || (keys[r[i2]] != keys[j]
                && exists|i: int| 0 <= i < order.len() && order[i] == r[i2]) by {
                if i2 < p.len() {
                    assert(r[i2] == p[i2]);
                    if p[i2] != j {
                        let i = choose|i: int| 0 <= i < init.len() && init[i] == p[i2];
                        assert(order[i] == init[i]);
                    }
                } else {
                    assert(r[i2] == last);
                    assert(order[order.len() - 1] == last);
                }
            }
        }
    }
}

/// Some position of `order` has the key of position `m`.
#[verifier::opaque]
pub open spec fn key_written(order: Seq<int>, keys: Seq<Seq<u8>>, m: int) -> bool {
    exists|i: int| 0 <= i < order.len() && keys[#[trigger] order[i]] == keys[m]
}

/// `x` is one of the positions of `order`.
#[verifier::opaque]
pub open spec fn in_order(order: Seq<int>, x: int) -> bool {
    exists|i: int| 0 <= i < order.len() && #[trigger] order[i] == x
}

/// No position after `p` and below `n` has the key of `p`.
pub open spec fn last_with_key(keys: Seq<Seq<u8>>, p: int, n: int) -> bool {
    forall|m: int| p < m < n ==> #[trigger] keys[m] != keys[p]
}

/// What one more position does to the sorted positions.
proof fn lemma_sorted_positions_step(keys: Seq<Seq<u8>>, n: nat)
    requires
        n > 0,
    ensures
        key_written(sorted_positions(keys, n), keys, n - 1),
        forall|i: int|
            0 <= i < sorted_positions(keys, (n - 1) as nat).len() ==> key_written(
                sorted_positions(keys, n),
                keys,
                #[trigger] sorted_positions(keys, (n - 1) as nat)[i],
            ),
        forall|i2: int|
            0 <= i2 < sorted_positions(keys, n).len() ==> #[trigger] sorted_positions(keys, n)[i2] == n - 1 || (
            keys[sorted_positions(keys, n)[i2]] != keys[n - 1] && in_order(
                sorted_positions(keys, (n - 1) as nat),
                sorted_positions(keys, n)[i2],
            )),
{
    reveal(key_written);
    reveal(in_order);
    let prev = sorted_positions(keys, (n - 1) as nat);
    lemma_encode_sorts_keys(keys, (n - 1) as nat);
    lemma_insert_position_keys(prev, keys, n - 1);
    let r = sorted_positions(keys, n);
    assert(r == insert_position(prev, keys, n - 1));
    let w = choose|w: int| 0 <= w < r.len() && r[w] == n - 1;
    assert(keys[r[w]] == keys[n - 1]);
    assert forall|i: int| 0 <= i < prev.len() implies key_written(r, keys, #[trigger] prev[i]) by {
        let i2 = choose|i2: int| 0 <= i2 < r.len() && keys[r[i2]] == keys[prev[i]];
        assert(keys[r[i2]] == keys[prev[i]]);
    }
}

/// The sorted positions of the first `n` keys cover every key among them,
/// and each is the last position below `n` with its key.
proof fn lemma_sorted_positions_keys(keys: Seq<Seq<u8>>, n: nat)
    ensures
        forall|m: int| 0 <= m < n ==> #[trigger] key_written(sorted_positions(keys, n), keys, m),
        forall|i: int|
            0 <= i < sorted_positions(keys, n).len() ==> 0 <= #[trigger] sorted_positions(keys, n)[i] < n
                && last_with_key(keys, sorted_positions(keys, n)[i], n as int),
    decreases n,
{
    if n > 0 {
        let j = n - 1;
        let prev = sorted_positions(keys, j as nat);
        lemma_sorted_positions_keys(keys, j as nat);
        lemma_sorted_positions_step(keys, n);
        let r = sorted_positions(keys, n);
        assert forall|m: int| 0 <= m < n implies #[trigger] key_written(r, keys, m) by {
            if m < j {
                assert(key_written(prev, keys, m));
                reveal(key_written);
                let i = choose|i: int| 0 <= i < prev.len() && keys[prev[i]] == keys[m];
                assert(key_written(r, keys, prev[i]));
                let i2 = choose|i2: int| 0 <= i2 < r.len() && keys[r[i2]] == keys[prev[i]];
                assert(keys[r[i2]] == keys[m]);
            }
        }
        assert forall|i: int| 0 <= i < r.len() implies 0 <= #[trigger] r[i] < n && last_with_key(keys, r[i], n as int) by {
            if r[i] != j {
                assert(in_order(prev, r[i]));
                reveal(in_order);
                let k = choose|k: int| 0 <= k < prev.len() && prev[k] == r[i];
                assert(0 <= prev[k] < j && last_with_key(keys, prev[k], j as int));
                assert(keys[r[i]] != keys[j]);
            }
        }
    }
}

/// The bytes of the entries of `pairs`: for each, in order, the decimal
/// writing of the key's length, `:`, the key, then the value's encoding.
pub open spec fn concat_entries(pairs: Seq<(Seq<u8>, SpecBencoding)>) -> Seq<u8> {
    pairs.map_values(
        |e: (Seq<u8>, SpecBencoding)| decimal(e.0.len()) + seq![BYTE_ARRAY_DIVIDER] + e.0 + spec_encode(e.1),
    ).flatten()
}

proof fn lemma_encode_pairs_concat(pairs: Seq<(Seq<u8>, SpecBencoding)>)
    ensures
        encode_pairs(pairs) == concat_entries(pairs),
    decreases pairs.len(),
{
    let f = |e: (Seq<u8>, SpecBencoding)| decimal(e.0.len()) + seq![BYTE_ARRAY_DIVIDER] + e.0 + spec_encode(e.1);
    if pairs.len() > 0 {
        lemma_encode_pairs_concat(pairs.drop_first());
        let m = pairs.map_values(f);
        assert(m.drop_first() =~= pairs.drop_first().map_values(f));
        assert(m.first() == f(pairs[0]));
        assert(encode_bytes(pairs[0].0) + spec_encode(pairs[0].1) =~= f(pairs[0]));
    } else {
        assert(pairs.map_values(f) =~= Seq::<Seq<u8>>::empty());
    }
}

/// The entries that a dictionary's encoding writes have strictly increasing
/// keys.
proof fn lemma_written_keys_increasing(entries: Seq<(Seq<u8>, SpecBencoding)>)
    ensures
        keys_increasing(pick(entries, sorted_positions(keys_of(entries), entries.len()))),
{
    let keys = keys_of(entries);
    let order = sorted_positions(keys, entries.len());
    let written = pick(entries, order);
    lemma_sorted_positions_range(keys, entries.len());
    lemma_encode_sorts_keys(keys, entries.len());
    assert forall|i: int| 0 <= i < written.len() - 1 implies seq_lt(#[trigger] written[i].0, written[i + 1].0) by {
        assert(seq_lt(keys[order[i]], keys[order[i + 1]]));
    }
}

/// Every key of a dictionary is among the keys its encoding writes.
proof fn lemma_written_keys_cover(entries: Seq<(Seq<u8>, SpecBencoding)>)
    ensures
        ({
            let written = pick(entries, sorted_positions(keys_of(entries), entries.len()));
            forall|m: int| #![trigger entries[m]] 0 <= m < entries.len() ==> exists|i: int|
                0 <= i < written.len() && (#[trigger] written[i]).0 == entries[m].0
        }),
{
    let keys = keys_of(entries);
    let order = sorted_positions(keys, entries.len());
    let written = pick(entries, order);
    lemma_sorted_positions_range(keys, entries.len());
    lemma_sorted_positions_keys(keys, entries.len());
    assert forall|m: int| #![trigger entries[m]] 0 <= m < entries.len() implies exists|i: int|
        0 <= i < written.len() && (#[trigger] written[i]).0 == entries[m].0 by {
        assert(key_written(order, keys, m));
        reveal(key_written);
        let i = choose|i: int| 0 <= i < order.len() && keys[order[i]] == keys[m];
        assert(written[i].0 == keys[order[i]]);
    }
}

/// Each entry that a dictionary's encoding writes is the last entry of the
/// dictionary with its key.
proof fn lemma_written_entries_last(entries: Seq<(Seq<u8>, SpecBencoding)>)
    ensures
        ({
            let written = pick(entries, sorted_positions(keys_of(entries), entries.len()));
            forall|i: int| 0 <= i < written.len() ==> exists|p: int|
                0 <= p < entries.len() && #[trigger] written[i] == entries[p] && forall|m: int|
                    #![trigger entries[m]]
                    p < m < entries.len() ==> entries[m].0 != entries[p].0
        }),
{
    let keys = keys_of(entries);
    let order = sorted_positions(keys, entries.len());
    let written = pick(entries, order);
    lemma_sorted_positions_keys(keys, entries.len());
    assert forall|i: int| 0 <= i < written.len() implies exists|p: int|
        0 <= p < entries.len() && #[trigger] written[i] == entries[p] && forall|m: int|
            #![trigger entries[m]]
            p < m < entries.len() ==> entries[m].0 != entries[p].0 by {
        let p = order[i];
        assert(0 <= p < entries.len());
        assert(written[i] == entries[p]);
        assert(last_with_key(keys, p, entries.len() as int));
        assert forall|m: int| #![trigger entries[m]] p < m < entries.len() implies entries[m].0 != entries[p].0 by {
            assert(keys[m] != keys[p]);
        }
    }
}

/// A dictionary is written `d`, its entries, then `e`, where the entries
/// written have strictly increasing keys, every key of the dictionary is
/// among them, and each is the last entry of the dictionary with its key.
pub proof fn lemma_dictionary_encoding(entries: Seq<(Seq<u8>, SpecBencoding)>)
    ensures
        ({
            let written = pick(entries, sorted_positions(keys_of(entries), entries.len()));
            &&& spec_encode(SpecBencoding::Dictionary(entries)) == seq![DICTIONARY_START] + concat_entries(written)
                + seq![DICTIONARY_END]
            &&& keys_increasing(written)
            &&& forall|m: int| #![trigger entries[m]] 0 <= m < entries.len() ==> exists|i: int|
                0 <= i < written.len() && (#[trigger] written[i]).0 == entries[m].0
            &&& forall|i: int| 0 <= i < written.len() ==> exists|p: int|
                0 <= p < entries.len() && #[trigger] written[i] == entries[p] && forall|m: int|
                    #![trigger entries[m]]
                    p < m < entries.len() ==> entries[m].0 != entries[p].0
        }),
{
    let keys = keys_of(entries);
    let order = sorted_positions(keys, entries.len());
    let written = pick(entries, order);
    assert(spec_encode(SpecBencoding::Dictionary(entries)) == seq![DICTIONARY_START] + concat_entries(written)
        + seq![DICTIONARY_END]) by {
        lemma_sorted_positions_range(keys, entries.len());
        lemma_encode_entries_pick(entries, order);
        lemma_encode_pairs_concat(written);
    }
    lemma_written_keys_increasing(entries);
    lemma_written_keys_cover(entries);
    lemma_written_entries_last(entries);
}

/// With strictly increasing keys, every key before the last is less than
/// the last.
proof fn lemma_keys_below_last(entries: Seq<(Seq<u8>, SpecBencoding)>)
    requires
        keys_increasing(entries),
    ensures
        forall|i: int| 0 <= i < entries.len() - 1 ==> seq_lt(#[trigger] entries[i].0, entries.last().0),
    decreases entries.len(),
{
    if entries.len() > 1 {
        let init = entries.drop_last();
        assert(keys_increasing(init)) by {
            assert forall|i: int| 0 <= i < init.len() - 1 implies seq_lt(#[trigger] init[i].0, init[i + 1].0) by {
                assert(init[i] == entries[i] && init[i + 1] == entries[i + 1]);
            }
        }
        lemma_keys_below_last(init);
        assert(init.last() == entries[entries.len() - 2]);
        assert(seq_lt(entries[entries.len() - 2].0, entries.last().0));
        assert forall|i: int| 0 <= i < entries.len() - 1 implies seq_lt(#[trigger] entries[i].0, entries.last().0) by {
            if i < entries.len() - 2 {
                assert(init[i] == entries[i]);
                lemma_seq_lt_trans(entries[i].0, entries[entries.len() - 2].0, entries.last().0);
            }
        }
    }
}

/// Some entry of `c` has key `k`.
#[verifier::opaque]
pub open spec fn key_kept(c: Seq<(Seq<u8>, SpecBencoding)>, k: Seq<u8>) -> bool {
    exists|i: int| 0 <= i < c.len() && (#[trigger] c[i]).0 == k
}

/// No entry of `entries` after position `p` has the key of `p`.
pub open spec fn last_entry(entries: Seq<(Seq<u8>, SpecBencoding)>, p: int) -> bool {
    forall|m: int| #![trigger entries[m]] p < m < entries.len() ==> entries[m].0 != entries[p].0
}

/// `e` is an entry of `entries` that is the last with its key.
#[verifier::opaque]
pub open spec fn kept_from(entries: Seq<(Seq<u8>, SpecBencoding)>, e: (Seq<u8>, SpecBencoding)) -> bool {
    exists|p: int| 0 <= p < entries.len() && #[trigger] entries[p] == e && last_entry(entries, p)
}

proof fn lemma_collapse_keys_kept_inner(entries: Seq<(Seq<u8>, SpecBencoding)>)
    requires
        keys_ascending(entries),
    ensures
        keys_increasing(collapse_keys(entries)),
        forall|m: int| 0 <= m < entries.len() ==> key_kept(collapse_keys(entries), (#[trigger] entries[m]).0),
        forall|i: int| 0 <= i < collapse_keys(entries).len() ==> kept_from(entries, #[trigger] collapse_keys(entries)[i]),
        entries.len() > 0 ==> collapse_keys(entries).last() == entries.last(),
        collapse_keys(entries).len() == 0 <==> entries.len() == 0,
    decreases entries.len(),
{
    lemma_collapse_ascending(entries);
    if entries.len() > 0 {
        let init = entries.drop_last();
        let x = entries.last();
        assert(keys_ascending(init)) by {
            assert forall|i: int| 0 <= i < init.len() - 1 implies seq_le(#[trigger] init[i].0, init[i + 1].0) by {
                assert(init[i] == entries[i] && init[i + 1] == entries[i + 1]);
            }
        }
        lemma_collapse_keys_kept_inner(init);
        let p = collapse_keys(init);
        let c = collapse_keys(entries);
        let replaced = p.len() > 0 && p.last().0 == x.0;
        assert(p.len() > 0 ==> forall|i: int| 0 <= i < p.len() - 1 ==> seq_lt(#[trigger] p[i].0, p.last().0)) by {
            if p.len() > 0 {
                lemma_keys_below_last(p);
            }
        }
        if replaced {
            assert(c == p.drop_last().push(x));
        } else {
            assert(c == p.push(x));
            if p.len() > 0 {
                assert(p.last() == entries[entries.len() - 2]);
                assert(seq_le(entries[entries.len() - 2].0, entries[entries.len() - 1].0));
            }
        }
        assert forall|i: int| 0 <= i < c.len() - 1 implies (#[trigger] c[i]).0 != x.0 && c[i] == p[i] by {
            assert(c[i] == p[i]);
            if i < p.len() - 1 {
                assert(seq_lt(p[i].0, p.last().0));
                if !replaced {
                    lemma_seq_lt_trans(p[i].0, p.last().0, x.0);
                }
            }
        }
        assert(c[c.len() - 1] == x);
        assert forall|m: int| 0 <= m < entries.len() implies key_kept(c, (#[trigger] entries[m]).0) by {
            reveal(key_kept);
            if m == entries.len() - 1 {
                assert(c[c.len() - 1].0 == entries[m].0);
            } else {
                assert(init[m] == entries[m]);
                assert(key_kept(p, init[m].0));
                let i = choose|i: int| 0 <= i < p.len() && (#[trigger] p[i]).0 == init[m].0;
                if i < c.len() - 1 {
                    assert(c[i].0 == entries[m].0);
                } else {
                    assert(c[c.len() - 1].0 == entries[m].0);
                }
            }
        }
        assert forall|i: int| 0 <= i < c.len() implies kept_from(entries, #[trigger] c[i]) by {
            reveal(kept_from);
            if i == c.len() - 1 {
                assert(entries[entries.len() - 1] == c[i]);
                assert(last_entry(entries, entries.len() - 1));
            } else {
                assert(kept_from(init, p[i]));
                let q = choose|q: int| 0 <= q < init.len() && #[trigger] init[q] == p[i] && last_entry(init, q);
                assert(entries[q] == c[i]);
                assert forall|m: int| #![trigger entries[m]] q < m < entries.len() implies entries[m].0 != entries[q].0 by {
                    if m < init.len() {
                        assert(init[m] == entries[m]);
                    }
                }
            }
        }
    }
}

/// Decoding keeps, of the entries read, every key once, in increasing
/// order: each entry kept is the last entry read with its key, and every key
/// read is kept.
pub proof fn lemma_collapse_keys_kept(entries: Seq<(Seq<u8>, SpecBencoding)>)
    requires
        keys_ascending(entries),
    ensures
        keys_increasing(collapse_keys(entries)),
        forall|m: int| #![trigger entries[m]] 0 <= m < entries.len() ==> exists|i: int|
            0 <= i < collapse_keys(entries).len() && (#[trigger] collapse_keys(entries)[i]).0 == entries[m].0,
        forall|i: int| 0 <= i < collapse_keys(entries).len() ==> exists|p: int|
            0 <= p < entries.len() && #[trigger] collapse_keys(entries)[i] == entries[p] && forall|m: int|
                #![trigger entries[m]]
                p < m < entries.len() ==> entries[m].0 != entries[p].0,
{
    lemma_collapse_keys_kept_inner(entries);
    reveal(key_kept);
    reveal(kept_from);
}

/// Reading `d`, some entries (each key's length in decimal, `:`, the key,
/// then the value's encoding), then `e` gives, where the keys come in
/// ascending order, the dictionary of those entries with each run of equal
/// keys reduced to its last entry; where they do not, the unsorted-keys
/// error.
pub proof fn lemma_dictionary_decoding(entries: Seq<(Seq<u8>, SpecBencoding)>, rest: Seq<u8>)
    requires
        forall|i: int| 0 <= i < entries.len() ==> (#[trigger] entries[i]).0.len() <= u64::MAX,
        forall|i: int| 0 <= i < entries.len() ==> (#[trigger] entries[i]).1.wf(),
        forall|i: int| 0 <= i < entries.len() ==> (#[trigger] entries[i]).1.dicts_ordered(),
    ensures
        spec_value(seq![DICTIONARY_START] + concat_entries(entries) + seq![DICTIONARY_END] + rest) == if keys_ascending(
            entries,
        ) {
            Ok::<(SpecBencoding, int), DecodeError>(
                (SpecBencoding::Dictionary(collapse_keys(entries)), concat_entries(entries).len() + 2int),
            )
        } else {
            Err::<(SpecBencoding, int), DecodeError>(DecodeError::UnsortedKeys)
        },
{
    let range = Seq::new(entries.len(), |i: int| i);
    assert(pick(entries, range) =~= entries);
    lemma_encode_entries_pick(entries, range);
    lemma_encode_pairs_concat(entries);
    lemma_entries_roundtrip(entries, range, rest);
    let s = seq![DICTIONARY_START] + concat_entries(entries) + seq![DICTIONARY_END] + rest;
    assert(s.drop_first() =~= encode_entries(entries, range) + seq![DICTIONARY_END] + rest);
}

/// `trim_start` drops exactly the leading whitespace.
proof fn lemma_trim_start_shape(s: Seq<u8>) -> (lo: int)
    ensures
        0 <= lo <= s.len(),
        trim_start(s) == s.skip(lo),
        forall|i: int| 0 <= i < lo ==> is_trimmed_byte(#[trigger] s[i]),
        lo < s.len() ==> !is_trimmed_byte(s[lo]),
    decreases s.len(),
{
    if s.len() > 0 && is_trimmed_byte(s[0]) {
        let l = lemma_trim_start_shape(s.drop_first());
        assert(s.drop_first().skip(l) =~= s.skip(l + 1));
        assert forall|i: int| 0 <= i < l + 1 implies is_trimmed_byte(#[trigger] s[i]) by {
            if i > 0 {
                assert(s[i] == s.drop_first()[i - 1]);
            }
        }
        assert(l + 1 < s.len() ==> s[l + 1] == s.drop_first()[l]);
        l + 1
    } else {
        assert(s.skip(0) =~= s);
        0
    }
}

/// `trim_end` drops exactly the trailing whitespace.
proof fn lemma_trim_end_shape(s: Seq<u8>) -> (hi: int)
    ensures
        0 <= hi <= s.len(),
        trim_end(s) == s.take(hi),
        forall|i: int| hi <= i < s.len() ==> is_trimmed_byte(#[trigger] s[i]),
        hi > 0 ==> !is_trimmed_byte(s[hi - 1]),
    decreases s.len(),
{
    if s.len() > 0 && is_trimmed_byte(s.last()) {
        let h = lemma_trim_end_shape(s.drop_last());
        assert(s.drop_last().take(h) =~= s.take(h));
        assert forall|i: int| h <= i < s.len() implies is_trimmed_byte(#[trigger] s[i]) by {
            if i < s.len() - 1 {
                assert(s[i] == s.drop_last()[i]);
            }
        }
        assert(h > 0 ==> s[h - 1] == s.drop_last()[h - 1]);
        h
    } else {
        assert(s.take(s.len() as int) =~= s);
        s.len() as int
    }
}

/// `trim` leaves the part of `s` between its leading and its trailing
/// whitespace: all bytes before `lo` and from `hi` on are whitespace, and
/// the part kept neither starts nor ends with whitespace.
pub proof fn lemma_trim_shape(s: Seq<u8>) -> (r: (int, int))
    ensures
        0 <= r.0 <= r.1 <= s.len(),
        trim(s) == s.subrange(r.0, r.1),
        forall|i: int| 0 <= i < r.0 ==> is_trimmed_byte(#[trigger] s[i]),
        forall|i: int| r.1 <= i < s.len() ==> is_trimmed_byte(#[trigger] s[i]),
        r.0 < r.1 ==> !is_trimmed_byte(s[r.0]) && !is_trimmed_byte(s[r.1 - 1]),
{
    let lo = lemma_trim_start_shape(s);
    let t = s.skip(lo);
    let h = lemma_trim_end_shape(t);
    assert(t.take(h) =~= s.subrange(lo, lo + h));
    assert forall|i: int| lo + h <= i < s.len() implies is_trimmed_byte(#[trigger] s[i]) by {
        assert(s[i] == t[i - lo]);
    }
    if h > 0 {
        assert(s[lo] == t[0]);
        assert(s[lo + h - 1] == t[h - 1]);
    }
    (lo, lo + h)
}

} // verus!
