//! The encoder: from values to Bencoded bytes.
use vstd::prelude::*;
use crate::number::{decimal, write_decimal};
use crate::value::{
    bytes_eq, bytes_le, lemma_dict_entries_wf, seq_lt, entry_views, lemma_dictionary_view, lemma_list_items_wf, lemma_list_view, views, Bencoding, SpecBencoding,
};
use crate::{BYTE_ARRAY_DIVIDER, DICTIONARY_END, DICTIONARY_START, LIST_END, LIST_START, NUMBER_END, NUMBER_START};

verus! {

/// The Bencoding of `v`: `i<n>e`, `<length>:<bytes>`, `l<items>e` or
/// `d<key><value>...e`, where the entries of a dictionary come in sorted
/// order of their keys and a later entry for a key replaces an earlier one.
pub open spec fn spec_encode(v: SpecBencoding) -> Seq<u8>
    decreases v, 0nat,
{
    match v {
        SpecBencoding::Integer(n) => seq![NUMBER_START] + decimal(n as nat) + seq![NUMBER_END],
        SpecBencoding::ByteString(b) => encode_bytes(b),
        SpecBencoding::List(items) => seq![LIST_START] + encode_items(items) + seq![LIST_END],
        SpecBencoding::Dictionary(entries) => seq![DICTIONARY_START] + encode_entries(
            entries,
            sorted_positions(keys_of(entries), entries.len()),
        ) + seq![DICTIONARY_END],
        SpecBencoding::Eof => Seq::empty(),
    }
}

/// The encoding of the byte string `b`: its length, `:`, then its bytes.
pub open spec fn encode_bytes(b: Seq<u8>) -> Seq<u8> {
    decimal(b.len()) + seq![BYTE_ARRAY_DIVIDER] + b
}

/// The encodings of `items`, one after the other.
pub open spec fn encode_items(items: Seq<SpecBencoding>) -> Seq<u8>
    decreases items, 0nat,
{
    if items.len() == 0 {
        Seq::empty()
    } else {
        spec_encode(items[0]) + encode_items(items.drop_first())
    }
}

/// The keys of `entries`, in order.
pub open spec fn keys_of(entries: Seq<(Seq<u8>, SpecBencoding)>) -> Seq<Seq<u8>> {
    Seq::new(entries.len(), |i: int| entries[i].0)
}

/// Position `j` put into `order`, a list of positions whose keys increase:
/// after the positions with smaller keys, in place of a position with the
/// same key, before the positions with greater keys.
pub open spec fn insert_position(order: Seq<int>, keys: Seq<Seq<u8>>, j: int) -> Seq<int>
    decreases order.len(),
{
    if order.len() == 0 {
        seq![j]
    } else if seq_lt(keys[order.last()], keys[j]) {
        order.push(j)
    } else if keys[order.last()] == keys[j] {
        order.drop_last().push(j)
    } else {
        insert_position(order.drop_last(), keys, j).push(order.last())
    }
}

/// The positions `0..n` of `keys` in sorted order of their keys; of the
/// positions with equal keys, only the last is kept.
pub open spec fn sorted_positions(keys: Seq<Seq<u8>>, n: nat) -> Seq<int>
    decreases n,
{
    if n == 0 {
        Seq::empty()
    } else {
        insert_position(sorted_positions(keys, (n - 1) as nat), keys, n - 1)
    }
}

/// The encodings of the keys and values of the entries at `order`, one
/// after the other.
pub open spec fn encode_entries(entries: Seq<(Seq<u8>, SpecBencoding)>, order: Seq<int>) -> Seq<u8>
    decreases entries, order.len(),
{
    if order.len() == 0 {
        Seq::empty()
    } else if 0 <= order[0] < entries.len() {
        encode_bytes(entries[order[0]].0) + spec_encode(entries[order[0]].1) + encode_entries(
            entries,
            order.drop_first(),
        )
    } else {
        encode_entries(entries, order.drop_first())
    }
}

/// The positions in `order` as integers.
pub open spec fn as_ints(order: Seq<usize>) -> Seq<int> {
    Seq::new(order.len(), |i: int| order[i] as int)
}

pub proof fn lemma_encode_items_push(items: Seq<SpecBencoding>, x: SpecBencoding)
    ensures
        encode_items(items.push(x)) == encode_items(items) + spec_encode(x),
    decreases items.len(),
{
    if items.len() == 0 {
        assert(items.push(x).drop_first() =~= Seq::<SpecBencoding>::empty());
        assert(encode_items(Seq::<SpecBencoding>::empty()) =~= Seq::<u8>::empty());
        assert(encode_items(items) =~= Seq::<u8>::empty());
        assert(encode_items(items.push(x)) =~= spec_encode(x));
    } else {
        assert(items.push(x).drop_first() =~= items.drop_first().push(x));
        lemma_encode_items_push(items.drop_first(), x);
        assert(encode_items(items.push(x)) =~= encode_items(items) + spec_encode(x));
    }
}

pub proof fn lemma_encode_entries_push(entries: Seq<(Seq<u8>, SpecBencoding)>, order: Seq<int>, k: int)
    requires
        0 <= k < entries.len(),
    ensures
        encode_entries(entries, order.push(k)) == encode_entries(entries, order) + encode_bytes(entries[k].0)
            + spec_encode(entries[k].1),
    decreases order.len(),
{
    if order.len() == 0 {
        assert(order.push(k).drop_first() =~= Seq::<int>::empty());
        assert(encode_entries(entries, Seq::<int>::empty()) =~= Seq::<u8>::empty());
        assert(encode_entries(entries, order) =~= Seq::<u8>::empty());
        assert(encode_entries(entries, order.push(k)) =~= encode_bytes(entries[k].0) + spec_encode(entries[k].1));
    } else {
        assert(order.push(k).drop_first() =~= order.drop_first().push(k));
        lemma_encode_entries_push(entries, order.drop_first(), k);
        assert(encode_entries(entries, order.push(k)) =~= encode_entries(entries, order) + encode_bytes(
            entries[k].0,
        ) + spec_encode(entries[k].1));
    }
}

/// Appends `bytes` to `mem_stream`.
fn append_bytes(mem_stream: &mut Vec<u8>, bytes: &[u8])
    ensures
        final(mem_stream)@ == old(mem_stream)@ + bytes@,
{
    let mut i: usize = 0;
    while i < bytes.len()
        invariant
            i <= bytes@.len(),
            mem_stream@ == old(mem_stream)@ + bytes@.take(i as int),
        decreases bytes@.len() - i,
    {
        mem_stream.push(bytes[i]);
        assert(bytes@.take(i + 1) =~= bytes@.take(i as int).push(bytes@[i as int]));
        i = i + 1;
    }
    assert(bytes@.take(i as int) =~= bytes@);
}

/// Writes the integer `n` as `i<n>e`.
fn encode_number(mem_stream: &mut Vec<u8>, n: u64)
    ensures
        final(mem_stream)@ == old(mem_stream)@ + spec_encode(SpecBencoding::Integer(n)),
{
    mem_stream.push(NUMBER_START);
    write_decimal(mem_stream, n);
    mem_stream.push(NUMBER_END);
    assert(mem_stream@ =~= old(mem_stream)@ + spec_encode(SpecBencoding::Integer(n)));
}

/// Writes the byte string `bytes` as `<length>:<bytes>`.
fn encode_bytestring(mem_stream: &mut Vec<u8>, bytes: &Vec<u8>)
    ensures
        final(mem_stream)@ == old(mem_stream)@ + encode_bytes(bytes@),
{
    write_decimal(mem_stream, bytes.len() as u64);
    mem_stream.push(BYTE_ARRAY_DIVIDER);
    append_bytes(mem_stream, bytes.as_slice());
    assert(mem_stream@ =~= old(mem_stream)@ + encode_bytes(bytes@));
}

/// Writes the items of a list between `l` and `e`.
fn encode_list(mem_stream: &mut Vec<u8>, items: &Vec<Bencoding>)
    requires
        forall|i: int| 0 <= i < items@.len() ==> (#[trigger] items@[i])@.wf(),
    ensures
        final(mem_stream)@ == old(mem_stream)@ + spec_encode(SpecBencoding::List(views(items@))),
    decreases items,
{
    mem_stream.push(LIST_START);
    let ghost start = mem_stream@;
    let mut i: usize = 0;
    assert(views(items@).take(0) =~= Seq::<SpecBencoding>::empty());
    assert(start + encode_items(views(items@).take(0)) =~= start);
    while i < items.len()
        invariant
            i <= items@.len(),
            forall|j: int| 0 <= j < items@.len() ==> (#[trigger] items@[j])@.wf(),
            start == old(mem_stream)@.push(LIST_START),
            mem_stream@ == start + encode_items(views(items@).take(i as int)),
        decreases items@.len() - i,
    {
        proof {
            assert(decreases_to!(*items => items@));
            assert(decreases_to!(items@ => items@[i as int]));
        }
        encode_next(mem_stream, &items[i]);
        proof {
            assert(views(items@).take(i + 1) =~= views(items@).take(i as int).push(items@[i as int]@));
            lemma_encode_items_push(views(items@).take(i as int), items@[i as int]@);
        }
        i = i + 1;
    }
    mem_stream.push(LIST_END);
    assert(views(items@).take(i as int) =~= views(items@));
    assert(mem_stream@ =~= old(mem_stream)@ + spec_encode(SpecBencoding::List(views(items@))));
}

/// Puts position `j` of `entries` into `order`, whose keys increase: after
/// the positions with smaller keys, in place of one with the same key.
fn insert_position_exec(order: &mut Vec<usize>, entries: &Vec<(Vec<u8>, Bencoding)>, j: usize)
    requires
        j < entries@.len(),
        forall|k: int| 0 <= k < old(order)@.len() ==> #[trigger] old(order)@[k] < j,
    ensures
        as_ints(final(order)@) == insert_position(as_ints(old(order)@), keys_of(entry_views(entries@)), j as int),
        forall|k: int| 0 <= k < final(order)@.len() ==> #[trigger] final(order)@[k] <= j,
{
    let ghost keys = keys_of(entry_views(entries@));
    let ghost o = as_ints(order@);
    let mut i: usize = order.len();
    assert(o.take(i as int) =~= o);
    assert(o.skip(i as int) =~= Seq::<int>::empty());
    assert(insert_position(o, keys, j as int) =~= insert_position(o.take(i as int), keys, j as int) + o.skip(i as int));
    loop
        invariant
            i <= order@.len(),
            order@ == old(order)@,
            o == as_ints(order@),
            keys == keys_of(entry_views(entries@)),
            j < entries@.len(),
            forall|k: int| 0 <= k < order@.len() ==> #[trigger] order@[k] < j,
            insert_position(o, keys, j as int) == insert_position(o.take(i as int), keys, j as int) + o.skip(i as int),
        decreases i,
    {
        if i == 0 {
            order.insert(0, j);
            proof {
                assert(o.take(0) =~= Seq::<int>::empty());
                assert(as_ints(order@) =~= seq![j as int] + o.skip(0));
                assert forall|k: int| 0 <= k < order@.len() implies #[trigger] order@[k] <= j by {
                    if k > 0 {
                        assert(order@[k] == old(order)@[k - 1]);
                    }
                }
            }
            return;
        }
        let k = order[i - 1];
        let key_k = entries[k].0.as_slice();
        let key_j = entries[j].0.as_slice();
        let le = bytes_le(key_k, key_j);
        let eq = bytes_eq(key_k, key_j);
        proof {
            assert(o.take(i as int).last() == k as int);
            assert(keys[k as int] == entries@[k as int].0@);
            assert(keys[j as int] == entries@[j as int].0@);
        }
        if le && !eq {
            order.insert(i, j);
            proof {
                assert(as_ints(order@) =~= o.take(i as int).push(j as int) + o.skip(i as int));
                assert forall|m: int| 0 <= m < order@.len() implies #[trigger] order@[m] <= j by {
                    if m > i {
                        assert(order@[m] == old(order)@[m - 1]);
                    } else if m < i {
                        assert(order@[m] == old(order)@[m]);
                    }
                }
            }
            return;
        }
        if eq {
            order.remove(i - 1);
            order.insert(i - 1, j);
            proof {
                assert(as_ints(order@) =~= o.take(i as int).drop_last().push(j as int) + o.skip(i as int));
                assert forall|m: int| 0 <= m < order@.len() implies #[trigger] order@[m] <= j by {
                    if m != i - 1 {
                        assert(order@[m] == old(order)@[m]);
                    }
                }
            }
            return;
        }
        proof {
            assert(o.take(i as int).drop_last() =~= o.take(i - 1));
            assert(o.take(i - 1).push(o[i - 1]) =~= o.take(i as int));
            assert(o.skip(i - 1) =~= seq![o[i - 1]] + o.skip(i as int));
            assert(insert_position(o.take(i - 1), keys, j as int).push(o[i - 1]) + o.skip(i as int)
                =~= insert_position(o.take(i - 1), keys, j as int) + o.skip(i - 1));
        }
        i = i - 1;
    }
}

/// Writes the entries of a dictionary between `d` and `e`, each key
/// followed by its value, in sorted order of their keys; of the entries with
/// equal keys, only the last is written.
fn encode_dictionary(mem_stream: &mut Vec<u8>, entries: &Vec<(Vec<u8>, Bencoding)>)
    requires
        forall|i: int| 0 <= i < entries@.len() ==> (#[trigger] entries@[i]).1@.wf(),
    ensures
        final(mem_stream)@ == old(mem_stream)@ + spec_encode(SpecBencoding::Dictionary(entry_views(entries@))),
    decreases entries,
{
    mem_stream.push(DICTIONARY_START);
    let ghost start = mem_stream@;
    let ghost es = entry_views(entries@);
    let ghost keys = keys_of(es);
    let mut order: Vec<usize> = Vec::new();
    let mut j: usize = 0;
    assert(as_ints(order@) =~= sorted_positions(keys, 0));
    while j < entries.len()
        invariant
            j <= entries@.len(),
            es == entry_views(entries@),
            keys == keys_of(es),
            as_ints(order@) == sorted_positions(keys, j as nat),
            forall|k: int| 0 <= k < order@.len() ==> #[trigger] order@[k] < j,
        decreases entries@.len() - j,
    {
        insert_position_exec(&mut order, entries, j);
        j = j + 1;
    }
    let ghost ord = as_ints(order@);
    let mut i: usize = 0;
    assert(ord.take(0) =~= Seq::<int>::empty());
    assert(start + encode_entries(es, ord.take(0)) =~= start);
    while i < order.len()
        invariant
            i <= order@.len(),
            es == entry_views(entries@),
            ord == as_ints(order@),
            forall|k: int| 0 <= k < order@.len() ==> #[trigger] order@[k] < entries@.len(),
            forall|k: int| 0 <= k < entries@.len() ==> (#[trigger] entries@[k]).1@.wf(),
            start == old(mem_stream)@.push(DICTIONARY_START),
            mem_stream@ == start + encode_entries(es, ord.take(i as int)),
        decreases order@.len() - i,
    {
        let k = order[i];
        proof {
            assert(decreases_to!(*entries => entries@));
            assert(decreases_to!(entries@ => entries@[k as int]));
            assert(decreases_to!(entries@[k as int] => entries@[k as int].1));
        }
        encode_bytestring(mem_stream, &entries[k].0);
        encode_next(mem_stream, &entries[k].1);
        proof {
            assert(ord.take(i + 1) =~= ord.take(i as int).push(k as int));
            lemma_encode_entries_push(es, ord.take(i as int), k as int);
            assert(es[k as int] == (entries@[k as int].0@, entries@[k as int].1@));
        }
        i = i + 1;
    }
    mem_stream.push(DICTIONARY_END);
    assert(ord.take(i as int) =~= ord);
    assert(es.len() == entries@.len());
    assert(mem_stream@ =~= old(mem_stream)@ + spec_encode(SpecBencoding::Dictionary(es)));
}

/// Writes `obj`.
fn encode_next(mem_stream: &mut Vec<u8>, obj: &Bencoding)
    requires
        obj@.wf(),
    ensures
        final(mem_stream)@ == old(mem_stream)@ + spec_encode(obj@),
    decreases obj,
{
    match obj {
        Bencoding::Integer(n) => encode_number(mem_stream, *n),
        Bencoding::ByteString(bytes) => encode_bytestring(mem_stream, bytes),
        Bencoding::List(items) => {
            proof {
                lemma_list_view(*items);
                lemma_list_items_wf(views(items@));
                assert forall|i: int| 0 <= i < items@.len() implies (#[trigger] items@[i])@.wf() by {
                    assert(views(items@)[i] == items@[i]@);
                }
            }
            encode_list(mem_stream, items);
        },
        Bencoding::Dictionary(entries) => {
            proof {
                lemma_dictionary_view(*entries);
                lemma_dict_entries_wf(entry_views(entries@));
                assert forall|i: int| 0 <= i < entries@.len() implies (#[trigger] entries@[i]).1@.wf() by {
                    assert(entry_views(entries@)[i].1 == entries@[i].1@);
                }
            }
            encode_dictionary(mem_stream, entries);
        },
        Bencoding::Eof => {},
    }
}

/// Encodes `benc` as Bencoded bytes. The entries of each dictionary come
/// out in sorted order of their keys.
pub fn encode(benc: Bencoding) -> (r: Vec<u8>)
    requires
        benc@.wf(),
    ensures
        r@ == spec_encode(benc@),
{
    let mut mem_stream: Vec<u8> = Vec::new();
    encode_next(&mut mem_stream, &benc);
    assert(mem_stream@ =~= spec_encode(benc@));
    mem_stream
}

/// Does nothing.
pub fn run() {
}

} // verus!
