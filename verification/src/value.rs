use vstd::prelude::*;

verus! {

/// A decoded Bencode value.
///
/// A `Dictionary` holds its entries in a `Vec`. Those that `decode` gives
/// back have strictly increasing keys (see `SpecBencoding::dicts_ordered`);
/// `encode` writes the entries of any dictionary in sorted order of their
/// keys, a later entry for a key replacing an earlier one.
#[derive(Debug, PartialEq, Eq)]
pub enum Bencoding {
    Integer(u64),
    ByteString(Vec<u8>),
    List(Vec<Bencoding>),
    Dictionary(Vec<(Vec<u8>, Bencoding)>),
    /// What `decode` gives back when no byte is left to read.
    Eof,
}

/// The mathematical model of a `Bencoding`.
pub enum SpecBencoding {
    Integer(u64),
    ByteString(Seq<u8>),
    List(Seq<SpecBencoding>),
    Dictionary(Seq<(Seq<u8>, SpecBencoding)>),
    Eof,
}

/// The reasons for which a byte sequence is refused by the decoder.
#[derive(Debug, Clone, Copy, PartialEq, Eq)]
pub enum DecodeError {
    /// A byte of a number (or of a byte string's length) is not ASCII.
    NonAsciiNumber,
    /// A number (or a byte string's length) has no terminator.
    UnterminatedNumber,
    /// The text of a number is not a decimal `u64`.
    InvalidNumber,
    /// The input ends inside a list.
    UnterminatedList,
    /// The keys of a dictionary do not come in sorted order.
    UnsortedKeys,
}

impl View for Bencoding {
    type V = SpecBencoding;

    open spec fn view(&self) -> SpecBencoding {
        model(*self)
    }
}

/// The model of `b`.
pub open spec fn model(b: Bencoding) -> SpecBencoding
    decreases b,
{
    match b {
        Bencoding::Integer(n) => SpecBencoding::Integer(n),
        Bencoding::ByteString(bytes) => SpecBencoding::ByteString(bytes@),
        Bencoding::List(items) => SpecBencoding::List(
            Seq::new(
                items@.len(),
                |i: int|
                    if 0 <= i < items@.len() {
                        proof {
                            assert(decreases_to!(items@ => items@[i]));
                            assert(decreases_to!(items => items@));
                            assert(decreases_to!(b => items@[i]));
                        }
                        model(items@[i])
                    } else {
                        SpecBencoding::Eof
                    },
            ),
        ),
        Bencoding::Dictionary(entries) => SpecBencoding::Dictionary(
            Seq::new(
                entries@.len(),
                |i: int|
                    if 0 <= i < entries@.len() {
                        proof {
                            assert(decreases_to!(entries@ => entries@[i]));
                            assert(decreases_to!(entries => entries@));
                            assert(decreases_to!(b => entries@[i].1));
                        }
                        (entries@[i].0@, model(entries@[i].1))
                    } else {
                        (Seq::empty(), SpecBencoding::Eof)
                    },
            ),
        ),
        Bencoding::Eof => SpecBencoding::Eof,
    }
}

} // verus!

verus! {

/// The models of the values `items`, in order.
pub open spec fn views(items: Seq<Bencoding>) -> Seq<SpecBencoding> {
    Seq::new(items.len(), |i: int| items[i]@)
}

/// The models of the dictionary entries `entries`, in order.
pub open spec fn entry_views(entries: Seq<(Vec<u8>, Bencoding)>) -> Seq<(Seq<u8>, SpecBencoding)> {
    Seq::new(entries.len(), |i: int| (entries[i].0@, entries[i].1@))
}

/// The model of a list is the list of the models of its items.
pub proof fn lemma_list_view(items: Vec<Bencoding>)
    ensures
        Bencoding::List(items)@ == SpecBencoding::List(views(items@)),
{
    let b = Bencoding::List(items);
    assert(b@ is List);
    let vs = b@->List_0;
    assert(vs =~= views(items@));
}

/// The model of a dictionary is the sequence of the models of its entries.
pub proof fn lemma_dictionary_view(entries: Vec<(Vec<u8>, Bencoding)>)
    ensures
        Bencoding::Dictionary(entries)@ == SpecBencoding::Dictionary(entry_views(entries@)),
{
    let b = Bencoding::Dictionary(entries);
    assert(b@ is Dictionary);
    let es = b@->Dictionary_0;
    assert(es =~= entry_views(entries@));
}

/// Lexicographic order on byte strings, as `Ord` on `Vec<u8>` compares them.
pub open spec fn seq_le(a: Seq<u8>, b: Seq<u8>) -> bool
    decreases a.len(),
{
    if a.len() == 0 {
        true
    } else if b.len() == 0 {
        false
    } else if a[0] != b[0] {
        a[0] < b[0]
    } else {
        seq_le(a.drop_first(), b.drop_first())
    }
}

/// Strict lexicographic order on byte strings.
pub open spec fn seq_lt(a: Seq<u8>, b: Seq<u8>) -> bool {
    seq_le(a, b) && a != b
}

/// Each key is at most the next one.
pub open spec fn keys_ascending<V>(entries: Seq<(Seq<u8>, V)>) -> bool {
    forall|i: int| 0 <= i < entries.len() - 1 ==> seq_le(#[trigger] entries[i].0, entries[i + 1].0)
}

/// Each key is less than the next one: the keys are sorted and none occurs twice.
pub open spec fn keys_increasing<V>(entries: Seq<(Seq<u8>, V)>) -> bool {
    forall|i: int| 0 <= i < entries.len() - 1 ==> seq_lt(#[trigger] entries[i].0, entries[i + 1].0)
}

impl SpecBencoding {
    /// A value that can be encoded: it holds no `Eof`, and the length of each
    /// of its byte strings and keys fits in a `u64` (as that of any `Vec`
    /// does).
    pub open spec fn wf(self) -> bool
        decreases self,
    {
        match self {
            SpecBencoding::Integer(_) => true,
            SpecBencoding::ByteString(b) => b.len() <= u64::MAX,
            SpecBencoding::List(items) => {
                &&& forall|i: int| 0 <= i < items.len() ==> (#[trigger] items[i]).wf()
            },
            SpecBencoding::Dictionary(entries) => {
                &&& forall|i: int| 0 <= i < entries.len() ==> (#[trigger] entries[i]).0.len() <= u64::MAX
                &&& forall|i: int| 0 <= i < entries.len() ==> (#[trigger] entries[i]).1.wf()
            },
            SpecBencoding::Eof => false,
        }
    }

    /// Each dictionary within the value, at any depth, holds each key once,
    /// in sorted order.
    pub open spec fn dicts_ordered(self) -> bool
        decreases self,
    {
        match self {
            SpecBencoding::List(items) => {
                &&& forall|i: int| 0 <= i < items.len() ==> (#[trigger] items[i]).dicts_ordered()
            },
            SpecBencoding::Dictionary(entries) => {
                &&& keys_increasing(entries)
                &&& forall|i: int| 0 <= i < entries.len() ==> (#[trigger] entries[i]).1.dicts_ordered()
            },
            _ => true,
        }
    }
}

} // verus!
verus! {

/// `a` is at most `b` in lexicographic order.
pub(crate) fn bytes_le(a: &[u8], b: &[u8]) -> (r: bool)
    ensures
        r == seq_le(a@, b@),
{
    let mut i: usize = 0;
    assert(a@.skip(0) =~= a@ && b@.skip(0) =~= b@);
    while i < a.len() && i < b.len()
        invariant
            i <= a@.len(),
            i <= b@.len(),
            seq_le(a@, b@) == seq_le(a@.skip(i as int), b@.skip(i as int)),
        decreases a@.len() - i,
    {
        if a[i] != b[i] {
            return a[i] < b[i];
        }
        assert(a@.skip(i as int).drop_first() =~= a@.skip(i + 1));
        assert(b@.skip(i as int).drop_first() =~= b@.skip(i + 1));
        i = i + 1;
    }
    i == a.len()
}

/// `a` and `b` hold the same bytes.
pub(crate) fn bytes_eq(a: &[u8], b: &[u8]) -> (r: bool)
    ensures
        r == (a@ == b@),
{
    if a.len() != b.len() {
        return false;
    }
    let mut i: usize = 0;
    while i < a.len()
        invariant
            i <= a@.len(),
            a@.len() == b@.len(),
            a@.take(i as int) == b@.take(i as int),
        decreases a@.len() - i,
    {
        if a[i] != b[i] {
            assert(a@[i as int] != b@[i as int]);
            return false;
        }
        assert(a@.take(i + 1) =~= a@.take(i as int).push(a@[i as int]));
        assert(b@.take(i + 1) =~= b@.take(i as int).push(b@[i as int]));
        i = i + 1;
    }
    assert(a@.take(i as int) =~= a@ && b@.take(i as int) =~= b@);
    true
}

impl Bencoding {
    /// Whether `encode` accepts the value: see `SpecBencoding::wf`.
    pub fn is_encodable(&self) -> (r: bool)
        ensures
            r == self@.wf(),
        decreases self,
    {
        match self {
            Bencoding::Integer(_) => true,
            Bencoding::ByteString(bytes) => {
                let _n = bytes.len();
                true
            },
            Bencoding::List(items) => {
                proof {
                    lemma_list_view(*items);
                }
                let mut i: usize = 0;
                while i < items.len()
                    invariant
                        i <= items@.len(),
                        *self == Bencoding::List(*items),
                        self@ == SpecBencoding::List(views(items@)),
                        forall|j: int| 0 <= j < i ==> (#[trigger] views(items@)[j]).wf(),
                    decreases items@.len() - i,
                {
                    proof {
                        assert(decreases_to!(*items => items@));
                        assert(decreases_to!(items@ => items@[i as int]));
                    }
                    if !items[i].is_encodable() {
                        proof {
                            assert(!views(items@)[i as int].wf());
                            if self@.wf() {
                                lemma_list_items_wf(views(items@));
                            }
                        }
                        return false;
                    }
                    i = i + 1;
                }
                true
            },
            Bencoding::Dictionary(entries) => {
                proof {
                    lemma_dictionary_view(*entries);
                }
                let ghost es = entry_views(entries@);
                let mut i: usize = 0;
                while i < entries.len()
                    invariant
                        i <= entries@.len(),
                        es == entry_views(entries@),
                        *self == Bencoding::Dictionary(*entries),
                        self@ == SpecBencoding::Dictionary(es),
                        forall|j: int| 0 <= j < i ==> (#[trigger] es[j]).1.wf(),
                        forall|j: int| 0 <= j < i ==> (#[trigger] es[j]).0.len() <= u64::MAX,
                    decreases entries@.len() - i,
                {
                    proof {
                        assert(decreases_to!(*entries => entries@));
                        assert(decreases_to!(entries@ => entries@[i as int]));
                        assert(decreases_to!(entries@[i as int] => entries@[i as int].1));
                    }
                    let _n = entries[i].0.len();
                    if !entries[i].1.is_encodable() {
                        proof {
                            assert(!es[i as int].1.wf());
                            if self@.wf() {
                                lemma_dict_entries_wf(es);
                            }
                        }
                        return false;
                    }
                    i = i + 1;
                }
                true
            },
            Bencoding::Eof => false,
        }
    }
}

} // verus!

verus! {

/// The values of a dictionary that can be encoded can each be encoded, and
/// the keys' lengths fit in a `u64`.
pub proof fn lemma_dict_entries_wf(entries: Seq<(Seq<u8>, SpecBencoding)>)
    requires
        SpecBencoding::Dictionary(entries).wf(),
    ensures
        forall|j: int| 0 <= j < entries.len() ==> (#[trigger] entries[j]).1.wf() && entries[j].0.len() <= u64::MAX,
{
    let x = SpecBencoding::Dictionary(entries);
    assert(x matches SpecBencoding::Dictionary(w) && w == entries);
    assert(forall|j: int| #![trigger entries[j]] 0 <= j < entries.len() ==> entries[j].1.wf());
    assert(forall|j: int| #![trigger entries[j]] 0 <= j < entries.len() ==> entries[j].0.len() <= u64::MAX);
}

/// The items of a list whose dictionaries are ordered have ordered
/// dictionaries.
pub proof fn lemma_list_items_ordered(items: Seq<SpecBencoding>)
    requires
        SpecBencoding::List(items).dicts_ordered(),
    ensures
        forall|j: int| 0 <= j < items.len() ==> (#[trigger] items[j]).dicts_ordered(),
{
    let x = SpecBencoding::List(items);
    assert(x matches SpecBencoding::List(w) && w == items);
    assert(forall|j: int| #![trigger items[j]] 0 <= j < items.len() ==> items[j].dicts_ordered());
}

/// The items of a list that can be encoded can each be encoded.
pub proof fn lemma_list_items_wf(items: Seq<SpecBencoding>)
    requires
        SpecBencoding::List(items).wf(),
    ensures
        forall|j: int| 0 <= j < items.len() ==> (#[trigger] items[j]).wf(),
{
    let x = SpecBencoding::List(items);
    assert(x matches SpecBencoding::List(w) && w == items);
    assert(forall|j: int| #![trigger items[j]] 0 <= j < items.len() ==> items[j].wf());
}

} // verus!
