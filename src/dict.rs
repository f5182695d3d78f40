//! The dictionary encoding: each distinct value stored once, and one 16-bit
//! index into the dictionary per row.

use vstd::prelude::*;
use std::rc::Rc;
use bit_vec::BitVec;
use heapsize::HeapSizeOf;
use crate::column::Type;
use crate::mask::{lemma_select_map, lemma_select_take, mask_bits, mask_get, mask_len, select};
use crate::text::{row_text, row_view, str_views};

verus! {

/// The largest number of entries a dictionary can hold: one per 16-bit index.
pub const MAX_DICTIONARY_SIZE: usize = 65536;

/// A dictionary entry as text, `None` for the null entry.
pub open spec fn entry_view(e: Option<String>) -> Option<Seq<char>> {
    match e {
        Some(s) => Some(s@),
        None => None,
    }
}

/// The text an entry decodes to: the null entry reads as the empty string,
/// as a null row does in the packed encoding.
pub open spec fn entry_text(e: Option<Seq<char>>) -> Seq<char> {
    match e {
        Some(t) => t,
        None => seq![],
    }
}

/// Some value of `unique` equals `v`.
pub open spec fn holds_value(unique: Seq<Option<Rc<String>>>, v: Option<Seq<char>>) -> bool {
    exists|j: int| 0 <= j < unique.len() && row_view(#[trigger] unique[j]) == v
}

/// Every row's value is among `unique`.
pub open spec fn covers(unique: Seq<Option<Rc<String>>>, rows: Seq<Option<Rc<String>>>) -> bool {
    forall|i: int| 0 <= i < rows.len() ==> holds_value(unique, row_view(#[trigger] rows[i]))
}

/// Relies on `heapsize`'s `HeapSizeOf` for `Vec<Option<String>>`: the sizes
/// the allocator reports for the array and every string, which depend on the
/// allocator alone.
#[verifier::external_body]
fn entries_heap_size(v: &Vec<Option<String>>) -> usize {
    v.heap_size_of_children()
}

/// Relies on `heapsize`'s `HeapSizeOf` for `Vec<u16>`: the size the allocator
/// reports for the array, which depends on the allocator alone.
#[verifier::external_body]
fn indices_heap_size(v: &Vec<u16>) -> usize {
    v.heap_size_of_children()
}

/// A column stored as a dictionary of values and one index per row.
pub struct DictEncodedStrings {
    mapping: Vec<Option<String>>,
    encoded_values: Vec<u16>,
}

impl View for DictEncodedStrings {
    type V = Seq<Seq<char>>;

    /// The rows' texts, in order.
    open spec fn view(&self) -> Seq<Seq<char>> {
        self.decode_spec(self.indices())
    }
}

impl DictEncodedStrings {
    /// The dictionary's entries, by index.
    pub closed spec fn dictionary(&self) -> Seq<Option<Seq<char>>> {
        self.mapping@.map_values(|e: Option<String>| entry_view(e))
    }

    /// The index of each row.
    pub closed spec fn indices(&self) -> Seq<u16> {
        self.encoded_values@
    }

    /// The texts that a run of indices stands for.
    pub open spec fn decode_spec(&self, idx: Seq<u16>) -> Seq<Seq<char>> {
        idx.map_values(|k: u16| entry_text(self.dictionary()[k as int]))
    }

    /// Every index in `idx` points into the dictionary.
    pub open spec fn valid_indices(&self, idx: Seq<u16>) -> bool {
        forall|i: int| 0 <= i < idx.len() ==> (#[trigger] idx[i] as int) < self.dictionary().len()
    }

    /// The dictionary fits the index width and every row's index points into it.
    #[verifier::type_invariant]
    pub closed spec fn wf(&self) -> bool {
        &&& self.mapping@.len() <= MAX_DICTIONARY_SIZE
        &&& self.valid_indices(self.indices())
    }

    /// Builds the dictionary from `unique_values`, in their order, and gives
    /// each row the index of its value.
    pub fn from_strings(strings: &Vec<Option<Rc<String>>>, unique_values: Vec<Option<Rc<String>>>) -> (r: DictEncodedStrings)
        requires
            unique_values@.len() <= MAX_DICTIONARY_SIZE,
            covers(unique_values@, strings@),
        ensures
            r.dictionary() == unique_values@.map_values(|o: Option<Rc<String>>| row_view(o)),
            r.indices().len() == strings@.len(),
            forall|i: int|
                0 <= i < strings@.len() ==> r.dictionary()[#[trigger] r.indices()[i] as int]
                    == row_view(strings@[i]),
            r@ == strings@.map_values(|o: Option<Rc<String>>| row_text(o)),
    {
        let mut mapping: Vec<Option<String>> = Vec::new();
        let mut j: usize = 0;
        while j < unique_values.len()
            invariant
                j <= unique_values@.len(),
                mapping@.len() == j,
                forall|k: int| 0 <= k < j ==> entry_view(#[trigger] mapping@[k]) == row_view(unique_values@[k]),
            decreases unique_values@.len() - j,
        {
            let entry = match &unique_values[j] {
                Some(s) => Some(s.as_str().to_owned()),
                None => None,
            };
            mapping.push(entry);
            j = j + 1;
        }
        let ghost dict = mapping@.map_values(|e: Option<String>| entry_view(e));
        proof {
            assert(dict =~= unique_values@.map_values(|o: Option<Rc<String>>| row_view(o)));
        }
        let mut encoded_values: Vec<u16> = Vec::new();
        let mut i: usize = 0;
        while i < strings.len()
            invariant
                i <= strings@.len(),
                mapping@.len() == unique_values@.len(),
                mapping@.len() <= MAX_DICTIONARY_SIZE,
                dict == mapping@.map_values(|e: Option<String>| entry_view(e)),
                dict == unique_values@.map_values(|o: Option<Rc<String>>| row_view(o)),
                covers(unique_values@, strings@),
                encoded_values@.len() == i,
                forall|k: int| 0 <= k < i ==> (#[trigger] encoded_values@[k] as int) < dict.len()
                    && dict[encoded_values@[k] as int] == row_view(strings@[k]),
            decreases strings@.len() - i,
        {
            proof {
                assert(holds_value(unique_values@, row_view(strings@[i as int])));
                let w = choose|w: int| 0 <= w < unique_values@.len() && row_view(#[trigger] unique_values@[w]) == row_view(strings@[i as int]);
                assert(dict[w] == row_view(strings@[i as int]));
            }
            let k = lookup(&mapping, &strings[i]);
            encoded_values.push(k as u16);
            i = i + 1;
        }
        let r = DictEncodedStrings { mapping, encoded_values };
        proof {
            assert(r@ =~= strings@.map_values(|o: Option<Rc<String>>| row_text(o)));
        }
        r
    }

    /// The text of the entry at `k`.
    fn entry(&self, k: u16) -> (r: &str)
        requires
            (k as int) < self.dictionary().len(),
        ensures
            r@ == entry_text(self.dictionary()[k as int]),
    {
        match &self.mapping[k as usize] {
            Some(s) => s.as_str(),
            None => {
                proof {
                    reveal_strlit("");
                }
                ""
            },
        }
    }

    /// The texts that the indices in `data` stand for, in order.
    pub fn decode(&self, data: &[u16]) -> (r: Vec<&str>)
        requires
            self.valid_indices(data@),
        ensures
            str_views(r@) == self.decode_spec(data@),
    {
        let mut result: Vec<&str> = Vec::with_capacity(data.len());
        let mut i: usize = 0;
        while i < data.len()
            invariant
                i <= data@.len(),
                self.valid_indices(data@),
                str_views(result@) == self.decode_spec(data@.take(i as int)),
            decreases data@.len() - i,
        {
            let ghost before = result@;
            let s = self.entry(data[i]);
            result.push(s);
            proof {
                assert(result@.drop_last() =~= before);
                assert(str_views(result@) =~= str_views(before).push(s@));
                assert(self.decode_spec(data@.take(i as int + 1)) =~= self.decode_spec(
                    data@.take(i as int),
                ).push(s@));
            }
            i = i + 1;
        }
        proof {
            assert(data@.take(i as int) =~= data@);
        }
        result
    }

    /// The text of one index, as an owned value.
    pub fn to_raw(&self, elem: u16) -> (r: String)
        requires
            (elem as int) < self.dictionary().len(),
        ensures
            r@ == entry_text(self.dictionary()[elem as int]),
    {
        self.entry(elem).to_owned()
    }

    /// Every row's text, in order.
    pub fn collect_decoded(&self) -> (r: Vec<&str>)
        ensures
            str_views(r@) == self@,
    {
        proof {
            use_type_invariant(self);
        }
        self.decode(self.encoded_values.as_slice())
    }

    /// The texts of the rows whose bit is set in `filter`, in row order.
    pub fn filter_decode(&self, filter: &BitVec) -> (r: Vec<&str>)
        requires
            mask_bits(*filter).len() == self@.len(),
        ensures
            str_views(r@) == select(self@, mask_bits(*filter)),
    {
        proof {
            use_type_invariant(self);
        }
        let ghost m = mask_bits(*filter);
        let n = mask_len(filter);
        let mut result: Vec<&str> = Vec::with_capacity(self.encoded_values.len());
        let mut i: usize = 0;
        while i < n
            invariant
                n == self@.len(),
                n == self.indices().len(),
                m == mask_bits(*filter),
                m.len() == n,
                i <= n,
                self.valid_indices(self.indices()),
                str_views(result@) == select(self@.take(i as int), m),
            decreases n - i,
        {
            proof {
                lemma_select_take(self@, m, i as int);
            }
            if let Some(true) = mask_get(filter, i) {
                let ghost before = result@;
                let s = self.entry(self.encoded_values[i]);
                result.push(s);
                proof {
                    assert(result@.drop_last() =~= before);
                    assert(str_views(result@) =~= str_views(before).push(s@));
                }
            }
            i = i + 1;
        }
        proof {
            assert(self@.take(n as int) =~= self@);
        }
        result
    }

    /// The type of the decoded values.
    pub fn decoded_type(&self) -> (r: Type)
        ensures
            r == Type::String,
    {
        Type::String
    }

    /// Access to the encoded form: this column itself.
    pub fn to_codec(&self) -> (r: Option<&DictEncodedStrings>)
        ensures
            r == Some(self),
    {
        Some(self)
    }

    /// The encoded form of this column: its own index array, and the column
    /// that decodes it.
    pub fn get_encoded(&self) -> (r: (&Vec<u16>, &DictEncodedStrings))
        ensures
            r.0@ == self.indices(),
            r.1 == self,
            self.valid_indices(r.0@),
    {
        proof {
            use_type_invariant(self);
        }
        (&self.encoded_values, self)
    }

    /// The indices of the rows whose bit is set in `filter`, in row order, and
    /// the column that decodes them.
    pub fn filter_encoded(&self, filter: &BitVec) -> (r: (Vec<u16>, &DictEncodedStrings))
        requires
            mask_bits(*filter).len() == self.indices().len(),
        ensures
            r.0@ == select(self.indices(), mask_bits(*filter)),
            r.1 == self,
            self.valid_indices(r.0@),
    {
        proof {
            use_type_invariant(self);
        }
        let ghost m = mask_bits(*filter);
        let ghost idx = self.indices();
        let n = mask_len(filter);
        let mut result: Vec<u16> = Vec::with_capacity(self.encoded_values.len());
        let mut i: usize = 0;
        while i < n
            invariant
                n == idx.len(),
                idx == self.indices(),
                m == mask_bits(*filter),
                m.len() == n,
                i <= n,
                result@ == select(idx.take(i as int), m),
            decreases n - i,
        {
            proof {
                lemma_select_take(idx, m, i as int);
            }
            if let Some(true) = mask_get(filter, i) {
                result.push(self.encoded_values[i]);
            }
            i = i + 1;
        }
        proof {
            assert(idx.take(n as int) =~= idx);
            lemma_select_within(idx, m, self.dictionary().len() as int);
        }
        (result, self)
    }

    /// The heap memory held by the dictionary and the index array, as the
    /// allocator reports it, saturating at `usize::MAX`.
    pub fn heap_size_of_children(&self) -> usize {
        let a = entries_heap_size(&self.mapping);
        let b = indices_heap_size(&self.encoded_values);
        if a <= usize::MAX - b {
            a + b
        } else {
            usize::MAX
        }
    }

    /// The type of the owned encoded values.
    pub fn encoded_type(&self) -> (r: Type)
        ensures
            r == Type::U16,
    {
        Type::U16
    }

    /// The type of the encoded values when borrowed from the column.
    pub fn ref_encoded_type(&self) -> (r: Type)
        ensures
            r == Type::RefU16,
    {
        Type::RefU16
    }
}

/// Decoding the column's own index array gives its rows, and decoding the
/// indices that a mask selects gives the rows that the mask selects.
pub proof fn lemma_encoded_consistency(d: DictEncodedStrings, m: Seq<bool>)
    ensures
        d.decode_spec(d.indices()) == d@,
        d.decode_spec(select(d.indices(), m)) == select(d@, m),
{
    lemma_select_map(d.indices(), m, |k: u16| entry_text(d.dictionary()[k as int]));
}

/// Selecting indices that all point into the dictionary keeps them in range.
proof fn lemma_select_within(idx: Seq<u16>, m: Seq<bool>, n: int)
    requires
        forall|i: int| 0 <= i < idx.len() ==> (#[trigger] idx[i] as int) < n,
    ensures
        forall|i: int| 0 <= i < select(idx, m).len() ==> (#[trigger] select(idx, m)[i] as int) < n,
    decreases idx.len(),
{
    if idx.len() > 0 {
        let init = idx.drop_last();
        assert forall|i: int| 0 <= i < init.len() implies (#[trigger] init[i] as int) < n by {
            assert(init[i] == idx[i]);
        }
        lemma_select_within(init, m, n);
        let r = select(idx, m);
        assert forall|i: int| 0 <= i < r.len() implies (#[trigger] r[i] as int) < n by {
            if m[idx.len() - 1] && i == r.len() - 1 {
                assert(r[i] == idx[idx.len() - 1]);
            } else {
                assert(r[i] == select(init, m)[i]);
            }
        }
    }
}

/// The first dictionary position whose entry equals `value`; one must exist.
fn lookup(mapping: &Vec<Option<String>>, value: &Option<Rc<String>>) -> (r: usize)
    requires
        exists|w: int| 0 <= w < mapping@.len() && entry_view(#[trigger] mapping@[w]) == row_view(*value),
    ensures
        r < mapping@.len(),
        entry_view(mapping@[r as int]) == row_view(*value),
{
    let mut j: usize = 0;
    while j < mapping.len()
        invariant
            j <= mapping@.len(),
            exists|w: int| j <= w < mapping@.len() && entry_view(#[trigger] mapping@[w]) == row_view(*value),
        decreases mapping@.len() - j,
    {
        let found = match (&mapping[j], value) {
            (Some(a), Some(b)) => *a == **b,
            (None, None) => true,
            _ => false,
        };
        if found {
            return j;
        }
        j = j + 1;
    }
    j
}

} // verus!
