//! A string column in one of its two encodings, chosen once when it is built.

use vstd::prelude::*;
use std::rc::Rc;
use bit_vec::BitVec;
use crate::dict::{covers, DictEncodedStrings, MAX_DICTIONARY_SIZE};
use crate::mask::{mask_bits, select};
use crate::packer::{pack, packed_texts, StringPacker};
use crate::text::{no_nul_rows, row_bytes, row_text, row_view, str_views};

verus! {

/// The type of the values a column hands out.
#[derive(Clone, Copy, Debug, PartialEq, Eq, Structural)]
pub enum Type {
    /// Decoded text.
    String,
    /// 16-bit dictionary indices, owned.
    U16,
    /// 16-bit dictionary indices, borrowed from the column.
    RefU16,
}

/// The ceiling on distinct values up to which the ingestion side collects a
/// column's unique values, so that the column can be dictionary encoded.
pub const MAX_UNIQUE_STRINGS: usize = 10000;

/// A string column in the encoding chosen when it was built.
pub enum StringColumn {
    /// Every row's bytes, packed.
    Packed(StringPacker),
    /// A dictionary and one index per row.
    Dict(DictEncodedStrings),
}

impl View for StringColumn {
    type V = Seq<Seq<char>>;

    /// The rows' texts, in order.
    open spec fn view(&self) -> Seq<Seq<char>> {
        match self {
            StringColumn::Packed(p) => p@,
            StringColumn::Dict(d) => d@,
        }
    }
}

/// The ingestion side found a set of unique values small enough for the
/// dictionary's 16-bit indices.
pub open spec fn chooses_dict(unique_values: Option<Vec<Option<Rc<String>>>>) -> bool {
    match unique_values {
        Some(u) => u@.len() <= MAX_DICTIONARY_SIZE,
        None => false,
    }
}

/// Builds a column from its rows: dictionary encoded where the ingestion side
/// found a set of unique values that the 16-bit indices can address, packed
/// otherwise. The unique values, where given, must cover every row.
pub fn build_string_column(values: Vec<Option<Rc<String>>>, unique_values: Option<Vec<Option<Rc<String>>>>) -> (r: StringColumn)
    requires
        unique_values matches Some(u) ==> covers(u@, values@),
    ensures
        match r {
            StringColumn::Dict(d) => {
                &&& chooses_dict(unique_values)
                &&& d.dictionary() == unique_values->Some_0@.map_values(|o: Option<Rc<String>>| row_view(o))
                &&& d.indices().len() == values@.len()
                &&& forall|i: int|
                    0 <= i < values@.len() ==> d.dictionary()[#[trigger] d.indices()[i] as int] == row_view(values@[i])
            },
            StringColumn::Packed(p) => {
                &&& !chooses_dict(unique_values)
                &&& p.bytes() == pack(values@.map_values(|o: Option<Rc<String>>| row_bytes(o)))
            },
        },
        r matches StringColumn::Dict(_) ==> r@ == values@.map_values(|o: Option<Rc<String>>| row_text(o)),
        r matches StringColumn::Packed(_) ==> r@ == packed_texts(pack(values@.map_values(|o: Option<Rc<String>>| row_bytes(o)))),
        no_nul_rows(values@) ==> r@ == values@.map_values(|o: Option<Rc<String>>| row_text(o)),
{
    match unique_values {
        Some(u) => {
            if u.len() <= MAX_DICTIONARY_SIZE {
                StringColumn::Dict(DictEncodedStrings::from_strings(&values, u))
            } else {
                StringColumn::Packed(StringPacker::from_strings(&values))
            }
        },
        None => StringColumn::Packed(StringPacker::from_strings(&values)),
    }
}

/// Decoding never changes a column: two full decodes give the same texts,
/// and so do two decodes through one mask.
pub proof fn lemma_decode_idempotent(
    c: StringColumn,
    m: Seq<bool>,
    first: Seq<&str>,
    second: Seq<&str>,
    first_filtered: Seq<&str>,
    second_filtered: Seq<&str>,
)
    requires
        str_views(first) == c@,
        str_views(second) == c@,
        str_views(first_filtered) == select(c@, m),
        str_views(second_filtered) == select(c@, m),
    ensures
        str_views(first) == str_views(second),
        str_views(first_filtered) == str_views(second_filtered),
{
}

impl StringColumn {
    /// Every row's text, in order.
    pub fn collect_decoded(&self) -> (r: Vec<&str>)
        ensures
            str_views(r@) == self@,
    {
        match self {
            StringColumn::Packed(p) => p.collect_decoded(),
            StringColumn::Dict(d) => d.collect_decoded(),
        }
    }

    /// The texts of the rows whose bit is set in `filter`, in row order.
    pub fn filter_decode(&self, filter: &BitVec) -> (r: Vec<&str>)
        requires
            mask_bits(*filter).len() == self@.len(),
        ensures
            str_views(r@) == select(self@, mask_bits(*filter)),
    {
        match self {
            StringColumn::Packed(p) => p.filter_decode(filter),
            StringColumn::Dict(d) => d.filter_decode(filter),
        }
    }

    /// The type of the decoded values.
    pub fn decoded_type(&self) -> (r: Type)
        ensures
            r == Type::String,
    {
        Type::String
    }

    /// Access to the encoded form, which only the dictionary encoding has.
    pub fn to_codec(&self) -> (r: Option<&DictEncodedStrings>)
        ensures
            self matches StringColumn::Dict(d) ==> r == Some(d),
            self matches StringColumn::Packed(_) ==> r is None,
    {
        match self {
            StringColumn::Packed(_) => None,
            StringColumn::Dict(d) => Some(d),
        }
    }
}

} // verus!
