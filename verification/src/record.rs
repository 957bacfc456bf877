//! DNS record and zone types, with their mathematical views.

use vstd::prelude::*;
use crate::strutil::str_eq;

verus! {

/// A DNS zone as the provider reports it.
#[derive(Debug, PartialEq, Eq)]
pub struct Zone {
    pub id: String,
    pub name: String,
}

/// A single DNS record. Identity for diffing is `(_type, name)`; `id` is
/// assigned by the provider on creation and is empty on locally
/// synthesized desired records.
#[derive(Debug, PartialEq, Eq)]
pub struct Record {
    pub id: String,
    pub _type: String,
    pub name: String,
    pub content: String,
}

/// Mathematical view of a [`Record`]: the four fields as character sequences.
#[verifier::ext_equal]
pub ghost struct RecordV {
    pub id: Seq<char>,
    pub _type: Seq<char>,
    pub name: Seq<char>,
    pub content: Seq<char>,
}

impl View for Record {
    type V = RecordV;

    open spec fn view(&self) -> RecordV {
        RecordV { id: self.id@, _type: self._type@, name: self.name@, content: self.content@ }
    }
}

/// The views of a sequence of records.
pub open spec fn record_views(rs: Seq<Record>) -> Seq<RecordV> {
    rs.map_values(|r: Record| r@)
}

impl Record {
    /// A fresh record equal to this one, field for field.
    pub fn duplicate(&self) -> (r: Record)
        ensures
            r == *self,
    {
        Record {
            id: self.id.clone(),
            _type: self._type.clone(),
            name: self.name.clone(),
            content: self.content.clone(),
        }
    }

    /// Equality over all four fields, as deduplication uses it.
    pub fn same_record(&self, other: &Record) -> (r: bool)
        ensures
            r == (self@ == other@),
    {
        let r = str_eq(self.id.as_str(), other.id.as_str())
            && str_eq(self._type.as_str(), other._type.as_str())
            && str_eq(self.name.as_str(), other.name.as_str())
            && str_eq(self.content.as_str(), other.content.as_str());
        proof {
            if r {
                assert(self@ =~= other@);
            }
        }
        r
    }

    /// Match on the diff identity `(_type, name)`.
    pub fn same_key(&self, other: &Record) -> (r: bool)
        ensures
            r == (self@._type == other@._type && self@.name == other@.name),
    {
        str_eq(self._type.as_str(), other._type.as_str())
            && str_eq(self.name.as_str(), other.name.as_str())
    }
}

} // verus!
