//! The values that pass between the host and the engine.

use crate::cdata::CData;
use vstd::prelude::*;

verus! {

/// One entry of a mapping of the host: a value under a key, which is a
/// string of bytes.
#[derive(Debug)]
pub struct HostEntry {
    pub key: Vec<u8>,
    pub value: HostValue,
}

/// A value of the host, on its way into the engine.
#[derive(Debug)]
pub enum HostValue {
    /// No value.
    Nil,
    Boolean(bool),
    /// A number that the host holds as an integer.
    Integer(i64),
    /// A number that the host holds as a double, by the bits of the double.
    Number(u64),
    /// A string of bytes.
    Text(Vec<u8>),
    /// Values in a row, the first one first.
    Sequence(Vec<HostValue>),
    /// Values under names.
    Mapping(Vec<HostEntry>),
    /// A table of the host, which holds values in a row and values under
    /// names at once.
    Table { items: Vec<HostValue>, entries: Vec<HostEntry> },
    /// A value of the engine, by its address.
    Handle(usize),
}

/// A value on its way out of the engine.
#[derive(Debug, PartialEq)]
pub enum DynamicValue {
    /// An integer, widened to 64 bits.
    Integer(i64),
    Boolean(bool),
    /// A number, by the bits of the double that it is.
    Number(u64),
    /// A view of a value that has parts, or of what a pointer points to.
    Handle(CData),
}

/// What a [`DynamicValue`] stands for.
pub enum ValueModel {
    Integer(int),
    Boolean(bool),
    Number(nat),
    /// A view: a type, an address and a size, which owns nothing.
    Handle { ctype: crate::ctype::TypeModel, ptr: nat, size: nat },
}

impl View for DynamicValue {
    type V = ValueModel;

    open spec fn view(&self) -> ValueModel {
        match self {
            DynamicValue::Integer(v) => ValueModel::Integer(*v as int),
            DynamicValue::Boolean(b) => ValueModel::Boolean(*b),
            DynamicValue::Number(bits) => ValueModel::Number(*bits as nat),
            DynamicValue::Handle(cd) => ValueModel::Handle {
                ctype: cd.ctype@,
                ptr: cd.ptr as nat,
                size: cd.size as nat,
            },
        }
    }
}

/// The index of the first entry under `key`, if there is one.
pub open spec fn entry_index(entries: Seq<HostEntry>, key: Seq<u8>) -> Option<int>
    decreases entries.len(),
{
    if entries.len() == 0 {
        None
    } else if entries[0].key@ == key {
        Some(0)
    } else {
        match entry_index(entries.drop_first(), key) {
            Some(i) => Some(i + 1),
            None => None,
        }
    }
}

/// The first entry under `key` is at its index, and no entry before it is
/// under `key`; where there is no index, no entry is under `key`.
pub proof fn lemma_entry_index(entries: Seq<HostEntry>, key: Seq<u8>)
    ensures
        match entry_index(entries, key) {
            Some(i) => 0 <= i < entries.len() && entries[i].key@ == key && forall|j: int|
                0 <= j < i ==> (#[trigger] entries[j]).key@ != key,
            None => forall|j: int| 0 <= j < entries.len() ==> (#[trigger] entries[j]).key@ != key,
        },
    decreases entries.len(),
{
    if entries.len() > 0 && entries[0].key@ != key {
        let tail = entries.drop_first();
        lemma_entry_index(tail, key);
        match entry_index(tail, key) {
            Some(i) => {
                assert forall|j: int| 0 <= j < i + 1 implies (#[trigger] entries[j]).key@
                    != key by {
                    if j > 0 {
                        assert(tail[j - 1] == entries[j]);
                    }
                }
            },
            None => {
                assert forall|j: int| 0 <= j < entries.len() implies (#[trigger] entries[j]).key@
                    != key by {
                    if j > 0 {
                        assert(tail[j - 1] == entries[j]);
                    }
                }
            },
        }
    }
}

/// Whether two strings of bytes are the same.
pub fn same_bytes(a: &Vec<u8>, b: &Vec<u8>) -> (r: bool)
    ensures
        r == (a@ == b@),
{
    if a.len() != b.len() {
        return false;
    }
    let mut i: usize = 0;
    while i < a.len()
        invariant
            i <= a@.len(),
            a@.len() == b@.len(),
            forall|j: int| 0 <= j < i ==> a@[j] == b@[j],
        decreases a.len() - i,
    {
        if a[i] != b[i] {
            return false;
        }
        i += 1;
    }
    assert(a@ =~= b@);
    true
}

/// The index of the first entry under `key`, if there is one.
pub fn find_entry(entries: &Vec<HostEntry>, key: &Vec<u8>) -> (r: Option<usize>)
    ensures
        match r {
            Some(i) => i < entries@.len() && entry_index(entries@, key@) == Some(i as int),
            None => entry_index(entries@, key@) is None,
        },
{
    let mut i: usize = 0;
    while i < entries.len()
        invariant
            i <= entries.len(),
            forall|j: int| 0 <= j < i ==> (#[trigger] entries@[j]).key@ != key@,
        decreases entries.len() - i,
    {
        if same_bytes(&entries[i].key, key) {
            proof {
                lemma_entry_index(entries@, key@);
            }
            return Some(i);
        }
        i += 1;
    }
    proof {
        lemma_entry_index(entries@, key@);
    }
    None
}

} // verus!
