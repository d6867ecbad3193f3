//! Readings as the store and the protocol carry them.
use vstd::prelude::*;

use crate::key::key_timestamp;

verus! {

/// One sensor sample: its time in whole seconds since the epoch (UTC) and
/// the serialized sensor record, which this library carries unread.
#[derive(Clone, Debug)]
pub struct Data {
    pub timestamp: i64,
    pub sensors: Vec<u8>,
}

pub struct DataView {
    pub timestamp: i64,
    pub sensors: Seq<u8>,
}

impl View for Data {
    type V = DataView;

    open spec fn view(&self) -> DataView {
        DataView { timestamp: self.timestamp, sensors: self.sensors@ }
    }
}

/// An outbound message of the live-data protocol.
#[derive(Clone, Debug)]
pub enum Response {
    /// One reading.
    NewData(Data),
    /// Every stored reading, oldest first.
    Sync(Vec<Data>),
}

pub enum ResponseView {
    NewData(DataView),
    Sync(Seq<DataView>),
}

impl View for Response {
    type V = ResponseView;

    open spec fn view(&self) -> ResponseView {
        match self {
            Response::NewData(d) => ResponseView::NewData(d@),
            Response::Sync(v) => ResponseView::Sync(data_views(v@)),
        }
    }
}

pub open spec fn data_views(v: Seq<Data>) -> Seq<DataView> {
    v.map_values(|d: Data| d@)
}

pub open spec fn response_views(v: Seq<Response>) -> Seq<ResponseView> {
    v.map_values(|r: Response| r@)
}

/// The reading that a stored entry holds, if its key has key length.
pub open spec fn entry_reading(key: Seq<u8>, value: Seq<u8>) -> Option<DataView> {
    match key_timestamp(key) {
        Some(ts) => Some(DataView { timestamp: ts, sensors: value }),
        None => None,
    }
}

/// The readings of a run of stored entries, in their order; an entry whose
/// key is not a timestamp key is passed over.
pub open spec fn readings_of(es: Seq<(Vec<u8>, Vec<u8>)>) -> Seq<DataView>
    decreases es.len(),
{
    if es.len() == 0 {
        Seq::empty()
    } else {
        match entry_reading(es.last().0@, es.last().1@) {
            Some(d) => readings_of(es.drop_last()).push(d),
            None => readings_of(es.drop_last()),
        }
    }
}

/// Timestamps strictly ascend.
pub open spec fn time_ascending(v: Seq<DataView>) -> bool {
    forall|i: int, j: int|
        0 <= i < j < v.len() ==> #[trigger] v[i].timestamp < #[trigger] v[j].timestamp
}

} // verus!

verus! {

impl Data {
    /// A copy of the reading.
    pub fn clone_data(&self) -> (r: Data)
        ensures
            r@ == self@,
    {
        Data { timestamp: self.timestamp, sensors: self.sensors.clone() }
    }
}

} // verus!
