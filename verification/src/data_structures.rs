//! The shared data model: records, addresses, histograms and the messages that
//! the coordinator and its workers exchange.

use std::collections::HashMap;
use vstd::prelude::*;

verus! {

/// One record of the store: the header bits under test and the nonce bits they
/// are paired with.
#[derive(Debug, Clone)]
pub struct BlockHeaderData {
    pub nonce: Vec<bool>,
    pub header: Vec<bool>,
}

/// A hypothesis under test: header-bit positions, most significant first, and one
/// nonce-bit position.
#[derive(Debug, Clone)]
pub struct DataAddress {
    pub header_bits: Vec<u16>,
    pub nonce_bit: u8,
}

/// What a [`DataAddress`] holds, as mathematical values.
pub struct AddressView {
    pub header_bits: Seq<u16>,
    pub nonce_bit: u8,
}

impl View for DataAddress {
    type V = AddressView;

    open spec fn view(&self) -> AddressView {
        AddressView { header_bits: self.header_bits@, nonce_bit: self.nonce_bit }
    }
}

impl DataAddress {
    /// Two addresses are equal exactly when their positions are.
    pub fn same_as(&self, other: &DataAddress) -> (r: bool)
        ensures
            r == (self@ == other@),
    {
        if self.nonce_bit != other.nonce_bit || self.header_bits.len() != other.header_bits.len() {
            assert(self@.header_bits.len() != other@.header_bits.len() || self@.nonce_bit
                != other@.nonce_bit);
            return false;
        }
        let mut i: usize = 0;
        while i < self.header_bits.len()
            invariant
                i <= self.header_bits.len(),
                self.header_bits.len() == other.header_bits.len(),
                forall|j: int| 0 <= j < i ==> self.header_bits@[j] == other.header_bits@[j],
            decreases self.header_bits.len() - i,
        {
            if self.header_bits[i] != other.header_bits[i] {
                return false;
            }
            i += 1;
        }
        assert(self.header_bits@ =~= other.header_bits@);
        true
    }
}

/// The counters of one bucket. `total` is derived from the other two by
/// [`DataInstance::counted`].
#[derive(Debug, Clone, Copy, PartialEq, Eq, Structural)]
pub struct DataInstance {
    pub zeros: u32,
    pub ones: u32,
    pub total: u32,
}

impl DataInstance {
    /// A bucket in which nothing has been counted.
    pub open spec fn zero() -> DataInstance {
        DataInstance { zeros: 0, ones: 0, total: 0 }
    }

    /// The bucket that holds `zeros` and `ones` samples, with its total.
    pub open spec fn counted(zeros: nat, ones: nat) -> DataInstance {
        DataInstance { zeros: zeros as u32, ones: ones as u32, total: (zeros + ones) as u32 }
    }

    /// The counters agree: the total is the sum of both outcomes.
    pub open spec fn consistent(&self) -> bool {
        self.zeros + self.ones == self.total
    }
}

/// An address with its histogram: one [`DataInstance`] per bucket key.
#[derive(Debug, Clone)]
pub struct Statistic {
    pub address: DataAddress,
    pub instances: HashMap<u32, DataInstance>,
}

/// What a [`Statistic`] holds, as mathematical values.
pub struct StatisticView {
    pub address: AddressView,
    pub instances: Map<u32, DataInstance>,
}

impl View for Statistic {
    type V = StatisticView;

    open spec fn view(&self) -> StatisticView {
        StatisticView { address: self.address@, instances: self.instances@ }
    }
}

/// The views of a batch of statistics, in order.
pub open spec fn views(stats: Seq<Statistic>) -> Seq<StatisticView> {
    stats.map_values(|s: Statistic| s@)
}

/// What travels between the coordinator and a worker. A worker is named by its
/// index in the pool.
#[derive(Debug)]
pub enum Message {
    /// A batch of fresh statistics for the worker to fill and filter.
    Process(Vec<Statistic>),
    /// The worker is to leave its loop.
    Stop,
    /// The named worker is idle and takes the next batch.
    Free(usize),
}

/// What a [`Message`] holds, as mathematical values.
pub enum MessageView {
    Process(Seq<StatisticView>),
    Stop,
    Free(usize),
}

impl View for Message {
    type V = MessageView;

    open spec fn view(&self) -> MessageView {
        match *self {
            Message::Process(batch) => MessageView::Process(views(batch@)),
            Message::Stop => MessageView::Stop,
            Message::Free(worker) => MessageView::Free(worker),
        }
    }
}

} // verus!
