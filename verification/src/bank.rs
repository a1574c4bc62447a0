//! The bank cell: the current sample bank, published by the input thread and
//! read by the audio thread without locks.

use crate::samples::SampleBank;
use arc_swap::ArcSwap;
use std::sync::Arc;
use vstd::prelude::*;

verus! {

/// The publishing side of the cell. There is one per cell, so what it holds
/// is what was last stored through it.
#[verifier::external_body]
pub struct BankCell {
    inner: Arc<ArcSwap<SampleBank>>,
}

/// A reading side of the cell. It sees whatever the publishing side stored
/// last, at the moment it looks.
#[verifier::external_body]
pub struct BankReader {
    inner: Arc<ArcSwap<SampleBank>>,
}

/// The bank that a cell holds.
pub uninterp spec fn cell_bank(cell: BankCell) -> SampleBank;

/// `ArcSwap::from_pointee`: a new cell that holds `bank`.
#[verifier::external_body]
fn cell_new(bank: SampleBank) -> (cell: BankCell)
    ensures
        cell_bank(cell) == bank,
{
    BankCell { inner: Arc::new(ArcSwap::from_pointee(bank)) }
}

/// `ArcSwapAny::store`: replaces the bank in the cell; later loads yield the
/// new one.
#[verifier::external_body]
fn cell_store(cell: &mut BankCell, bank: Arc<SampleBank>)
    ensures
        cell_bank(*final(cell)) == *bank,
{
    cell.inner.store(bank)
}

/// `ArcSwapAny::load_full` on the publishing side: a share of the bank in
/// the cell, which nobody else can have replaced.
#[verifier::external_body]
fn cell_load(cell: &BankCell) -> (bank: Arc<SampleBank>)
    ensures
        *bank == cell_bank(*cell),
{
    cell.inner.load_full()
}

/// `Arc::clone` of the handle on the cell, wrapped for reading only.
#[verifier::external_body]
fn cell_reader(cell: &BankCell) -> (reader: BankReader) {
    BankReader { inner: Arc::clone(&cell.inner) }
}

/// `ArcSwapAny::load_full` on a reading side: a share of whichever bank the
/// cell holds at that moment.
#[verifier::external_body]
fn reader_load(reader: &BankReader) -> (bank: Arc<SampleBank>) {
    reader.inner.load_full()
}

impl BankCell {
    /// The bank that the cell holds.
    pub open spec fn current(&self) -> SampleBank {
        cell_bank(*self)
    }

    /// A cell that holds `bank`.
    pub fn new(bank: SampleBank) -> (cell: BankCell)
        ensures
            cell.current() == bank,
    {
        cell_new(bank)
    }

    /// Publishes `bank`. Readers see it from their next load on; shares of
    /// the previous bank stay valid for as long as they are held.
    pub fn store(&mut self, bank: Arc<SampleBank>)
        ensures
            final(self).current() == *bank,
    {
        cell_store(self, bank)
    }

    /// A share of the bank that was last stored.
    pub fn load(&self) -> (bank: Arc<SampleBank>)
        ensures
            *bank == self.current(),
    {
        cell_load(self)
    }

    /// A handle for the audio thread to read the cell through.
    pub fn reader(&self) -> BankReader {
        cell_reader(self)
    }
}

impl BankReader {
    /// A share of the bank that the cell holds right now.
    pub fn load(&self) -> Arc<SampleBank> {
        reader_load(self)
    }
}

} // verus!
