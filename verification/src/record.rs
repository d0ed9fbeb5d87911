//! City records and the form in which they are handed out.
//!
//! A coordinate is carried as the bit pattern of its IEEE 754 double. The
//! library never computes with a coordinate, it only hands it through.

use vstd::prelude::*;

verus! {

/// One city of the reference set.
#[derive(Clone, Debug, PartialEq, Eq)]
pub struct CityRecord {
    /// The identifier of the record, unique within a snapshot.
    pub id: i64,
    pub name: String,
    pub country: String,
    /// The latitude in degrees, as the bits of a double.
    pub latitude_bits: u64,
    /// The longitude in degrees, as the bits of a double.
    pub longitude_bits: u64,
}

/// What is handed out of a city record.
#[derive(Clone, Debug, PartialEq, Eq)]
pub struct OutputRecord {
    pub city: String,
    pub country: String,
    /// The latitude in degrees, as the bits of a double.
    pub latitude_bits: u64,
    /// The longitude in degrees, as the bits of a double.
    pub longitude_bits: u64,
}

/// An output record by its contents.
pub struct OutputView {
    pub city: Seq<char>,
    pub country: Seq<char>,
    pub latitude_bits: u64,
    pub longitude_bits: u64,
}

impl View for OutputRecord {
    type V = OutputView;

    open spec fn view(&self) -> OutputView {
        OutputView {
            city: self.city@,
            country: self.country@,
            latitude_bits: self.latitude_bits,
            longitude_bits: self.longitude_bits,
        }
    }
}

/// What is handed out of `record`: everything but its identifier.
pub open spec fn projection(record: CityRecord) -> OutputView {
    OutputView {
        city: record.name@,
        country: record.country@,
        latitude_bits: record.latitude_bits,
        longitude_bits: record.longitude_bits,
    }
}

impl CityRecord {
    /// What is handed out of this record.
    pub fn project(&self) -> (out: OutputRecord)
        ensures
            out@ == projection(*self),
    {
        OutputRecord {
            city: self.name.clone(),
            country: self.country.clone(),
            latitude_bits: self.latitude_bits,
            longitude_bits: self.longitude_bits,
        }
    }
}

} // verus!
