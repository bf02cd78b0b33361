//! The concrete pair of run directories, held as plain path strings.

use vstd::prelude::*;
use crate::paths::{filter_lidar_entries, lidar_files};

verus! {

/// The source and destination directories of one run.
pub struct Paths {
    source: String,
    destination: String,
}

impl Paths {
    /// The source directory, as a character sequence.
    pub closed spec fn spec_source(&self) -> Seq<char> {
        self.source@
    }

    /// The destination directory, as a character sequence.
    pub closed spec fn spec_destination(&self) -> Seq<char> {
        self.destination@
    }

    pub fn new(source: String, destination: String) -> (p: Self)
        ensures
            p.spec_source() == source@,
            p.spec_destination() == destination@,
    {
        Self { source, destination }
    }

    /// The tile files among the source directory's `entries`, each joined
    /// under the source path.
    pub fn get_lidar_files(&self, entries: &Vec<String>) -> (files: Vec<String>)
        ensures
            files.deep_view() == lidar_files(self.spec_source(), entries.deep_view()),
    {
        filter_lidar_entries(self.source.as_str(), entries)
    }

    pub fn get_lidar_path(&self) -> (r: &String)
        ensures
            r@ == self.spec_source(),
    {
        &self.source
    }

    pub fn get_elevation_data_path(&self) -> (r: &String)
        ensures
            r@ == self.spec_destination(),
    {
        &self.destination
    }
}

impl crate::paths::Paths for Paths {
    open spec fn spec_lidar_path(&self) -> Seq<char> {
        self.spec_source()
    }

    open spec fn spec_elevation_data_path(&self) -> Seq<char> {
        self.spec_destination()
    }

    fn get_lidar_path(&self) -> (r: &String) {
        &self.source
    }

    fn get_elevation_data_path(&self) -> (r: &String) {
        &self.destination
    }
}

} // verus!
