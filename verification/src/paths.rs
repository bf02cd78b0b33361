//! The pair of directories a run works on, as a capability trait, and the
//! filter that selects tile files among directory entries.

use vstd::prelude::*;
use crate::text::{ext_of, join, join_spec, split_extension};

verus! {

/// The full paths, under `src`, of the entries whose extension is `hgt`, in
/// the order given.
pub open spec fn lidar_files(src: Seq<char>, names: Seq<Seq<char>>) -> Seq<Seq<char>>
    decreases names.len(),
{
    if names.len() == 0 {
        Seq::<Seq<char>>::empty()
    } else {
        lidar_files(src, names.drop_last()) + (if ext_of(names.last()) == Some("hgt"@) {
            seq![join_spec(src, names.last())]
        } else {
            Seq::<Seq<char>>::empty()
        })
    }
}

/// Keeps the directory entry names whose extension is `hgt` and joins each
/// under `source`, preserving their order.
pub fn filter_lidar_entries(source: &str, entries: &Vec<String>) -> (files: Vec<String>)
    ensures
        files.deep_view() == lidar_files(source@, entries.deep_view()),
{
    let hgt: String = "hgt".to_owned();
    let mut files: Vec<String> = Vec::new();
    let mut i: usize = 0;
    while i < entries.len()
        invariant
            i <= entries@.len(),
            hgt@ == "hgt"@,
            files.deep_view() == lidar_files(source@, entries.deep_view().take(i as int)),
        decreases entries@.len() - i,
    {
        let name = &entries[i];
        let (_, ext) = split_extension(name.as_str());
        let keep = match ext {
            Some(e) => e == hgt,
            None => false,
        };
        if keep {
            files.push(join(source, name.as_str()));
        }
        proof {
            assert(entries.deep_view().take(i + 1).drop_last() =~= entries.deep_view().take(
                i as int,
            ));
            assert(entries.deep_view().take(i + 1).last() == name@);
            assert(files.deep_view() =~= lidar_files(source@, entries.deep_view().take(i + 1)));
        }
        i += 1;
    }
    proof {
        assert(entries.deep_view().take(entries@.len() as int) =~= entries.deep_view());
    }
    files
}

/// The two directories of one run. The binary supplies an implementation
/// whose paths come from the command line.
pub trait Paths {
    /// The source directory that holds the incoming tiles.
    spec fn spec_lidar_path(&self) -> Seq<char>;

    /// The destination directory consumed downstream.
    spec fn spec_elevation_data_path(&self) -> Seq<char>;

    fn get_lidar_path(&self) -> (r: &String)
        ensures
            r@ == self.spec_lidar_path(),
    ;

    fn get_elevation_data_path(&self) -> (r: &String)
        ensures
            r@ == self.spec_elevation_data_path(),
    ;

    /// The tile files among the source directory's `entries`, each joined
    /// under the source path.
    fn get_lidar_files(&self, entries: &Vec<String>) -> (files: Vec<String>)
        ensures
            files.deep_view() == lidar_files(self.spec_lidar_path(), entries.deep_view()),
    {
        filter_lidar_entries(self.get_lidar_path().as_str(), entries)
    }
}

} // verus!
