use crate::error::Error;
use crate::text::{pieces, same, split, texts, to_chars};
use vstd::prelude::*;
use vstd::string::*;

verus! {

/// What a raster driver says of itself.
pub struct DriverInfo {
    /// Whether it handles rasters.
    pub raster: bool,
    /// Whether it creates files.
    pub create: bool,
    /// The file extensions that it writes, with spaces between them, if it
    /// names any.
    pub extensions: Option<String>,
}

/// Whether the driver can write a raster to a file with the given
/// extension.
pub open spec fn writes(driver: DriverInfo, extension: Seq<char>) -> bool {
    &&& driver.raster
    &&& driver.create
    &&& driver.extensions matches Some(list) && pieces(list@, ' ').contains(extension)
}

fn names(list: &String, extension: &Vec<char>) -> (r: bool)
    ensures
        r == pieces(list@, ' ').contains(extension@),
{
    let chars: Vec<char> = to_chars(list.as_str());
    let parts: Vec<Vec<char>> = split(&chars, ' ');
    let ghost offered = pieces(list@, ' ');
    let mut i: usize = 0;
    while i < parts.len()
        invariant
            i <= parts@.len(),
            texts(parts@) == offered,
            offered == pieces(list@, ' '),
            forall|j: int| 0 <= j < i ==> offered[j] != extension@,
        decreases parts@.len() - i,
    {
        proof {
            assert(offered[i as int] == parts@[i as int]@);
        }
        if same(&parts[i], extension) {
            proof {
                assert(offered[i as int] == extension@);
            }
            return true;
        }
        i = i + 1;
    }
    false
}

fn driver_writes(driver: &DriverInfo, extension: &Vec<char>) -> (r: bool)
    ensures
        r == writes(*driver, extension@),
{
    if !driver.raster || !driver.create {
        return false;
    }
    match &driver.extensions {
        None => false,
        Some(list) => names(list, extension),
    }
}

/// Picks the driver for a file with the given extension: of the drivers
/// that can write such a file the one that stands last. It fails where
/// there is none, and names the extension.
pub fn pick_driver(drivers: &Vec<DriverInfo>, extension: &str) -> (r: Result<usize, Error>)
    ensures
        match r {
            Ok(i) => {
                &&& i < drivers@.len()
                &&& writes(drivers@[i as int], extension@)
                &&& forall|j: int| i < j < drivers@.len() ==> !writes(drivers@[j], extension@)
            },
            Err(e) => {
                &&& forall|j: int| 0 <= j < drivers@.len() ==> !writes(drivers@[j], extension@)
                &&& e matches Error::NoDriverForExtension(named) && named@ == extension@
            },
        },
{
    let wanted: Vec<char> = to_chars(extension);
    let mut i: usize = drivers.len();
    while i > 0
        invariant
            i <= drivers@.len(),
            wanted@ == extension@,
            forall|j: int| i <= j < drivers@.len() ==> !writes(drivers@[j], extension@),
        decreases i,
    {
        i = i - 1;
        if driver_writes(&drivers[i], &wanted) {
            return Ok(i);
        }
    }
    Err(Error::NoDriverForExtension(String::from_str(extension)))
}

} // verus!
