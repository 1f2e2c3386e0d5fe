//! Metadata of a tileset: the name of its image and the pixel size of one
//! tile. The graphical client reads this from an asset description file and
//! hands the plain values over.

use vstd::prelude::*;

verus! {

#[derive(Clone, PartialEq, Eq, Debug)]
pub struct TilesetInfo {
    pub name: Vec<u8>,
    pub tile_width: usize,
    pub tile_height: usize,
}

impl TilesetInfo {
    pub fn new(name: &[u8], tile_width: usize, tile_height: usize) -> (r: TilesetInfo)
        ensures
            r.name@ == name@,
            r.tile_width == tile_width,
            r.tile_height == tile_height,
    {
        TilesetInfo {
            name: crate::bytes::copy_range(name, 0, name.len()),
            tile_width,
            tile_height,
        }
    }
}

} // verus!
