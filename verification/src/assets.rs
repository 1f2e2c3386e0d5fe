//! Paths of the client's asset tree, relative to an asset root found at
//! runtime. Paths are byte strings as the operating system takes them.

use vstd::prelude::*;
use crate::bytes::append_slice;

verus! {

/// The path separator.
pub const SLASH: u8 = 0x2f;

/// The `images` directory name as bytes.
pub open spec fn images_seg() -> Seq<u8> {
    seq![0x69u8, 0x6d, 0x61, 0x67, 0x65, 0x73]
}

/// The `tiles` directory name as bytes.
pub open spec fn tiles_seg() -> Seq<u8> {
    seq![0x74u8, 0x69, 0x6c, 0x65, 0x73]
}

/// Pushes `images` onto a path buffer.
fn push_images(v: &mut Vec<u8>)
    ensures
        final(v)@ == old(v)@ + images_seg(),
{
    let ghost v0 = v@;
    v.push(0x69);
    v.push(0x6d);
    v.push(0x61);
    v.push(0x67);
    v.push(0x65);
    v.push(0x73);
    proof {
        assert(v@ =~= v0 + images_seg());
    }
}

/// The images directory under the asset root.
pub fn images(root: &[u8]) -> (r: Vec<u8>)
    ensures
        r@ == root@ + seq![SLASH] + images_seg(),
{
    let mut r: Vec<u8> = Vec::new();
    append_slice(&mut r, root);
    r.push(SLASH);
    push_images(&mut r);
    proof {
        assert(root@ + seq![SLASH] =~= r@.subrange(0, root@.len() as int + 1));
        assert(r@ =~= root@ + seq![SLASH] + images_seg());
    }
    r
}

/// A named image under the images directory.
pub fn image(root: &[u8], name: &[u8]) -> (r: Vec<u8>)
    ensures
        r@ == root@ + seq![SLASH] + images_seg() + seq![SLASH] + name@,
{
    let mut r = images(root);
    r.push(SLASH);
    append_slice(&mut r, name);
    proof {
        assert(r@ =~= root@ + seq![SLASH] + images_seg() + seq![SLASH] + name@);
    }
    r
}

/// The tiles directory under the images directory.
pub fn tiles(root: &[u8]) -> (r: Vec<u8>)
    ensures
        r@ == root@ + seq![SLASH] + images_seg() + seq![SLASH] + tiles_seg(),
{
    let mut r = images(root);
    r.push(SLASH);
    r.push(0x74);
    r.push(0x69);
    r.push(0x6c);
    r.push(0x65);
    r.push(0x73);
    proof {
        assert(r@ =~= root@ + seq![SLASH] + images_seg() + seq![SLASH] + tiles_seg());
    }
    r
}

} // verus!
