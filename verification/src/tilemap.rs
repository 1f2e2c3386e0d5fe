//! The world's map: a grid of tiles in one or more layers, with its
//! canonical byte encoding. Every layer holds exactly `width * height`
//! tiles, row-major, `index(x, y) = y * width + x`.

use vstd::prelude::*;
use crate::num::{dec_of, enc_u64, lemma_dec_of_injective, parse_u64};
use crate::record::{
    is_tag, lemma_rec_enc_injective, rec_decode, rec_enc, rec_encode, views_of,
};

verus! {

/// One cell of a layer: coordinates into the tileset.
#[derive(Clone, Copy, PartialEq, Eq, Structural, Debug)]
pub struct Tile {
    pub x: usize,
    pub y: usize,
}

/// One layer of the map.
pub type Layer = Vec<Tile>;

/// The map: layered tile grid plus tile geometry in pixels.
#[derive(Clone, PartialEq, Eq, Debug)]
pub struct TileMap {
    pub layers: Vec<Layer>,
    pub width: usize,
    pub height: usize,
    pub tile_width: usize,
    pub tile_height: usize,
}

/// Mathematical shape of a map.
pub struct TileMapM {
    pub layers: Seq<Seq<Tile>>,
    pub width: usize,
    pub height: usize,
    pub tile_width: usize,
    pub tile_height: usize,
}

/// Views of a sequence of layers.
pub open spec fn layer_views(s: Seq<Vec<Tile>>) -> Seq<Seq<Tile>> {
    s.map_values(|l: Vec<Tile>| l@)
}

impl View for TileMap {
    type V = TileMapM;

    open spec fn view(&self) -> TileMapM {
        TileMapM {
            layers: layer_views(self.layers@),
            width: self.width,
            height: self.height,
            tile_width: self.tile_width,
            tile_height: self.tile_height,
        }
    }
}

impl TileMapM {
    /// Well-formed: at least one layer, and every layer holds exactly
    /// `width * height` tiles.
    pub open spec fn wf(self) -> bool {
        &&& self.layers.len() >= 1
        &&& self.layers.len() <= usize::MAX
        &&& self.width * self.height <= usize::MAX
        &&& forall|i: int|
            0 <= i < self.layers.len() ==> (#[trigger] self.layers[i]).len() == self.width
                * self.height
    }
}

/// Record tag of an encoded map.
pub const TAG_MAP_REC: u8 = 0x54;

/// Two decimal fields for each tile, x then y.
pub open spec fn tile_fields(ts: Seq<Tile>) -> Seq<Seq<u8>>
    decreases ts.len(),
{
    if ts.len() == 0 {
        seq![]
    } else {
        seq![dec_of(ts[0].x as nat), dec_of(ts[0].y as nat)] + tile_fields(ts.skip(1))
    }
}

/// The tile fields of all layers, in order.
pub open spec fn layers_fields(ls: Seq<Seq<Tile>>) -> Seq<Seq<u8>>
    decreases ls.len(),
{
    if ls.len() == 0 {
        seq![]
    } else {
        tile_fields(ls[0]) + layers_fields(ls.skip(1))
    }
}

/// The field list of an encoded map: dimensions, tile geometry, layer count,
/// then every tile.
pub open spec fn map_fields(m: TileMapM) -> Seq<Seq<u8>> {
    seq![
        dec_of(m.width as nat),
        dec_of(m.height as nat),
        dec_of(m.tile_width as nat),
        dec_of(m.tile_height as nat),
        dec_of(m.layers.len()),
    ] + layers_fields(m.layers)
}

/// Canonical byte encoding of a map.
pub open spec fn enc_tilemap(m: TileMapM) -> Seq<u8> {
    rec_enc(TAG_MAP_REC, map_fields(m))
}

pub proof fn lemma_map_fields_shape(m: TileMapM)
    ensures
        map_fields(m).len() >= 5,
        map_fields(m)[0] == dec_of(m.width as nat),
        map_fields(m)[1] == dec_of(m.height as nat),
        map_fields(m)[2] == dec_of(m.tile_width as nat),
        map_fields(m)[3] == dec_of(m.tile_height as nat),
        map_fields(m)[4] == dec_of(m.layers.len()),
        map_fields(m).skip(5) == layers_fields(m.layers),
{
    assert(map_fields(m).skip(5) =~= layers_fields(m.layers));
}

/// Appending one tile to a field list.
pub proof fn lemma_tile_fields_snoc(ts: Seq<Tile>, t: Tile)
    ensures
        tile_fields(ts.push(t)) == tile_fields(ts) + seq![
            dec_of(t.x as nat),
            dec_of(t.y as nat),
        ],
    decreases ts.len(),
{
    let g = ts.push(t);
    if ts.len() == 0 {
        assert(g[0] == t);
        assert(g.skip(1) =~= Seq::<Tile>::empty());
        assert(tile_fields(Seq::<Tile>::empty()) =~= Seq::<Seq<u8>>::empty());
        assert(tile_fields(g) =~= seq![dec_of(t.x as nat), dec_of(t.y as nat)]);
        assert(tile_fields(ts) + seq![dec_of(t.x as nat), dec_of(t.y as nat)] =~= seq![
            dec_of(t.x as nat),
            dec_of(t.y as nat),
        ]);
    } else {
        lemma_tile_fields_snoc(ts.skip(1), t);
        assert(g[0] == ts[0]);
        assert(g.skip(1) =~= ts.skip(1).push(t));
        assert(seq![dec_of(ts[0].x as nat), dec_of(ts[0].y as nat)] + (tile_fields(ts.skip(1))
            + seq![dec_of(t.x as nat), dec_of(t.y as nat)]) =~= (seq![
            dec_of(ts[0].x as nat),
            dec_of(ts[0].y as nat),
        ] + tile_fields(ts.skip(1))) + seq![dec_of(t.x as nat), dec_of(t.y as nat)]);
    }
}

/// Appending one layer to the layered field list.
pub proof fn lemma_layers_fields_snoc(ls: Seq<Seq<Tile>>, l: Seq<Tile>)
    ensures
        layers_fields(ls.push(l)) == layers_fields(ls) + tile_fields(l),
    decreases ls.len(),
{
    let g = ls.push(l);
    if ls.len() == 0 {
        assert(g[0] == l);
        assert(g.skip(1) =~= Seq::<Seq<Tile>>::empty());
        assert(layers_fields(Seq::<Seq<Tile>>::empty()) =~= Seq::<Seq<u8>>::empty());
        assert(layers_fields(g) =~= tile_fields(l));
        assert(layers_fields(ls) + tile_fields(l) =~= tile_fields(l));
    } else {
        lemma_layers_fields_snoc(ls.skip(1), l);
        assert(g[0] == ls[0]);
        assert(g.skip(1) =~= ls.skip(1).push(l));
        assert(tile_fields(ls[0]) + (layers_fields(ls.skip(1)) + tile_fields(l)) =~= (tile_fields(
            ls[0],
        ) + layers_fields(ls.skip(1))) + tile_fields(l));
    }
}

impl TileMap {
    /// A fresh single-layer map of the given dimensions, all tiles at the
    /// tileset origin, with the default tile geometry.
    pub fn new(w: usize, h: usize) -> (r: TileMap)
        requires
            w * h <= usize::MAX,
        ensures
            r@.wf(),
            r@.width == w,
            r@.height == h,
            r@.tile_width == 64,
            r@.tile_height == 16,
            r@.layers.len() == 1,
            r@.layers[0].len() == w * h,
            forall|k: int| 0 <= k < w * h ==> r@.layers[0][k] == (Tile { x: 0, y: 0 }),
    {
        let total = w * h;
        let mut layer: Vec<Tile> = Vec::new();
        let mut k: usize = 0;
        while k < total
            invariant
                k <= total,
                layer@.len() == k,
                forall|j: int| 0 <= j < k ==> layer@[j] == (Tile { x: 0, y: 0 }),
            decreases total - k,
        {
            layer.push(Tile { x: 0, y: 0 });
            k = k + 1;
        }
        let mut layers: Vec<Layer> = Vec::new();
        layers.push(layer);
        let r = TileMap { layers, width: w, height: h, tile_width: 64, tile_height: 16 };
        proof {
            assert(r@.layers.len() == 1);
            assert(r@.layers[0] == layer@);
        }
        r
    }

    /// Row-major index of the tile at `(x, y)`.
    pub fn idx(&self, x: usize, y: usize) -> (r: usize)
        requires
            self@.wf(),
            x < self@.width,
            y < self@.height,
        ensures
            r == y * self@.width + x,
    {
        proof {
            assert(self@.layers[0].len() == self@.width * self@.height);
            assert(y * self@.width + x < self@.height * self@.width) by (nonlinear_arith)
                requires
                    x < self@.width,
                    y < self@.height;
            assert(self@.height * self@.width == self@.width * self@.height) by (nonlinear_arith);

        }
        y * self.width + x
    }

    /// Encodes this map as bytes.
    pub fn to_bytes(&self) -> (r: Vec<u8>)
        ensures
            r@ == enc_tilemap(self@),
    {
        let mut fields: Vec<Vec<u8>> = Vec::new();
        fields.push(enc_u64(self.width as u64));
        fields.push(enc_u64(self.height as u64));
        fields.push(enc_u64(self.tile_width as u64));
        fields.push(enc_u64(self.tile_height as u64));
        fields.push(enc_u64(self.layers.len() as u64));
        let ghost header: Seq<Seq<u8>> = seq![
            dec_of(self@.width as nat),
            dec_of(self@.height as nat),
            dec_of(self@.tile_width as nat),
            dec_of(self@.tile_height as nat),
            dec_of(self@.layers.len()),
        ];
        proof {
            assert(views_of(fields@) =~~= header + layers_fields(
                layer_views(self.layers@.take(0)),
            ));
        }
        let mut l: usize = 0;
        while l < self.layers.len()
            invariant
                l <= self.layers@.len(),
                header == seq![
                    dec_of(self@.width as nat),
                    dec_of(self@.height as nat),
                    dec_of(self@.tile_width as nat),
                    dec_of(self@.tile_height as nat),
                    dec_of(self@.layers.len()),
                ],
                views_of(fields@) == header + layers_fields(layer_views(self.layers@.take(l as int))),
            decreases self.layers@.len() - l,
        {
            let layer = &self.layers[l];
            let mut t: usize = 0;
            while t < layer.len()
                invariant
                    l < self.layers@.len(),
                    t <= layer@.len(),
                    layer == &self.layers[l as int],
                    header == seq![
                        dec_of(self@.width as nat),
                        dec_of(self@.height as nat),
                        dec_of(self@.tile_width as nat),
                        dec_of(self@.tile_height as nat),
                        dec_of(self@.layers.len()),
                    ],
                    views_of(fields@) == header + layers_fields(
                        layer_views(self.layers@.take(l as int)),
                    ) + tile_fields(layer@.take(t as int)),
                decreases layer@.len() - t,
            {
                let ghost f0 = views_of(fields@);
                fields.push(enc_u64(layer[t].x as u64));
                fields.push(enc_u64(layer[t].y as u64));
                proof {
                    lemma_tile_fields_snoc(layer@.take(t as int), layer@[t as int]);
                    assert(layer@.take(t + 1 as int) =~= layer@.take(t as int).push(
                        layer@[t as int],
                    ));
                    assert(views_of(fields@) =~~= f0 + seq![
                        dec_of(layer@[t as int].x as nat),
                        dec_of(layer@[t as int].y as nat),
                    ]);
                    assert(header + layers_fields(layer_views(self.layers@.take(l as int)))
                        + (tile_fields(layer@.take(t as int)) + seq![
                        dec_of(layer@[t as int].x as nat),
                        dec_of(layer@[t as int].y as nat),
                    ]) =~= (header + layers_fields(layer_views(self.layers@.take(l as int)))
                        + tile_fields(layer@.take(t as int))) + seq![
                        dec_of(layer@[t as int].x as nat),
                        dec_of(layer@[t as int].y as nat),
                    ]);
                }
                t = t + 1;
            }
            proof {
                assert(layer@.take(layer@.len() as int) =~= layer@);
                lemma_layers_fields_snoc(layer_views(self.layers@.take(l as int)), layer@);
                assert(layer_views(self.layers@.take(l + 1 as int)) =~= layer_views(
                    self.layers@.take(l as int),
                ).push(layer@));
                assert(header + (layers_fields(layer_views(self.layers@.take(l as int)))
                    + tile_fields(layer@)) =~= header + layers_fields(
                    layer_views(self.layers@.take(l as int)),
                ) + tile_fields(layer@));
            }
            l = l + 1;
        }
        proof {
            assert(self.layers@.take(self.layers@.len() as int) =~= self.layers@);
            assert(views_of(fields@) =~~= map_fields(self@));
            assert(fields@.len() >= 1);
        }
        rec_encode(TAG_MAP_REC, &fields)
    }

    /// Decodes a map; accepts exactly the encodings of well-formed maps.
    #[verifier::rlimit(50)]
    pub fn from_bytes(b: &[u8]) -> (r: Option<TileMap>)
        ensures
            match r {
                Some(m) => m@.wf() && b@ == enc_tilemap(m@),
                None => forall|mv: TileMapM| mv.wf() ==> b@ != enc_tilemap(mv),
            },
    {
        let rec = rec_decode(b);
        let (tag, fs) = match rec {
            Some(p) => p,
            None => {
                proof {
                    assert forall|mv: TileMapM| mv.wf() implies b@ != enc_tilemap(mv) by {
                        if b@ == enc_tilemap(mv) {
                            lemma_map_fields_shape(mv);
                            assert(is_tag(TAG_MAP_REC));
                        }
                    }
                }
                return None;
            },
        };
        let ghost fsv = views_of(fs@);
        if tag != TAG_MAP_REC || fs.len() < 5 {
            proof {
                assert forall|mv: TileMapM| mv.wf() implies b@ != enc_tilemap(mv) by {
                    if b@ == enc_tilemap(mv) {
                        lemma_map_fields_shape(mv);
                        lemma_rec_enc_injective(tag, fsv, TAG_MAP_REC, map_fields(mv));
                        assert(fsv.len() == fs@.len());
                    }
                }
            }
            return None;
        }
        let pw = parse_u64(fs[0].as_slice());
        let ph = parse_u64(fs[1].as_slice());
        let ptw = parse_u64(fs[2].as_slice());
        let pth = parse_u64(fs[3].as_slice());
        let pn = parse_u64(fs[4].as_slice());
        let headers_ok = pw.is_some() && pw.unwrap() <= usize::MAX as u64 && ph.is_some()
            && ph.unwrap() <= usize::MAX as u64 && ptw.is_some() && ptw.unwrap() <= usize::MAX
            as u64 && pth.is_some() && pth.unwrap() <= usize::MAX as u64 && pn.is_some()
            && pn.unwrap() <= usize::MAX as u64 && pn.unwrap() >= 1;
        if !headers_ok {
            proof {
                assert forall|mv: TileMapM| mv.wf() implies b@ != enc_tilemap(mv) by {
                    if b@ == enc_tilemap(mv) {
                        lemma_map_fields_shape(mv);
                        lemma_rec_enc_injective(tag, fsv, TAG_MAP_REC, map_fields(mv));
                        assert(fsv[0] == dec_of(mv.width as nat));
                        assert(fsv[1] == dec_of(mv.height as nat));
                        assert(fsv[2] == dec_of(mv.tile_width as nat));
                        assert(fsv[3] == dec_of(mv.tile_height as nat));
                        assert(fsv[4] == dec_of(mv.layers.len()));
                        if pw is Some {
                            lemma_dec_of_injective(pw.unwrap() as nat, mv.width as nat);
                        }
                        if ph is Some {
                            lemma_dec_of_injective(ph.unwrap() as nat, mv.height as nat);
                        }
                        if ptw is Some {
                            lemma_dec_of_injective(ptw.unwrap() as nat, mv.tile_width as nat);
                        }
                        if pth is Some {
                            lemma_dec_of_injective(pth.unwrap() as nat, mv.tile_height as nat);
                        }
                        if pn is Some {
                            lemma_dec_of_injective(pn.unwrap() as nat, mv.layers.len());
                        }
                    }
                }
            }
            return None;
        }
        let w = pw.unwrap() as usize;
        let h = ph.unwrap() as usize;
        let tw = ptw.unwrap() as usize;
        let th = pth.unwrap() as usize;
        let n = pn.unwrap() as usize;
        // per-layer tile count; a well-formed map's layer fits in a vector,
        // so an overflowing product rules every candidate out
        if h != 0 && w > usize::MAX / h {
            proof {
                assert forall|mv: TileMapM| mv.wf() implies b@ != enc_tilemap(mv) by {
                    if b@ == enc_tilemap(mv) {
                        lemma_map_fields_shape(mv);
                        lemma_rec_enc_injective(tag, fsv, TAG_MAP_REC, map_fields(mv));
                        lemma_dec_of_injective(pw.unwrap() as nat, mv.width as nat);
                        lemma_dec_of_injective(ph.unwrap() as nat, mv.height as nat);
                        lemma_mul_gt_max(w as int, h as int);
                        assert(mv.width * mv.height <= usize::MAX);
                    }
                }
            }
            return None;
        }
        proof {
            if h != 0 {
                lemma_mul_le_max(w as int, h as int);
            } else {
                assert(w * (h as int) == 0) by (nonlinear_arith)
                    requires
                        h as int == 0;
            }
        }
        let c: usize = w * h;
        let mut layers: Vec<Layer> = Vec::new();
        let mut idx: usize = 5;
        let mut l: usize = 0;
        proof {
            assert(layers_fields(Seq::<Seq<Tile>>::empty()) =~= Seq::<Seq<u8>>::empty());
            assert(fsv.subrange(5, idx as int) =~= layers_fields(layer_views(layers@)));
            assert(layer_views(layers@) =~= Seq::<Seq<Tile>>::empty());
            assert forall|mv: TileMapM| mv.wf() && b@ == #[trigger] enc_tilemap(mv) implies
                mv.width == w && mv.height == h && mv.tile_width == tw && mv.tile_height == th
                && mv.layers.len() == n && layers_fields(mv.layers.skip(l as int))
                == fsv.skip(idx as int) by {
                lemma_map_fields_shape(mv);
                lemma_rec_enc_injective(tag, fsv, TAG_MAP_REC, map_fields(mv));
                lemma_dec_of_injective(pw.unwrap() as nat, mv.width as nat);
                lemma_dec_of_injective(ph.unwrap() as nat, mv.height as nat);
                lemma_dec_of_injective(ptw.unwrap() as nat, mv.tile_width as nat);
                lemma_dec_of_injective(pth.unwrap() as nat, mv.tile_height as nat);
                lemma_dec_of_injective(pn.unwrap() as nat, mv.layers.len());
                assert(mv.layers.skip(l as int) =~= mv.layers);
            }
        }
        while l < n
            invariant
                l <= n,
                5 <= idx <= fs@.len(),
                n >= 1,
                c == w * h,
                fsv == views_of(fs@),
                b@ == rec_enc(tag, fsv),
                tag == TAG_MAP_REC,
                fsv.len() == fs@.len(),
                layers@.len() == l,
                forall|i: int| 0 <= i < l ==> (#[trigger] layers@[i]@).len() == c,
                fsv.subrange(5, idx as int) == layers_fields(layer_views(layers@)),
                forall|mv: TileMapM|
                    mv.wf() && b@ == #[trigger] enc_tilemap(mv) ==> mv.width == w && mv.height
                        == h && mv.tile_width == tw && mv.tile_height == th && mv.layers.len()
                        == n && layers_fields(mv.layers.skip(l as int)) == fsv.skip(
                        idx as int,
                    ),
            decreases n - l,
        {
            let mut cur: Vec<Tile> = Vec::new();
            let mut t: usize = 0;
            proof {
                assert(tile_fields(cur@) =~= Seq::<Seq<u8>>::empty());
                assert(fsv.subrange(5, idx as int) + Seq::<Seq<u8>>::empty() =~= fsv.subrange(
                    5,
                    idx as int,
                ));
                assert forall|mv: TileMapM| mv.wf() && b@ == #[trigger] enc_tilemap(mv) implies
                    mv.width == w && mv.height == h && mv.tile_width == tw && mv.tile_height
                    == th && mv.layers.len() == n && tile_fields(
                    mv.layers[l as int].skip(t as int),
                ) + layers_fields(mv.layers.skip(l + 1)) == fsv.skip(idx as int) by {
                    assert(mv.layers.skip(l as int)[0] == mv.layers[l as int]);
                    assert(mv.layers.skip(l as int).skip(1) =~= mv.layers.skip(l + 1));
                    assert(mv.layers[l as int].skip(t as int) =~= mv.layers[l as int]);
                    assert(layers_fields(mv.layers.skip(l as int)) == tile_fields(
                        mv.layers[l as int],
                    ) + layers_fields(mv.layers.skip(l + 1)));
                }
            }
            while t < c
                invariant
                    t <= c,
                    l < n,
                    5 <= idx <= fs@.len(),
                    c == w * h,
                    fsv == views_of(fs@),
                    b@ == rec_enc(tag, fsv),
                    tag == TAG_MAP_REC,
                    fsv.len() == fs@.len(),
                    layers@.len() == l,
                    forall|i: int| 0 <= i < l ==> (#[trigger] layers@[i]@).len() == c,
                    cur@.len() == t,
                    fsv.subrange(5, idx as int) == layers_fields(layer_views(layers@))
                        + tile_fields(cur@),
                    forall|mv: TileMapM|
                        mv.wf() && b@ == #[trigger] enc_tilemap(mv) ==> mv.width == w
                            && mv.height == h && mv.tile_width == tw && mv.tile_height == th
                            && mv.layers.len() == n && tile_fields(
                            mv.layers[l as int].skip(t as int),
                        ) + layers_fields(mv.layers.skip(l + 1)) == fsv.skip(idx as int),
                decreases c - t,
            {
                if fs.len() - idx < 2 {
                    proof {
                        assert forall|mv: TileMapM| mv.wf() implies b@ != enc_tilemap(mv) by {
                            if b@ == enc_tilemap(mv) {
                                let rest = mv.layers[l as int].skip(t as int);
                                assert(mv.layers[l as int].len() == mv.width * mv.height);
                                assert(rest.len() >= 1);
                                assert(tile_fields(rest).len() >= 2) by {
                                    assert(tile_fields(rest) == seq![
                                        dec_of(rest[0].x as nat),
                                        dec_of(rest[0].y as nat),
                                    ] + tile_fields(rest.skip(1)));
                                }
                                assert(fsv.skip(idx as int).len() >= 2);
                            }
                        }
                    }
                    return None;
                }
                let px = parse_u64(fs[idx].as_slice());
                let py = parse_u64(fs[idx + 1].as_slice());
                let ok = px.is_some() && px.unwrap() <= usize::MAX as u64 && py.is_some()
                    && py.unwrap() <= usize::MAX as u64;
                if !ok {
                    proof {
                        assert forall|mv: TileMapM| mv.wf() implies b@ != enc_tilemap(mv) by {
                            if b@ == enc_tilemap(mv) {
                                let rest = mv.layers[l as int].skip(t as int);
                                assert(mv.layers[l as int].len() == mv.width * mv.height);
                                assert(rest.len() >= 1);
                                let tfr = tile_fields(rest);
                                assert(tfr == seq![
                                    dec_of(rest[0].x as nat),
                                    dec_of(rest[0].y as nat),
                                ] + tile_fields(rest.skip(1)));
                                assert(fsv.skip(idx as int)[0] == fsv[idx as int]);
                                assert(fsv.skip(idx as int)[1] == fsv[idx + 1]);
                                assert(fsv[idx as int] == dec_of(rest[0].x as nat));
                                assert(fsv[idx + 1] == dec_of(rest[0].y as nat));
                                assert(fsv[idx as int] == fs@[idx as int]@);
                                assert(fsv[idx + 1] == fs@[idx + 1]@);
                                if px is Some {
                                    lemma_dec_of_injective(px.unwrap() as nat, rest[0].x as nat);
                                }
                                if py is Some {
                                    lemma_dec_of_injective(py.unwrap() as nat, rest[0].y as nat);
                                }
                            }
                        }
                    }
                    return None;
                }
                let tile = Tile { x: px.unwrap() as usize, y: py.unwrap() as usize };
                let ghost cur0 = cur@;
                cur.push(tile);
                proof {
                    lemma_tile_fields_snoc(cur0, tile);
                    assert(fsv[idx as int] == fs@[idx as int]@);
                    assert(fsv[idx + 1] == fs@[idx + 1]@);
                    assert(fsv.subrange(5, idx + 2) =~= fsv.subrange(5, idx as int) + seq![
                        fsv[idx as int],
                        fsv[idx + 1],
                    ]);
                    assert(layers_fields(layer_views(layers@)) + (tile_fields(cur0) + seq![
                        dec_of(tile.x as nat),
                        dec_of(tile.y as nat),
                    ]) =~= (layers_fields(layer_views(layers@)) + tile_fields(cur0)) + seq![
                        dec_of(tile.x as nat),
                        dec_of(tile.y as nat),
                    ]);
                    assert forall|mv: TileMapM| mv.wf() && b@ == #[trigger] enc_tilemap(mv)
                        implies tile_fields(mv.layers[l as int].skip(t + 1)) + layers_fields(
                        mv.layers.skip(l + 1),
                    ) == fsv.skip(idx + 2) by {
                        let rest = mv.layers[l as int].skip(t as int);
                        assert(mv.layers[l as int].len() == mv.width * mv.height);
                        assert(rest.len() >= 1);
                        assert(tile_fields(rest) == seq![
                            dec_of(rest[0].x as nat),
                            dec_of(rest[0].y as nat),
                        ] + tile_fields(rest.skip(1)));
                        assert(rest.skip(1) =~= mv.layers[l as int].skip(t + 1));
                        assert(fsv.skip(idx as int).skip(2) =~= fsv.skip(idx + 2));
                        assert(tile_fields(rest).len() >= 2);
                        assert forall|q: int|
                            0 <= q < fsv.skip(idx + 2).len() implies #[trigger] fsv.skip(
                            idx + 2,
                        )[q] == (tile_fields(mv.layers[l as int].skip(t + 1)) + layers_fields(
                            mv.layers.skip(l + 1),
                        ))[q] by {
                            assert(fsv.skip(idx as int)[q + 2] == (tile_fields(rest)
                                + layers_fields(mv.layers.skip(l + 1)))[q + 2]);
                        }
                        assert(fsv.skip(idx + 2) =~= tile_fields(mv.layers[l as int].skip(t + 1))
                            + layers_fields(mv.layers.skip(l + 1)));
                    }
                }
                idx = idx + 2;
                t = t + 1;
            }
            let ghost built0 = layer_views(layers@);
            proof {
                assert(cur@.len() == c);
                lemma_layers_fields_snoc(built0, cur@);
                assert(layer_views(layers@.push(cur)) =~= built0.push(cur@));
                assert forall|mv: TileMapM| mv.wf() && b@ == #[trigger] enc_tilemap(mv)
                    implies layers_fields(mv.layers.skip(l + 1)) == fsv.skip(idx as int) by {
                    let rest = mv.layers[l as int].skip(c as int);
                    assert(mv.layers[l as int].len() == mv.width * mv.height);
                    assert(rest =~= Seq::<Tile>::empty());
                    assert(tile_fields(rest) =~= Seq::<Seq<u8>>::empty());
                    assert(Seq::<Seq<u8>>::empty() + layers_fields(mv.layers.skip(l + 1))
                        =~= layers_fields(mv.layers.skip(l + 1)));
                }
            }
            layers.push(cur);
            l = l + 1;
        }
        if idx != fs.len() {
            proof {
                assert forall|mv: TileMapM| mv.wf() implies b@ != enc_tilemap(mv) by {
                    if b@ == enc_tilemap(mv) {
                        assert(mv.layers.skip(n as int) =~= Seq::<Seq<Tile>>::empty());
                        assert(layers_fields(Seq::<Seq<Tile>>::empty()) =~= Seq::<
                            Seq<u8>,
                        >::empty());
                        assert(fsv.skip(idx as int).len() == 0);
                    }
                }
            }
            return None;
        }
        let m = TileMap { layers, width: w, height: h, tile_width: tw, tile_height: th };
        proof {
            assert(fsv.subrange(5, fsv.len() as int) == layers_fields(layer_views(m.layers@)));
            assert(fsv.subrange(0, 5) =~= seq![fsv[0], fsv[1], fsv[2], fsv[3], fsv[4]]);
            assert(fsv[0] == fs@[0]@ && fsv[1] == fs@[1]@ && fsv[2] == fs@[2]@ && fsv[3]
                == fs@[3]@ && fsv[4] == fs@[4]@);
            assert((pn.unwrap() as usize) as nat == m@.layers.len());
            assert(map_fields(m@) =~= fsv.subrange(0, 5) + fsv.subrange(5, fsv.len() as int));
            assert(fsv.subrange(0, 5) + fsv.subrange(5, fsv.len() as int) =~= fsv);
            assert(b@ == enc_tilemap(m@));
            assert(m@.wf());
        }
        Some(m)
    }
}

/// Multiplication against the division bound, used for the overflow check.
proof fn lemma_mul_le_max(w: int, h: int)
    by (nonlinear_arith)
    requires
        0 <= w,
        0 < h,
        w <= (usize::MAX as int) / h,
    ensures
        w * h <= usize::MAX as int,
{
}

proof fn lemma_mul_gt_max(w: int, h: int)
    by (nonlinear_arith)
    requires
        0 <= w,
        0 < h,
        w > (usize::MAX as int) / h,
    ensures
        w * h > usize::MAX as int,
{
}

/// A layer's field list is twice as long as the layer.
pub proof fn lemma_tile_fields_len(ts: Seq<Tile>)
    ensures
        tile_fields(ts).len() == 2 * ts.len(),
    decreases ts.len(),
{
    if ts.len() > 0 {
        lemma_tile_fields_len(ts.skip(1));
    }
}


/// Equal tile field lists come from equal tile sequences.
pub proof fn lemma_tile_fields_injective(a: Seq<Tile>, b: Seq<Tile>)
    requires
        tile_fields(a) == tile_fields(b),
    ensures
        a == b,
    decreases a.len(),
{
    lemma_tile_fields_len(a);
    lemma_tile_fields_len(b);
    if a.len() == 0 {
        assert(a =~= b);
    } else {
        let fa = tile_fields(a);
        let fb = tile_fields(b);
        assert(fa[0] == dec_of(a[0].x as nat));
        assert(fa[1] == dec_of(a[0].y as nat));
        assert(fb[0] == dec_of(b[0].x as nat));
        assert(fb[1] == dec_of(b[0].y as nat));
        lemma_dec_of_injective(a[0].x as nat, b[0].x as nat);
        lemma_dec_of_injective(a[0].y as nat, b[0].y as nat);
        assert(a[0] == b[0]);
        assert(tile_fields(a.skip(1)) =~= tile_fields(b.skip(1))) by {
            assert forall|q: int|
                0 <= q < tile_fields(a.skip(1)).len() implies #[trigger] tile_fields(
                a.skip(1),
            )[q] == tile_fields(b.skip(1))[q] by {
                assert(fa[q + 2] == tile_fields(a.skip(1))[q]);
                assert(fb[q + 2] == tile_fields(b.skip(1))[q]);
            }
            lemma_tile_fields_len(a.skip(1));
            lemma_tile_fields_len(b.skip(1));
        }
        lemma_tile_fields_injective(a.skip(1), b.skip(1));
        assert(a =~= b) by {
            assert forall|q: int| 0 <= q < a.len() implies a[q] == b[q] by {
                if q > 0 {
                    assert(a.skip(1)[q - 1] == a[q]);
                    assert(b.skip(1)[q - 1] == b[q]);
                }
            }
        }
    }
}

/// Equal layered field lists of uniform layer size come from equal layers.
pub proof fn lemma_layers_fields_injective(ls1: Seq<Seq<Tile>>, ls2: Seq<Seq<Tile>>, c: int)
    requires
        layers_fields(ls1) == layers_fields(ls2),
        ls1.len() == ls2.len(),
        forall|i: int| 0 <= i < ls1.len() ==> (#[trigger] ls1[i]).len() == c,
        forall|i: int| 0 <= i < ls2.len() ==> (#[trigger] ls2[i]).len() == c,
    ensures
        ls1 == ls2,
    decreases ls1.len(),
{
    if ls1.len() == 0 {
        assert(ls1 =~= ls2);
    } else {
        let f1 = layers_fields(ls1);
        let f2 = layers_fields(ls2);
        lemma_tile_fields_len(ls1[0]);
        lemma_tile_fields_len(ls2[0]);
        assert(f1 =~= tile_fields(ls1[0]) + layers_fields(ls1.skip(1)));
        assert(f2 =~= tile_fields(ls2[0]) + layers_fields(ls2.skip(1)));
        assert(tile_fields(ls1[0]) =~= tile_fields(ls2[0])) by {
            assert forall|q: int|
                0 <= q < tile_fields(ls1[0]).len() implies #[trigger] tile_fields(
                ls1[0],
            )[q] == tile_fields(ls2[0])[q] by {
                assert(f1[q] == tile_fields(ls1[0])[q]);
                assert(f2[q] == tile_fields(ls2[0])[q]);
            }
        }
        lemma_tile_fields_injective(ls1[0], ls2[0]);
        assert(layers_fields(ls1.skip(1)) =~= layers_fields(ls2.skip(1))) by {
            lemma_layers_fields_len(ls1.skip(1), c);
            lemma_layers_fields_len(ls2.skip(1), c);
            assert forall|i: int|
                0 <= i < ls1.skip(1).len() implies (#[trigger] ls1.skip(1)[i]).len() == c by {
                assert(ls1.skip(1)[i] == ls1[i + 1]);
            }
            assert forall|i: int|
                0 <= i < ls2.skip(1).len() implies (#[trigger] ls2.skip(1)[i]).len() == c by {
                assert(ls2.skip(1)[i] == ls2[i + 1]);
            }
            assert forall|q: int|
                0 <= q < layers_fields(ls1.skip(1)).len() implies #[trigger] layers_fields(
                ls1.skip(1),
            )[q] == layers_fields(ls2.skip(1))[q] by {
                assert(f1[q + 2 * c] == layers_fields(ls1.skip(1))[q]);
                assert(f2[q + 2 * c] == layers_fields(ls2.skip(1))[q]);
            }
        }
        assert forall|i: int|
            0 <= i < ls1.skip(1).len() implies (#[trigger] ls1.skip(1)[i]).len() == c by {
            assert(ls1.skip(1)[i] == ls1[i + 1]);
        }
        assert forall|i: int|
            0 <= i < ls2.skip(1).len() implies (#[trigger] ls2.skip(1)[i]).len() == c by {
            assert(ls2.skip(1)[i] == ls2[i + 1]);
        }
        lemma_layers_fields_injective(ls1.skip(1), ls2.skip(1), c);
        assert(ls1 =~= ls2) by {
            assert forall|q: int| 0 <= q < ls1.len() implies ls1[q] == ls2[q] by {
                if q > 0 {
                    assert(ls1.skip(1)[q - 1] == ls1[q]);
                    assert(ls2.skip(1)[q - 1] == ls2[q]);
                }
            }
        }
    }
}

/// The layered field list of uniform layers has a fixed length per layer.
pub proof fn lemma_layers_fields_len(ls: Seq<Seq<Tile>>, c: int)
    requires
        forall|i: int| 0 <= i < ls.len() ==> (#[trigger] ls[i]).len() == c,
    ensures
        layers_fields(ls).len() == 2 * c * ls.len(),
    decreases ls.len(),
{
    if ls.len() == 0 {
    } else {
        lemma_tile_fields_len(ls[0]);
        assert forall|i: int|
            0 <= i < ls.skip(1).len() implies (#[trigger] ls.skip(1)[i]).len() == c by {
            assert(ls.skip(1)[i] == ls[i + 1]);
        }
        lemma_layers_fields_len(ls.skip(1), c);
        assert(2 * c * ls.len() == 2 * c + 2 * c * (ls.len() - 1)) by (nonlinear_arith);
    }
}

/// Well-formed maps have distinct encodings.
pub proof fn lemma_enc_tilemap_injective(m1: TileMapM, m2: TileMapM)
    requires
        m1.wf(),
        m2.wf(),
        enc_tilemap(m1) == enc_tilemap(m2),
    ensures
        m1 == m2,
{
    lemma_map_fields_shape(m1);
    lemma_map_fields_shape(m2);
    lemma_rec_enc_injective(TAG_MAP_REC, map_fields(m1), TAG_MAP_REC, map_fields(m2));
    lemma_dec_of_injective(m1.width as nat, m2.width as nat);
    lemma_dec_of_injective(m1.height as nat, m2.height as nat);
    lemma_dec_of_injective(m1.tile_width as nat, m2.tile_width as nat);
    lemma_dec_of_injective(m1.tile_height as nat, m2.tile_height as nat);
    lemma_dec_of_injective(m1.layers.len(), m2.layers.len());
    lemma_layers_fields_injective(m1.layers, m2.layers, m1.width * m1.height);
}

/// What decoding a map means: the unique well-formed map encoding to these
/// bytes, if any.
pub open spec fn tilemap_dec(b: Seq<u8>) -> Option<TileMapM> {
    if exists|mv: TileMapM| mv.wf() && b == enc_tilemap(mv) {
        Some(choose|mv: TileMapM| mv.wf() && b == enc_tilemap(mv))
    } else {
        None
    }
}

/// Decoding undoes encoding of well-formed maps.
pub proof fn lemma_tilemap_dec_canonical(mv: TileMapM)
    requires
        mv.wf(),
    ensures
        tilemap_dec(enc_tilemap(mv)) == Some(mv),
{
    let b = enc_tilemap(mv);
    assert(mv.wf() && b == enc_tilemap(mv));
    assert(exists|x: TileMapM| x.wf() && b == enc_tilemap(x));
    let w = choose|x: TileMapM| x.wf() && b == enc_tilemap(x);
    lemma_enc_tilemap_injective(w, mv);
}

} // verus!
