//! The manifest of the texture atlas: the size of each sprite and whether
//! it is drawn as a block. Reading the atlas archive and its pictures is the
//! application's part.
use vstd::prelude::*;
use crate::nbt_value::{
    decode_nbt, entries_view, get, get_spec, lemma_entries_view, nbt_read, nbt_view, tree, Nbt,
    NbtTree, NbtV,
};
use crate::parse::nbt::{decompress, decompressed};
use crate::text::{copy_str, push_str};

verus! {

/// What the manifest says of one sprite.
#[derive(Clone, Copy, Debug, PartialEq, Eq, Structural)]
pub struct SpriteMeta {
    pub w: u32,
    pub h: u32,
    pub is3d: bool,
}

/// An integer tag's value as a `u32` (cut to its low 32 bits).
pub open spec fn u32_of(v: Option<NbtV>) -> Option<u32> {
    match v {
        Some(NbtV::Byte(x)) => Some(#[verifier::truncate] (x as u32)),
        Some(NbtV::Short(x)) => Some(#[verifier::truncate] (x as u32)),
        Some(NbtV::Int(x)) => Some(#[verifier::truncate] (x as u32)),
        Some(NbtV::Long(x)) => Some(#[verifier::truncate] (x as u32)),
        _ => None,
    }
}

pub fn nbt_u32(v: Option<&Nbt>) -> (r: Option<u32>)
    ensures
        r == u32_of(match v {
            Some(x) => Some(x@),
            None => None,
        }),
{
    match v {
        Some(Nbt::Byte(x)) => Some(#[verifier::truncate] (*x as u32)),
        Some(Nbt::Short(x)) => Some(#[verifier::truncate] (*x as u32)),
        Some(Nbt::Int(x)) => Some(#[verifier::truncate] (*x as u32)),
        Some(Nbt::Long(x)) => Some(#[verifier::truncate] (*x as u32)),
        _ => None,
    }
}

/// A sprite's entry: width (16 when missing), height (the width when
/// missing), and a non-zero byte `d` for a block.
pub open spec fn sprite_of(e: NbtV) -> SpriteMeta {
    let w = match u32_of(get_spec(e, "w"@)) {
        Some(x) => x,
        None => 16,
    };
    let h = match u32_of(get_spec(e, "h"@)) {
        Some(x) => x,
        None => w,
    };
    let d = match get_spec(e, "d"@) {
        Some(NbtV::Byte(b)) => b != 0,
        _ => false,
    };
    SpriteMeta { w, h, is3d: d }
}

/// The sprites of the first `n` entries of the `sprites` compound: those
/// whose value is a compound.
pub open spec fn sprites_of(m: Seq<(Seq<char>, NbtV)>, n: int) -> Seq<(Seq<char>, SpriteMeta)>
    decreases n,
{
    if n <= 0 {
        seq![]
    } else {
        let p = sprites_of(m, n - 1);
        match m[n - 1].1 {
            NbtV::Compound(_) => p.push((m[n - 1].0, sprite_of(m[n - 1].1))),
            _ => p,
        }
    }
}

/// The result of reading a decoded manifest.
pub open spec fn manifest_of(v: NbtV) -> Result<Seq<(Seq<char>, SpriteMeta)>, Seq<char>> {
    match get_spec(v, "sprites"@) {
        None => Err("manifest missing 'sprites'"@),
        Some(NbtV::Compound(m)) => Ok(sprites_of(m, m.len() as int)),
        Some(_) => Err("manifest 'sprites' not a compound"@),
    }
}

pub open spec fn sprites_view(s: Seq<(String, SpriteMeta)>) -> Seq<(Seq<char>, SpriteMeta)> {
    s.map_values(|p: (String, SpriteMeta)| (p.0@, p.1))
}

fn read_sprites(v: &Nbt) -> (r: Result<Vec<(String, SpriteMeta)>, String>)
    ensures
        match (r, manifest_of(v@)) {
            (Ok(s), Ok(t)) => sprites_view(s@) == t,
            (Err(m), Err(t)) => m@ == t,
            _ => false,
        },
{
    proof {
        reveal_strlit("manifest missing 'sprites'");
        reveal_strlit("manifest 'sprites' not a compound");
    }
    let sprites = match get(v, "sprites") {
        Some(s) => s,
        None => {
            return Err(String::from_str("manifest missing 'sprites'"));
        },
    };
    let m = match sprites {
        Nbt::Compound(m) => m,
        _ => {
            return Err(String::from_str("manifest 'sprites' not a compound"));
        },
    };
    proof {
        lemma_entries_view(m@);
    }
    let ghost mv = entries_view(m@);
    let mut out: Vec<(String, SpriteMeta)> = Vec::new();
    let mut i: usize = 0;
    while i < m.len()
        invariant
            mv == entries_view(m@),
            mv.len() == m@.len(),
            forall|k: int| 0 <= k < m@.len() ==> #[trigger] mv[k] == (m@[k].0@, nbt_view(m@[k].1)),
            i <= m@.len(),
            sprites_view(out@) == sprites_of(mv, i as int),
        decreases m.len() - i,
    {
        if let Nbt::Compound(_) = &m[i].1 {
            let e = &m[i].1;
            let w = match nbt_u32(get(e, "w")) {
                Some(x) => x,
                None => 16,
            };
            let h = match nbt_u32(get(e, "h")) {
                Some(x) => x,
                None => w,
            };
            let d = match get(e, "d") {
                Some(Nbt::Byte(b)) => *b != 0,
                _ => false,
            };
            let ghost before = sprites_view(out@);
            out.push((copy_str(m[i].0.as_str()), SpriteMeta { w, h, is3d: d }));
            assert(sprites_view(out@) =~= before.push((mv[i as int].0, sprite_of(mv[i as int].1))));
        }
        i += 1;
    }
    Ok(out)
}

/// Reads the atlas manifest (gzip, zlib or plain NBT): the sprites listed
/// under `sprites`, or what is wrong with it.
pub fn parse_manifest(raw: &[u8]) -> (r: Result<Vec<(String, SpriteMeta)>, String>)
    ensures
        match nbt_read(decompressed(raw@)) {
            Err(m) => r matches Err(x) && x@ == "manifest nbt: "@ + m,
            Ok(t) => exists|v: NbtV|
                #![trigger tree(v)]
                tree(v) == t && match (r, manifest_of(v)) {
                    (Ok(s), Ok(q)) => sprites_view(s@) == q,
                    (Err(m), Err(q)) => m@ == q,
                    _ => false,
                },
        },
{
    let bytes = decompress(raw);
    match decode_nbt(bytes.as_slice()) {
        Err(e) => {
            let mut m = String::from_str("manifest nbt: ");
            push_str(&mut m, e.as_str());
            proof {
                reveal_strlit("manifest nbt: ");
            }
            Err(m)
        },
        Ok(v) => {
            let r = read_sprites(&v);
            assert(tree(v@) == tree(v@));
            r
        },
    }
}

} // verus!
