//! Application icons: the BMP container around raw icon pixels, its data
//! URI, and the per-process cache of extracted icons.

use vstd::prelude::*;
use crate::text::str_eq;
use base64::Engine;

verus! {

/// Character `v` (below 64) of the RFC 4648 base64 alphabet.
pub open spec fn b64_char(v: nat) -> char {
    if v < 26 {
        ('A' as u32 + v) as char
    } else if v < 52 {
        ('a' as u32 + (v - 26)) as char
    } else if v < 62 {
        ('0' as u32 + (v - 52)) as char
    } else if v == 62 {
        '+'
    } else {
        '/'
    }
}

/// Standard base64 of `b` (RFC 4648): each group of three bytes becomes
/// four characters of six bits each, most significant first; a last group
/// of one or two bytes is completed with zero bits and padded with `=`.
pub open spec fn base64_standard(b: Seq<u8>) -> Seq<char>
    decreases b.len(),
{
    if b.len() == 0 {
        Seq::empty()
    } else if b.len() == 1 {
        let x = b[0] as nat;
        seq![b64_char(x / 4), b64_char((x % 4) * 16), '=', '=']
    } else if b.len() == 2 {
        let (x, y) = (b[0] as nat, b[1] as nat);
        seq![b64_char(x / 4), b64_char((x % 4) * 16 + y / 16), b64_char((y % 16) * 4), '=']
    } else {
        let (x, y, z) = (b[0] as nat, b[1] as nat, b[2] as nat);
        seq![b64_char(x / 4), b64_char((x % 4) * 16 + y / 16), b64_char((y % 16) * 4 + z / 64), b64_char(z % 64)]
            + base64_standard(b.subrange(3, b.len() as int))
    }
}

/// Base64 text is four characters per started group of three bytes.
pub proof fn lemma_base64_len(b: Seq<u8>)
    ensures
        base64_standard(b).len() == 4 * ((b.len() + 2) / 3),
    decreases b.len(),
{
    if b.len() >= 3 {
        lemma_base64_len(b.subrange(3, b.len() as int));
    }
}

/// `base64::engine::general_purpose::STANDARD.encode`: the standard
/// alphabet with `=` padding. The crate panics only when the padded length
/// overflows `usize`, which the bound on the input rules out.
#[verifier::external_body]
fn encode_base64(bytes: &Vec<u8>) -> (r: String)
    requires
        bytes@.len() <= 0x3000_0000,
    ensures
        r@ == base64_standard(bytes@),
{
    base64::engine::general_purpose::STANDARD.encode(bytes)
}

/// Little-endian bytes of a 32-bit value.
pub open spec fn le32(x: nat) -> Seq<u8> {
    seq![(x % 256) as u8, ((x / 256) % 256) as u8, ((x / 65536) % 256) as u8, ((x / 16777216) % 256) as u8]
}

/// Little-endian bytes of a 16-bit value.
pub open spec fn le16(x: nat) -> Seq<u8> {
    seq![(x % 256) as u8, ((x / 256) % 256) as u8]
}

/// Size of the file header plus the info header.
pub const PIXEL_OFFSET: u32 = 54;

/// The headers of an uncompressed 32-bit bottom-up BMP of `w` x `h`
/// pixels carrying `n` bytes of pixel data.
pub open spec fn bmp_header(w: nat, h: nat, n: nat) -> Seq<u8> {
    seq![66u8, 77u8] + le32((PIXEL_OFFSET + n) as nat) + le32(0) + le32(PIXEL_OFFSET as nat) + le32(40) + le32(w) + le32(h)
        + le16(1) + le16(32) + le32(0) + le32(n) + le32(0) + le32(0) + le32(0) + le32(0)
}

/// A BMP file: headers, then the pixel data as is.
pub open spec fn bmp_file(w: nat, h: nat, pixels: Seq<u8>) -> Seq<u8> {
    bmp_header(w, h, pixels.len()) + pixels
}

/// Icon bitmaps larger than 256 pixels a side, or empty, are not used.
pub open spec fn icon_dims_ok_spec(w: i32, h: i32) -> bool {
    0 < w <= 256 && 0 < h <= 256
}

/// Are these icon dimensions usable?
pub fn icon_dims_ok(w: i32, h: i32) -> (r: bool)
    ensures
        r == icon_dims_ok_spec(w, h),
{
    w > 0 && h > 0 && w <= 256 && h <= 256
}

fn push_le32(v: &mut Vec<u8>, x: u32)
    ensures
        final(v)@ == old(v)@ + le32(x as nat),
{
    let ghost start = v@;
    v.push((x % 256) as u8);
    v.push(((x / 256) % 256) as u8);
    v.push(((x / 65536) % 256) as u8);
    v.push(((x / 16777216) % 256) as u8);
    assert(v@ =~= start + le32(x as nat));
}

fn push_le16(v: &mut Vec<u8>, x: u16)
    ensures
        final(v)@ == old(v)@ + le16(x as nat),
{
    let ghost start = v@;
    v.push((x % 256) as u8);
    v.push(((x / 256) % 256) as u8);
    assert(v@ =~= start + le16(x as nat));
}

/// Wraps raw bottom-up BGRA icon pixels (`w` x `h`, 4 bytes each) in a
/// BMP file.
pub fn bmp_bytes(w: i32, h: i32, pixels: &Vec<u8>) -> (r: Vec<u8>)
    requires
        icon_dims_ok_spec(w, h),
        pixels@.len() == 4 * w * h,
    ensures
        r@ == bmp_file(w as nat, h as nat, pixels@),
{
    assert(4 * w * h <= 4 * 256 * 256) by (nonlinear_arith)
        requires
            0 < w <= 256,
            0 < h <= 256,
    ;
    let n: u32 = pixels.len() as u32;
    let mut file: Vec<u8> = Vec::new();
    file.push(66u8);
    file.push(77u8);
    push_le32(&mut file, PIXEL_OFFSET + n);
    push_le32(&mut file, 0);
    push_le32(&mut file, PIXEL_OFFSET);
    push_le32(&mut file, 40);
    push_le32(&mut file, w as u32);
    push_le32(&mut file, h as u32);
    push_le16(&mut file, 1);
    push_le16(&mut file, 32);
    push_le32(&mut file, 0);
    push_le32(&mut file, n);
    push_le32(&mut file, 0);
    push_le32(&mut file, 0);
    push_le32(&mut file, 0);
    push_le32(&mut file, 0);
    let ghost header = file@;
    assert(header =~= bmp_header(w as nat, h as nat, pixels@.len()));
    let mut i: usize = 0;
    while i < pixels.len()
        invariant
            i <= pixels@.len(),
            file@ == header + pixels@.take(i as int),
        decreases pixels@.len() - i,
    {
        file.push(pixels[i]);
        assert(pixels@.take(i + 1) =~= pixels@.take(i as int).push(pixels@[i as int]));
        i += 1;
    }
    assert(pixels@.take(i as int) =~= pixels@);
    file
}

/// The data URI of an icon bitmap.
pub open spec fn icon_uri_spec(w: nat, h: nat, pixels: Seq<u8>) -> Seq<char> {
    "data:image/bmp;base64,"@ + base64_standard(bmp_file(w, h, pixels))
}

/// `data:image/bmp;base64,...` URI of raw icon pixels.
pub fn icon_data_uri(w: i32, h: i32, pixels: &Vec<u8>) -> (r: String)
    requires
        icon_dims_ok_spec(w, h),
        pixels@.len() == 4 * w * h,
    ensures
        r@ == icon_uri_spec(w as nat, h as nat, pixels@),
{
    assert(4 * w * h <= 4 * 256 * 256) by (nonlinear_arith)
        requires
            0 < w <= 256,
            0 < h <= 256,
    ;
    let file = bmp_bytes(w, h, pixels);
    let b64 = encode_base64(&file);
    let mut s = String::from_str("data:image/bmp;base64,");
    s.append(b64.as_str());
    s
}

/// Extracted icons by executable path, for the process lifetime: icon
/// extraction is too slow to redo on every app-list poll. A path maps to
/// `None` when extraction failed, so that failure is not retried either.
pub struct IconCache {
    entries: Vec<(String, Option<String>)>,
}

/// An icon as a plain value.
pub open spec fn icon_view(i: Option<String>) -> Option<Seq<char>> {
    match i {
        Some(s) => Some(s@),
        None => None,
    }
}

impl IconCache {
    /// No path appears twice.
    #[verifier::type_invariant]
    spec fn wf(&self) -> bool {
        forall|a: int, b: int|
            0 <= a < b < self.entries@.len() ==> (#[trigger] self.entries@[a]).0@ != (#[trigger] self.entries@[b]).0@
    }

    /// The cached icons by path.
    pub closed spec fn view(&self) -> Map<Seq<char>, Option<Seq<char>>> {
        Map::new(
            |p: Seq<char>| exists|k: int| 0 <= k < self.entries@.len() && (#[trigger] self.entries@[k]).0@ == p,
            |p: Seq<char>|
                {
                    let k = choose|k: int| 0 <= k < self.entries@.len() && (#[trigger] self.entries@[k]).0@ == p;
                    icon_view(self.entries@[k].1)
                },
        )
    }

    /// An empty cache.
    pub fn new() -> (c: IconCache)
        ensures
            c.view() == Map::<Seq<char>, Option<Seq<char>>>::empty(),
    {
        let c = IconCache { entries: Vec::new() };
        assert(c.view() =~= Map::<Seq<char>, Option<Seq<char>>>::empty());
        c
    }

    fn position(&self, path: &str) -> (r: Option<usize>)
        requires
            self.wf(),
        ensures
            match r {
                Some(k) => k < self.entries@.len() && self.entries@[k as int].0@ == path@,
                None => forall|k: int| 0 <= k < self.entries@.len() ==> (#[trigger] self.entries@[k]).0@ != path@,
            },
    {
        let mut i: usize = 0;
        while i < self.entries.len()
            invariant
                i <= self.entries@.len(),
                forall|k: int| 0 <= k < i ==> (#[trigger] self.entries@[k]).0@ != path@,
            decreases self.entries@.len() - i,
        {
            if str_eq(self.entries[i].0.as_str(), path) {
                return Some(i);
            }
            i += 1;
        }
        None
    }

    /// The cached icon of `path`, if `path` was seen.
    pub fn get(&self, path: &str) -> (r: Option<Option<String>>)
        ensures
            match r {
                Some(i) => self.view().dom().contains(path@) && self.view()[path@] == icon_view(i),
                None => !self.view().dom().contains(path@),
            },
    {
        proof {
            use_type_invariant(self);
        }
        match self.position(path) {
            Some(k) => {
                let hit = match &self.entries[k].1 {
                    Some(s) => Some(s.clone()),
                    None => None,
                };
                proof {
                    let p = path@;
                    assert(self.entries@[k as int].0@ == p);
                    let j = choose|j: int| 0 <= j < self.entries@.len() && (#[trigger] self.entries@[j]).0@ == p;
                    assert(j == k as int) by {
                        if j != k as int {
                            if j < k {
                                assert(self.entries@[j].0@ != self.entries@[k as int].0@);
                            } else {
                                assert(self.entries@[k as int].0@ != self.entries@[j].0@);
                            }
                        }
                    }
                }
                Some(hit)
            },
            None => None,
        }
    }

    /// Records the icon of `path`, replacing any earlier one.
    pub fn put(&mut self, path: &str, icon: Option<String>)
        ensures
            final(self).view() == old(self).view().insert(path@, icon_view(icon)),
    {
        proof {
            use_type_invariant(&*self);
        }
        let ghost iv = icon_view(icon);
        match self.position(path) {
            Some(k) => {
                let key = self.entries[k].0.clone();
                let mut entries: Vec<(String, Option<String>)> = Vec::new();
                std::mem::swap(&mut entries, &mut self.entries);
                entries.set(k, (key, icon));
                proof {
                    assert forall|a: int, b: int|
                        0 <= a < b < entries@.len() implies (#[trigger] entries@[a]).0@
                        != (#[trigger] entries@[b]).0@ by {
                        assert(entries@[a].0@ == old(self).entries@[a].0@);
                        assert(entries@[b].0@ == old(self).entries@[b].0@);
                    }
                }
                self.entries = entries;
                proof {
                    self.lemma_view_at(k as int);
                    assert forall|p: Seq<char>| old(self).view().dom().contains(p) && p != path@ implies #[trigger] self.view()[p]
                        == old(self).view()[p] by {
                        let j = choose|j: int| 0 <= j < old(self).entries@.len() && (#[trigger] old(self).entries@[j]).0@ == p;
                        old(self).lemma_view_at(j);
                        self.lemma_view_at(j);
                    }
                    assert forall|p: Seq<char>| #[trigger] self.view().dom().contains(p) == old(self).view().dom().contains(p) by {
                        if self.view().dom().contains(p) {
                            let j = choose|j: int| 0 <= j < self.entries@.len() && (#[trigger] self.entries@[j]).0@ == p;
                            assert(old(self).entries@[j].0@ == p);
                        }
                        if old(self).view().dom().contains(p) {
                            let j = choose|j: int| 0 <= j < old(self).entries@.len() && (#[trigger] old(self).entries@[j]).0@ == p;
                            assert(self.entries@[j].0@ == p);
                        }
                    }
                    old(self).lemma_view_at(k as int);
                    assert(self.view().dom() =~= old(self).view().dom().insert(path@));
                    assert(self.view() =~= old(self).view().insert(path@, iv));
                }
            },
            None => {
                let key = String::from_str(path);
                let mut entries: Vec<(String, Option<String>)> = Vec::new();
                std::mem::swap(&mut entries, &mut self.entries);
                entries.push((key, icon));
                proof {
                    let n = old(self).entries@.len() as int;
                    assert forall|a: int, b: int|
                        0 <= a < b < entries@.len() implies (#[trigger] entries@[a]).0@
                        != (#[trigger] entries@[b]).0@ by {
                        if b < n {
                            assert(entries@[a] == old(self).entries@[a]);
                            assert(entries@[b] == old(self).entries@[b]);
                        } else {
                            assert(entries@[a] == old(self).entries@[a]);
                        }
                    }
                }
                self.entries = entries;
                proof {
                    let n = old(self).entries@.len() as int;
                    self.lemma_view_at(n);
                    assert forall|p: Seq<char>| old(self).view().dom().contains(p) implies #[trigger] self.view()[p]
                        == old(self).view()[p] by {
                        let j = choose|j: int| 0 <= j < old(self).entries@.len() && (#[trigger] old(self).entries@[j]).0@ == p;
                        old(self).lemma_view_at(j);
                        assert(self.entries@[j] == old(self).entries@[j]);
                        self.lemma_view_at(j);
                    }
                    assert forall|p: Seq<char>| #[trigger] self.view().dom().contains(p) implies old(self).view().dom().contains(p)
                        || p == path@ by {
                        let j = choose|j: int| 0 <= j < self.entries@.len() && (#[trigger] self.entries@[j]).0@ == p;
                        if j < n {
                            assert(old(self).entries@[j] == self.entries@[j]);
                        }
                    }
                    assert forall|p: Seq<char>| #[trigger] old(self).view().dom().contains(p) implies self.view().dom().contains(p) by {
                        let j = choose|j: int| 0 <= j < old(self).entries@.len() && (#[trigger] old(self).entries@[j]).0@ == p;
                        assert(self.entries@[j] == old(self).entries@[j]);
                        self.lemma_view_at(j);
                    }
                    assert(self.view().dom() =~= old(self).view().dom().insert(path@));
                    assert(self.view() =~= old(self).view().insert(path@, iv));
                }
            },
        }
    }

    /// The view at the path stored in entry `k`.
    proof fn lemma_view_at(&self, k: int)
        requires
            self.wf(),
            0 <= k < self.entries@.len(),
        ensures
            self.view().dom().contains(self.entries@[k].0@),
            self.view()[self.entries@[k].0@] == icon_view(self.entries@[k].1),
    {
        let p = self.entries@[k].0@;
        assert(self.entries@[k].0@ == p);
        let j = choose|j: int| 0 <= j < self.entries@.len() && (#[trigger] self.entries@[j]).0@ == p;
        if j != k {
            if j < k {
                assert(self.entries@[j].0@ != self.entries@[k].0@);
            } else {
                assert(self.entries@[k].0@ != self.entries@[j].0@);
            }
        }
    }
}

/// A cached icon reads back as written, and other paths are untouched.
pub proof fn lemma_icon_cache_read_back(before: IconCache, after: IconCache, path: Seq<char>, icon: Option<Seq<char>>, other: Seq<char>)
    requires
        after.view() == before.view().insert(path, icon),
    ensures
        after.view().dom().contains(path),
        after.view()[path] == icon,
        other != path ==> (after.view().dom().contains(other) == before.view().dom().contains(other)),
        other != path && before.view().dom().contains(other) ==> after.view()[other] == before.view()[other],
{
}

} // verus!
