use crate::color::{opaque_white, Rgba};
use vstd::prelude::*;

verus! {

broadcast use vstd::string::to_string_from_display_ensures_for_str;

pub open spec fn clamp(v: int, lo: int, hi: int) -> int {
    if v < lo {
        lo
    } else if v > hi {
        hi
    } else {
        v
    }
}

/// An image held in memory for sampling: `width` x `height` texels, row by
/// row. A texel missing from `pixels` reads as opaque white.
pub struct CpuTexture {
    width: u32,
    height: u32,
    pixels: Vec<Rgba>,
}

impl View for CpuTexture {
    type V = Seq<Rgba>;

    closed spec fn view(&self) -> Seq<Rgba> {
        self.pixels@
    }
}

impl CpuTexture {
    pub closed spec fn spec_width(&self) -> nat {
        self.width as nat
    }

    pub closed spec fn spec_height(&self) -> nat {
        self.height as nat
    }

    /// At least one texel each way, and a size that fits a signed 32-bit
    /// coordinate.
    pub open spec fn wf(&self) -> bool {
        &&& 1 <= self.spec_width() <= i32::MAX
        &&& 1 <= self.spec_height() <= i32::MAX
    }

    /// The texel read at `(x, y)`, with each coordinate clamped to the
    /// image's edges.
    pub open spec fn texel_at(&self, x: int, y: int) -> Rgba {
        let i = clamp(y, 0, self.spec_height() - 1) * self.spec_width() + clamp(
            x,
            0,
            self.spec_width() - 1,
        );
        if i < self@.len() {
            self@[i]
        } else {
            opaque_white()
        }
    }

    /// A texture of the given size over `pixels`; `None` if a side is zero or
    /// does not fit a signed 32-bit coordinate.
    pub fn from_pixels(width: u32, height: u32, pixels: Vec<Rgba>) -> (r: Option<CpuTexture>)
        ensures
            match r {
                Some(t) => t.wf() && t.spec_width() == width && t.spec_height() == height && t@
                    == pixels@,
                None => !(1 <= width <= i32::MAX && 1 <= height <= i32::MAX),
            },
    {
        if width >= 1 && width <= 0x7fff_ffff && height >= 1 && height <= 0x7fff_ffff {
            Some(CpuTexture { width, height, pixels })
        } else {
            None
        }
    }

    pub fn width(&self) -> (r: u32)
        ensures
            r == self.spec_width(),
    {
        self.width
    }

    pub fn height(&self) -> (r: u32)
        ensures
            r == self.spec_height(),
    {
        self.height
    }

    /// The texel at `(x, y)` with both coordinates clamped to the edges;
    /// opaque white where the pixel list is short.
    pub fn get_pixel_clamped(&self, x: i32, y: i32) -> (r: Rgba)
        requires
            self.wf(),
        ensures
            r == self.texel_at(x as int, y as int),
    {
        let w = self.width as i64;
        let h = self.height as i64;
        let cx: i64 = if (x as i64) < 0 {
            0
        } else if (x as i64) > w - 1 {
            w - 1
        } else {
            x as i64
        };
        let cy: i64 = if (y as i64) < 0 {
            0
        } else if (y as i64) > h - 1 {
            h - 1
        } else {
            y as i64
        };
        proof {
            assert(0 <= cy * w + cx <= (h - 1) * w + (w - 1)) by (nonlinear_arith)
                requires
                    0 <= cx < w,
                    0 <= cy < h,
            ;
            assert((h - 1) * w + (w - 1) < 0x7fff_ffff * 0x8000_0000) by (nonlinear_arith)
                requires
                    1 <= w <= 0x7fff_ffff,
                    1 <= h <= 0x7fff_ffff,
            ;
        }
        let idx = cy * w + cx;
        if (idx as u64) < self.pixels.len() as u64 {
            self.pixels[idx as usize]
        } else {
            Rgba::white()
        }
    }

    /// The four texels that bilinear filtering blends around `(x0, y0)`:
    /// `(x0, y0)`, `(x1, y0)`, `(x0, y1)` and `(x1, y1)`, where `x1` and `y1`
    /// are one step on, stopped at the last column and row.
    pub fn bilinear_corners(&self, x0: i32, y0: i32) -> (r: (Rgba, Rgba, Rgba, Rgba))
        requires
            self.wf(),
        ensures
            ({
                let x1 = if x0 + 1 < self.spec_width() - 1 {
                    x0 + 1
                } else {
                    self.spec_width() - 1
                };
                let y1 = if y0 + 1 < self.spec_height() - 1 {
                    y0 + 1
                } else {
                    self.spec_height() - 1
                };
                r == (
                    self.texel_at(x0 as int, y0 as int),
                    self.texel_at(x1, y0 as int),
                    self.texel_at(x0 as int, y1),
                    self.texel_at(x1, y1),
                )
            }),
    {
        let x1: i32 = if (x0 as i64) + 1 < self.width as i64 - 1 {
            x0 + 1
        } else {
            (self.width - 1) as i32
        };
        let y1: i32 = if (y0 as i64) + 1 < self.height as i64 - 1 {
            y0 + 1
        } else {
            (self.height - 1) as i32
        };
        (
            self.get_pixel_clamped(x0, y0),
            self.get_pixel_clamped(x1, y0),
            self.get_pixel_clamped(x0, y1),
            self.get_pixel_clamped(x1, y1),
        )
    }
}

/// The textures loaded so far, each under the path it was loaded from.
pub struct TextureManager {
    entries: Vec<(String, CpuTexture)>,
}

/// The path-to-texture map that a list of entries with distinct paths
/// stands for.
pub open spec fn map_of(s: Seq<(String, CpuTexture)>) -> Map<Seq<char>, CpuTexture> {
    Map::new(
        |k: Seq<char>| exists|i: int| 0 <= i < s.len() && s[i].0@ == k,
        |k: Seq<char>| s[choose|i: int| 0 <= i < s.len() && s[i].0@ == k].1,
    )
}

pub open spec fn distinct_keys(s: Seq<(String, CpuTexture)>) -> bool {
    forall|i: int, j: int| 0 <= i < j < s.len() ==> #[trigger] s[i].0@ != #[trigger] s[j].0@
}

proof fn lemma_map_of_at(s: Seq<(String, CpuTexture)>, i: int)
    requires
        distinct_keys(s),
        0 <= i < s.len(),
    ensures
        map_of(s).contains_key(s[i].0@),
        map_of(s)[s[i].0@] == s[i].1,
{
    let k = s[i].0@;
    assert(map_of(s).contains_key(k));
    let j = choose|j: int| 0 <= j < s.len() && s[j].0@ == k;
    if j < i {
        assert(s[j].0@ != s[i].0@);
    } else if j > i {
        assert(s[i].0@ != s[j].0@);
    }
}

proof fn lemma_map_of_push(s: Seq<(String, CpuTexture)>, e: (String, CpuTexture))
    requires
        distinct_keys(s),
        !map_of(s).contains_key(e.0@),
    ensures
        distinct_keys(s.push(e)),
        map_of(s.push(e)) == map_of(s).insert(e.0@, e.1),
{
    let t = s.push(e);
    assert forall|i: int, j: int| 0 <= i < j < t.len() implies #[trigger] t[i].0@ != #[trigger] t[j].0@ by {
        if j == s.len() {
            assert(t[i] == s[i]);
        } else {
            assert(t[i] == s[i] && t[j] == s[j]);
        }
    }
    assert forall|k: Seq<char>| #[trigger] map_of(t).contains_key(k) implies map_of(s).insert(
        e.0@,
        e.1,
    ).contains_key(k) by {
        let i = choose|i: int| 0 <= i < t.len() && t[i].0@ == k;
        if i < s.len() {
            assert(t[i] == s[i]);
        }
    }
    assert forall|k: Seq<char>| map_of(s).insert(e.0@, e.1).contains_key(k) implies #[trigger] map_of(
        t,
    ).contains_key(k) by {
        if k == e.0@ {
            assert(t[s.len() as int].0@ == k);
        } else {
            let i = choose|i: int| 0 <= i < s.len() && s[i].0@ == k;
            assert(t[i] == s[i]);
        }
    }
    assert forall|k: Seq<char>| #[trigger] map_of(t).contains_key(k) implies map_of(t)[k] == map_of(
        s,
    ).insert(e.0@, e.1)[k] by {
        let i = choose|i: int| 0 <= i < t.len() && t[i].0@ == k;
        lemma_map_of_at(t, i);
        if i < s.len() {
            assert(t[i] == s[i]);
            lemma_map_of_at(s, i);
        }
    }
    assert(map_of(t) =~= map_of(s).insert(e.0@, e.1));
}

impl View for TextureManager {
    type V = Map<Seq<char>, CpuTexture>;

    closed spec fn view(&self) -> Map<Seq<char>, CpuTexture> {
        map_of(self.entries@)
    }
}

impl TextureManager {
    /// Paths are distinct and every texture is well formed.
    pub closed spec fn wf(&self) -> bool {
        &&& distinct_keys(self.entries@)
        &&& forall|i: int| 0 <= i < self.entries@.len() ==> (#[trigger] self.entries@[i]).1.wf()
    }

    /// An empty store.
    pub fn new() -> (r: TextureManager)
        ensures
            r.wf(),
            r@ == Map::<Seq<char>, CpuTexture>::empty(),
    {
        let r = TextureManager { entries: Vec::new() };
        assert(r@ =~= Map::<Seq<char>, CpuTexture>::empty());
        r
    }

    /// The place of `path` among the entries, if it is there.
    fn find(&self, path: &str) -> (r: Option<usize>)
        requires
            self.wf(),
        ensures
            match r {
                Some(i) => i < self.entries@.len() && self.entries@[i as int].0@ == path@,
                None => !self@.contains_key(path@),
            },
    {
        let key = path.to_string();
        let mut i: usize = 0;
        while i < self.entries.len()
            invariant
                key@ == path@,
                i <= self.entries@.len(),
                forall|j: int| 0 <= j < i ==> (#[trigger] self.entries@[j]).0@ != path@,
            decreases self.entries@.len() - i,
        {
            if self.entries[i].0 == key {
                return Some(i);
            }
            i = i + 1;
        }
        None
    }

    /// Whether a texture was loaded from `path`.
    pub fn contains(&self, path: &str) -> (r: bool)
        requires
            self.wf(),
        ensures
            r == self@.contains_key(path@),
    {
        match self.find(path) {
            Some(i) => {
                proof {
                    lemma_map_of_at(self.entries@, i as int);
                }
                true
            },
            None => false,
        }
    }

    /// Stores `texture` under `path` unless a texture is already stored there,
    /// in which case nothing changes; returns whether it was stored.
    pub fn insert(&mut self, path: &str, texture: CpuTexture) -> (r: bool)
        requires
            old(self).wf(),
            texture.wf(),
        ensures
            final(self).wf(),
            r == !old(self)@.contains_key(path@),
            final(self)@ == if r {
                old(self)@.insert(path@, texture)
            } else {
                old(self)@
            },
    {
        match self.find(path) {
            Some(i) => {
                proof {
                    lemma_map_of_at(self.entries@, i as int);
                }
                false
            },
            None => {
                let key = path.to_string();
                proof {
                    lemma_map_of_push(self.entries@, (key, texture));
                }
                self.entries.push((key, texture));
                proof {
                    assert forall|i: int| 0 <= i < self.entries@.len() implies (
                    #[trigger] self.entries@[i]).1.wf() by {
                        if i < old(self).entries@.len() {
                            assert(self.entries@[i] == old(self).entries@[i]);
                        }
                    }
                }
                true
            },
        }
    }

    /// The texture loaded from `path`, if any.
    pub fn get(&self, path: &str) -> (r: Option<&CpuTexture>)
        requires
            self.wf(),
        ensures
            match r {
                Some(t) => self@.contains_key(path@) && *t == self@[path@] && t.wf(),
                None => !self@.contains_key(path@),
            },
    {
        match self.find(path) {
            Some(i) => {
                proof {
                    lemma_map_of_at(self.entries@, i as int);
                }
                Some(&self.entries[i].1)
            },
            None => None,
        }
    }

    /// The texel at `(x, y)`, clamped to the edges, of the texture loaded
    /// from `path`; opaque white if there is none.
    pub fn get_pixel_color(&self, path: &str, x: i32, y: i32) -> (r: Rgba)
        requires
            self.wf(),
        ensures
            r == if self@.contains_key(path@) {
                self@[path@].texel_at(x as int, y as int)
            } else {
                opaque_white()
            },
    {
        match self.get(path) {
            Some(t) => t.get_pixel_clamped(x, y),
            None => Rgba::white(),
        }
    }

    /// The size of the texture loaded from `path`, if any.
    pub fn size_of(&self, path: &str) -> (r: Option<(u32, u32)>)
        requires
            self.wf(),
        ensures
            r == if self@.contains_key(path@) {
                Some((self@[path@].spec_width() as u32, self@[path@].spec_height() as u32))
            } else {
                None::<(u32, u32)>
            },
    {
        match self.get(path) {
            Some(t) => Some((t.width(), t.height())),
            None => None,
        }
    }

    /// The width of the texture loaded from `path`, or 0 if there is none.
    pub fn width_of(&self, path: &str) -> (r: u32)
        requires
            self.wf(),
        ensures
            r == if self@.contains_key(path@) {
                self@[path@].spec_width()
            } else {
                0
            },
    {
        match self.get(path) {
            Some(t) => t.width(),
            None => 0,
        }
    }

    /// The height of the texture loaded from `path`, or 0 if there is none.
    pub fn height_of(&self, path: &str) -> (r: u32)
        requires
            self.wf(),
        ensures
            r == if self@.contains_key(path@) {
                self@[path@].spec_height()
            } else {
                0
            },
    {
        match self.get(path) {
            Some(t) => t.height(),
            None => 0,
        }
    }
}

impl Default for TextureManager {
    fn default() -> (r: TextureManager)
        ensures
            r.wf(),
            r@ == Map::<Seq<char>, CpuTexture>::empty(),
    {
        TextureManager::new()
    }
}

} // verus!
