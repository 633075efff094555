use vstd::prelude::*;

verus! {

/// Whether the write `p` (column, row, colour) lands on cell `i` of a
/// `width` x `height` row-major buffer.
pub open spec fn lands_on(width: nat, height: nat, p: (usize, usize, u32), i: int) -> bool {
    p.0 < width && p.1 < height && i == p.1 * width + p.0
}

/// A row-major buffer of packed colours, `width` x `height` cells.
pub struct Framebuffer {
    width: u32,
    height: u32,
    buffer: Vec<u32>,
}

impl View for Framebuffer {
    type V = Seq<u32>;

    closed spec fn view(&self) -> Seq<u32> {
        self.buffer@
    }
}

impl Framebuffer {
    /// The buffer holds exactly one cell per pixel.
    pub closed spec fn wf(&self) -> bool {
        &&& self.buffer@.len() == self.width as nat * self.height as nat
        &&& self.width as nat * self.height as nat <= usize::MAX
    }

    pub closed spec fn spec_width(&self) -> nat {
        self.width as nat
    }

    pub closed spec fn spec_height(&self) -> nat {
        self.height as nat
    }

    /// A `width` x `height` buffer filled with zero.
    pub fn new(width: u32, height: u32) -> (r: Framebuffer)
        requires
            width as nat * height as nat <= usize::MAX,
        ensures
            r.wf(),
            r.spec_width() == width,
            r.spec_height() == height,
            r@ == Seq::new(width as nat * height as nat, |_i: int| 0u32),
    {
        let n = width as usize * height as usize;
        let buffer = vec![0u32; n];
        proof {
            assert(buffer@ =~= Seq::new(width as nat * height as nat, |_i: int| 0u32));
        }
        Framebuffer { width, height, buffer }
    }

    pub fn width(&self) -> (r: u32)
        requires
            self.wf(),
        ensures
            r == self.spec_width(),
            self@.len() == self.spec_width() * self.spec_height(),
    {
        self.width
    }

    pub fn height(&self) -> (r: u32)
        requires
            self.wf(),
        ensures
            r == self.spec_height(),
            self@.len() == self.spec_width() * self.spec_height(),
    {
        self.height
    }

    /// The packed colours, row by row.
    pub fn pixels(&self) -> (r: &Vec<u32>)
        requires
            self.wf(),
        ensures
            r@ == self@,
    {
        &self.buffer
    }

    /// Sets every cell to `color`.
    pub fn clear(&mut self, color: u32)
        requires
            old(self).wf(),
        ensures
            final(self).wf(),
            final(self).spec_width() == old(self).spec_width(),
            final(self).spec_height() == old(self).spec_height(),
            final(self)@ == Seq::new(old(self)@.len(), |_i: int| color),
    {
        let n = self.buffer.len();
        let mut i: usize = 0;
        while i < n
            invariant
                n == self.buffer@.len(),
                self.width == old(self).width,
                self.height == old(self).height,
                n == old(self).buffer@.len(),
                i <= n,
                forall|k: int| 0 <= k < i ==> self.buffer@[k] == color,
            decreases n - i,
        {
            self.buffer.set(i, color);
            i = i + 1;
        }
        proof {
            assert(self.buffer@ =~= Seq::new(old(self)@.len(), |_i: int| color));
        }
    }

    /// Writes `color` at column `x`, row `y`; a position outside the buffer
    /// is ignored.
    pub fn set_pixel(&mut self, x: u32, y: u32, color: u32)
        requires
            old(self).wf(),
        ensures
            final(self).wf(),
            final(self).spec_width() == old(self).spec_width(),
            final(self).spec_height() == old(self).spec_height(),
            final(self)@ == if x < old(self).spec_width() && y < old(self).spec_height() {
                old(self)@.update(y * old(self).spec_width() + x, color)
            } else {
                old(self)@
            },
    {
        if x < self.width && y < self.height {
            let idx = Self::index(self.width, self.height, x as usize, y as usize);
            self.buffer.set(idx, color);
        }
    }

    /// The row-major cell of an in-bounds position.
    fn index(width: u32, height: u32, x: usize, y: usize) -> (r: usize)
        requires
            x < width,
            y < height,
            width as nat * height as nat <= usize::MAX,
        ensures
            r == y * width + x,
            r < width as nat * height as nat,
    {
        proof {
            assert(y * width + x < width as nat * height as nat) by (nonlinear_arith)
                requires
                    x < width,
                    y < height,
            ;
            assert(y * width <= y * width + x);
        }
        y * (width as usize) + x
    }

    /// The colour at column `x`, row `y`, if that position is in the buffer.
    pub fn get_pixel(&self, x: u32, y: u32) -> (r: Option<u32>)
        requires
            self.wf(),
        ensures
            r == if x < self.spec_width() && y < self.spec_height() {
                Some(self@[y * self.spec_width() + x])
            } else {
                None::<u32>
            },
    {
        if x < self.width && y < self.height {
            Some(self.buffer[Self::index(self.width, self.height, x as usize, y as usize)])
        } else {
            None
        }
    }

    /// Applies the writes in order, as `set_pixel` would; writes outside the
    /// buffer are ignored. Each cell ends with the colour of the last write
    /// that lands on it, or keeps its colour if none does.
    pub fn write_pixels(&mut self, writes: &Vec<(usize, usize, u32)>)
        requires
            old(self).wf(),
        ensures
            final(self).wf(),
            final(self).spec_width() == old(self).spec_width(),
            final(self).spec_height() == old(self).spec_height(),
            after_writes(
                old(self).spec_width(),
                old(self).spec_height(),
                old(self)@,
                writes@,
                writes@.len() as int,
                final(self)@,
            ),
    {
        let ghost w = self.width as nat;
        let ghost h = self.height as nat;
        let mut j: usize = 0;
        while j < writes.len()
            invariant
                self.width == old(self).width,
                self.height == old(self).height,
                w == self.width,
                h == self.height,
                self.buffer@.len() == w * h,
                w * h <= usize::MAX,
                j <= writes@.len(),
                after_writes(w, h, old(self)@, writes@, j as int, self.buffer@),
            decreases writes@.len() - j,
        {
            let (x, y, c) = writes[j];
            let ghost before = self.buffer@;
            if x < self.width as usize && y < self.height as usize {
                let idx = Self::index(self.width, self.height, x, y);
                self.buffer.set(idx, c);
                proof {
                    assert(lands_on(w, h, writes@[j as int], idx as int));
                }
            }
            proof {
                assert forall|i: int| 0 <= i < self.buffer@.len() implies cell_after(
                    w,
                    h,
                    old(self)@[i],
                    writes@,
                    j + 1,
                    i,
                    #[trigger] self.buffer@[i],
                ) by {
                    assert(cell_after(w, h, old(self)@[i], writes@, j as int, i, before[i]));
                    if lands_on(w, h, writes@[j as int], i) {
                        assert(self.buffer@[i] == writes@[j as int].2);
                    } else {
                        assert(self.buffer@[i] == before[i]);
                        if exists|k: int| 0 <= k < j + 1 && lands_on(w, h, writes@[k], i) {
                            let k = choose|k: int| 0 <= k < j + 1 && lands_on(w, h, writes@[k], i);
                            assert(k < j);
                            let k1 = choose|k1: int|
                                0 <= k1 < j && lands_on(w, h, writes@[k1], i) && before[i]
                                    == writes@[k1].2 && forall|k2: int|
                                    k1 < k2 < j ==> !lands_on(w, h, #[trigger] writes@[k2], i);
                            assert(forall|k2: int|
                                k1 < k2 < j + 1 ==> !lands_on(w, h, #[trigger] writes@[k2], i));
                        }
                    }
                }
            }
            j = j + 1;
        }
    }
}

/// Cell `i` holds `c` after the first `n` writes, starting from `c0`: the
/// colour of the last of them that lands on it, or `c0` if none does.
pub open spec fn cell_after(
    width: nat,
    height: nat,
    c0: u32,
    writes: Seq<(usize, usize, u32)>,
    n: int,
    i: int,
    c: u32,
) -> bool {
    if exists|k: int| 0 <= k < n && lands_on(width, height, writes[k], i) {
        exists|k: int|
            0 <= k < n && lands_on(width, height, writes[k], i) && c == writes[k].2 && forall|
                k2: int,
            |
                k < k2 < n ==> !lands_on(width, height, #[trigger] writes[k2], i)
    } else {
        c == c0
    }
}

/// `after` is `before` with the first `n` writes applied in order.
pub open spec fn after_writes(
    width: nat,
    height: nat,
    before: Seq<u32>,
    writes: Seq<(usize, usize, u32)>,
    n: int,
    after: Seq<u32>,
) -> bool {
    &&& after.len() == before.len()
    &&& forall|i: int|
        0 <= i < before.len() ==> cell_after(width, height, before[i], writes, n, i, #[trigger] after[i])
}

} // verus!
