//! Geometry of the canvas and the pixel layers that are composited onto it.

use vstd::prelude::*;

verus! {

/// A cell coordinate, counted from zero.
#[derive(Clone, Copy, Debug, PartialEq, Eq, Structural)]
pub struct Position {
    pub x: u16,
    pub y: u16,
}

impl Default for Position {
    fn default() -> (res: Position)
        ensures
            res == (Position { x: 0, y: 0 }),
    {
        Position { x: 0, y: 0 }
    }
}

impl Position {
    /// The position that lies `rhs` further right and down.
    pub fn plus(self, rhs: Position) -> (res: Position)
        requires
            self.x + rhs.x <= u16::MAX,
            self.y + rhs.y <= u16::MAX,
        ensures
            res == (Position { x: (self.x + rhs.x) as u16, y: (self.y + rhs.y) as u16 }),
    {
        Position { x: self.x + rhs.x, y: self.y + rhs.y }
    }

    /// The position that lies `rhs` further left and up: where `self` is
    /// when seen from `rhs`.
    pub fn minus(self, rhs: Position) -> (res: Position)
        requires
            rhs.x <= self.x,
            rhs.y <= self.y,
        ensures
            res == (Position { x: (self.x - rhs.x) as u16, y: (self.y - rhs.y) as u16 }),
    {
        Position { x: self.x - rhs.x, y: self.y - rhs.y }
    }
}

/// A rectangular extent. It doubles as the set of positions `(x, y)` with
/// `x < width` and `y < height`, enumerated row by row.
#[derive(Clone, Copy, Debug, PartialEq, Eq, Structural)]
pub struct Dimension {
    pub width: u16,
    pub height: u16,
}

impl Dimension {
    /// The number of positions in the extent.
    pub open spec fn cells(self) -> nat {
        self.width as nat * self.height as nat
    }

    /// Whether `pos` lies inside the extent.
    pub open spec fn contains(self, pos: Position) -> bool {
        pos.x < self.width && pos.y < self.height
    }

    /// The row-major index of `pos` in a canvas of this width.
    pub open spec fn index_of(self, pos: Position) -> nat {
        pos.y as nat * self.width as nat + pos.x as nat
    }

    /// The position with row-major index `i`.
    pub open spec fn position_at(self, i: int) -> Position
        recommends
            0 <= i < self.cells(),
    {
        Position { x: (i % self.width as int) as u16, y: (i / self.width as int) as u16 }
    }

    /// All positions of the extent: `y` outer, `x` inner.
    pub open spec fn positions(self) -> Seq<Position> {
        Seq::new(self.cells(), |i: int| self.position_at(i))
    }

    /// The componentwise minimum.
    pub open spec fn meet(self, other: Dimension) -> Dimension {
        Dimension {
            width: if self.width <= other.width { self.width } else { other.width },
            height: if self.height <= other.height { self.height } else { other.height },
        }
    }

    /// The componentwise maximum.
    pub open spec fn join(self, other: Dimension) -> Dimension {
        Dimension {
            width: if self.width >= other.width { self.width } else { other.width },
            height: if self.height >= other.height { self.height } else { other.height },
        }
    }

    /// A canvas never holds more cells than fit in 32 bits.
    pub proof fn lemma_cells_bound(self)
        ensures
            self.cells() <= 0xFFFF * 0xFFFF,
            self.cells() <= usize::MAX,
    {
        let w = self.width as nat;
        let h = self.height as nat;
        assert(w * h <= 0xFFFF * 0xFFFF) by (nonlinear_arith)
            requires
                w <= 0xFFFF,
                h <= 0xFFFF,
        ;
    }

    /// Inside a canvas the row-major index identifies the position.
    pub proof fn lemma_index_of_contained(self, pos: Position)
        requires
            self.contains(pos),
        ensures
            self.index_of(pos) < self.cells(),
            self.position_at(self.index_of(pos) as int) == pos,
    {
        let w = self.width as int;
        let h = self.height as int;
        let x = pos.x as int;
        let y = pos.y as int;
        assert(y * w + x < w * h) by (nonlinear_arith)
            requires
                0 <= x < w,
                0 <= y < h,
        ;
        assert((y * w + x) % w == x && (y * w + x) / w == y) by (nonlinear_arith)
            requires
                0 <= x < w,
                0 <= y,
        ;
    }

    /// Every index into the canvas belongs to one position inside it.
    pub proof fn lemma_position_at_contained(self, i: int)
        requires
            0 <= i < self.cells(),
        ensures
            self.contains(self.position_at(i)),
            self.index_of(self.position_at(i)) == i,
    {
        let w = self.width as int;
        let h = self.height as int;
        assert(w > 0 && h > 0) by (nonlinear_arith)
            requires
                0 <= i < w * h,
                0 <= w,
                0 <= h,
        ;
        assert(0 <= i % w < w && 0 <= i / w < h && (i / w) * w + i % w == i) by (nonlinear_arith)
            requires
                0 <= i < w * h,
                0 < w,
        ;
    }

    /// No index into the canvas but that of `pos` belongs to `pos`.
    pub proof fn lemma_positions_differ(self, pos: Position)
        requires
            self.contains(pos),
        ensures
            forall|i: int|
                0 <= i < self.cells() && i != self.index_of(pos) ==> #[trigger] self.position_at(i)
                    != pos,
            forall|i: int| 0 <= i < self.cells() ==> self.contains(#[trigger] self.position_at(i)),
    {
        assert forall|i: int| 0 <= i < self.cells() implies self.contains(
            #[trigger] self.position_at(i),
        ) && (i != self.index_of(pos) ==> self.position_at(i) != pos) by {
            self.lemma_position_at_contained(i);
        }
    }

    /// The number of positions in the extent.
    pub fn number(&self) -> (n: usize)
        ensures
            n == self.cells(),
    {
        proof {
            self.lemma_cells_bound();
        }
        self.width as usize * self.height as usize
    }

    /// The largest extent that fits into both.
    pub fn min(self, other: Dimension) -> (res: Dimension)
        ensures
            res == self.meet(other),
    {
        Dimension {
            width: if self.width <= other.width { self.width } else { other.width },
            height: if self.height <= other.height { self.height } else { other.height },
        }
    }

    /// The smallest extent that both fit into.
    pub fn max(self, other: Dimension) -> (res: Dimension)
        ensures
            res == self.join(other),
    {
        Dimension {
            width: if self.width >= other.width { self.width } else { other.width },
            height: if self.height >= other.height { self.height } else { other.height },
        }
    }

    /// The row-major index of `pos`, whether or not `pos` lies inside.
    pub fn offset(self, pos: Position) -> (res: usize)
        ensures
            res == self.index_of(pos),
    {
        proof {
            let w = self.width as nat;
            let y = pos.y as nat;
            assert(y * w <= 0xFFFF * 0xFFFF) by (nonlinear_arith)
                requires
                    w <= 0xFFFF,
                    y <= 0xFFFF,
            ;
        }
        pos.y as usize * self.width as usize + pos.x as usize
    }
}

/// Walks the positions of a [`Dimension`] row by row.
pub struct DimensionIter {
    width: u16,
    height: u16,
    x: u16,
    y: u16,
}

impl DimensionIter {
    #[verifier::type_invariant]
    spec fn wf(self) -> bool {
        if self.width == 0 {
            self.x == 0 && self.y == 0
        } else {
            self.x < self.width && self.y <= self.height
        }
    }

    /// The extent that is walked.
    pub closed spec fn extent(self) -> Dimension {
        Dimension { width: self.width, height: self.height }
    }

    /// The number of positions handed out so far.
    pub closed spec fn index(self) -> nat {
        if self.width == 0 || self.y >= self.height {
            self.extent().cells()
        } else {
            self.y as nat * self.width as nat + self.x as nat
        }
    }

    /// The positions still to come, in order.
    pub open spec fn remaining(self) -> Seq<Position> {
        self.extent().positions().skip(self.index() as int)
    }

    /// The next position in row-major order, or `None` when all were handed
    /// out, and then `None` again however often it is asked.
    pub fn next(&mut self) -> (res: Option<Position>)
        ensures
            final(self).extent() == old(self).extent(),
            match res {
                Some(pos) => {
                    &&& old(self).remaining().len() > 0
                    &&& pos == old(self).remaining()[0]
                    &&& final(self).remaining() == old(self).remaining().drop_first()
                },
                None => {
                    &&& old(self).remaining().len() == 0
                    &&& final(self).remaining() == old(self).remaining()
                },
            },
    {
        proof {
            use_type_invariant(&*self);
        }
        if self.width == 0 || self.y >= self.height {
            return None;
        }
        let res = Position { x: self.x, y: self.y };
        proof {
            self.extent().lemma_index_of_contained(res);
        }
        let next_x: u16 = if self.x + 1 == self.width { 0 } else { self.x + 1 };
        let next_y: u16 = if self.x + 1 == self.width { self.y + 1 } else { self.y };
        *self = DimensionIter { width: self.width, height: self.height, x: next_x, y: next_y };
        proof {
            let w = self.width as nat;
            let h = self.height as nat;
            let y = res.y as nat;
            assert((y + 1) * w == y * w + w) by (nonlinear_arith);
            assert(h * w == w * h) by (nonlinear_arith);
            if next_y >= self.height {
                assert(y + 1 == h);
            }
            assert(self.index() == old(self).index() + 1);
            assert(self.remaining() =~= old(self).remaining().drop_first());
        }
        Some(res)
    }
}

impl Dimension {
    /// A walk over all positions of the extent, row by row.
    pub fn into_iter(self) -> (res: DimensionIter)
        ensures
            res.extent() == self,
            res.remaining() == self.positions(),
    {
        proof {
            let w = self.width as nat;
            let h = self.height as nat;
            assert(0 * w == 0 && 0 * h == 0 && w * 0 == 0) by (nonlinear_arith);
        }
        let res = DimensionIter { width: self.width, height: self.height, x: 0, y: 0 };
        assert(res.remaining() =~= self.positions());
        res
    }
}

/// One element of a layer: a colour and its opacity, 0 to 255.
#[derive(Clone, Copy, Debug, PartialEq, Eq, Structural)]
pub struct Pixel {
    pub r: u8,
    pub g: u8,
    pub b: u8,
    pub a: u8,
}

impl Default for Pixel {
    fn default() -> (res: Pixel)
        ensures
            res == Pixel::transparent(),
    {
        Pixel { r: 0, g: 0, b: 0, a: 0 }
    }
}

impl Pixel {
    /// The pixel that shows nothing, which is also the default.
    pub open spec fn transparent() -> Pixel {
        Pixel { r: 0, g: 0, b: 0, a: 0 }
    }

    /// The opacity of `fg` laid over `bg`, on a scale to 255 * 255: with both
    /// alphas taken as fractions of 255, it is `1 - (1 - fa) * (1 - ba)`.
    pub open spec fn coverage(fa: u8, ba: u8) -> int {
        255 * 255 - (255 - fa) * (255 - ba)
    }

    /// One colour channel of `fg` laid over `bg`: the mean of the two
    /// channels, the foreground weighted by its alpha and the background by
    /// what the foreground lets through, rounded down. With channels and
    /// alphas taken as fractions of 255 and `a` the opacity of the two
    /// together, it is `f * fa / a + b * ba * (1 - fa) / a`.
    pub open spec fn mix(f: u8, b: u8, fa: u8, ba: u8) -> int {
        (f * (255 * fa) + b * (ba * (255 - fa))) / Pixel::coverage(fa, ba)
    }

    /// `fg` laid over `bg`. Where both are fully transparent the result is
    /// [`Pixel::transparent`].
    pub open spec fn blended(bg: Pixel, fg: Pixel) -> Pixel {
        if fg.a == 0 && bg.a == 0 {
            Pixel::transparent()
        } else {
            Pixel {
                r: Pixel::mix(fg.r, bg.r, fg.a, bg.a) as u8,
                g: Pixel::mix(fg.g, bg.g, fg.a, bg.a) as u8,
                b: Pixel::mix(fg.b, bg.b, fg.a, bg.a) as u8,
                a: (Pixel::coverage(fg.a, bg.a) / 255) as u8,
            }
        }
    }

    /// The opacity of two layers is the sum of the two weights that
    /// [`Pixel::mix`] uses, it is positive unless both are transparent, and
    /// it is at least that of either layer.
    pub proof fn lemma_coverage(fa: u8, ba: u8)
        ensures
            Pixel::coverage(fa, ba) == 255 * fa + ba * (255 - fa),
            0 <= ba * (255 - fa) <= 255 * (255 - fa),
            0 <= Pixel::coverage(fa, ba) <= 255 * 255,
            Pixel::coverage(fa, ba) >= 255 * fa,
            Pixel::coverage(fa, ba) >= 255 * ba,
            (fa > 0 || ba > 0) ==> Pixel::coverage(fa, ba) > 0,
    {
        let f = fa as int;
        let b = ba as int;
        assert((255 - f) * (255 - b) == 255 * 255 - 255 * f - b * (255 - f)) by (nonlinear_arith);
        assert((255 - f) * (255 - b) == 255 * 255 - 255 * b - f * (255 - b)) by (nonlinear_arith);
        assert(0 <= b * (255 - f) <= 255 * (255 - f)) by (nonlinear_arith)
            requires
                0 <= b <= 255,
                0 <= f <= 255,
        ;
        assert(0 <= f * (255 - b)) by (nonlinear_arith)
            requires
                0 <= b <= 255,
                0 <= f <= 255,
        ;
        assert(b > 0 && f < 255 ==> b * (255 - f) > 0) by (nonlinear_arith)
            requires
                0 <= b <= 255,
                0 <= f <= 255,
        ;
    }

    /// A mixed channel lies between the two channels it is mixed from.
    pub proof fn lemma_mix_between(f: u8, b: u8, fa: u8, ba: u8)
        requires
            fa > 0 || ba > 0,
        ensures
            f <= b ==> f <= Pixel::mix(f, b, fa, ba) <= b,
            b <= f ==> b <= Pixel::mix(f, b, fa, ba) <= f,
            0 <= f * (255 * fa) + b * (ba * (255 - fa)) <= 255 * 255 * 255,
    {
        Pixel::lemma_coverage(fa, ba);
        let wf = 255 * fa as int;
        let wb = ba as int * (255 - fa as int);
        let fi = f as int;
        let bi = b as int;
        let total = wf + wb;
        let sum = fi * wf + bi * wb;
        assert(sum == f * (255 * fa) + b * (ba * (255 - fa)));
        assert(total == Pixel::coverage(fa, ba));
        assert(0 <= sum <= 255 * total) by (nonlinear_arith)
            requires
                sum == fi * wf + bi * wb,
                total == wf + wb,
                0 <= fi <= 255,
                0 <= bi <= 255,
                0 <= wf,
                0 <= wb,
        ;
        if fi <= bi {
            assert(fi * total <= sum <= bi * total) by (nonlinear_arith)
                requires
                    sum == fi * wf + bi * wb,
                    total == wf + wb,
                    0 <= fi <= bi,
                    0 <= wf,
                    0 <= wb,
            ;
            assert(fi <= sum / total <= bi) by (nonlinear_arith)
                requires
                    fi * total <= sum <= bi * total,
                    total > 0,
            ;
        }
        if bi <= fi {
            assert(bi * total <= sum <= fi * total) by (nonlinear_arith)
                requires
                    sum == fi * wf + bi * wb,
                    total == wf + wb,
                    0 <= bi <= fi,
                    0 <= wf,
                    0 <= wb,
            ;
            assert(bi <= sum / total <= fi) by (nonlinear_arith)
                requires
                    bi * total <= sum <= fi * total,
                    total > 0,
            ;
        }
    }

    /// An opaque foreground hides what is under it; a transparent one shows
    /// it unchanged; and over a transparent background the foreground stays
    /// as it is.
    pub proof fn lemma_blend_identities(bg: Pixel, fg: Pixel)
        ensures
            fg.a == 255 ==> Pixel::blended(bg, fg) == fg,
            fg.a == 0 ==> Pixel::blended(bg, fg) == if bg.a == 0 {
                Pixel::transparent()
            } else {
                bg
            },
            bg.a == 0 ==> Pixel::blended(bg, fg) == if fg.a == 0 {
                Pixel::transparent()
            } else {
                fg
            },
    {
        Pixel::lemma_coverage(fg.a, bg.a);
        let fa = fg.a as int;
        let ba = bg.a as int;
        if fg.a == 255 {
            Pixel::lemma_scaled_quotient(fg.r as int, 65025int);
            Pixel::lemma_scaled_quotient(fg.g as int, 65025int);
            Pixel::lemma_scaled_quotient(fg.b as int, 65025int);
        } else if fg.a == 0 && bg.a > 0 {
            Pixel::lemma_scaled_quotient(bg.r as int, ba * 255);
            Pixel::lemma_scaled_quotient(bg.g as int, ba * 255);
            Pixel::lemma_scaled_quotient(bg.b as int, ba * 255);
            Pixel::lemma_scaled_quotient(ba, 255);
            assert(ba * 255 == 255 * ba);
        } else if bg.a == 0 && fg.a > 0 {
            let through = ba * (255 - fa);
            assert(through == 0) by (nonlinear_arith)
                requires
                    through == ba * (255 - fa),
                    ba == 0,
            ;
            assert(bg.r * through == 0 && bg.g * through == 0 && bg.b * through == 0);
            Pixel::lemma_scaled_quotient(fg.r as int, 255 * fa);
            Pixel::lemma_scaled_quotient(fg.g as int, 255 * fa);
            Pixel::lemma_scaled_quotient(fg.b as int, 255 * fa);
            Pixel::lemma_scaled_quotient(fa, 255);
            assert(fa * 255 == 255 * fa);
        }
    }

    proof fn lemma_scaled_quotient(c: int, w: int)
        requires
            w > 0,
        ensures
            (c * w) / w == c,
    {
        assert((c * w) / w == c) by (nonlinear_arith)
            requires
                w > 0,
        ;
    }

    /// Lays `fg` over `bg`.
    pub fn blend(bg: Pixel, fg: Pixel) -> (res: Pixel)
        ensures
            res == Pixel::blended(bg, fg),
    {
        if fg.a == 0 && bg.a == 0 {
            return Pixel { r: 0, g: 0, b: 0, a: 0 };
        }
        proof {
            Pixel::lemma_coverage(fg.a, bg.a);
            Pixel::lemma_mix_between(fg.r, bg.r, fg.a, bg.a);
            Pixel::lemma_mix_between(fg.g, bg.g, fg.a, bg.a);
            Pixel::lemma_mix_between(fg.b, bg.b, fg.a, bg.a);
        }
        let front: u32 = 255 * fg.a as u32;
        let back: u32 = bg.a as u32 * (255 - fg.a as u32);
        let total: u32 = front + back;
        let r: u32 = Pixel::mix_channel(fg.r, bg.r, front, back);
        let g: u32 = Pixel::mix_channel(fg.g, bg.g, front, back);
        let b: u32 = Pixel::mix_channel(fg.b, bg.b, front, back);
        Pixel { r: r as u8, g: g as u8, b: b as u8, a: (total / 255) as u8 }
    }

    fn mix_channel(f: u8, b: u8, front: u32, back: u32) -> (res: u32)
        requires
            0 < front + back <= 255 * 255,
            f * front + b * back <= 255 * 255 * 255,
        ensures
            res == (f * front + b * back) / (front + back),
    {
        assert(f * front <= f * front + b * back) by (nonlinear_arith)
            requires
                b >= 0,
                back >= 0,
        ;
        assert(b * back <= f * front + b * back) by (nonlinear_arith)
            requires
                f >= 0,
                front >= 0,
        ;
        (f as u32 * front + b as u32 * back) / (front + back)
    }
}

/// A layer of a picture: one pixel for each position, row by row.
#[derive(Debug)]
pub struct Layer {
    pub pixels: Vec<Pixel>,
}

/// A stack of layers of one size, the backmost first.
#[derive(Debug)]
pub struct Picture {
    pub size: Dimension,
    pub layers: Vec<Layer>,
}

impl Picture {
    /// Every layer holds one pixel for each position of `size`.
    pub open spec fn wf(self) -> bool {
        forall|i: int|
            0 <= i < self.layers@.len() ==> (#[trigger] self.layers@[i]).pixels@.len()
                == self.size.cells()
    }

    /// Whether every layer holds a pixel at `offset`.
    pub open spec fn covers(self, offset: int) -> bool {
        forall|i: int|
            0 <= i < self.layers@.len() ==> 0 <= offset < (#[trigger] self.layers@[i]).pixels@.len()
    }

    /// The first `n` layers at `offset`, laid over each other from the back,
    /// starting from nothing.
    pub open spec fn stacked(self, offset: int, n: nat) -> Pixel
        decreases n,
    {
        if n == 0 {
            Pixel::transparent()
        } else {
            Pixel::blended(self.stacked(offset, (n - 1) as nat), self.layers@[n - 1].pixels@[offset])
        }
    }

    /// All layers at `offset`, laid over each other.
    pub open spec fn composited(self, offset: int) -> Pixel {
        self.stacked(offset, self.layers@.len())
    }

    /// A picture that holds `size.cells()` pixels in each layer covers every
    /// offset below that number.
    pub proof fn lemma_wf_covers(self, offset: int)
        requires
            self.wf(),
            0 <= offset < self.size.cells(),
        ensures
            self.covers(offset),
    {
    }

    /// The colour that shows at `offset` when all layers are laid over each
    /// other, the backmost first.
    pub fn composite(&self, offset: usize) -> (res: Pixel)
        requires
            self.covers(offset as int),
        ensures
            res == self.composited(offset as int),
    {
        let mut pixel = Pixel { r: 0, g: 0, b: 0, a: 0 };
        let mut i: usize = 0;
        while i < self.layers.len()
            invariant
                i <= self.layers@.len(),
                self.covers(offset as int),
                pixel == self.stacked(offset as int, i as nat),
            decreases self.layers@.len() - i,
        {
            pixel = Pixel::blend(pixel, self.layers[i].pixels[offset]);
            i += 1;
        }
        pixel
    }
}

} // verus!
