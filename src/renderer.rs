use vstd::prelude::*;

use crate::depth::{DEPTH_KEY_FAR, DEPTH_KEY_ZERO};
use crate::fb::{
    cell_at, filled, lemma_flip_index_bounds, lemma_flip_index_injective, resized, with_cell,
    Framebuffer,
};

verus! {

/// How each clipped triangle reaches the color buffer.
#[allow(non_camel_case_types)]
#[derive(Clone, Copy, PartialEq, Eq, Structural, Debug)]
pub enum DrawMode {
    /// Every covered pixel that passes the depth test is shaded.
    REGULAR,
    /// Only the three edges are drawn, without a depth test.
    WIREFRAME,
}

/// The (depth, color) that a pixel holds after a fragment with depth key `key`
/// and color `color` meets it: the fragment wins only when strictly nearer.
pub open spec fn depth_tested(
    depth: u32,
    color: u32,
    key: u32,
    frag_color: u32,
) -> (u32, u32) {
    if key < depth {
        (key, frag_color)
    } else {
        (depth, color)
    }
}

/// Depth and color storage after one depth-tested fragment at (x, y).
pub open spec fn fragment_written(
    depths: Seq<u32>,
    colors: Seq<u32>,
    width: int,
    height: int,
    x: int,
    y: int,
    key: u32,
    frag_color: u32,
) -> (Seq<u32>, Seq<u32>) {
    let tested = depth_tested(
        cell_at(depths, width, height, x, y),
        cell_at(colors, width, height, x, y),
        key,
        frag_color,
    );
    (
        with_cell(depths, width, height, x, y, tested.0),
        with_cell(colors, width, height, x, y, tested.1),
    )
}

/// Pipeline state: a color buffer of `0x00RRGGBB` pixels, a depth buffer of
/// depth keys with the same dimensions, and the draw mode.
pub struct Renderer {
    cb: Framebuffer<u32>,
    db: Framebuffer<u32>,
    draw_mode: DrawMode,
}

impl Renderer {
    pub closed spec fn spec_width(&self) -> nat {
        self.cb.spec_width()
    }

    pub closed spec fn spec_height(&self) -> nat {
        self.cb.spec_height()
    }

    /// Color storage, top row first.
    pub closed spec fn colors(&self) -> Seq<u32> {
        self.cb@
    }

    /// Depth-key storage, top row first.
    pub closed spec fn depths(&self) -> Seq<u32> {
        self.db@
    }

    pub closed spec fn mode(&self) -> DrawMode {
        self.draw_mode
    }

    /// The two buffers are well formed and share their dimensions.
    pub closed spec fn buffers_agree(&self) -> bool {
        &&& self.cb.wf()
        &&& self.db.wf()
        &&& self.db.spec_width() == self.cb.spec_width()
        &&& self.db.spec_height() == self.cb.spec_height()
    }

    /// Both buffers hold one cell per coordinate of the shared dimensions.
    pub open spec fn wf(&self) -> bool {
        &&& self.buffers_agree()
        &&& self.colors().len() == self.spec_width() * self.spec_height()
        &&& self.depths().len() == self.spec_width() * self.spec_height()
    }

    /// A renderer whose color buffer is 0 everywhere and whose depth buffer
    /// holds the key of depth 0.0, in `REGULAR` mode.
    pub fn new(width: u16, height: u16) -> (r: Self)
        ensures
            r.wf(),
            r.spec_width() == width,
            r.spec_height() == height,
            r.colors() == filled(width as nat * height as nat, 0u32),
            r.depths() == filled(width as nat * height as nat, DEPTH_KEY_ZERO),
            r.mode() == DrawMode::REGULAR,
    {
        let cb = Framebuffer::<u32>::new(width, height);
        let mut db = Framebuffer::<u32>::new(width, height);
        db.fill(DEPTH_KEY_ZERO);
        assert(cb@ =~= filled(width as nat * height as nat, 0u32));
        Renderer { cb, db, draw_mode: DrawMode::REGULAR }
    }

    /// Resizes both buffers: the color buffer pads with 0, the depth buffer
    /// with the key of depth 0.0. Callers clear before drawing again.
    pub fn set_fb_size(&mut self, width: u16, height: u16)
        requires
            old(self).wf(),
        ensures
            final(self).wf(),
            final(self).spec_width() == width,
            final(self).spec_height() == height,
            final(self).colors() == resized(
                old(self).colors(),
                width as nat * height as nat,
                0u32,
            ),
            final(self).depths() == resized(
                old(self).depths(),
                width as nat * height as nat,
                DEPTH_KEY_ZERO,
            ),
            final(self).mode() == old(self).mode(),
    {
        self.cb.resize(width, height, 0);
        self.db.resize(width, height, DEPTH_KEY_ZERO);
    }

    /// Sets every color pixel to `new_color` and every depth to the far plane.
    pub fn clear_framebuffer(&mut self, new_color: u32)
        requires
            old(self).wf(),
        ensures
            final(self).wf(),
            final(self).spec_width() == old(self).spec_width(),
            final(self).spec_height() == old(self).spec_height(),
            final(self).colors() == filled(old(self).colors().len(), new_color),
            final(self).depths() == filled(old(self).depths().len(), DEPTH_KEY_FAR),
            final(self).mode() == old(self).mode(),
    {
        self.cb.fill(new_color);
        self.db.fill(DEPTH_KEY_FAR);
    }

    pub fn set_draw_mode(&mut self, new_mode: DrawMode)
        requires
            old(self).wf(),
        ensures
            final(self).wf(),
            final(self).mode() == new_mode,
            final(self).spec_width() == old(self).spec_width(),
            final(self).spec_height() == old(self).spec_height(),
            final(self).colors() == old(self).colors(),
            final(self).depths() == old(self).depths(),
    {
        self.draw_mode = new_mode;
    }

    pub fn get_draw_mode(&self) -> (r: DrawMode)
        ensures
            r == self.mode(),
    {
        self.draw_mode
    }

    pub fn get_width(&self) -> (r: u16)
        ensures
            r == self.spec_width(),
    {
        self.cb.get_width()
    }

    pub fn get_height(&self) -> (r: u16)
        ensures
            r == self.spec_height(),
    {
        self.cb.get_height()
    }

    /// The color buffer, for presentation.
    pub fn color_buffer(&self) -> (r: &Framebuffer<u32>)
        requires
            self.wf(),
        ensures
            r.wf(),
            r@ == self.colors(),
            r.spec_width() == self.spec_width(),
            r.spec_height() == self.spec_height(),
    {
        &self.cb
    }

    /// The depth buffer of depth keys.
    pub fn depth_buffer(&self) -> (r: &Framebuffer<u32>)
        requires
            self.wf(),
        ensures
            r.wf(),
            r@ == self.depths(),
            r.spec_width() == self.spec_width(),
            r.spec_height() == self.spec_height(),
    {
        &self.db
    }

    /// Depth-tests a fragment at (x, y): when `key` is strictly below the
    /// stored depth key, stores `key` and `color` and returns true; otherwise
    /// leaves both buffers as they were and returns false.
    pub fn write_fragment(&mut self, x: u16, y: u16, key: u32, color: u32) -> (r: bool)
        requires
            old(self).wf(),
            x < old(self).spec_width(),
            y < old(self).spec_height(),
        ensures
            final(self).wf(),
            final(self).spec_width() == old(self).spec_width(),
            final(self).spec_height() == old(self).spec_height(),
            final(self).mode() == old(self).mode(),
            r == (key < cell_at(
                old(self).depths(),
                old(self).spec_width() as int,
                old(self).spec_height() as int,
                x as int,
                y as int,
            )),
            (final(self).depths(), final(self).colors()) == fragment_written(
                old(self).depths(),
                old(self).colors(),
                old(self).spec_width() as int,
                old(self).spec_height() as int,
                x as int,
                y as int,
                key,
                color,
            ),
    {
        let ghost w = self.spec_width() as int;
        let ghost h = self.spec_height() as int;
        proof {
            lemma_flip_index_bounds(w, h, x as int, y as int);
        }
        if key < self.db.get_pixel(x, y) {
            self.db.plot_pixel(x, y, key);
            self.cb.plot_pixel(x, y, color);
            true
        } else {
            assert(with_cell(old(self).depths(), w, h, x as int, y as int, cell_at(old(self).depths(), w, h, x as int, y as int)) =~= old(self).depths());
            assert(with_cell(old(self).colors(), w, h, x as int, y as int, cell_at(old(self).colors(), w, h, x as int, y as int)) =~= old(self).colors());
            false
        }
    }

    /// Writes `color` at (x, y) with no depth test, as the wireframe mode does.
    pub fn plot_color(&mut self, x: u16, y: u16, color: u32)
        requires
            old(self).wf(),
            x < old(self).spec_width(),
            y < old(self).spec_height(),
        ensures
            final(self).wf(),
            final(self).spec_width() == old(self).spec_width(),
            final(self).spec_height() == old(self).spec_height(),
            final(self).mode() == old(self).mode(),
            final(self).depths() == old(self).depths(),
            final(self).colors() == with_cell(
                old(self).colors(),
                old(self).spec_width() as int,
                old(self).spec_height() as int,
                x as int,
                y as int,
                color,
            ),
    {
        self.cb.plot_pixel(x, y, color);
    }
}

/// The triangles of an index buffer: each whole triple of consecutive
/// indices, in order; one or two trailing indices are ignored.
pub fn index_triples(ibo: &[u32]) -> (r: Vec<[usize; 3]>)
    ensures
        r@.len() == ibo@.len() / 3,
        forall|t: int|
            0 <= t < r@.len() ==> #[trigger] r@[t] == [
                ibo@[3 * t] as usize,
                ibo@[3 * t + 1] as usize,
                ibo@[3 * t + 2] as usize,
            ],
{
    let mut tris: Vec<[usize; 3]> = Vec::new();
    let count = ibo.len() / 3;
    let mut t: usize = 0;
    while t < count
        invariant
            count == ibo@.len() / 3,
            3 * count <= ibo@.len() <= usize::MAX,
            t <= count,
            tris@.len() == t,
            forall|k: int|
                0 <= k < t ==> #[trigger] tris@[k] == [
                    ibo@[3 * k] as usize,
                    ibo@[3 * k + 1] as usize,
                    ibo@[3 * k + 2] as usize,
                ],
        decreases count - t,
    {
        let i = 3 * t;
        tris.push([ibo[i] as usize, ibo[i + 1] as usize, ibo[i + 2] as usize]);
        t += 1;
    }
    tris
}

/// Two fragments with distinct depth keys leave the same depth and color
/// storage whichever is written first; so do two fragments at distinct
/// pixels. Two fragments at one pixel with one key that both pass the stored
/// depth and differ in color leave different colors in the two orders.
pub proof fn lemma_depth_test_order(
    depths: Seq<u32>,
    colors: Seq<u32>,
    width: int,
    height: int,
    x1: int,
    y1: int,
    key1: u32,
    color1: u32,
    x2: int,
    y2: int,
    key2: u32,
    color2: u32,
)
    requires
        depths.len() == width * height,
        colors.len() == width * height,
        0 <= x1 < width,
        0 <= y1 < height,
        0 <= x2 < width,
        0 <= y2 < height,
    ensures
        (key1 != key2 || x1 != x2 || y1 != y2) ==> {
            let a = fragment_written(depths, colors, width, height, x1, y1, key1, color1);
            let b = fragment_written(depths, colors, width, height, x2, y2, key2, color2);
            fragment_written(a.0, a.1, width, height, x2, y2, key2, color2) == fragment_written(
                b.0,
                b.1,
                width,
                height,
                x1,
                y1,
                key1,
                color1,
            )
        },
        (key1 == key2 && x1 == x2 && y1 == y2 && color1 != color2 && key1 < cell_at(
            depths,
            width,
            height,
            x1,
            y1,
        )) ==> {
            let a = fragment_written(depths, colors, width, height, x1, y1, key1, color1);
            let b = fragment_written(depths, colors, width, height, x2, y2, key2, color2);
            fragment_written(a.0, a.1, width, height, x2, y2, key2, color2).1 != fragment_written(
                b.0,
                b.1,
                width,
                height,
                x1,
                y1,
                key1,
                color1,
            ).1
        },
{
    let i1 = crate::fb::flip_index(width, height, x1, y1);
    let i2 = crate::fb::flip_index(width, height, x2, y2);
    lemma_flip_index_bounds(width, height, x1, y1);
    lemma_flip_index_bounds(width, height, x2, y2);
    let a = fragment_written(depths, colors, width, height, x1, y1, key1, color1);
    let b = fragment_written(depths, colors, width, height, x2, y2, key2, color2);
    let ab = fragment_written(a.0, a.1, width, height, x2, y2, key2, color2);
    let ba = fragment_written(b.0, b.1, width, height, x1, y1, key1, color1);
    if x1 != x2 || y1 != y2 {
        lemma_flip_index_injective(width, height, x1, y1, x2, y2);
        assert(ab.0 =~= ba.0);
        assert(ab.1 =~= ba.1);
    } else if key1 != key2 {
        assert(ab.0 =~= ba.0);
        assert(ab.1 =~= ba.1);
    } else if color1 != color2 && key1 < cell_at(depths, width, height, x1, y1) {
        assert(ab.1[i1] == color1);
        assert(ba.1[i1] == color2);
    }
}

} // verus!
