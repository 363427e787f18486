//! The tile scheduler: the tile grid of an image, the image buffer that the
//! finished tiles are copied into, and the progress protocol of a render.

use vstd::prelude::*;
use vstd::arithmetic::div_mod::*;
use vstd::arithmetic::mul::*;

verus! {

/// The parameters of one render. They do not change while it runs.
#[derive(Debug, Copy, Clone, PartialEq, Eq)]
pub struct RenderSettings {
    pub width: usize,
    pub height: usize,
    pub samples: usize,
    pub bounces: usize,
    pub tile_size: usize,
    pub denoise: bool,
}

/// Number of tiles of side `tile` that start inside an axis of `extent` pixels.
pub open spec fn tiles_along(extent: int, tile: int) -> int {
    if extent <= 0 {
        0
    } else {
        (extent - 1) / tile + 1
    }
}

/// Number of tiles that are dispatched for an image.
pub open spec fn tile_count(width: int, height: int, tile: int) -> int {
    tiles_along(width, tile) * tiles_along(height, tile)
}

/// Origin of the `k`-th dispatched tile. Tiles are dispatched column by
/// column, and from top to bottom within a column.
pub open spec fn tile_origin(k: int, height: int, tile: int) -> (int, int) {
    let rows = tiles_along(height, tile);
    ((k / rows) * tile, (k % rows) * tile)
}

/// Whether the square tile of side `tile` at `origin` holds the pixel `(x, y)`.
pub open spec fn tile_covers(origin: (int, int), tile: int, x: int, y: int) -> bool {
    &&& origin.0 <= x < origin.0 + tile
    &&& origin.1 <= y < origin.1 + tile
}

/// Dispatch index of the tile that the pixel `(x, y)` falls into.
pub open spec fn tile_of(x: int, y: int, height: int, tile: int) -> int {
    (x / tile) * tiles_along(height, tile) + y / tile
}

/// A quotient is pinned down by the multiples of the divisor around the dividend.
proof fn lemma_quotient_between(a: int, t: int, q: int)
    requires
        t > 0,
        q * t <= a < q * t + t,
    ensures
        a / t == q,
        a % t == a - q * t,
{
    lemma_fundamental_div_mod_converse(a, t, q, a - q * t);
}

/// The dividend lies between the multiples of the divisor around its quotient.
proof fn lemma_quotient_bounds(a: int, t: int)
    requires
        t > 0,
    ensures
        (a / t) * t <= a < (a / t) * t + t,
{
    lemma_fundamental_div_mod(a, t);
    lemma_mod_bound(a, t);
    lemma_mul_is_commutative(t, a / t);
}

/// A pixel coordinate inside the axis falls into one of the tiles along it.
proof fn lemma_tile_index_in_range(a: int, extent: int, t: int)
    requires
        t > 0,
        0 <= a < extent,
    ensures
        0 <= a / t < tiles_along(extent, t),
{
    lemma_div_is_ordered(a, extent - 1, t);
    lemma_div_pos_is_pos(a, t);
}

/// Splitting a dispatch index into column and row gives back both.
proof fn lemma_index_split(col: int, row: int, rows: int)
    requires
        0 <= row < rows,
    ensures
        (col * rows + row) / rows == col,
        (col * rows + row) % rows == row,
{
    lemma_fundamental_div_mod_converse(col * rows + row, rows, col, row);
}

/// Tile coverage: every pixel of the image lies in exactly one dispatched
/// tile, the one that `tile_of` names.
pub proof fn lemma_tile_coverage(width: int, height: int, tile: int, x: int, y: int)
    requires
        tile > 0,
        0 <= x < width,
        0 <= y < height,
    ensures
        0 <= tile_of(x, y, height, tile) < tile_count(width, height, tile),
        tile_covers(tile_origin(tile_of(x, y, height, tile), height, tile), tile, x, y),
        forall|k: int|
            0 <= k < tile_count(width, height, tile) && tile_covers(
                #[trigger] tile_origin(k, height, tile),
                tile,
                x,
                y,
            ) ==> k == tile_of(x, y, height, tile),
{
    let rows = tiles_along(height, tile);
    let cols = tiles_along(width, tile);
    let col = x / tile;
    let row = y / tile;
    lemma_tile_index_in_range(x, width, tile);
    lemma_tile_index_in_range(y, height, tile);
    lemma_index_split(col, row, rows);
    lemma_quotient_bounds(x, tile);
    lemma_quotient_bounds(y, tile);
    assert(col * rows + row < cols * rows) by (nonlinear_arith)
        requires
            0 <= col < cols,
            0 <= row < rows,
    ;
    assert(0 <= col * rows + row) by (nonlinear_arith)
        requires
            0 <= col,
            0 <= row,
            0 < rows,
    ;
    assert forall|k: int|
        0 <= k < tile_count(width, height, tile) && tile_covers(
            #[trigger] tile_origin(k, height, tile),
            tile,
            x,
            y,
        ) implies k == tile_of(x, y, height, tile) by {
        lemma_quotient_between(x, tile, k / rows);
        lemma_quotient_between(y, tile, k % rows);
        lemma_fundamental_div_mod(k, rows);
        lemma_mul_is_commutative(rows, k / rows);
    }
}

/// Every dispatched tile starts inside the image, so none is dispatched for
/// nothing.
pub proof fn lemma_tile_origin_in_image(width: int, height: int, tile: int, k: int)
    requires
        tile > 0,
        0 <= k < tile_count(width, height, tile),
    ensures
        0 <= tile_origin(k, height, tile).0 < width,
        0 <= tile_origin(k, height, tile).1 < height,
{
    let rows = tiles_along(height, tile);
    let cols = tiles_along(width, tile);
    assert(rows > 0 && cols > 0) by (nonlinear_arith)
        requires
            0 <= k < cols * rows,
            rows >= 0,
            cols >= 0,
    ;
    lemma_fundamental_div_mod(k, rows);
    lemma_mod_bound(k, rows);
    lemma_div_pos_is_pos(k, rows);
    let col = k / rows;
    let row = k % rows;
    assert(col < cols) by (nonlinear_arith)
        requires
            k == rows * col + row,
            0 <= row,
            k < cols * rows,
            rows > 0,
    ;
    lemma_quotient_bounds(width - 1, tile);
    lemma_quotient_bounds(height - 1, tile);
    assert(col * tile <= ((width - 1) / tile) * tile) by (nonlinear_arith)
        requires
            col <= (width - 1) / tile,
            tile > 0,
    ;
    assert(row * tile <= ((height - 1) / tile) * tile) by (nonlinear_arith)
        requires
            row <= (height - 1) / tile,
            tile > 0,
    ;
    assert(0 <= col * tile && 0 <= row * tile) by (nonlinear_arith)
        requires
            0 <= col,
            0 <= row,
            tile > 0,
    ;
}

/// The origins of the tiles of an image, in the order of their dispatch.
pub fn tile_origins(width: usize, height: usize, tile_size: usize) -> (tiles: Vec<(usize, usize)>)
    requires
        tile_size > 0,
    ensures
        tiles.len() == tile_count(width as int, height as int, tile_size as int),
        forall|k: int|
            0 <= k < tiles.len() ==> {
                &&& (#[trigger] tiles[k]).0 == tile_origin(k, height as int, tile_size as int).0
                &&& tiles[k].1 == tile_origin(k, height as int, tile_size as int).1
            },
{
    let ghost rows = tiles_along(height as int, tile_size as int);
    let ghost cols = tiles_along(width as int, tile_size as int);
    let ghost mut col: int = 0;
    let mut tiles: Vec<(usize, usize)> = Vec::new();
    let mut x: usize = 0;
    assert(0 * rows == 0) by (nonlinear_arith);
    while x < width
        invariant
            tile_size > 0,
            rows == tiles_along(height as int, tile_size as int),
            cols == tiles_along(width as int, tile_size as int),
            0 <= col <= cols,
            x < width ==> x == col * tile_size,
            x >= width ==> col == cols,
            tiles.len() == col * rows,
            forall|k: int|
                0 <= k < tiles.len() ==> {
                    &&& (#[trigger] tiles[k]).0 == tile_origin(k, height as int, tile_size as int).0
                    &&& tiles[k].1 == tile_origin(k, height as int, tile_size as int).1
                },
        decreases width - x,
    {
        let ghost mut row: int = 0;
        let mut y: usize = 0;
        proof {
            lemma_quotient_between(x as int, tile_size as int, col);
            lemma_tile_index_in_range(x as int, width as int, tile_size as int);
            assert(0 * tile_size == 0) by (nonlinear_arith);
        }
        while y < height
            invariant
                tile_size > 0,
                rows == tiles_along(height as int, tile_size as int),
                0 <= col < cols,
                x == col * tile_size,
                0 <= row <= rows,
                y < height ==> y == row * tile_size,
                y >= height ==> row == rows,
                tiles.len() == col * rows + row,
                forall|k: int|
                    0 <= k < tiles.len() ==> {
                        &&& (#[trigger] tiles[k]).0 == tile_origin(
                            k,
                            height as int,
                            tile_size as int,
                        ).0
                        &&& tiles[k].1 == tile_origin(k, height as int, tile_size as int).1
                    },
            decreases height - y,
        {
            proof {
                lemma_quotient_between(y as int, tile_size as int, row);
                lemma_tile_index_in_range(y as int, height as int, tile_size as int);
                lemma_index_split(col, row, rows);
                lemma_quotient_bounds(height as int - 1, tile_size as int);
            }
            tiles.push((x, y));
            if height - y <= tile_size {
                proof {
                    lemma_quotient_between(height as int - 1, tile_size as int, row);
                }
                y = height;
            } else {
                assert((row + 1) * tile_size == row * tile_size + tile_size) by (nonlinear_arith);
                y = y + tile_size;
            }
            proof {
                row = row + 1;
            }
        }
        proof {
            lemma_quotient_bounds(width as int - 1, tile_size as int);
            assert((col + 1) * rows == col * rows + rows) by (nonlinear_arith);
        }
        if width - x <= tile_size {
            proof {
                lemma_quotient_between(width as int - 1, tile_size as int, col);
            }
            x = width;
        } else {
            assert((col + 1) * tile_size == col * tile_size + tile_size) by (nonlinear_arith);
            x = x + tile_size;
        }
        proof {
            col = col + 1;
        }
    }
    tiles
}

/// One finished tile: where it starts, its side, and its pixels row by row.
/// A tile at the right or bottom edge may reach past the image.
pub struct Tile<P> {
    pub x: usize,
    pub y: usize,
    pub size: usize,
    pub pixels: Vec<P>,
}

/// Place of the pixel `(tx, ty)` of a tile in its row-major buffer.
pub open spec fn tile_index(tx: int, ty: int, size: int) -> int {
    ty * size + tx
}

/// A row-major place inside a buffer of `rows` rows is a valid index.
proof fn lemma_row_major_in_range(col: int, row: int, cols: int, rows: int)
    requires
        0 <= col < cols,
        0 <= row < rows,
    ensures
        0 <= row * cols <= row * cols + col < rows * cols,
{
    assert(0 <= row * cols <= row * cols + col < rows * cols) by (nonlinear_arith)
        requires
            0 <= col < cols,
            0 <= row < rows,
    ;
}

impl<P: Copy> Tile<P> {
    /// The buffer holds one pixel for each place of the square.
    pub open spec fn wf(&self) -> bool {
        self.pixels.len() == self.size * self.size
    }

    /// A tile at `(x, y)` with every pixel set to `fill`.
    pub fn new(x: usize, y: usize, size: usize, fill: P) -> (tile: Self)
        requires
            size * size <= usize::MAX,
        ensures
            tile.wf(),
            tile.x == x,
            tile.y == y,
            tile.size == size,
            forall|i: int| 0 <= i < tile.pixels.len() ==> tile.pixels[i] == fill,
    {
        let count = size * size;
        let mut pixels: Vec<P> = Vec::new();
        while pixels.len() < count
            invariant
                pixels.len() <= count,
                forall|i: int| 0 <= i < pixels.len() ==> pixels[i] == fill,
            decreases count - pixels.len(),
        {
            pixels.push(fill);
        }
        Tile { x, y, size, pixels }
    }

    /// Sets the pixel `(tx, ty)` of the tile.
    pub fn set(&mut self, tx: usize, ty: usize, pixel: P)
        requires
            old(self).wf(),
            tx < old(self).size,
            ty < old(self).size,
        ensures
            final(self).wf(),
            final(self).x == old(self).x,
            final(self).y == old(self).y,
            final(self).size == old(self).size,
            final(self).pixels@ == old(self).pixels@.update(
                tile_index(tx as int, ty as int, old(self).size as int),
                pixel,
            ),
    {
        proof {
            lemma_row_major_in_range(tx as int, ty as int, self.size as int, self.size as int);
        }
        let index = ty * self.size + tx;
        self.pixels.set(index, pixel);
    }

    /// The pixel `(tx, ty)` of the tile.
    pub fn get(&self, tx: usize, ty: usize) -> (pixel: P)
        requires
            self.wf(),
            tx < self.size,
            ty < self.size,
        ensures
            pixel == self.pixels[tile_index(tx as int, ty as int, self.size as int)],
    {
        proof {
            lemma_row_major_in_range(tx as int, ty as int, self.size as int, self.size as int);
        }
        self.pixels[ty * self.size + tx]
    }
}

/// What a render reports to whoever drives it.
#[derive(Debug, PartialEq)]
pub enum RenderMessages<P> {
    /// A render of the given width and height begins.
    StartRender(usize, usize),
    /// The tile at `(x, y)` of the given side is finished; its pixels follow.
    UpdateRender(usize, usize, usize, Vec<P>),
    /// The render of the given width and height is over. A buffer is sent
    /// only where it differs from what the updates have shown.
    FinishRender(usize, usize, Option<Vec<P>>),
}

/// Column of the `i`-th pixel of a row-major image of the given width.
pub open spec fn column_of(i: int, width: int) -> int {
    i % width
}

/// Row of the `i`-th pixel of a row-major image of the given width.
pub open spec fn row_of(i: int, width: int) -> int {
    i / width
}

/// A pixel of a row-major image lies in one of its rows and columns, and its
/// index is made of the two.
proof fn lemma_pixel_place(i: int, width: int, height: int)
    requires
        0 <= i < width * height,
        0 <= width,
        0 <= height,
    ensures
        0 <= column_of(i, width) < width,
        0 <= row_of(i, width) < height,
        i == row_of(i, width) * width + column_of(i, width),
{
    assert(width > 0) by (nonlinear_arith)
        requires
            0 <= i < width * height,
            0 <= width,
            0 <= height,
    ;
    lemma_fundamental_div_mod(i, width);
    lemma_mod_bound(i, width);
    lemma_mul_is_commutative(width, i / width);
    lemma_div_pos_is_pos(i, width);
    assert(i / width < height) by (nonlinear_arith)
        requires
            i == (i / width) * width + i % width,
            0 <= i % width,
            i < width * height,
            width > 0,
    ;
}

/// The image after a tile's pixels have been copied in. Pixels of the tile
/// that fall outside the image are dropped.
pub open spec fn blit<P>(
    image: Seq<P>,
    width: int,
    x: int,
    y: int,
    size: int,
    pixels: Seq<P>,
) -> Seq<P> {
    Seq::new(
        image.len(),
        |i: int|
            if tile_covers((x, y), size, column_of(i, width), row_of(i, width)) {
                pixels[tile_index(column_of(i, width) - x, row_of(i, width) - y, size)]
            } else {
                image[i]
            },
    )
}

/// The image while a tile is being copied in: the tile's columns before `tx`
/// are done, and of column `tx` the rows before `ty`.
spec fn blit_partial<P>(
    image: Seq<P>,
    width: int,
    x: int,
    y: int,
    size: int,
    pixels: Seq<P>,
    tx: int,
    ty: int,
) -> Seq<P> {
    Seq::new(
        image.len(),
        |i: int|
            if tile_covers((x, y), size, column_of(i, width), row_of(i, width)) && (column_of(
                i,
                width,
            ) - x < tx || (column_of(i, width) - x == tx && row_of(i, width) - y < ty)) {
                pixels[tile_index(column_of(i, width) - x, row_of(i, width) - y, size)]
            } else {
                image[i]
            },
    )
}

/// Writing the next pixel of a tile carries the copy one place on.
proof fn lemma_blit_step<P>(
    image: Seq<P>,
    width: int,
    height: int,
    x: int,
    y: int,
    size: int,
    pixels: Seq<P>,
    tx: int,
    ty: int,
    current: Seq<P>,
    after: Seq<P>,
)
    requires
        0 <= width,
        0 <= height,
        image.len() == width * height,
        0 <= x,
        0 <= y,
        0 <= tx < size,
        0 <= ty < size,
        current == blit_partial(image, width, x, y, size, pixels, tx, ty),
        after == (if x + tx < width && y + ty < height {
            current.update((y + ty) * width + (x + tx), pixels[tile_index(tx, ty, size)])
        } else {
            current
        }),
    ensures
        after == blit_partial(image, width, x, y, size, pixels, tx, ty + 1),
{
    let px = x + tx;
    let py = y + ty;
    let next = blit_partial(image, width, x, y, size, pixels, tx, ty + 1);
    if px < width && py < height {
        lemma_index_split(py, px, width);
        lemma_row_major_in_range(px, py, width, height);
        lemma_mul_is_commutative(width, height);
    }
    assert forall|i: int| 0 <= i < image.len() implies after[i] == next[i] by {
        lemma_pixel_place(i, width, height);
        if px < width && py < height && i != py * width + px {
            assert(after[i] == current[i]);
        }
    }
    assert(after =~= next);
}

/// The scheduler of one render: it names the tiles to dispatch, copies each
/// finished tile into the image, and counts them to know when the render is
/// complete.
pub struct PathTracer<P> {
    render_settings: RenderSettings,
    image: Vec<P>,
    num_threads: usize,
    created: usize,
    finished: usize,
}

impl<P: Copy> PathTracer<P> {
    /// The settings of the render.
    pub closed spec fn settings(&self) -> RenderSettings {
        self.render_settings
    }

    /// The image, row by row.
    pub closed spec fn pixels(&self) -> Seq<P> {
        self.image@
    }

    /// Number of worker threads asked for.
    pub closed spec fn threads(&self) -> usize {
        self.num_threads
    }

    /// Number of tiles dispatched by the last `start`.
    pub closed spec fn tiles_created(&self) -> int {
        self.created as int
    }

    /// Number of tiles accepted since the last `start`.
    pub closed spec fn tiles_finished(&self) -> int {
        self.finished as int
    }

    /// No more tiles are finished than were dispatched, and while tiles are
    /// out the image has one pixel for each place.
    pub open spec fn wf(&self) -> bool {
        &&& 0 <= self.tiles_finished() <= self.tiles_created()
        &&& self.tiles_created() > 0 ==> {
            &&& self.settings().tile_size > 0
            &&& self.pixels().len() == self.settings().width * self.settings().height
            &&& self.tiles_created() == tile_count(
                self.settings().width as int,
                self.settings().height as int,
                self.settings().tile_size as int,
            )
        }
    }

    /// A scheduler that has dispatched nothing yet; its image is empty.
    pub fn new(render_settings: RenderSettings, num_threads: usize) -> (tracer: Self)
        ensures
            tracer.wf(),
            tracer.settings() == render_settings,
            tracer.threads() == num_threads,
            tracer.pixels() == Seq::<P>::empty(),
            tracer.tiles_created() == 0,
            tracer.tiles_finished() == 0,
    {
        PathTracer { render_settings, image: Vec::new(), num_threads, created: 0, finished: 0 }
    }

    /// The settings of the render.
    pub fn render_settings(&self) -> (settings: RenderSettings)
        ensures
            settings == self.settings(),
    {
        self.render_settings
    }

    /// Number of worker threads asked for.
    pub fn num_threads(&self) -> (n: usize)
        ensures
            n == self.threads(),
    {
        self.num_threads
    }

    /// The image, row by row.
    pub fn image(&self) -> (image: &Vec<P>)
        ensures
            image@ == self.pixels(),
    {
        &self.image
    }

    /// Whether every dispatched tile has been accepted.
    pub fn is_done(&self) -> (done: bool)
        ensures
            done == (self.tiles_finished() == self.tiles_created()),
    {
        self.finished == self.created
    }

    /// Writes one pixel of the image. A place outside the image is left alone.
    pub fn set_pixel(&mut self, x: usize, y: usize, pixel: P)
        requires
            old(self).pixels().len() == old(self).settings().width * old(self).settings().height,
        ensures
            final(self).settings() == old(self).settings(),
            final(self).threads() == old(self).threads(),
            final(self).tiles_created() == old(self).tiles_created(),
            final(self).tiles_finished() == old(self).tiles_finished(),
            final(self).pixels().len() == old(self).pixels().len(),
            final(self).pixels() == if x < old(self).settings().width && y < old(
                self,
            ).settings().height {
                old(self).pixels().update(y * old(self).settings().width + x, pixel)
            } else {
                old(self).pixels()
            },
    {
        if x < self.render_settings.width && y < self.render_settings.height {
            proof {
                lemma_row_major_in_range(
                    x as int,
                    y as int,
                    self.render_settings.width as int,
                    self.render_settings.height as int,
                );
                lemma_mul_is_commutative(
                    self.render_settings.width as int,
                    self.render_settings.height as int,
                );
                assert(y * self.render_settings.width + x < self.image.len());
            }
            let index = y * self.render_settings.width + x;
            self.image.set(index, pixel);
        }
    }
}

impl<P: Copy> PathTracer<P> {
    /// Begins a render: the image is brought to one pixel for each place,
    /// new places holding `background`, and the tiles to dispatch are
    /// returned in their order of dispatch.
    pub fn start(&mut self, background: P) -> (tiles: Vec<(usize, usize)>)
        requires
            old(self).settings().tile_size > 0,
            old(self).settings().width * old(self).settings().height <= usize::MAX,
        ensures
            final(self).wf(),
            final(self).settings() == old(self).settings(),
            final(self).threads() == old(self).threads(),
            final(self).tiles_finished() == 0,
            final(self).tiles_created() == tile_count(
                old(self).settings().width as int,
                old(self).settings().height as int,
                old(self).settings().tile_size as int,
            ),
            final(self).pixels().len() == old(self).settings().width * old(
                self,
            ).settings().height,
            forall|i: int|
                0 <= i < final(self).pixels().len() ==> #[trigger] final(self).pixels()[i] == (if i
                    < old(self).pixels().len() {
                    old(self).pixels()[i]
                } else {
                    background
                }),
            tiles.len() == final(self).tiles_created(),
            forall|k: int|
                0 <= k < tiles.len() ==> {
                    &&& (#[trigger] tiles[k]).0 == tile_origin(
                        k,
                        old(self).settings().height as int,
                        old(self).settings().tile_size as int,
                    ).0
                    &&& tiles[k].1 == tile_origin(
                        k,
                        old(self).settings().height as int,
                        old(self).settings().tile_size as int,
                    ).1
                },
    {
        let count = self.render_settings.width * self.render_settings.height;
        self.image.truncate(count);
        while self.image.len() < count
            invariant
                self.render_settings == old(self).render_settings,
                self.num_threads == old(self).num_threads,
                self.image.len() <= count,
                forall|i: int|
                    0 <= i < self.image.len() ==> #[trigger] self.image[i] == (if i < old(
                        self,
                    ).image.len() {
                        old(self).image[i]
                    } else {
                        background
                    }),
                old(self).image.len() <= count ==> self.image.len() >= old(self).image.len(),
                old(self).image.len() > count ==> self.image.len() == count,
            decreases count - self.image.len(),
        {
            self.image.push(background);
        }
        let tiles = tile_origins(
            self.render_settings.width,
            self.render_settings.height,
            self.render_settings.tile_size,
        );
        self.created = tiles.len();
        self.finished = 0;
        tiles
    }

    /// Takes a finished tile: copies its pixels into the image, counts it,
    /// and returns the update to report together with whether the render is
    /// now complete.
    pub fn accept_tile(&mut self, tile: Tile<P>) -> (out: (RenderMessages<P>, bool))
        requires
            old(self).wf(),
            old(self).tiles_finished() < old(self).tiles_created(),
            tile.wf(),
            tile.size == old(self).settings().tile_size,
        ensures
            final(self).wf(),
            final(self).settings() == old(self).settings(),
            final(self).threads() == old(self).threads(),
            final(self).tiles_created() == old(self).tiles_created(),
            final(self).tiles_finished() == old(self).tiles_finished() + 1,
            final(self).pixels() == blit(
                old(self).pixels(),
                old(self).settings().width as int,
                tile.x as int,
                tile.y as int,
                tile.size as int,
                tile.pixels@,
            ),
            out.0 matches RenderMessages::UpdateRender(x, y, size, pixels) && x == tile.x && y
                == tile.y && size == tile.size && pixels@ == tile.pixels@,
            out.1 == (final(self).tiles_finished() == final(self).tiles_created()),
    {
        let size = tile.size;
        let ghost before = self.image@;
        let ghost width = self.render_settings.width as int;
        let mut tx: usize = 0;
        assert(self.image@ =~= blit_partial(
            before,
            width,
            tile.x as int,
            tile.y as int,
            size as int,
            tile.pixels@,
            0,
            0,
        ));
        while tx < size
            invariant
                tx <= size,
                size == tile.size,
                tile.wf(),
                self.render_settings == old(self).render_settings,
                self.num_threads == old(self).num_threads,
                self.created == old(self).created,
                self.finished == old(self).finished,
                width == self.render_settings.width as int,
                self.image.len() == self.render_settings.width * self.render_settings.height,
                before == old(self).image@,
                self.image@ == blit_partial(
                    before,
                    width,
                    tile.x as int,
                    tile.y as int,
                    size as int,
                    tile.pixels@,
                    tx as int,
                    0,
                ),
            decreases size - tx,
        {
            let mut ty: usize = 0;
            while ty < size
                invariant
                    tx < size,
                    ty <= size,
                    size == tile.size,
                    tile.wf(),
                    self.render_settings == old(self).render_settings,
                    self.num_threads == old(self).num_threads,
                    self.created == old(self).created,
                    self.finished == old(self).finished,
                    width == self.render_settings.width as int,
                    self.image.len() == self.render_settings.width * self.render_settings.height,
                    before == old(self).image@,
                    self.image@ == blit_partial(
                        before,
                        width,
                        tile.x as int,
                        tile.y as int,
                        size as int,
                        tile.pixels@,
                        tx as int,
                        ty as int,
                    ),
                decreases size - ty,
            {
                proof {
                    lemma_row_major_in_range(tx as int, ty as int, size as int, size as int);
                }
                let pixel = tile.pixels[ty * size + tx];
                let ghost current = self.image@;
                let px = tile.x.checked_add(tx);
                let py = tile.y.checked_add(ty);
                if px.is_some() && py.is_some() {
                    self.set_pixel(px.unwrap(), py.unwrap(), pixel);
                }
                proof {
                    lemma_blit_step(
                        before,
                        width,
                        self.render_settings.height as int,
                        tile.x as int,
                        tile.y as int,
                        size as int,
                        tile.pixels@,
                        tx as int,
                        ty as int,
                        current,
                        self.image@,
                    );
                }
                ty = ty + 1;
            }
            assert(self.image@ =~= blit_partial(
                before,
                width,
                tile.x as int,
                tile.y as int,
                size as int,
                tile.pixels@,
                tx as int + 1,
                0,
            ));
            tx = tx + 1;
        }
        assert(self.image@ =~= blit(
            before,
            width,
            tile.x as int,
            tile.y as int,
            size as int,
            tile.pixels@,
        ));
        self.finished = self.finished + 1;
        let done = self.finished == self.created;
        (RenderMessages::UpdateRender(tile.x, tile.y, size, tile.pixels), done)
    }
}

/// A copy of a pixel buffer.
fn copy_pixels<P: Copy>(pixels: &Vec<P>) -> (copy: Vec<P>)
    ensures
        copy@ == pixels@,
{
    let mut copy: Vec<P> = Vec::new();
    let mut i: usize = 0;
    while i < pixels.len()
        invariant
            i <= pixels.len(),
            copy@ == pixels@.take(i as int),
        decreases pixels.len() - i,
    {
        copy.push(pixels[i]);
        i = i + 1;
    }
    copy
}

impl<P: Copy> PathTracer<P> {
    /// Whether the finished image is replaced by `denoised`: denoising was
    /// asked for, and the denoiser handed back a buffer of the image's size.
    pub open spec fn takes_denoised(&self, denoised: Option<Vec<P>>) -> bool {
        &&& self.settings().denoise
        &&& denoised is Some
        &&& denoised->0.len() == self.pixels().len()
    }

    /// Ends a render once every tile has been accepted. `denoised` is what
    /// the denoiser made of the image, or `None` where it was not run or
    /// failed. Where it is taken, it becomes the image and is sent along;
    /// otherwise the image stays as the updates have shown it and no buffer
    /// is sent.
    pub fn finish(&mut self, denoised: Option<Vec<P>>) -> (message: RenderMessages<P>)
        requires
            old(self).wf(),
            old(self).tiles_finished() == old(self).tiles_created(),
        ensures
            final(self).wf(),
            final(self).settings() == old(self).settings(),
            final(self).threads() == old(self).threads(),
            final(self).tiles_created() == old(self).tiles_created(),
            final(self).tiles_finished() == old(self).tiles_finished(),
            message matches RenderMessages::FinishRender(width, height, sent) && width == old(
                self,
            ).settings().width && height == old(self).settings().height && (if old(
                self,
            ).takes_denoised(denoised) {
                sent is Some && sent->0@ == denoised->0@ && final(self).pixels() == denoised->0@
            } else {
                sent is None && final(self).pixels() == old(self).pixels()
            }),
    {
        let width = self.render_settings.width;
        let height = self.render_settings.height;
        if self.render_settings.denoise {
            if let Some(buffer) = denoised {
                if buffer.len() == self.image.len() {
                    let sent = copy_pixels(&buffer);
                    self.image = buffer;
                    return RenderMessages::FinishRender(width, height, Some(sent));
                }
            }
        }
        RenderMessages::FinishRender(width, height, None)
    }
}

/// The order in which finished tiles arrive does not show in the image: two
/// different tiles of the grid can be copied in either order.
pub proof fn lemma_tile_order_irrelevant<P>(
    image: Seq<P>,
    width: int,
    height: int,
    tile: int,
    j: int,
    k: int,
    pixels_j: Seq<P>,
    pixels_k: Seq<P>,
)
    requires
        tile > 0,
        0 <= width,
        0 <= height,
        image.len() == width * height,
        0 <= j < tile_count(width, height, tile),
        0 <= k < tile_count(width, height, tile),
        j != k,
    ensures
        blit(
            blit(
                image,
                width,
                tile_origin(j, height, tile).0,
                tile_origin(j, height, tile).1,
                tile,
                pixels_j,
            ),
            width,
            tile_origin(k, height, tile).0,
            tile_origin(k, height, tile).1,
            tile,
            pixels_k,
        ) == blit(
            blit(
                image,
                width,
                tile_origin(k, height, tile).0,
                tile_origin(k, height, tile).1,
                tile,
                pixels_k,
            ),
            width,
            tile_origin(j, height, tile).0,
            tile_origin(j, height, tile).1,
            tile,
            pixels_j,
        ),
{
    let oj = tile_origin(j, height, tile);
    let ok = tile_origin(k, height, tile);
    let first_j = blit(image, width, oj.0, oj.1, tile, pixels_j);
    let first_k = blit(image, width, ok.0, ok.1, tile, pixels_k);
    let jk = blit(first_j, width, ok.0, ok.1, tile, pixels_k);
    let kj = blit(first_k, width, oj.0, oj.1, tile, pixels_j);
    assert forall|i: int| 0 <= i < image.len() implies jk[i] == kj[i] by {
        lemma_pixel_place(i, width, height);
        lemma_tile_coverage(width, height, tile, column_of(i, width), row_of(i, width));
        assert(!(tile_covers(oj, tile, column_of(i, width), row_of(i, width)) && tile_covers(
            ok,
            tile,
            column_of(i, width),
            row_of(i, width),
        )));
    }
    assert(jk =~= kj);
}

/// A finished tile as it arrives: its place in the order of dispatch, and
/// its pixels.
pub struct Arrival<P> {
    pub tile: int,
    pub pixels: Seq<P>,
}

/// The image after the tiles of `arrivals` have been copied in, in the order
/// in which they stand there.
pub open spec fn assembled<P>(
    image: Seq<P>,
    width: int,
    height: int,
    tile: int,
    arrivals: Seq<Arrival<P>>,
) -> Seq<P>
    decreases arrivals.len(),
{
    if arrivals.len() == 0 {
        image
    } else {
        blit(
            assembled(image, width, height, tile, arrivals.drop_last()),
            width,
            tile_origin(arrivals.last().tile, height, tile).0,
            tile_origin(arrivals.last().tile, height, tile).1,
            tile,
            arrivals.last().pixels,
        )
    }
}

/// A pixel of the assembled image is the pixel of its tile, whatever the
/// order in which the tiles have arrived: where the tile of the pixel
/// `(x, y)` has arrived once, as the `j`-th, the image holds at `(x, y)`
/// what that tile holds for it.
pub proof fn lemma_assembled_pixel<P>(
    image: Seq<P>,
    width: int,
    height: int,
    tile: int,
    arrivals: Seq<Arrival<P>>,
    x: int,
    y: int,
    j: int,
)
    requires
        tile > 0,
        0 <= x < width,
        0 <= y < height,
        image.len() == width * height,
        forall|k: int|
            0 <= k < arrivals.len() ==> 0 <= (#[trigger] arrivals[k]).tile < tile_count(
                width,
                height,
                tile,
            ),
        0 <= j < arrivals.len(),
        arrivals[j].tile == tile_of(x, y, height, tile),
        forall|k: int|
            0 <= k < arrivals.len() && k != j ==> (#[trigger] arrivals[k]).tile != arrivals[j].tile,
    ensures
        assembled(image, width, height, tile, arrivals).len() == image.len(),
        assembled(image, width, height, tile, arrivals)[y * width + x]
            == arrivals[j].pixels[tile_index(
            x - tile_origin(arrivals[j].tile, height, tile).0,
            y - tile_origin(arrivals[j].tile, height, tile).1,
            tile,
        )],
    decreases arrivals.len(),
{
    let rest = arrivals.drop_last();
    let place = y * width + x;
    lemma_tile_coverage(width, height, tile, x, y);
    lemma_index_split(y, x, width);
    lemma_row_major_in_range(x, y, width, height);
    lemma_mul_is_commutative(width, height);
    lemma_assembled_len(image, width, height, tile, rest);
    if j < arrivals.len() - 1 {
        assert forall|k: int| 0 <= k < rest.len() implies 0 <= (#[trigger] rest[k]).tile
            < tile_count(width, height, tile) by {
            assert(rest[k] == arrivals[k]);
        }
        assert forall|k: int| 0 <= k < rest.len() && k != j implies (#[trigger] rest[k]).tile
            != rest[j].tile by {
            assert(rest[k] == arrivals[k]);
        }
        lemma_assembled_pixel(image, width, height, tile, rest, x, y, j);
        assert(arrivals.last().tile != arrivals[j].tile);
    }
}

/// Copying tiles in leaves the image its size.
proof fn lemma_assembled_len<P>(
    image: Seq<P>,
    width: int,
    height: int,
    tile: int,
    arrivals: Seq<Arrival<P>>,
)
    ensures
        assembled(image, width, height, tile, arrivals).len() == image.len(),
    decreases arrivals.len(),
{
    if arrivals.len() > 0 {
        lemma_assembled_len(image, width, height, tile, arrivals.drop_last());
    }
}

} // verus!
