//! The camera: its configuration, what is derived from it, and how a
//! sample's path through the scene ends.

use vstd::prelude::*;
use vstd::arithmetic::div_mod::lemma_fundamental_div_mod_converse;
use crate::colour::{header, pixel_lines, write_colour, write_header};
use crate::interval::Interval;
use crate::material::Colour;
use crate::scalar::{Scalar, INFINITY_BITS, ONE_BITS};
use crate::vector3::{vector_of, Point3, Vector3};

verus! {

/// The pattern of ninety, the default vertical field of view in degrees.
pub const NINETY_BITS: u64 = 0x4056_8000_0000_0000;

/// The pattern of minus one: a new camera looks at the point one unit down
/// the negative z axis.
pub const AHEAD_BITS: u64 = 0xbff0_0000_0000_0000;

/// The pattern of the smallest ray parameter at which a hit counts: the
/// binary64 value nearest to one thousandth. Nearer hits are the surface
/// that the ray has just left.
pub const SHADOW_ACNE_BITS: u64 = 0x3f50_624d_d2f1_a9fc;

/// Where a camera stands between its configuration and an image.
#[derive(Clone, Copy, Debug, PartialEq, Eq, Structural)]
pub enum CameraState {
    /// The derived fields say nothing yet.
    Unconfigured,
    /// The derived fields fit the configuration.
    Initialised,
    /// An image was made; another one needs the camera initialised again.
    Rendering,
}

/// What is derived from a camera's configuration by arithmetic: the
/// orthonormal basis of its frame, the place of the first pixel and the
/// steps from pixel to pixel.
#[derive(Clone, Copy, Debug, PartialEq, Eq, Structural)]
pub struct Frame {
    pub u: Vector3,
    pub v: Vector3,
    pub w: Vector3,
    pub pixel00_loc: Point3,
    pub pixel_delta_u: Vector3,
    pub pixel_delta_v: Vector3,
}

/// The part of a camera's configuration that its derived fields depend on.
#[derive(Clone, Copy, Debug, PartialEq, Eq, Structural)]
pub struct Setting {
    pub aspect_ratio: Scalar,
    pub image_width: i32,
    pub vfov: Scalar,
    pub lookfrom: Point3,
    pub lookat: Point3,
    pub vup: Vector3,
}

#[derive(Clone, Copy, Debug, PartialEq, Eq, Structural)]
pub struct Camera {
    /// Ratio of image width over height.
    pub aspect_ratio: Scalar,
    /// Rendered image width in pixels.
    pub image_width: i32,
    /// Count of random samples for each pixel.
    pub samples_per_pixel: i32,
    /// Maximum number of ray bounces into the scene.
    pub max_depth: i32,
    /// Vertical field of view, in degrees.
    pub vfov: Scalar,
    pub lookfrom: Point3,
    pub lookat: Point3,
    /// The camera's "up" direction.
    pub vup: Vector3,
    /// Carried with the configuration; the library decides nothing by it.
    pub brightness: Scalar,
    /// Rendered image height in pixels.
    pub image_height: i32,
    pub centre: Point3,
    pub frame: Frame,
    /// The configuration that the derived fields were derived from.
    pub derived_for: Setting,
    pub state: CameraState,
}

/// The number of columns or rows that a size makes: none where the size is
/// negative.
pub open spec fn extent(size: int) -> int {
    if size < 0 {
        0
    } else {
        size
    }
}

/// The colours of the first `width` pixels of row `j`, from the left.
pub open spec fn row(shades: spec_fn(int, int) -> Colour, width: int, j: int) -> Seq<Colour> {
    Seq::new(extent(width) as nat, |i: int| shades(i, j))
}

/// The colours of the first `rows` rows of an image, from the top, each row
/// from the left.
pub open spec fn raster(shades: spec_fn(int, int) -> Colour, width: int, rows: int) -> Seq<Colour>
    decreases rows,
{
    if rows <= 0 {
        Seq::empty()
    } else {
        raster(shades, width, rows - 1) + row(shades, width, rows - 1)
    }
}

/// What the scene did to the ray in flight.
#[derive(Clone, Copy, Debug, PartialEq, Eq, Structural)]
pub enum Bounce {
    /// The ray hit nothing.
    Miss,
    /// The ray hit a surface that did not scatter it.
    Absorbed,
    /// The ray hit a surface that scattered it: the scattered ray is now in
    /// flight.
    Scattered,
}

/// What is to be done about a path.
#[derive(Clone, Copy, Debug, PartialEq, Eq, Structural)]
pub enum Verdict {
    /// Cast the ray in flight into the scene and report what became of it.
    Trace,
    /// The path ends in the background: its light is the background's along
    /// the ray in flight, attenuated by every surface that scattered it.
    Background,
    /// The path ends in darkness.
    Black,
}

/// The path of one sample through the scene: how many more rays may be cast
/// along it, and whether it has ended.
#[derive(Clone, Copy, Debug, PartialEq, Eq, Structural)]
pub struct Path {
    pub depth: i32,
    pub verdict: Verdict,
}

impl Path {
    /// A path that may cast `depth` rays: it ends in darkness at once where
    /// that is none.
    pub open spec fn begun(depth: i32) -> Path {
        Path { depth, verdict: if depth <= 0 { Verdict::Black } else { Verdict::Trace } }
    }

    /// Whether the path is still going: a ray is to be cast and may be.
    pub open spec fn going(self) -> bool {
        self.verdict == Verdict::Trace && self.depth > 0
    }

    /// The path after the ray in flight met `bounce`. A miss ends it in the
    /// background and an absorption in darkness. A scattering uses up one
    /// ray; the path goes on if another may be cast and ends in darkness if
    /// not. A path that has ended stays as it is.
    pub open spec fn after(self, bounce: Bounce) -> Path {
        if !self.going() {
            self
        } else {
            match bounce {
                Bounce::Miss => Path { verdict: Verdict::Background, ..self },
                Bounce::Absorbed => Path { verdict: Verdict::Black, ..self },
                Bounce::Scattered => Path::begun((self.depth - 1) as i32),
            }
        }
    }

    /// The path after a sequence of bounces.
    pub open spec fn after_all(self, bounces: Seq<Bounce>) -> Path
        decreases bounces.len(),
    {
        if bounces.len() == 0 {
            self
        } else {
            self.after_all(bounces.drop_last()).after(bounces.last())
        }
    }

    /// How many rays a path casts over a sequence of bounces: one for each
    /// bounce that finds the path still going.
    pub open spec fn rays_cast(self, bounces: Seq<Bounce>) -> nat
        decreases bounces.len(),
    {
        if bounces.len() == 0 {
            0
        } else {
            let before = self.after_all(bounces.drop_last());
            self.rays_cast(bounces.drop_last()) + if before.going() {
                1nat
            } else {
                0nat
            }
        }
    }

    /// The path is as `begun` or `after` left it.
    pub open spec fn well_formed(self) -> bool {
        self.verdict == Verdict::Trace ==> self.depth > 0
    }

    /// Where the path ends when the ray cast at each remaining depth meets
    /// what `told` gives for that depth.
    pub open spec fn followed(self, told: spec_fn(int) -> Bounce) -> Path
        decreases
            (if self.going() {
                self.depth as int
            } else {
                0
            }),
    {
        if self.going() {
            self.after(told(self.depth as int)).followed(told)
        } else {
            self
        }
    }

    /// Whether `told` says what `step` returns.
    pub open spec fn tells<F: Fn(i32) -> Bounce>(step: F, told: spec_fn(int) -> Bounce) -> bool {
        forall|depth: i32, bounce: Bounce|
            call_ensures(step, (depth,), bounce) ==> bounce == told(depth as int)
    }

    /// Whether `step` may have said, at the depth `d`, that the ray was
    /// scattered.
    pub open spec fn scattered_at<F: Fn(i32) -> Bounce>(step: F, d: i32) -> bool {
        call_ensures(step, (d,), Bounce::Scattered)
    }

    /// Whether a path that is followed with `step` may end in `end`. A path
    /// that is not going ends as it is. One that is going casts its rays at
    /// its depth and at each depth below it down to a last one: at every
    /// depth above the last the ray was scattered; at the last it missed,
    /// which ends the path in the background, or was absorbed, or was
    /// scattered at depth one, which both end it in darkness.
    pub open spec fn may_end<F: Fn(i32) -> Bounce>(self, step: F, end: Verdict) -> bool {
        if !self.going() {
            end == self.verdict
        } else {
            exists|last: i32| self.ends_at(step, last, end)
        }
    }

    /// Whether a path that is going may end in `end` with the ray cast at
    /// the depth `last`.
    pub open spec fn ends_at<F: Fn(i32) -> Bounce>(self, step: F, last: i32, end: Verdict) -> bool {
        &&& 0 < last <= self.depth
        &&& forall|d: i32| last < d <= self.depth ==> #[trigger] Path::scattered_at(step, d)
        &&& match end {
            Verdict::Background => call_ensures(step, (last,), Bounce::Miss),
            Verdict::Black => call_ensures(step, (last,), Bounce::Absorbed) || (last == 1
                && Path::scattered_at(step, last)),
            Verdict::Trace => false,
        }
    }

    /// Follows the path to its end. `step` casts the ray in flight into the
    /// scene and says what became of it; it is called once for each ray
    /// that the path casts, with the number of rays that may still be cast,
    /// that one included.
    pub fn follow<F>(self, step: F) -> (end: Verdict) where F: Fn(i32) -> Bounce
        requires
            forall|depth: i32| call_requires(step, (depth,)),
        ensures
            self.may_end(step, end),
            self.well_formed() ==> end != Verdict::Trace,
            forall|told: spec_fn(int) -> Bounce| #[trigger]
                Path::tells(step, told) ==> end == self.followed(told).verdict,
    {
        let mut path = self;
        while path.verdict == Verdict::Trace && path.depth > 0
            invariant
                forall|depth: i32| call_requires(step, (depth,)),
                forall|told: spec_fn(int) -> Bounce| #[trigger]
                    Path::tells(step, told) ==> path.followed(told) == self.followed(told),
                path == self || path.well_formed(),
                path.going() ==> self.going() && path.depth <= self.depth && forall|d: i32|
                    path.depth < d <= self.depth ==> #[trigger] Path::scattered_at(step, d),
                !path.going() ==> self.may_end(step, path.verdict),
            decreases
                (if path.going() {
                    path.depth as int
                } else {
                    0
                }),
        {
            let ghost before = path;
            let bounce = step(path.depth);
            path.bounce(bounce);
            proof {
                let last = before.depth;
                assert(call_ensures(step, (last,), bounce));
                if !path.going() {
                    assert(0 < last <= self.depth);
                    assert(forall|d: i32|
                        last < d <= self.depth ==> #[trigger] Path::scattered_at(step, d));
                    if bounce == Bounce::Scattered {
                        assert(last == 1);
                        assert(Path::scattered_at(step, last));
                    }
                    assert(self.ends_at(step, last, path.verdict));
                } else {
                    assert(Path::scattered_at(step, last));
                }
                assert forall|told: spec_fn(int) -> Bounce| #[trigger]
                    Path::tells(step, told) implies path.followed(told) == self.followed(told) by {
                    assert(bounce == told(before.depth as int));
                    assert(before.followed(told) == path.followed(told));
                }
            }
        }
        path.verdict
    }

    pub fn verdict(&self) -> (v: Verdict)
        ensures
            v == self.verdict,
    {
        self.verdict
    }

    /// Takes what became of the ray in flight and says what is to be done
    /// next.
    pub fn bounce(&mut self, bounce: Bounce) -> (v: Verdict)
        ensures
            *final(self) == old(self).after(bounce),
            v == final(self).verdict,
            old(self).well_formed() ==> final(self).well_formed(),
    {
        if self.verdict == Verdict::Trace && self.depth > 0 {
            match bounce {
                Bounce::Miss => {
                    self.verdict = Verdict::Background;
                },
                Bounce::Absorbed => {
                    self.verdict = Verdict::Black;
                },
                Bounce::Scattered => {
                    self.depth = self.depth - 1;
                    if self.depth <= 0 {
                        self.verdict = Verdict::Black;
                    }
                },
            }
        }
        self.verdict
    }
}

impl Camera {
    /// The rows of an image: the quotient of width and aspect ratio,
    /// rounded, but one at least.
    pub open spec fn rows(rounded: i32) -> i32 {
        if rounded < 1 {
            1
        } else {
            rounded
        }
    }

    /// The interval within which a hit counts: from just off the surface
    /// that the ray left, without end.
    pub open spec fn spec_reach() -> Interval {
        Interval { min: Scalar { bits: SHADOW_ACNE_BITS }, max: Scalar { bits: INFINITY_BITS } }
    }

    /// The text of an image: the header for the camera's size and a line
    /// for each pixel.
    pub open spec fn image_text(self, pixels: Seq<Colour>) -> Seq<u8> {
        header(self.image_width as int, self.image_height as int) + pixel_lines(pixels)
    }

    /// The part of the configuration, as it now stands, that the derived
    /// fields depend on.
    pub open spec fn setting(self) -> Setting {
        Setting {
            aspect_ratio: self.aspect_ratio,
            image_width: self.image_width,
            vfov: self.vfov,
            lookfrom: self.lookfrom,
            lookat: self.lookat,
            vup: self.vup,
        }
    }

    /// Whether the camera can make an image: it is initialised, and its
    /// configuration is still the one that it was initialised for.
    pub open spec fn ready(self) -> bool {
        self.state == CameraState::Initialised && self.derived_for == self.setting()
    }

    /// Whether `write_image` has what it needs: the camera is ready and
    /// there is a colour for each pixel. A negative width or height makes
    /// an image without pixels.
    pub open spec fn renders(self, pixels: Seq<Colour>) -> bool {
        &&& self.ready()
        &&& pixels.len() == extent(self.image_width as int) * extent(self.image_height as int)
    }

    /// Whether `pixels` holds, row by row from the top and from the left
    /// within a row, a colour for each pixel that `shade` may have returned
    /// for the pixel's column and row.
    pub open spec fn shaded<F: Fn(i32, i32) -> Colour>(self, shade: F, pixels: Seq<Colour>) -> bool {
        &&& pixels.len() == extent(self.image_width as int) * extent(self.image_height as int)
        &&& forall|k: int|
            0 <= k < pixels.len() ==> call_ensures(
                shade,
                ((k % (self.image_width as int)) as i32, (k / (self.image_width as int)) as i32),
                #[trigger] pixels[k],
            )
    }

    /// Whether `shades` says what `shade` returns.
    pub open spec fn tells<F: Fn(i32, i32) -> Colour>(
        shade: F,
        shades: spec_fn(int, int) -> Colour,
    ) -> bool {
        forall|i: i32, j: i32, colour: Colour|
            call_ensures(shade, (i, j), colour) ==> colour == shades(i as int, j as int)
    }

    /// A camera of width zero at the origin that looks down the negative z
    /// axis, at `(0, 0, -1)`, with `(0, 1, 0)` as up and a field of view of
    /// ninety degrees, takes ten samples per pixel and follows a path for
    /// ten rays. It is not initialised.
    pub fn new() -> (c: Camera)
        ensures
            c.aspect_ratio.bits == 0,
            c.image_width == 0,
            c.samples_per_pixel == 10,
            c.max_depth == 10,
            c.vfov.bits == NINETY_BITS,
            c.lookfrom == vector_of(0, 0, 0),
            c.lookat == vector_of(0, 0, AHEAD_BITS),
            c.vup == vector_of(0, ONE_BITS, 0),
            c.brightness.bits == ONE_BITS,
            c.image_height == 0,
            c.centre == vector_of(0, 0, 0),
            c.frame.u == c.centre && c.frame.v == c.centre && c.frame.w == c.centre,
            c.frame.pixel00_loc == c.centre,
            c.frame.pixel_delta_u == c.centre && c.frame.pixel_delta_v == c.centre,
            c.derived_for == c.setting(),
            c.state == CameraState::Unconfigured,
    {
        let zero = Vector3::default();
        let ahead = Point3::new(Scalar::zero(), Scalar::zero(), Scalar::from_bits(AHEAD_BITS));
        let up = Vector3::new(Scalar::zero(), Scalar::one(), Scalar::zero());
        Camera {
            aspect_ratio: Scalar::zero(),
            image_width: 0,
            samples_per_pixel: 10,
            max_depth: 10,
            vfov: Scalar::from_bits(NINETY_BITS),
            lookfrom: zero,
            lookat: ahead,
            vup: up,
            brightness: Scalar::one(),
            image_height: 0,
            centre: zero,
            frame: Frame {
                u: zero,
                v: zero,
                w: zero,
                pixel00_loc: zero,
                pixel_delta_u: zero,
                pixel_delta_v: zero,
            },
            derived_for: Setting {
                aspect_ratio: Scalar::zero(),
                image_width: 0,
                vfov: Scalar::from_bits(NINETY_BITS),
                lookfrom: zero,
                lookat: ahead,
                vup: up,
            },
            state: CameraState::Unconfigured,
        }
    }

    /// The part of the configuration that the derived fields depend on.
    pub fn current_setting(&self) -> (s: Setting)
        ensures
            s == self.setting(),
    {
        Setting {
            aspect_ratio: self.aspect_ratio,
            image_width: self.image_width,
            vfov: self.vfov,
            lookfrom: self.lookfrom,
            lookat: self.lookat,
            vup: self.vup,
        }
    }

    /// Whether the camera can make an image.
    pub fn is_ready(&self) -> (r: bool)
        ensures
            r == self.ready(),
    {
        match self.state {
            CameraState::Initialised => self.derived_for == self.current_setting(),
            _ => false,
        }
    }

    /// The number of rows for a rounded quotient of width and aspect ratio.
    pub fn image_rows(rounded: i32) -> (rows: i32)
        ensures
            rows == Camera::rows(rounded),
            rows >= 1,
    {
        if rounded < 1 {
            1
        } else {
            rounded
        }
    }

    /// Derives what depends on the configuration. `rounded_height` is the
    /// quotient of width and aspect ratio, rounded; `frame` is the frame
    /// computed for the number of rows that `image_rows` gives for it. The
    /// camera is ready until its configuration changes or an image is made.
    pub fn initialise(&mut self, rounded_height: i32, frame: Frame)
        ensures
            *final(self) == (Camera {
                image_height: Camera::rows(rounded_height),
                centre: old(self).lookfrom,
                frame: frame,
                derived_for: old(self).setting(),
                state: CameraState::Initialised,
                ..*old(self)
            }),
            final(self).ready(),
    {
        self.image_height = Camera::image_rows(rounded_height);
        self.centre = self.lookfrom;
        self.frame = frame;
        self.derived_for = self.current_setting();
        self.state = CameraState::Initialised;
    }

    /// The interval within which a hit counts.
    pub fn reach() -> (ray_t: Interval)
        ensures
            ray_t == Camera::spec_reach(),
    {
        Interval::new(Scalar::from_bits(SHADOW_ACNE_BITS), Scalar::infinity())
    }

    /// Starts the path of one sample.
    pub fn ray_colour(&self) -> (path: Path)
        ensures
            path == Path::begun(self.max_depth),
            path.well_formed(),
    {
        Path {
            depth: self.max_depth,
            verdict: if self.max_depth <= 0 { Verdict::Black } else { Verdict::Trace },
        }
    }

    /// Renders an image: the text of the image whose pixel in column `i` of
    /// row `j` has the colour `shade(i, j)`, which holds the pixel's
    /// intensities in display space. `shade` is called once for each pixel,
    /// row by row from the top and from left to right within a row. There
    /// is no image, and `shade` is not called, unless the camera is ready:
    /// initialised, and not reconfigured since. Making an image leaves the
    /// camera in need of another initialisation. A negative width or height makes an image of a
    /// header alone.
    pub fn render<F>(&mut self, shade: F) -> (r: Option<Vec<u8>>) where F: Fn(i32, i32) -> Colour
        requires
            forall|i: i32, j: i32|
                0 <= i < old(self).image_width && 0 <= j < old(self).image_height ==> call_requires(
                    shade,
                    (i, j),
                ),
        ensures
            r is Some <==> old(self).ready(),
            r is Some ==> exists|pixels: Seq<Colour>|
                #![trigger old(self).shaded(shade, pixels)]
                old(self).shaded(shade, pixels) && r.unwrap()@ == old(self).image_text(pixels),
            forall|shades: spec_fn(int, int) -> Colour| #[trigger]
                Camera::tells(shade, shades) && r is Some ==> r.unwrap()@ == old(self).image_text(
                    raster(shades, old(self).image_width as int, old(self).image_height as int),
                ),
            *final(self) == if old(self).ready() {
                Camera { state: CameraState::Rendering, ..*old(self) }
            } else {
                *old(self)
            },
    {
        if !self.is_ready() {
            return None;
        }
        let width = self.image_width;
        let height = self.image_height;
        let ghost columns = extent(width as int);
        let ghost pixels: Seq<Colour> = Seq::empty();
        let mut out: Vec<u8> = Vec::new();
        write_header(&mut out, width, height);
        let mut j: i32 = 0;
        while j < height
            invariant
                0 <= j <= extent(height as int),
                columns == extent(width as int),
                width == self.image_width,
                height == self.image_height,
                *self == *old(self),
                forall|i: i32, j: i32|
                    0 <= i < width && 0 <= j < height ==> call_requires(shade, (i, j)),
                pixels.len() == j * columns,
                out@ == header(width as int, height as int) + pixel_lines(pixels),
                forall|k: int|
                    0 <= k < pixels.len() ==> call_ensures(
                        shade,
                        ((k % (width as int)) as i32, (k / (width as int)) as i32),
                        #[trigger] pixels[k],
                    ),
                forall|shades: spec_fn(int, int) -> Colour| #[trigger]
                    Camera::tells(shade, shades) ==> pixels == raster(
                        shades,
                        width as int,
                        j as int,
                    ),
            decreases height - j,
        {
            let ghost above = pixels;
            let mut i: i32 = 0;
            while i < width
                invariant
                    0 <= j < height,
                    0 <= i <= columns,
                    columns == extent(width as int),
                    forall|i: i32, j: i32|
                        0 <= i < width && 0 <= j < height ==> call_requires(shade, (i, j)),
                    pixels.len() == j * columns + i,
                    out@ == header(width as int, height as int) + pixel_lines(pixels),
                    forall|k: int|
                        0 <= k < pixels.len() ==> call_ensures(
                            shade,
                            ((k % (width as int)) as i32, (k / (width as int)) as i32),
                            #[trigger] pixels[k],
                        ),
                    forall|shades: spec_fn(int, int) -> Colour| #[trigger]
                        Camera::tells(shade, shades) ==> pixels == raster(shades, width as int, j as int)
                            + row(shades, i as int, j as int),
                decreases width - i,
            {
                let ghost before = pixels;
                let colour = shade(i, j);
                write_colour(&mut out, colour);
                proof {
                    pixels = before.push(colour);
                    assert(pixels.drop_last() =~= before);
                    let place = j * columns + i;
                    assert(place == j * (width as int) + i);
                    lemma_fundamental_div_mod_converse(place, width as int, j as int, i as int);
                    assert(call_ensures(shade, (i, j), colour));
                    assert forall|shades: spec_fn(int, int) -> Colour| #[trigger]
                        Camera::tells(shade, shades) implies pixels == raster(
                        shades,
                        width as int,
                        j as int,
                    ) + row(shades, i + 1, j as int) by {
                        assert(colour == shades(i as int, j as int));
                        assert(pixels =~= raster(shades, width as int, j as int) + row(
                            shades,
                            i + 1,
                            j as int,
                        ));
                    }
                }
                i = i + 1;
            }
            proof {
                assert(j * columns + columns == (j + 1) * columns) by (nonlinear_arith);
                assert forall|shades: spec_fn(int, int) -> Colour| #[trigger]
                    Camera::tells(shade, shades) implies pixels == raster(shades, width as int, j + 1) by {
                    assert(raster(shades, width as int, j + 1) == raster(shades, width as int, j as int)
                        + row(shades, width as int, j as int));
                }
            }
            j = j + 1;
            proof {
                assert forall|shades: spec_fn(int, int) -> Colour| #[trigger]
                    Camera::tells(shade, shades) implies raster(shades, width as int, j as int) + row(
                    shades,
                    0,
                    j as int,
                ) =~= raster(shades, width as int, j as int) by {}
            }
        }
        proof {
            assert(j == extent(height as int));
            assert(j * columns == columns * j) by (nonlinear_arith);
            assert(self.shaded(shade, pixels));
            assert forall|shades: spec_fn(int, int) -> Colour| #[trigger]
                Camera::tells(shade, shades) implies raster(shades, width as int, height as int)
                == raster(shades, width as int, j as int) by {
                if height < 0 {
                    assert(raster(shades, width as int, height as int) =~= Seq::<Colour>::empty());
                    assert(raster(shades, width as int, 0) =~= Seq::<Colour>::empty());
                }
            }
        }
        self.state = CameraState::Rendering;
        Some(out)
    }

    /// The text of the image whose pixels have the colours `pixels`, row by
    /// row from the top and from left to right within a row. Each colour
    /// holds a pixel's intensities in display space. There is no image
    /// unless the camera is ready and `pixels` has a colour for each of its
    /// pixels; making one leaves the camera in need of another
    /// initialisation.
    pub fn write_image(&mut self, pixels: &Vec<Colour>) -> (r: Option<Vec<u8>>)
        ensures
            r is Some <==> old(self).renders(pixels@),
            r matches Some(text) ==> text@ == old(self).image_text(pixels@),
            *final(self) == if old(self).renders(pixels@) {
                Camera { state: CameraState::Rendering, ..*old(self) }
            } else {
                *old(self)
            },
    {
        if !self.is_ready() {
            return None;
        }
        let width: u64 = if self.image_width < 0 { 0 } else { self.image_width as u64 };
        let height: u64 = if self.image_height < 0 { 0 } else { self.image_height as u64 };
        assert(width * height <= 0x8000_0000u64 * 0x8000_0000u64) by (nonlinear_arith)
            requires
                width <= 0x8000_0000u64,
                height <= 0x8000_0000u64,
        ;
        if pixels.len() as u64 != width * height {
            return None;
        }
        let mut out: Vec<u8> = Vec::new();
        write_header(&mut out, self.image_width, self.image_height);
        let mut k: usize = 0;
        while k < pixels.len()
            invariant
                k <= pixels.len(),
                out@ == header(self.image_width as int, self.image_height as int) + pixel_lines(
                    pixels@.take(k as int),
                ),
            decreases pixels.len() - k,
        {
            assert(pixels@.take(k + 1).drop_last() == pixels@.take(k as int));
            write_colour(&mut out, pixels[k]);
            k = k + 1;
        }
        assert(pixels@.take(k as int) == pixels@);
        self.state = CameraState::Rendering;
        Some(out)
    }
}

/// A path of no depth ends in darkness before a single ray is cast,
/// whatever the scene holds.
pub proof fn lemma_no_depth_is_black(
    depth: i32,
    bounces: Seq<Bounce>,
    told: spec_fn(int) -> Bounce,
)
    requires
        depth <= 0,
    ensures
        Path::begun(depth).verdict == Verdict::Black,
        Path::begun(depth).followed(told).verdict == Verdict::Black,
        Path::begun(depth).after_all(bounces).verdict == Verdict::Black,
        Path::begun(depth).rays_cast(bounces) == 0,
    decreases bounces.len(),
{
    if bounces.len() > 0 {
        lemma_no_depth_is_black(depth, bounces.drop_last(), told);
    }
}

/// A ray that misses ends its path in the background at once: no further
/// ray is cast, whatever is reported afterwards.
pub proof fn lemma_miss_is_background(path: Path, later: Seq<Bounce>, told: spec_fn(int) -> Bounce)
    requires
        path.going(),
    ensures
        path.after(Bounce::Miss).verdict == Verdict::Background,
        told(path.depth as int) == Bounce::Miss ==> path.followed(told) == path.after(Bounce::Miss),
        path.after(Bounce::Miss).after_all(later).verdict == Verdict::Background,
        path.after(Bounce::Miss).rays_cast(later) == 0,
    decreases later.len(),
{
    assert(path.after(Bounce::Miss).followed(told) == path.after(Bounce::Miss));
    if later.len() > 0 {
        lemma_miss_is_background(path, later.drop_last(), told);
    }
}

/// A path casts no more rays than its depth allows, however the scene
/// answers.
pub proof fn lemma_depth_bounds_rays(depth: i32, bounces: Seq<Bounce>)
    ensures
        Path::begun(depth).rays_cast(bounces) <= if depth <= 0 {
            0
        } else {
            depth as int
        },
        Path::begun(depth).after_all(bounces).well_formed(),
        Path::begun(depth).after_all(bounces).verdict == Verdict::Trace ==> Path::begun(
            depth,
        ).rays_cast(bounces) + Path::begun(depth).after_all(bounces).depth == depth,
    decreases bounces.len(),
{
    if bounces.len() > 0 {
        lemma_depth_bounds_rays(depth, bounces.drop_last());
    }
}

/// A path that is followed ends, in the background or in darkness.
pub proof fn lemma_followed_path_ends(path: Path, told: spec_fn(int) -> Bounce)
    requires
        path.well_formed(),
    ensures
        path.followed(told).verdict != Verdict::Trace,
        path.followed(told).well_formed(),
    decreases
        (if path.going() {
            path.depth as int
        } else {
            0
        }),
{
    if path.going() {
        lemma_followed_path_ends(path.after(told(path.depth as int)), told);
    }
}

} // verus!
