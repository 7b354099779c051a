//! The path tracer: the colour that a ray brings back.
use crate::camera::Camera;
use crate::color::{
    color_line, decimal, lemma_decimal_is_one_line, lemma_line_feeds_add, lemma_line_feeds_of_one,
    lemma_pixel_line_is_one_line, line_feeds, push_decimal, quantized, write_color,
};
use crate::hittable::{HitRecord, Hittable};
use crate::pattern::INFINITY;
use crate::ray::Ray;
use crate::scalar::{Scalar, HALF, ONE};
use crate::utility::{is_unit, random_double};
use crate::vec::{is_disk_draw, unit_vector, Color, Vec3};
use rand::rngs::ThreadRng;
use vstd::prelude::*;

verus! {

/// 0.001: hits nearer than this to the start of a ray are passed over, so
/// that a scattered ray does not hit the surface that it leaves.
pub const NEAR_LIMIT: u32 = 0x3a83_126f;

/// 0.7, the green of the sky overhead.
pub const SKY_GREEN: u32 = 0x3f33_3333;

/// The colour of the sky overhead: `(0.5, 0.7, 1.0)`.
pub open spec fn sky_blue() -> Color {
    Vec3 { x: Scalar(HALF), y: Scalar(SKY_GREEN), z: Scalar(ONE) }
}

/// The colour of the sky in the direction of a ray: white at the bottom,
/// blue overhead, blended along `t = 0.5 (y + 1)` for the height `y` of the
/// direction brought to length 1.
pub open spec fn sky(ray: Ray) -> Color {
    let t = Scalar(HALF).times(ray.direction.unit().y.plus(Scalar(ONE)));
    crate::material::white().scaled(Scalar(ONE).minus(t)).plus(sky_blue().scaled(t))
}

/// Whether `ray_color` can end with this colour. With no depth left it is
/// black. A ray that hits nothing brings the colour of the sky. A ray that
/// hits a surface is scattered by its material: if it is swallowed the colour
/// is black, else it is what the scattered ray brings back with one step of
/// depth less, times what the material takes away.
pub open spec fn may_be_color(ray: Ray, world: Hittable, depth: int, color: Color) -> bool
    decreases depth,
{
    if depth <= 0 {
        color == Vec3::zero()
    } else {
        match world.hit_record(ray, Scalar(NEAR_LIMIT), Scalar(INFINITY)) {
            None => color == sky(ray),
            Some(record) => {
                ||| (color == Vec3::zero() && exists|attenuation: Color, scattered: Ray| #[trigger]
                    record.material.may_scatter(ray, record, false, attenuation, scattered))
                ||| (exists|attenuation: Color, scattered: Ray, inner: Color|
                    {
                        &&& #[trigger] record.material.may_scatter(
                            ray,
                            record,
                            true,
                            attenuation,
                            scattered,
                        )
                        &&& may_be_color(scattered, world, depth - 1, inner)
                        &&& color == #[trigger] attenuation.times(inner)
                    })
            },
        }
    }
}

/// The colour of the sky in the direction of a ray.
pub fn sky_color(ray: &Ray) -> (r: Color)
    ensures
        r == sky(*ray),
{
    let unit_direction = unit_vector(ray.direction);
    let t = Scalar(HALF) * (unit_direction.y + Scalar(ONE));
    Color::new(Scalar(ONE), Scalar(ONE), Scalar(ONE)) * (Scalar(ONE) - t) + Color::new(
        Scalar(HALF),
        Scalar(SKY_GREEN),
        Scalar(ONE),
    ) * t
}

/// The colour that a ray brings back from the world, followed through at
/// most `depth` scatterings.
pub fn ray_color(ray: &Ray, world: &Hittable, rng: &mut ThreadRng, depth: i32) -> (r: Color)
    ensures
        may_be_color(*ray, *world, depth as int, r),
    decreases depth,
{
    let mut record = HitRecord::empty();
    if depth <= 0 {
        return Color::empty();
    }
    if world.hit(ray, Scalar(NEAR_LIMIT), Scalar(INFINITY), &mut record) {
        let mut scattered = Ray::empty();
        let mut attenuation = Color::empty();
        if record.material.scatter(ray, &record, &mut attenuation, &mut scattered, rng) {
            let inner = ray_color(&scattered, world, rng, depth - 1);
            let r = attenuation * inner;
            assert(record.material.may_scatter(*ray, record, true, attenuation, scattered)
                && may_be_color(scattered, *world, depth - 1, inner) && r == attenuation.times(
                inner,
            ));
            return r;
        }
        assert(record.material.may_scatter(*ray, record, false, attenuation, scattered));
        return Color::empty();
    }
    sky_color(ray)
}

/// Where a sample lies along one side of the image, as a share of that
/// side: `(index + jitter) / (size - 1)`.
pub open spec fn image_coordinate(index: i32, jitter: Scalar, size: i32) -> Scalar {
    Scalar::of_int(index).plus(jitter).over(Scalar::of_int((size - 1) as i32))
}

/// Whether one sample of the pixel in column `i` and row `j` can have this
/// colour: whether it can be the colour of a ray of the camera through a
/// random spot of the pixel.
pub open spec fn may_be_sample(
    camera: Camera,
    world: Hittable,
    i: i32,
    j: i32,
    width: i32,
    height: i32,
    depth: i32,
    color: Color,
) -> bool {
    exists|du: Scalar, dv: Scalar, lens_point: Vec3|
        {
            &&& is_unit(du)
            &&& is_unit(dv)
            &&& is_disk_draw(lens_point)
            &&& may_be_color(
                #[trigger] camera.ray_through(
                    image_coordinate(i, du, width),
                    image_coordinate(j, dv, height),
                    lens_point,
                ),
                world,
                depth as int,
                color,
            )
        }
}

/// Whether the first `n` samples of a pixel can add up to this colour.
pub open spec fn may_be_pixel(
    camera: Camera,
    world: Hittable,
    i: i32,
    j: i32,
    width: i32,
    height: i32,
    depth: i32,
    n: int,
    color: Color,
) -> bool
    decreases n,
{
    if n <= 0 {
        color == Vec3::zero()
    } else {
        exists|so_far: Color, sample: Color|
            {
                &&& may_be_pixel(camera, world, i, j, width, height, depth, n - 1, so_far)
                &&& may_be_sample(camera, world, i, j, width, height, depth, sample)
                &&& color == #[trigger] so_far.plus(sample)
            }
    }
}

/// Whether the pixels of row `j`, from left to right, can have these sums of
/// `samples` samples each.
pub open spec fn may_be_row(
    camera: Camera,
    world: Hittable,
    j: i32,
    width: i32,
    height: i32,
    samples: i32,
    depth: i32,
    pixels: Seq<Color>,
) -> bool {
    &&& pixels.len() == if width > 0 {
        width as int
    } else {
        0
    }
    &&& forall|i: int|
        0 <= i < pixels.len() ==> may_be_pixel(
            camera,
            world,
            i as i32,
            j,
            width,
            height,
            depth,
            samples as int,
            #[trigger] pixels[i],
        )
}

/// Whether the rows of an image, from the top one down, can have these sums.
pub open spec fn may_be_image(
    camera: Camera,
    world: Hittable,
    width: i32,
    height: i32,
    samples: i32,
    depth: i32,
    rows: Seq<Seq<Color>>,
) -> bool {
    &&& rows.len() == if height > 0 {
        height as int
    } else {
        0
    }
    &&& forall|k: int|
        0 <= k < rows.len() ==> may_be_row(
            camera,
            world,
            (height - 1 - k) as i32,
            width,
            height,
            samples,
            depth,
            #[trigger] rows[k],
        )
}

/// The lines of text for a row of pixels.
pub open spec fn row_text(pixels: Seq<Color>, samples: i32) -> Seq<u8>
    decreases pixels.len(),
{
    if pixels.len() == 0 {
        Seq::<u8>::empty()
    } else {
        row_text(pixels.drop_last(), samples) + color_line(pixels.last(), samples)
    }
}

/// The lines of text for rows of pixels.
pub open spec fn rows_text(rows: Seq<Seq<Color>>, samples: i32) -> Seq<u8>
    decreases rows.len(),
{
    if rows.len() == 0 {
        Seq::<u8>::empty()
    } else {
        rows_text(rows.drop_last(), samples) + row_text(rows.last(), samples)
    }
}

/// The head of an image as plain text: the mark of a plain pixmap, the width
/// and the height, and 255 as the largest value of a channel, each on a line.
pub open spec fn header_text(width: i32, height: i32) -> Seq<u8> {
    seq![80u8, 51u8, 10u8] + decimal(width as int) + seq![32u8] + decimal(height as int) + seq![
        10u8,
        50u8,
        53u8,
        53u8,
        10u8,
    ]
}

/// The text for a row of pixels has a line for each pixel.
pub proof fn lemma_lines_of_row(pixels: Seq<Color>, samples: i32)
    ensures
        line_feeds(row_text(pixels, samples)) == pixels.len(),
    decreases pixels.len(),
{
    if pixels.len() > 0 {
        lemma_lines_of_row(pixels.drop_last(), samples);
        lemma_pixel_line_is_one_line(
            quantized(pixels.last().x, samples),
            quantized(pixels.last().y, samples),
            quantized(pixels.last().z, samples),
        );
        lemma_line_feeds_add(
            row_text(pixels.drop_last(), samples),
            color_line(pixels.last(), samples),
        );
    }
}

/// The text for rows of `width` pixels each has a line for each pixel.
pub proof fn lemma_lines_of_rows(rows: Seq<Seq<Color>>, samples: i32, width: nat)
    requires
        forall|k: int| 0 <= k < rows.len() ==> (#[trigger] rows[k]).len() == width,
    ensures
        line_feeds(rows_text(rows, samples)) == rows.len() * width,
    decreases rows.len(),
{
    if rows.len() > 0 {
        lemma_lines_of_rows(rows.drop_last(), samples, width);
        lemma_lines_of_row(rows.last(), samples);
        lemma_line_feeds_add(rows_text(rows.drop_last(), samples), row_text(rows.last(), samples));
        assert(rows.drop_last().len() * width + width == rows.len() * width) by (nonlinear_arith)
            requires
                rows.drop_last().len() + 1 == rows.len(),
        ;
    } else {
        assert(rows.len() * width == 0) by (nonlinear_arith)
            requires
                rows.len() == 0,
        ;
    }
}

/// The head of an image has three lines.
pub proof fn lemma_lines_of_header(width: i32, height: i32)
    ensures
        line_feeds(header_text(width, height)) == 3,
{
    let mark = seq![80u8, 51u8, 10u8];
    let tail = seq![10u8, 50u8, 53u8, 53u8, 10u8];
    assert(line_feeds(mark) == 1) by {
        reveal_with_fuel(line_feeds, 4);
        assert(mark.drop_last() =~= seq![80u8, 51u8]);
        assert(mark.drop_last().drop_last() =~= seq![80u8]);
        lemma_line_feeds_of_one(80u8);
    }
    assert(line_feeds(tail) == 2) by {
        assert(tail =~= seq![10u8] + (seq![50u8] + (seq![53u8] + (seq![53u8] + seq![10u8]))));
        lemma_line_feeds_of_one(10u8);
        lemma_line_feeds_of_one(50u8);
        lemma_line_feeds_of_one(53u8);
        lemma_line_feeds_add(seq![53u8], seq![10u8]);
        lemma_line_feeds_add(seq![53u8], seq![53u8] + seq![10u8]);
        lemma_line_feeds_add(seq![50u8], seq![53u8] + (seq![53u8] + seq![10u8]));
        lemma_line_feeds_add(seq![10u8], seq![50u8] + (seq![53u8] + (seq![53u8] + seq![10u8])));
    }
    lemma_decimal_is_one_line(width as int);
    lemma_decimal_is_one_line(height as int);
    lemma_line_feeds_of_one(32u8);
    lemma_line_feeds_add(mark, decimal(width as int));
    lemma_line_feeds_add(mark + decimal(width as int), seq![32u8]);
    lemma_line_feeds_add(mark + decimal(width as int) + seq![32u8], decimal(height as int));
    lemma_line_feeds_add(
        mark + decimal(width as int) + seq![32u8] + decimal(height as int),
        tail,
    );
}

/// How many pixels an image has.
pub open spec fn pixel_count(width: i32, height: i32) -> nat {
    if width > 0 && height > 0 {
        (width * height) as nat
    } else {
        0
    }
}

/// The text of an image has three lines for its head and one for each pixel.
pub proof fn lemma_lines_of_image(
    camera: Camera,
    world: Hittable,
    width: i32,
    height: i32,
    samples: i32,
    depth: i32,
    rows: Seq<Seq<Color>>,
)
    requires
        may_be_image(camera, world, width, height, samples, depth, rows),
    ensures
        line_feeds(header_text(width, height) + rows_text(rows, samples)) == 3 + pixel_count(
            width,
            height,
        ),
{
    let across = if width > 0 {
        width as nat
    } else {
        0
    };
    assert forall|k: int| 0 <= k < rows.len() implies (#[trigger] rows[k]).len() == across by {
        assert(may_be_row(
            camera,
            world,
            (height - 1 - k) as i32,
            width,
            height,
            samples,
            depth,
            rows[k],
        ));
    }
    lemma_lines_of_rows(rows, samples, across);
    lemma_lines_of_header(width, height);
    lemma_line_feeds_add(header_text(width, height), rows_text(rows, samples));
    assert(rows.len() * across == pixel_count(width, height)) by (nonlinear_arith)
        requires
            rows.len() == if height > 0 {
                height as int
            } else {
                0
            },
            across == if width > 0 {
                width as int
            } else {
                0
            },
            pixel_count(width, height) == if width > 0 && height > 0 {
                width * height
            } else {
                0
            },
    ;
}

/// The height of an image of a given width: the width divided by the ratio
/// of width to height, the fraction dropped.
pub open spec fn height_for(width: i32, aspect_ratio: Scalar) -> i32 {
    Scalar::of_int(width).over(aspect_ratio).truncated()
}

/// The height of an image of a given width and ratio of width to height.
pub fn image_height(width: i32, aspect_ratio: Scalar) -> (r: i32)
    ensures
        r == height_for(width, aspect_ratio),
{
    (Scalar::from_i32(width) / aspect_ratio).to_i32()
}

/// Appends the head of an image as plain text to `out`.
pub fn write_header(out: &mut Vec<u8>, width: i32, height: i32)
    ensures
        final(out)@ == old(out)@ + header_text(width, height),
{
    let ghost start = out@;
    out.push(80u8);
    out.push(51u8);
    out.push(10u8);
    push_decimal(out, width);
    out.push(32u8);
    push_decimal(out, height);
    out.push(10u8);
    out.push(50u8);
    out.push(53u8);
    out.push(53u8);
    out.push(10u8);
    assert(out@ =~= start + header_text(width, height));
}

/// The sum of `samples` samples of the pixel in column `i` and row `j`: each
/// is the colour of a ray of the camera through a random spot of the pixel,
/// followed through at most `depth` scatterings.
pub fn render_pixel(
    camera: &Camera,
    world: &Hittable,
    i: i32,
    j: i32,
    width: i32,
    height: i32,
    samples: i32,
    depth: i32,
    rng: &mut ThreadRng,
) -> (r: Color)
    requires
        0 <= i < width,
        0 <= j < height,
    ensures
        may_be_pixel(*camera, *world, i, j, width, height, depth, samples as int, r),
{
    let mut pixel_color = Color::empty();
    let mut n: i32 = 0;
    while n < samples
        invariant
            0 <= n,
            n <= samples || n == 0,
            0 <= i < width,
            0 <= j < height,
            may_be_pixel(*camera, *world, i, j, width, height, depth, n as int, pixel_color),
        decreases samples - n,
    {
        let du = random_double(rng);
        let dv = random_double(rng);
        let u = (Scalar::from_i32(i) + du) / Scalar::from_i32(width - 1);
        let v = (Scalar::from_i32(j) + dv) / Scalar::from_i32(height - 1);
        let ray = camera.get_ray(u, v, rng);
        let sample = ray_color(&ray, world, rng, depth);
        let ghost so_far = pixel_color;
        pixel_color = pixel_color + sample;
        proof {
            assert(u == image_coordinate(i, du, width));
            assert(v == image_coordinate(j, dv, height));
            let lens_point = choose|lens_point: Vec3|
                is_disk_draw(lens_point) && ray == #[trigger] camera.ray_through(u, v, lens_point);
            assert(may_be_color(
                camera.ray_through(
                    image_coordinate(i, du, width),
                    image_coordinate(j, dv, height),
                    lens_point,
                ),
                *world,
                depth as int,
                sample,
            ));
            assert(may_be_sample(*camera, *world, i, j, width, height, depth, sample));
            assert(pixel_color == so_far.plus(sample));
        }
        n = n + 1;
    }
    pixel_color
}

/// Appends the lines of text for row `j` of the image to `out`, one for each
/// pixel from left to right.
pub fn render_row(
    out: &mut Vec<u8>,
    camera: &Camera,
    world: &Hittable,
    j: i32,
    width: i32,
    height: i32,
    samples: i32,
    depth: i32,
    rng: &mut ThreadRng,
)
    requires
        0 <= j < height,
    ensures
        exists|pixels: Seq<Color>|
            may_be_row(*camera, *world, j, width, height, samples, depth, pixels) && final(out)@
                == old(out)@ + #[trigger] row_text(pixels, samples),
{
    let ghost start = out@;
    let ghost mut pixels = Seq::<Color>::empty();
    let mut i: i32 = 0;
    assert(out@ =~= start + row_text(pixels, samples));
    while i < width
        invariant
            0 <= i,
            i <= width || i == 0,
            0 <= j < height,
            pixels.len() == i,
            forall|k: int|
                0 <= k < pixels.len() ==> may_be_pixel(
                    *camera,
                    *world,
                    k as i32,
                    j,
                    width,
                    height,
                    depth,
                    samples as int,
                    #[trigger] pixels[k],
                ),
            out@ == start + row_text(pixels, samples),
        decreases width - i,
    {
        let pixel_color = render_pixel(camera, world, i, j, width, height, samples, depth, rng);
        let ghost before = pixels;
        write_color(out, pixel_color, samples);
        proof {
            pixels = pixels.push(pixel_color);
            assert(pixels.drop_last() =~= before);
            assert(out@ =~= start + row_text(pixels, samples));
        }
        i = i + 1;
    }
    assert(may_be_row(*camera, *world, j, width, height, samples, depth, pixels));
}

/// Renders an image as plain text: the head, then a line for each pixel, row
/// by row from the top and from left to right.
pub fn render(
    camera: &Camera,
    world: &Hittable,
    width: i32,
    height: i32,
    samples: i32,
    depth: i32,
    rng: &mut ThreadRng,
) -> (out: Vec<u8>)
    ensures
        exists|rows: Seq<Seq<Color>>|
            may_be_image(*camera, *world, width, height, samples, depth, rows) && out@
                == header_text(width, height) + #[trigger] rows_text(rows, samples),
        line_feeds(out@) == 3 + pixel_count(width, height),
{
    let mut out: Vec<u8> = Vec::new();
    write_header(&mut out, width, height);
    let ghost mut rows = Seq::<Seq<Color>>::empty();
    assert(out@ =~= header_text(width, height) + rows_text(rows, samples));
    let mut done: i32 = 0;
    while done < height
        invariant
            0 <= done,
            done <= height || done == 0,
            rows.len() == done,
            forall|k: int|
                0 <= k < rows.len() ==> may_be_row(
                    *camera,
                    *world,
                    (height - 1 - k) as i32,
                    width,
                    height,
                    samples,
                    depth,
                    #[trigger] rows[k],
                ),
            out@ == header_text(width, height) + rows_text(rows, samples),
        decreases height - done,
    {
        let j = height - 1 - done;
        let ghost before = out@;
        render_row(&mut out, camera, world, j, width, height, samples, depth, rng);
        proof {
            let pixels = choose|pixels: Seq<Color>|
                may_be_row(*camera, *world, j, width, height, samples, depth, pixels) && out@
                    == before + #[trigger] row_text(pixels, samples);
            let earlier = rows;
            rows = rows.push(pixels);
            assert(rows.drop_last() =~= earlier);
            assert(out@ =~= header_text(width, height) + rows_text(rows, samples));
        }
        done = done + 1;
    }
    proof {
        assert(may_be_image(*camera, *world, width, height, samples, depth, rows));
        lemma_lines_of_image(*camera, *world, width, height, samples, depth, rows);
    }
    out
}

} // verus!
