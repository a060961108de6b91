//! Cutting a box out of a decoded image, and bringing the cut to a given size.
use crate::annotation::Bndbox;
use image::imageops::FilterType;
use image::DynamicImage;
use vstd::prelude::*;

verus! {

/// A decoded image of the `image` crate.
#[verifier::external_type_specification]
#[verifier::external_body]
pub struct ExDynamicImage(DynamicImage);

/// The sampling filters of the `image` crate.
#[verifier::external_type_specification]
pub struct ExFilterType(FilterType);

/// The pixels of an image by column and row, each as red, green, blue and alpha of
/// eight bits, as `get_pixel` gives them.
pub uninterp spec fn image_pixels(img: DynamicImage) -> Map<(u32, u32), (u8, u8, u8, u8)>;

/// The width and the height of an image in pixels.
pub uninterp spec fn image_size(img: DynamicImage) -> (u32, u32);

/// The width of an image in pixels.
pub open spec fn image_width(img: DynamicImage) -> u32 {
    image_size(img).0
}

/// The height of an image in pixels.
pub open spec fn image_height(img: DynamicImage) -> u32 {
    image_size(img).1
}

/// `DynamicImage::width` gives the width of the image.
pub assume_specification[ DynamicImage::width ](img: &DynamicImage) -> (w: u32)
    ensures
        w == image_size(*img).0,
;

/// `DynamicImage::height` gives the height of the image.
pub assume_specification[ DynamicImage::height ](img: &DynamicImage) -> (h: u32)
    ensures
        h == image_size(*img).1,
;

/// Where a cut that is asked for at `start` begins, within `extent`.
pub open spec fn cut_start(extent: u32, start: u32) -> u32 {
    if start < extent {
        start
    } else {
        extent
    }
}

/// What is left of a length `length` that starts at `start`, within `extent`.
pub open spec fn cut_extent(extent: u32, start: u32, length: u32) -> u32 {
    if length < extent - cut_start(extent, start) {
        length
    } else {
        (extent - cut_start(extent, start)) as u32
    }
}

/// Whether `cut` is the part of `img` that the rectangle at `x`, `y` of the size `width`
/// by `height` covers: its size is what is left of the rectangle within the image, and
/// its pixels are those of the image from the rectangle's corner on.
pub open spec fn is_cut_of(
    cut: DynamicImage,
    img: DynamicImage,
    x: u32,
    y: u32,
    width: u32,
    height: u32,
) -> bool {
    &&& image_width(cut) == cut_extent(image_width(img), x, width)
    &&& image_height(cut) == cut_extent(image_height(img), y, height)
    &&& forall|i: u32, j: u32|
        i < image_width(cut) && j < image_height(cut) ==> #[trigger] image_pixels(cut)[(i, j)]
            == image_pixels(img)[(
            (cut_start(image_width(img), x) + i) as u32,
            (cut_start(image_height(img), y) + j) as u32,
        )]
}

/// `DynamicImage::crop` leaves the image as it is and returns a new image: the part of
/// the rectangle that lies within the image, its corner first brought within it.
pub assume_specification[ DynamicImage::crop ](
    img: &mut DynamicImage,
    x: u32,
    y: u32,
    width: u32,
    height: u32,
) -> (cut: DynamicImage)
    ensures
        *final(img) == *old(img),
        image_size(cut) == (
            cut_extent(image_size(*old(img)).0, x, width),
            cut_extent(image_size(*old(img)).1, y, height),
        ),
        forall|i: u32, j: u32|
            i < image_size(cut).0 && j < image_size(cut).1 ==> #[trigger] image_pixels(cut)[(i, j)]
                == image_pixels(*old(img))[(
                (cut_start(image_size(*old(img)).0, x) + i) as u32,
                (cut_start(image_size(*old(img)).1, y) + j) as u32,
            )],
;

/// Whether an image of `width` by `height` pixels can be held, whatever its pixels are:
/// up to 16 bytes each.
pub open spec fn holdable(width: u32, height: u32) -> bool {
    16 * width * height <= isize::MAX
}

/// `DynamicImage::resize_exact` returns a new image of exactly the given size; of its
/// pixels nothing is said. It is called on images that are not empty, and with sizes
/// for which its buffers can be held: one of the width of the image and the new height,
/// one of the new size.
pub assume_specification[ DynamicImage::resize_exact ](
    img: &DynamicImage,
    nwidth: u32,
    nheight: u32,
    filter: FilterType,
) -> (resized: DynamicImage)
    requires
        image_width(*img) > 0,
        image_height(*img) > 0,
        holdable(image_width(*img), nheight),
        holdable(nwidth, nheight),
    ensures
        image_size(resized) == (nwidth, nheight),
;

/// The part of the rectangle that lies within the image. The image is left as it is.
pub fn crop_image(img: &mut DynamicImage, x: u32, y: u32, width: u32, height: u32) -> (cut:
    DynamicImage)
    ensures
        *final(img) == *old(img),
        is_cut_of(cut, *old(img), x, y, width, height),
{
    img.crop(x, y, width, height)
}

/// The image brought to `width` by `height` pixels, its proportions not kept. Nothing
/// comes back exactly when the image is empty.
pub fn resize_image(img: &DynamicImage, width: u32, height: u32) -> (resized: Option<
    DynamicImage,
>)
    requires
        holdable(image_width(*img), height),
        holdable(width, height),
    ensures
        resized is Some <==> image_width(*img) > 0 && image_height(*img) > 0,
        resized matches Some(out) ==> image_width(out) == width && image_height(out) == height,
{
    if img.width() > 0u32 && img.height() > 0u32 {
        Some(img.resize_exact(width, height, FilterType::Lanczos3))
    } else {
        None
    }
}

/// The size that a crop is to be brought to, if any, can be held for any image.
pub open spec fn target_holdable(resize: Option<(u32, u32)>) -> bool {
    resize matches Some((width, height)) ==> holdable(u32::MAX, height) && holdable(width, height)
}

/// Whether an image of `width` by `height` pixels can be held.
pub fn is_holdable(width: u32, height: u32) -> (b: bool)
    ensures
        b == holdable(width, height),
{
    assert(width * height <= 0xffff_ffff * 0xffff_ffff) by (nonlinear_arith)
        requires
            width <= 0xffff_ffff,
            height <= 0xffff_ffff,
    ;
    assert(16 * width * height == 16 * (width * height)) by (nonlinear_arith);
    let pixels: u128 = width as u128 * height as u128;
    16 * pixels <= isize::MAX as u128
}

/// Whether the size that a crop is to be brought to, if any, can be held for any image.
pub fn is_target_holdable(resize: &Option<(u32, u32)>) -> (b: bool)
    ensures
        b == target_holdable(*resize),
{
    match resize {
        Some((width, height)) => is_holdable(u32::MAX, *height) && is_holdable(*width, *height),
        None => true,
    }
}

/// A crop was to be brought to a size, and is empty.
#[derive(Debug, Clone, Copy, PartialEq, Eq, Structural)]
pub struct EmptyResizeTarget;

/// The crop of one object: the part of its box that lies within the image, brought to
/// the size `resize` if one is given. It fails exactly when a size is given and the
/// crop is empty; so an empty box is never resized. The image is left as it is.
pub fn crop_object(img: &mut DynamicImage, bndbox: &Bndbox, resize: Option<(u32, u32)>) -> (crop:
    Result<DynamicImage, EmptyResizeTarget>)
    requires
        bndbox.ordered(),
        target_holdable(resize),
    ensures
        *final(img) == *old(img),
        ({
            let width = cut_extent(
                image_width(*old(img)),
                bndbox.xmin,
                (bndbox.xmax - bndbox.xmin) as u32,
            );
            let height = cut_extent(
                image_height(*old(img)),
                bndbox.ymin,
                (bndbox.ymax - bndbox.ymin) as u32,
            );
            &&& crop is Err <==> resize is Some && (width == 0 || height == 0)
            &&& crop matches Ok(out) ==> match resize {
                Some(target) => (image_width(out), image_height(out)) == target,
                None => is_cut_of(
                    out,
                    *old(img),
                    bndbox.xmin,
                    bndbox.ymin,
                    (bndbox.xmax - bndbox.xmin) as u32,
                    (bndbox.ymax - bndbox.ymin) as u32,
                ),
            }
        }),
        resize is Some && (bndbox.xmax == bndbox.xmin || bndbox.ymax == bndbox.ymin) ==> crop
            is Err,
{
    let cut = crop_image(img, bndbox.xmin, bndbox.ymin, bndbox.width(), bndbox.height());
    match resize {
        Some((width, height)) => {
            assert(holdable(image_width(cut), height)) by (nonlinear_arith)
                requires
                    16 * u32::MAX * height <= isize::MAX,
                    image_width(cut) <= u32::MAX,
            ;
            match resize_image(&cut, width, height) {
                Some(resized) => Ok(resized),
                None => Err(EmptyResizeTarget),
            }
        },
        None => Ok(cut),
    }
}

} // verus!
