//! The YOLO dialect: one object per line, a class number and a box by its centre and
//! size, as fractions of the image.
use crate::annotation;
use crate::annotation::{is_stable_sort, object_views, sort_by_name, Annotation, ObjectView};
use crate::decimal::{decimal_units, read_decimal, Decimal, LIMIT, ONE};
use crate::annotation::string_views;
use crate::text::{
    chars_of, chars_views, decimal_chars, decimal_digits, lemma_words_nonempty, parse_u32, split,
    split_chars, split_words, string_of, uint_value, words,
};
use vstd::prelude::*;

verus! {

/// The size of an image in pixels.
#[derive(Debug, Clone, Copy, PartialEq, Eq, Structural)]
pub struct ImageSize {
    pub width: usize,
    pub height: usize,
}

/// An object as a line gives it: its label, the centre of its box and the size of its
/// box, as fractions of the image's width and height.
#[derive(Debug, Clone, PartialEq, Eq)]
pub struct Object {
    pub name: String,
    pub x: Decimal,
    pub y: Decimal,
    pub width: Decimal,
    pub height: Decimal,
}

/// One label file, with the image it belongs to.
#[derive(Debug, Clone, PartialEq, Eq)]
pub struct Yolo {
    pub folder: String,
    pub filename: String,
    pub image_size: ImageSize,
    pub objects: Option<Vec<Object>>,
}

/// A line of the file is no object. `line` counts the lines of the file from 0.
#[derive(Debug, Clone, Copy, PartialEq, Eq, Structural)]
pub struct InvalidAnnotation {
    pub line: usize,
}

/// The numbers of one line.
pub struct Record {
    pub class_id: u32,
    pub x: int,
    pub y: int,
    pub width: int,
    pub height: int,
}

/// Whether a line holds an object: it is neither blank nor a comment, which begins
/// with `#`.
pub open spec fn is_entry(line: Seq<char>) -> bool {
    words(line).len() > 0 && words(line)[0][0] != '#'
}

/// The numbers that the words of a line give: the first five words, a class number and
/// four numbers. Nothing where there are fewer words or one of them is no such number.
pub open spec fn record_from(w: Seq<Seq<char>>) -> Option<Record> {
    if w.len() >= 5 && uint_value(w[0]) is Some && decimal_units(w[1]) is Some && decimal_units(
        w[2],
    ) is Some && decimal_units(w[3]) is Some && decimal_units(w[4]) is Some {
        Some(
            Record {
                class_id: uint_value(w[0]).unwrap(),
                x: decimal_units(w[1]).unwrap(),
                y: decimal_units(w[2]).unwrap(),
                width: decimal_units(w[3]).unwrap(),
                height: decimal_units(w[4]).unwrap(),
            },
        )
    } else {
        None
    }
}

/// The numbers that a line gives.
pub open spec fn record_of(line: Seq<char>) -> Option<Record> {
    record_from(words(line))
}

/// The lines of a file that hold objects, in order.
pub open spec fn entries(src: Seq<char>) -> Seq<Seq<char>> {
    split(src, '\n').filter(|line: Seq<char>| is_entry(line))
}

/// Whether `object` holds the numbers of `record`.
pub open spec fn holds_record(object: Object, record: Record) -> bool {
    &&& object.x@ == record.x
    &&& object.y@ == record.y
    &&& object.width@ == record.width
    &&& object.height@ == record.height
}

/// The objects of a label file, absent or empty alike.
pub open spec fn objects_of(yolo: Yolo) -> Seq<Object> {
    match yolo.objects {
        None => Seq::empty(),
        Some(objects) => objects@,
    }
}

/// Reads the numbers of one line from its words.
fn read_record(w: &Vec<Vec<char>>) -> (r: Option<(u32, Decimal, Decimal, Decimal, Decimal)>)
    ensures
        match r {
            None => record_from(chars_views(w@)) is None,
            Some((class_id, x, y, width, height)) => record_from(chars_views(w@)) == Some(
                Record { class_id, x: x@, y: y@, width: width@, height: height@ },
            ),
        },
{
    if w.len() < 5 {
        return None;
    }
    let class_id = match parse_u32(&w[0]) {
        Some(v) => v,
        None => {
            return None;
        },
    };
    let x = match read_decimal(&w[1]) {
        Some(v) => v,
        None => {
            return None;
        },
    };
    let y = match read_decimal(&w[2]) {
        Some(v) => v,
        None => {
            return None;
        },
    };
    let width = match read_decimal(&w[3]) {
        Some(v) => v,
        None => {
            return None;
        },
    };
    let height = match read_decimal(&w[4]) {
        Some(v) => v,
        None => {
            return None;
        },
    };
    Some((class_id, x, y, width, height))
}

/// Reads a label file. Every line that is neither blank nor a comment must give an
/// object: a class number and four numbers, separated by white space; what follows them
/// on the line is not read. The objects come in the order of their lines, each named by
/// `class_id_to_name` from its class number. A file without objects is read as such,
/// with no list of objects. Reading fails at the first line that should give an object
/// and does not.
pub fn parse_yolo<F: Fn(u32) -> String>(
    folder: &str,
    filename: &str,
    image_size: &ImageSize,
    class_id_to_name: F,
    src: &str,
) -> (r: Result<Yolo, InvalidAnnotation>)
    requires
        forall|class_id: u32| call_requires(class_id_to_name, (class_id,)),
    ensures
        r is Ok <==> forall|i: int|
            0 <= i < entries(src@).len() ==> record_of(#[trigger] entries(src@)[i]) is Some,
        r matches Ok(yolo) ==> {
            &&& yolo.folder@ == folder@
            &&& yolo.filename@ == filename@
            &&& yolo.image_size == *image_size
            &&& yolo.objects is Some <==> entries(src@).len() > 0
            &&& objects_of(yolo).len() == entries(src@).len()
            &&& forall|i: int|
                0 <= i < entries(src@).len() ==> {
                    &&& holds_record(
                        #[trigger] objects_of(yolo)[i],
                        record_of(entries(src@)[i]).unwrap(),
                    )
                    &&& call_ensures(
                        class_id_to_name,
                        (record_of(entries(src@)[i]).unwrap().class_id,),
                        objects_of(yolo)[i].name,
                    )
                }
        },
        r matches Err(e) ==> {
            let lines = split(src@, '\n');
            &&& e.line < lines.len()
            &&& is_entry(lines[e.line as int])
            &&& record_of(lines[e.line as int]) is None
            &&& forall|j: int|
                0 <= j < e.line && is_entry(#[trigger] lines[j]) ==> record_of(lines[j]) is Some
        },
{
    let chars = chars_of(src);
    let lines = split_chars(&chars, '\n');
    let ghost all = split(src@, '\n');
    let ghost pred = |line: Seq<char>| is_entry(line);
    let mut objects: Vec<Object> = Vec::new();
    let mut i: usize = 0;
    while i < lines.len()
        invariant
            i <= lines.len(),
            all == chars_views(lines@),
            all == split(src@, '\n'),
            pred == |line: Seq<char>| is_entry(line),
            forall|class_id: u32| call_requires(class_id_to_name, (class_id,)),
            objects.len() == all.take(i as int).filter(pred).len(),
            forall|j: int| 0 <= j < i && is_entry(#[trigger] all[j]) ==> record_of(all[j]) is Some,
            forall|k: int|
                0 <= k < objects.len() ==> {
                    &&& record_of(#[trigger] all.take(i as int).filter(pred)[k]) is Some
                    &&& holds_record(
                        objects[k],
                        record_of(all.take(i as int).filter(pred)[k]).unwrap(),
                    )
                    &&& call_ensures(
                        class_id_to_name,
                        (record_of(all.take(i as int).filter(pred)[k]).unwrap().class_id,),
                        objects[k].name,
                    )
                },
        decreases lines.len() - i,
    {
        let w = split_words(&lines[i]);
        let ghost line = all[i as int];
        proof {
            lemma_words_nonempty(line);
            assert(all.take(i + 1) =~= all.take(i as int).push(line));
            all.take(i as int).lemma_filter_push(line, pred);
        }
        if w.len() > 0 {
            if w[0][0] != '#' {
                match read_record(&w) {
                    None => {
                        proof {
                            lemma_entry_kept(all, i as int);
                        }
                        return Err(InvalidAnnotation { line: i });
                    },
                    Some((class_id, x, y, width, height)) => {
                        let name = class_id_to_name(class_id);
                        objects.push(Object { name, x, y, width, height });
                    },
                }
            }
        }
        i += 1;
    }
    assert(all.take(i as int) =~= all);
    let yolo = Yolo {
        folder: folder.to_owned(),
        filename: filename.to_owned(),
        image_size: *image_size,
        objects: if objects.len() == 0 {
            None
        } else {
            Some(objects)
        },
    };
    Ok(yolo)
}

/// A line that holds an object is among the entries.
proof fn lemma_entry_kept(lines: Seq<Seq<char>>, i: int)
    requires
        0 <= i < lines.len(),
        is_entry(lines[i]),
    ensures
        lines.filter(|line: Seq<char>| is_entry(line)).contains(lines[i]),
{
    lines.lemma_filter_contains(|line: Seq<char>| is_entry(line), i);
}

/// `numerator / denominator` to the nearest whole number, a half taken upwards; 0 where
/// the numerator is not positive.
pub open spec fn rounded(numerator: int, denominator: int) -> int {
    if numerator <= 0 {
        0
    } else {
        numerator / denominator + if 2 * (numerator % denominator) >= denominator {
            1int
        } else {
            0int
        }
    }
}

/// The pixel count `v`, or the largest that is held.
pub open spec fn to_pixel(v: int) -> u32 {
    if v >= u32::MAX {
        u32::MAX
    } else {
        v as u32
    }
}

/// The corner of a box along one axis: its centre less half its size, as a fraction of
/// `extent` pixels, to the nearest pixel and no less than 0.
pub open spec fn corner(center: int, size: int, extent: usize) -> u32 {
    to_pixel(rounded((2 * center - size) * extent, 2 * ONE))
}

/// The size of a box along one axis, as a fraction of `extent` pixels, to the nearest
/// pixel and no less than 0.
pub open spec fn side(size: int, extent: usize) -> u32 {
    to_pixel(rounded(size * extent, ONE as int))
}

/// The box of an object in pixels of an image of the size `size`. The upper left corner
/// and the sides are each rounded, and the lower right corner is their sum.
pub open spec fn pixel_box(object: Object, size: ImageSize) -> annotation::Bndbox {
    pixel_box_of(object.x@, object.y@, object.width@, object.height@, size)
}

/// The box in pixels of a box given by its centre `x`, `y` and its size, in units.
pub open spec fn pixel_box_of(x: int, y: int, width: int, height: int, size: ImageSize) -> annotation::Bndbox {
    let xmin = corner(x, width, size.width);
    let ymin = corner(y, height, size.height);
    annotation::Bndbox {
        xmin,
        ymin,
        xmax: to_pixel(xmin + side(width, size.width)),
        ymax: to_pixel(ymin + side(height, size.height)),
    }
}

/// The canonical objects of a label file, in the order of the file.
pub open spec fn canonical_objects(yolo: Yolo) -> Seq<ObjectView> {
    objects_of(yolo).map_values(
        |o: Object| ObjectView { name: o.name@, bndbox: pixel_box(o, yolo.image_size) },
    )
}

/// `numerator * extent / denominator`, rounded, as a pixel count.
fn scale(numerator: i128, extent: usize, denominator: u128) -> (p: u32)
    requires
        numerator <= 3 * LIMIT,
        ONE <= denominator <= 2 * ONE,
    ensures
        p == to_pixel(rounded(numerator * extent, denominator as int)),
{
    if numerator <= 0 || extent == 0 {
        assert(numerator * extent <= 0) by (nonlinear_arith)
            requires
                numerator <= 0 || extent == 0,
                extent >= 0,
        ;
        return 0;
    }
    let n = numerator as u128;
    assert(n * extent > 0) by (nonlinear_arith)
        requires
            n > 0,
            extent > 0,
    ;
    match n.checked_mul(extent as u128) {
        None => {
            assert((n * extent) / (denominator as int) >= u32::MAX) by (nonlinear_arith)
                requires
                    n * extent > 0xffff_ffff_ffff_ffff_ffff_ffff_ffff_ffff,
                    0 < denominator <= 2_000_000_000_000_000_000,
            ;
            u32::MAX
        },
        Some(product) => {
            let q = product / denominator;
            let r = product % denominator;
            assert(2 * q <= product) by (nonlinear_arith)
                requires
                    q == product / denominator,
                    denominator >= 2,
            ;
            let v = if 2 * r >= denominator {
                q + 1
            } else {
                q
            };
            if v >= u32::MAX as u128 {
                u32::MAX
            } else {
                v as u32
            }
        },
    }
}

/// What the conversion gives is stated on `from` itself, over the views of the file and
/// of the annotation.
impl vstd::std_specs::convert::FromSpecImpl<Yolo> for Annotation {
    open spec fn obeys_from_spec() -> bool {
        false
    }

    open spec fn from_spec(yolo: Yolo) -> Annotation {
        Annotation { folder: yolo.folder, filename: yolo.filename, objects: None }
    }
}

impl From<Yolo> for Annotation {
    /// The canonical annotation of a label file: its folder and file name, and its
    /// objects with their boxes in pixels, sorted by label, those of one label in the
    /// order of the file.
    fn from(yolo: Yolo) -> (a: Annotation)
        ensures
            a.folder == yolo.folder,
            a.filename == yolo.filename,
            a.objects is Some <==> yolo.objects is Some,
            is_stable_sort(a@.objects, canonical_objects(yolo)),
    {
        let ghost all = canonical_objects(yolo);
        let size = yolo.image_size;
        let objects = match yolo.objects {
            Some(objects) => {
                let mut converted: Vec<annotation::Object> = Vec::new();
                let mut i: usize = 0;
                while i < objects.len()
                    invariant
                        i <= objects.len(),
                        all == objects@.map_values(
                            |o: Object| ObjectView { name: o.name@, bndbox: pixel_box(o, size) },
                        ),
                        object_views(converted@) == all.take(i as int),
                    decreases objects.len() - i,
                {
                    let o = &objects[i];
                    let x = o.x.units();
                    let y = o.y.units();
                    let width = o.width.units();
                    let height = o.height.units();
                    let xmin = scale(2 * x - width, size.width, 2 * ONE);
                    let ymin = scale(2 * y - height, size.height, 2 * ONE);
                    let xmax = xmin.saturating_add(scale(width, size.width, ONE));
                    let ymax = ymin.saturating_add(scale(height, size.height, ONE));
                    let object = annotation::Object {
                        name: o.name.clone(),
                        bndbox: annotation::Bndbox { xmin, ymin, xmax, ymax },
                    };
                    assert(all.take(i as int).push(all[i as int]) =~= all.take(i + 1));
                    converted.push(object);
                    i += 1;
                }
                assert(all.take(i as int) =~= all);
                Some(sort_by_name(converted))
            },
            None => {
                assert(all =~= Seq::<ObjectView>::empty());
                None
            },
        };
        Annotation { folder: yolo.folder, filename: yolo.filename, objects }
    }
}

/// The labels that a names file lists: its lines that are not empty, in order. The
/// number of a class is the place of its label, counted from 0.
pub open spec fn class_names(text: Seq<char>) -> Seq<Seq<char>> {
    split(text, '\n').filter(|line: Seq<char>| line.len() > 0)
}

/// Reads a names file.
pub fn parse_class_names(text: &str) -> (names: Vec<String>)
    ensures
        string_views(names@) == class_names(text@),
{
    let chars = chars_of(text);
    let lines = split_chars(&chars, '\n');
    let ghost all = split(text@, '\n');
    let ghost pred = |line: Seq<char>| line.len() > 0;
    let mut names: Vec<String> = Vec::new();
    let mut i: usize = 0;
    while i < lines.len()
        invariant
            i <= lines.len(),
            all == chars_views(lines@),
            pred == |line: Seq<char>| line.len() > 0,
            string_views(names@) == all.take(i as int).filter(pred),
        decreases lines.len() - i,
    {
        proof {
            assert(all.take(i + 1) =~= all.take(i as int).push(all[i as int]));
            all.take(i as int).lemma_filter_push(all[i as int], pred);
        }
        if lines[i].len() > 0 {
            let name = string_of(&lines[i]);
            names.push(name);
        }
        i += 1;
    }
    assert(all.take(i as int) =~= all);
    names
}

/// The label of a class: the one listed at its number, or `class_` and the number where
/// none is.
pub open spec fn class_label(names: Seq<Seq<char>>, class_id: u32) -> Seq<char> {
    if class_id < names.len() {
        names[class_id as int]
    } else {
        seq!['c', 'l', 'a', 's', 's', '_'] + decimal_digits(class_id as nat)
    }
}

/// The label of the class `class_id`.
pub fn class_name(names: &Vec<String>, class_id: u32) -> (name: String)
    ensures
        name@ == class_label(string_views(names@), class_id),
{
    if (class_id as usize) < names.len() {
        names[class_id as usize].clone()
    } else {
        let mut label: Vec<char> = vec!['c', 'l', 'a', 's', 's', '_'];
        let mut digits = decimal_chars(class_id as usize);
        label.append(&mut digits);
        string_of(&label)
    }
}

/// The canonical objects that the text of a label file gives, in the order of its
/// lines, for an image of the size `size` and the class labels `names`.
pub open spec fn objects_in(src: Seq<char>, names: Seq<Seq<char>>, size: ImageSize) -> Seq<
    ObjectView,
> {
    entries(src).map_values(
        |line: Seq<char>|
            {
                let record = record_of(line).unwrap();
                ObjectView {
                    name: class_label(names, record.class_id),
                    bndbox: pixel_box_of(record.x, record.y, record.width, record.height, size),
                }
            },
    )
}

/// Whether the text of a label file can be read: every line that holds an object
/// gives its numbers.
pub open spec fn readable(src: Seq<char>) -> bool {
    forall|i: int| 0 <= i < entries(src).len() ==> record_of(#[trigger] entries(src)[i]) is Some
}

/// Reads a label file into a canonical annotation: its objects named by their class,
/// their boxes in pixels, sorted by label, those of one label in the order of the file.
/// Nothing comes back exactly when the text cannot be read.
pub fn read_annotation(
    folder: &str,
    filename: &str,
    image_size: &ImageSize,
    names: &Vec<String>,
    src: &str,
) -> (r: Option<Annotation>)
    ensures
        r is Some <==> readable(src@),
        r matches Some(a) ==> {
            &&& a.folder@ == folder@
            &&& a.filename@ == filename@
            &&& a.objects is Some <==> entries(src@).len() > 0
            &&& is_stable_sort(a@.objects, objects_in(src@, string_views(names@), *image_size))
        },
{
    let name_of = |class_id: u32| -> (name: String)
        ensures
            name@ == class_label(string_views(names@), class_id),
        { class_name(names, class_id) };
    match parse_yolo(folder, filename, image_size, name_of, src) {
        Err(_) => None,
        Ok(yolo) => {
            proof {
                let given = objects_in(src@, string_views(names@), *image_size);
                assert(canonical_objects(yolo) =~= given);
            }
            Some(Annotation::from(yolo))
        },
    }
}

} // verus!
