//! The PASCAL VOC dialect: boxes in absolute pixels, written as whole numbers or with a
//! fraction.
use crate::annotation;
use crate::annotation::{is_stable_sort, object_views, sort_by_name, Annotation, ObjectView};
use crate::decimal::{
    decimal_units, digit_run, exponent, is_number, layout, magnitude, mantissa, parse_decimal,
    pow10, shifted, LIMIT, ONE,
};
use crate::text::{all_digits, decimal_digits, digits_value, is_digit, lemma_decimal_digits};
use vstd::prelude::*;

verus! {

/// One annotation file as it is written.
#[derive(Debug, PartialEq, Eq)]
pub struct PascalVoc {
    pub folder: String,
    pub filename: String,
    pub size: Size,
    pub objects: Option<Vec<Object>>,
}

/// The image's size as the file gives it.
#[derive(Debug, PartialEq, Eq)]
pub struct Size {
    pub width: String,
    pub height: String,
    pub depth: String,
}

/// A pixel coordinate. Files write it as a whole number or with a fraction; it is held
/// as a whole number.
#[derive(Debug, Clone, Copy, PartialEq, Eq, Structural)]
pub struct CoordVal(pub u32);

/// The token is not a number.
#[derive(Debug, Clone, Copy, PartialEq, Eq, Structural)]
pub struct InvalidCoordinate;

/// The pixel that a token stands for: the number it writes, its fraction dropped, no less
/// than 0 and no more than `u32::MAX`. Nothing where the token writes no number.
pub open spec fn coordinate(token: Seq<char>) -> Option<u32> {
    match decimal_units(token) {
        None => None,
        Some(units) => Some(
            if units <= 0 {
                0u32
            } else if units / (ONE as int) >= u32::MAX {
                u32::MAX
            } else {
                (units / (ONE as int)) as u32
            },
        ),
    }
}

impl CoordVal {
    /// Reads a coordinate. It fails exactly when `s` writes no number.
    pub fn from_str(s: &str) -> (r: Result<CoordVal, InvalidCoordinate>)
        ensures
            match r {
                Ok(c) => coordinate(s@) == Some(c.0),
                Err(_) => coordinate(s@) is None,
            },
    {
        match parse_decimal(s) {
            None => Err(InvalidCoordinate),
            Some(d) => {
                let units = d.units();
                if units <= 0 {
                    Ok(CoordVal(0))
                } else {
                    let whole = units as u128 / ONE;
                    if whole >= u32::MAX as u128 {
                        Ok(CoordVal(u32::MAX))
                    } else {
                        Ok(CoordVal(whole as u32))
                    }
                }
            },
        }
    }
}

impl core::str::FromStr for CoordVal {
    type Err = InvalidCoordinate;

    /// Reads a coordinate, as `CoordVal::from_str` does.
    fn from_str(s: &str) -> (r: Result<Self, Self::Err>)
        ensures
            match r {
                Ok(c) => coordinate(s@) == Some(c.0),
                Err(_) => coordinate(s@) is None,
            },
    {
        CoordVal::from_str(s)
    }
}

/// In a text of digits alone every run of digits goes to the end.
proof fn lemma_digit_run_all(s: Seq<char>, from: int)
    requires
        0 <= from <= s.len(),
        all_digits(s),
    ensures
        digit_run(s, from) == s.len(),
    decreases s.len() - from,
{
    if from < s.len() {
        lemma_digit_run_all(s, from + 1);
    }
}

/// Ten to the power 18 is `ONE`.
proof fn lemma_pow10_18()
    ensures
        pow10(18) == ONE,
{
    reveal_with_fuel(pow10, 19);
}

/// A token of digits alone stands for the number it writes, or for `u32::MAX` where that
/// is more.
pub proof fn lemma_coordinate_of_digits(token: Seq<char>)
    requires
        token.len() > 0,
        all_digits(token),
    ensures
        coordinate(token) == Some(
            if digits_value(token) >= u32::MAX {
                u32::MAX
            } else {
                digits_value(token) as u32
            },
        ),
{
    lemma_digit_run_all(token, 0);
    lemma_digit_run_all(token, token.len() as int);
    let l = layout(token);
    assert(is_digit(token[0]));
    assert(l.int_start == 0 && l.int_end == token.len());
    assert(l.frac_start == token.len() && l.frac_end == token.len());
    assert(!l.has_exponent && l.exp_start == token.len() && l.exp_end == token.len());
    assert(is_number(token));
    assert(token.subrange(0, token.len() as int) =~= token);
    assert(token.subrange(token.len() as int, token.len() as int) =~= Seq::<char>::empty());
    assert(mantissa(token) =~= token);
    assert(exponent(token) == 0);
    lemma_pow10_18();
    let v = digits_value(token);
    assert(shifted(token, token.len() as int + 18) == v * ONE);
    let m = magnitude(token);
    if v * ONE < LIMIT {
        assert(m == v * ONE);
        assert((v * ONE) / (ONE as int) == v) by (nonlinear_arith);
        assert(v < 4_294_967_296) by (nonlinear_arith)
            requires
                v * 1_000_000_000_000_000_000 < 4_294_967_296_000_000_000_000_000_000,
        ;
    } else {
        assert(m == LIMIT);
        assert(v >= 4_294_967_296) by (nonlinear_arith)
            requires
                v * 1_000_000_000_000_000_000 >= 4_294_967_296_000_000_000_000_000_000,
        ;
    }
}

/// Reading a coordinate undoes writing one: the shortest writing of `n` stands for `n`.
/// So a coordinate that was read, written out and read again is the same coordinate.
pub proof fn lemma_coordinate_round_trip(n: u32)
    ensures
        coordinate(decimal_digits(n as nat)) == Some(n),
        forall|token: Seq<char>|
            coordinate(token) == Some(n) ==> coordinate(decimal_digits(n as nat)) == #[trigger] coordinate(token),
{
    lemma_decimal_digits(n as nat);
    lemma_coordinate_of_digits(decimal_digits(n as nat));
}

/// A box as the file gives it.
#[derive(Debug, Clone, Copy, PartialEq, Eq, Structural)]
pub struct Bndbox {
    pub xmin: CoordVal,
    pub ymin: CoordVal,
    pub xmax: CoordVal,
    pub ymax: CoordVal,
}

/// A labelled box as the file gives it.
#[derive(Debug, PartialEq, Eq)]
pub struct Object {
    pub name: String,
    pub bndbox: Bndbox,
}

/// The canonical object that an object of the file stands for.
pub open spec fn canonical(object: Object) -> ObjectView {
    ObjectView {
        name: object.name@,
        bndbox: annotation::Bndbox {
            xmin: object.bndbox.xmin.0,
            ymin: object.bndbox.ymin.0,
            xmax: object.bndbox.xmax.0,
            ymax: object.bndbox.ymax.0,
        },
    }
}

/// The canonical objects of a file, in the order of the file.
pub open spec fn canonical_objects(pascal_voc: PascalVoc) -> Seq<ObjectView> {
    match pascal_voc.objects {
        None => Seq::empty(),
        Some(objects) => objects@.map_values(|o: Object| canonical(o)),
    }
}

/// What the conversion gives is stated on `from` itself, over the views of the file and
/// of the annotation.
impl vstd::std_specs::convert::FromSpecImpl<PascalVoc> for Annotation {
    open spec fn obeys_from_spec() -> bool {
        false
    }

    open spec fn from_spec(pascal_voc: PascalVoc) -> Annotation {
        Annotation { folder: pascal_voc.folder, filename: pascal_voc.filename, objects: None }
    }
}

impl From<PascalVoc> for Annotation {
    /// The canonical annotation of a file: its folder and file name, and its objects
    /// sorted by label, those of one label in the order of the file.
    fn from(pascal_voc: PascalVoc) -> (a: Annotation)
        ensures
            a.folder == pascal_voc.folder,
            a.filename == pascal_voc.filename,
            a.objects is Some <==> pascal_voc.objects is Some,
            is_stable_sort(a@.objects, canonical_objects(pascal_voc)),
    {
        let ghost all = canonical_objects(pascal_voc);
        let objects = match pascal_voc.objects {
            Some(objects) => {
                let mut converted: Vec<annotation::Object> = Vec::new();
                let mut i: usize = 0;
                while i < objects.len()
                    invariant
                        i <= objects.len(),
                        all == objects@.map_values(|o: Object| canonical(o)),
                        object_views(converted@) == all.take(i as int),
                    decreases objects.len() - i,
                {
                    let o = &objects[i];
                    let object = annotation::Object {
                        name: o.name.clone(),
                        bndbox: annotation::Bndbox {
                            xmin: o.bndbox.xmin.0,
                            ymin: o.bndbox.ymin.0,
                            xmax: o.bndbox.xmax.0,
                            ymax: o.bndbox.ymax.0,
                        },
                    };
                    assert(all.take(i as int).push(all[i as int]) =~= all.take(i + 1));
                    converted.push(object);
                    i += 1;
                }
                assert(all.take(i as int) =~= all);
                Some(sort_by_name(converted))
            },
            None => {
                None
            },
        };
        Annotation { folder: pascal_voc.folder, filename: pascal_voc.filename, objects }
    }
}

} // verus!
