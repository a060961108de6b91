use imgcrop::annotation;
use imgcrop::annotation::Annotation;
use imgcrop::pascal::{Bndbox, CoordVal, InvalidCoordinate, Object, PascalVoc, Size};
use serde::de::{Deserialize, Deserializer, Error, IgnoredAny, MapAccess, Visitor};
use std::fmt;

fn filter_objects(objects: Option<Vec<Object>>, labels: &Option<Vec<String>>) -> Option<Vec<Object>> {
    match objects {
        Some(objects) => {
            let filtered: Vec<Object> = objects
                .into_iter()
                .filter(|object| {
                    if let Some(labels) = labels {
                        labels.contains(&object.name)
                    } else {
                        true
                    }
                })
                .collect();
            if filtered.is_empty() {
                None
            } else {
                Some(filtered)
            }
        }
        None => None,
    }
}

/// A coordinate as a file writes it.
struct XmlCoord(CoordVal);

impl<'de> Deserialize<'de> for XmlCoord {
    fn deserialize<D: Deserializer<'de>>(deserializer: D) -> Result<Self, D::Error> {
        let token = String::deserialize(deserializer)?;
        match CoordVal::from_str(&token) {
            Ok(value) => Ok(XmlCoord(value)),
            Err(InvalidCoordinate) => Err(D::Error::custom(format!("invalid coordinate '{}'", token))),
        }
    }
}

struct XmlBndbox(Bndbox);

struct BndboxVisitor;

impl<'de> Visitor<'de> for BndboxVisitor {
    type Value = XmlBndbox;

    fn expecting(&self, formatter: &mut fmt::Formatter) -> fmt::Result {
        formatter.write_str("a bndbox")
    }

    fn visit_map<A: MapAccess<'de>>(self, mut map: A) -> Result<XmlBndbox, A::Error> {
        let (mut xmin, mut ymin, mut xmax, mut ymax) = (None, None, None, None);
        while let Some(key) = map.next_key::<String>()? {
            match key.as_str() {
                "xmin" => xmin = Some(map.next_value::<XmlCoord>()?.0),
                "ymin" => ymin = Some(map.next_value::<XmlCoord>()?.0),
                "xmax" => xmax = Some(map.next_value::<XmlCoord>()?.0),
                "ymax" => ymax = Some(map.next_value::<XmlCoord>()?.0),
                _ => {
                    map.next_value::<IgnoredAny>()?;
                }
            }
        }
        Ok(XmlBndbox(Bndbox {
            xmin: xmin.ok_or_else(|| A::Error::missing_field("xmin"))?,
            ymin: ymin.ok_or_else(|| A::Error::missing_field("ymin"))?,
            xmax: xmax.ok_or_else(|| A::Error::missing_field("xmax"))?,
            ymax: ymax.ok_or_else(|| A::Error::missing_field("ymax"))?,
        }))
    }
}

impl<'de> Deserialize<'de> for XmlBndbox {
    fn deserialize<D: Deserializer<'de>>(deserializer: D) -> Result<Self, D::Error> {
        deserializer.deserialize_struct("Bndbox", &["xmin", "ymin", "xmax", "ymax"], BndboxVisitor)
    }
}

struct XmlObject(Object);

struct ObjectVisitor;

impl<'de> Visitor<'de> for ObjectVisitor {
    type Value = XmlObject;

    fn expecting(&self, formatter: &mut fmt::Formatter) -> fmt::Result {
        formatter.write_str("an object")
    }

    fn visit_map<A: MapAccess<'de>>(self, mut map: A) -> Result<XmlObject, A::Error> {
        let (mut name, mut bndbox) = (None, None);
        while let Some(key) = map.next_key::<String>()? {
            match key.as_str() {
                "name" => name = Some(map.next_value::<String>()?),
                "bndbox" => bndbox = Some(map.next_value::<XmlBndbox>()?.0),
                _ => {
                    map.next_value::<IgnoredAny>()?;
                }
            }
        }
        Ok(XmlObject(Object {
            name: name.ok_or_else(|| A::Error::missing_field("name"))?,
            bndbox: bndbox.ok_or_else(|| A::Error::missing_field("bndbox"))?,
        }))
    }
}

impl<'de> Deserialize<'de> for XmlObject {
    fn deserialize<D: Deserializer<'de>>(deserializer: D) -> Result<Self, D::Error> {
        deserializer.deserialize_struct("Object", &["name", "bndbox"], ObjectVisitor)
    }
}

struct XmlSize(Size);

struct SizeVisitor;

impl<'de> Visitor<'de> for SizeVisitor {
    type Value = XmlSize;

    fn expecting(&self, formatter: &mut fmt::Formatter) -> fmt::Result {
        formatter.write_str("a size")
    }

    fn visit_map<A: MapAccess<'de>>(self, mut map: A) -> Result<XmlSize, A::Error> {
        let (mut width, mut height, mut depth) = (None, None, None);
        while let Some(key) = map.next_key::<String>()? {
            match key.as_str() {
                "width" => width = Some(map.next_value::<String>()?),
                "height" => height = Some(map.next_value::<String>()?),
                "depth" => depth = Some(map.next_value::<String>()?),
                _ => {
                    map.next_value::<IgnoredAny>()?;
                }
            }
        }
        Ok(XmlSize(Size {
            width: width.ok_or_else(|| A::Error::missing_field("width"))?,
            height: height.ok_or_else(|| A::Error::missing_field("height"))?,
            depth: depth.ok_or_else(|| A::Error::missing_field("depth"))?,
        }))
    }
}

impl<'de> Deserialize<'de> for XmlSize {
    fn deserialize<D: Deserializer<'de>>(deserializer: D) -> Result<Self, D::Error> {
        deserializer.deserialize_struct("Size", &["width", "height", "depth"], SizeVisitor)
    }
}

struct XmlPascalVoc(PascalVoc);

struct PascalVocVisitor;

impl<'de> Visitor<'de> for PascalVocVisitor {
    type Value = XmlPascalVoc;

    fn expecting(&self, formatter: &mut fmt::Formatter) -> fmt::Result {
        formatter.write_str("an annotation")
    }

    fn visit_map<A: MapAccess<'de>>(self, mut map: A) -> Result<XmlPascalVoc, A::Error> {
        let (mut folder, mut filename, mut size, mut objects) = (None, None, None, None);
        while let Some(key) = map.next_key::<String>()? {
            match key.as_str() {
                "folder" => folder = Some(map.next_value::<String>()?),
                "filename" => filename = Some(map.next_value::<String>()?),
                "size" => size = Some(map.next_value::<XmlSize>()?.0),
                "object" => {
                    objects = map
                        .next_value::<Option<Vec<XmlObject>>>()?
                        .map(|list| list.into_iter().map(|object| object.0).collect())
                }
                _ => {
                    map.next_value::<IgnoredAny>()?;
                }
            }
        }
        Ok(XmlPascalVoc(PascalVoc {
            folder: folder.ok_or_else(|| A::Error::missing_field("folder"))?,
            filename: filename.ok_or_else(|| A::Error::missing_field("filename"))?,
            size: size.ok_or_else(|| A::Error::missing_field("size"))?,
            objects,
        }))
    }
}

impl<'de> Deserialize<'de> for XmlPascalVoc {
    fn deserialize<D: Deserializer<'de>>(deserializer: D) -> Result<Self, D::Error> {
        deserializer.deserialize_struct(
            "PascalVoc",
            &["folder", "filename", "size", "object"],
            PascalVocVisitor,
        )
    }
}

fn parse_xml(src: &str) -> Result<PascalVoc, serde_xml_rs::Error> {
    serde_xml_rs::from_str::<XmlPascalVoc>(src).map(|doc| doc.0)
}

const XML0: &str = r#"
        <annotation>
            <folder>imgs</folder>
            <filename>IMG_TEST.png</filename>
            <size>
                <width>400</width>
                <height>300</height>
                <depth>3</depth>
            </size>
        </annotation>
    "#;

const XML1: &str = r#"
        <annotation>
            <folder>imgs</folder>
            <filename>IMG_TEST.png</filename>
            <size>
                <width>400</width>
                <height>300</height>
                <depth>3</depth>
            </size>
            <object>
                <name>FOO</name>
                <bndbox>
                    <xmin>55.0</xmin>
                    <ymin>145.0</ymin>
                    <xmax>150.0</xmax>
                    <ymax>220.0</ymax>
                </bndbox>
            </object>
        </annotation>
    "#;

const XML2: &str = r#"
        <annotation>
        <folder>imgs</folder>
        <filename>IMG_TEST.png</filename>
        <size>
            <width>400</width>
            <height>300</height>
            <depth>3</depth>
        </size>
        <object>
            <name>FOO</name>
            <bndbox>
                <xmin>55</xmin>
                <ymin>145</ymin>
                <xmax>150</xmax>
                <ymax>220</ymax>
            </bndbox>
        </object>
        <object>
            <name>PENIAGONE_VITREA</name>
            <pose>Unspecified</pose>
            <truncated>0</truncated>
            <occluded>0</occluded>
            <difficult>0</difficult>
            <bndbox>
                <xmin>55.0</xmin>
                <ymin>145</ymin>
                <xmax>150</xmax>
                <ymax>220.1</ymax>
            </bndbox>
        </object>
    </annotation>
    "#;

fn coord(token: &str) -> CoordVal {
    CoordVal::from_str(token).unwrap()
}

fn object(name: &str, tokens: [&str; 4]) -> Object {
    Object {
        name: name.to_string(),
        bndbox: Bndbox {
            xmin: coord(tokens[0]),
            ymin: coord(tokens[1]),
            xmax: coord(tokens[2]),
            ymax: coord(tokens[3]),
        },
    }
}

fn document(objects: Option<Vec<Object>>) -> PascalVoc {
    PascalVoc {
        folder: "imgs".to_string(),
        filename: "IMG_TEST.png".to_string(),
        size: Size {
            width: "400".to_string(),
            height: "300".to_string(),
            depth: "3".to_string(),
        },
        objects,
    }
}

fn expected_pascal_voc2() -> PascalVoc {
    PascalVoc {
        folder: "imgs".to_string(),
        filename: "IMG_TEST.png".to_string(),
        size: Size {
            width: "400".to_string(),
            height: "300".to_string(),
            depth: "3".to_string(),
        },
        objects: Some(vec![
            Object {
                name: "FOO".to_string(),
                bndbox: Bndbox {
                    xmin: CoordVal(55),
                    ymin: CoordVal(145),
                    xmax: CoordVal(150),
                    ymax: CoordVal(220),
                },
            },
            Object {
                name: "PENIAGONE_VITREA".to_string(),
                bndbox: Bndbox {
                    xmin: CoordVal(55),
                    ymin: CoordVal(145),
                    xmax: CoordVal(150),
                    ymax: CoordVal(220),
                },
            },
        ]),
    }
}

const NO_LABELS: Option<Vec<String>> = None;

#[test]
fn no_objects() {
    let pascal_voc = parse_xml(XML0).unwrap();
    let objects = filter_objects(pascal_voc.objects, &NO_LABELS);
    assert_eq!(objects, None);
}

#[test]
fn one_object_bndbox_with_floats() {
    let doc: PascalVoc = parse_xml(XML1).unwrap();
    assert_eq!(
        doc,
        PascalVoc {
            folder: "imgs".to_string(),
            filename: "IMG_TEST.png".to_string(),
            size: Size {
                width: "400".to_string(),
                height: "300".to_string(),
                depth: "3".to_string(),
            },
            objects: Some(vec![Object {
                name: "FOO".to_string(),
                bndbox: Bndbox {
                    xmin: CoordVal(55),
                    ymin: CoordVal(145),
                    xmax: CoordVal(150),
                    ymax: CoordVal(220),
                },
            },]),
        }
    );
}

#[test]
fn multiple_objects() {
    let pascal_voc = parse_xml(XML2).unwrap();
    assert_eq!(pascal_voc, expected_pascal_voc2());
}

#[test]
fn filter_objects1() {
    let labels: Option<Vec<String>> = Some(vec!["PENIAGONE_VITREA".to_string()]);
    let pascal_voc = parse_xml(XML2).unwrap();
    let pascal_voc = PascalVoc {
        objects: filter_objects(pascal_voc.objects, &labels),
        ..pascal_voc
    };
    assert_eq!(
        pascal_voc,
        PascalVoc {
            folder: "imgs".to_string(),
            filename: "IMG_TEST.png".to_string(),
            size: Size {
                width: "400".to_string(),
                height: "300".to_string(),
                depth: "3".to_string(),
            },
            objects: Some(vec![Object {
                name: "PENIAGONE_VITREA".to_string(),
                bndbox: Bndbox {
                    xmin: CoordVal(55),
                    ymin: CoordVal(145),
                    xmax: CoordVal(150),
                    ymax: CoordVal(220),
                },
            },]),
        }
    );
}

#[test]
fn filter_objects2() {
    let labels: Option<Vec<String>> =
        Some(vec!["FOO".to_string(), "PENIAGONE_VITREA".to_string()]);
    let pascal_voc = parse_xml(XML2).unwrap();
    let pascal_voc = PascalVoc {
        objects: filter_objects(pascal_voc.objects, &labels),
        ..pascal_voc
    };
    assert_eq!(pascal_voc, expected_pascal_voc2());
}

#[test]
fn coordinates_drop_their_fraction() {
    assert_eq!(CoordVal::from_str("220.1"), Ok(CoordVal(220)));
    assert_eq!(CoordVal::from_str("220.9"), Ok(CoordVal(220)));
    assert_eq!(CoordVal::from_str("220.999999999999999999999"), Ok(CoordVal(220)));
    assert_eq!(CoordVal::from_str("55.0"), Ok(CoordVal(55)));
    assert_eq!(CoordVal::from_str("0.99"), Ok(CoordVal(0)));
    assert_eq!(CoordVal::from_str(".5"), Ok(CoordVal(0)));
    assert_eq!(CoordVal::from_str("7."), Ok(CoordVal(7)));
    assert_eq!(CoordVal::from_str("2.2e2"), Ok(CoordVal(220)));
    assert_eq!(CoordVal::from_str("2201E-1"), Ok(CoordVal(220)));
    assert_eq!(CoordVal::from_str("+12"), Ok(CoordVal(12)));
    assert_eq!(CoordVal::from_str("0012"), Ok(CoordVal(12)));
}

#[test]
fn coordinates_stay_within_the_pixel_range() {
    assert_eq!(CoordVal::from_str("-5"), Ok(CoordVal(0)));
    assert_eq!(CoordVal::from_str("-0.5"), Ok(CoordVal(0)));
    assert_eq!(CoordVal::from_str("4294967295"), Ok(CoordVal(u32::MAX)));
    assert_eq!(CoordVal::from_str("4294967294.9"), Ok(CoordVal(4294967294)));
    assert_eq!(CoordVal::from_str("4294967296"), Ok(CoordVal(u32::MAX)));
    assert_eq!(CoordVal::from_str("1e40"), Ok(CoordVal(u32::MAX)));
    assert_eq!(CoordVal::from_str("1e99999999999999999999999999999999999999999"), Ok(CoordVal(u32::MAX)));
    assert_eq!(CoordVal::from_str("0e99999999999999999999999999999999999999999"), Ok(CoordVal(0)));
    assert_eq!(CoordVal::from_str("1e-99999999999999999999999999999999999999999"), Ok(CoordVal(0)));
}

#[test]
fn coordinates_that_are_no_numbers_are_refused() {
    for token in ["", "abc", "12px", " 12", "12 ", "1,5", ".", "+", "-", "e5", "1e", "1e+", "1.2.3", "0x10", "inf", "NaN", "１２"] {
        assert_eq!(CoordVal::from_str(token), Err(InvalidCoordinate), "{:?}", token);
    }
}

#[test]
fn reading_a_written_coordinate_gives_it_back() {
    for n in [0u32, 1, 9, 10, 55, 220, 65535, 16777217, 4294967294, u32::MAX] {
        assert_eq!(CoordVal::from_str(&n.to_string()), Ok(CoordVal(n)));
    }
}

#[test]
fn pascal_objects_are_sorted_by_label() {
    let doc = document(Some(vec![
        object("b", ["1", "1", "2", "2"]),
        object("a", ["3", "3", "4", "4"]),
        object("B", ["5", "5", "6", "6"]),
        object("a", ["7", "7", "8", "8"]),
        object("ab", ["9", "9", "10", "10"]),
    ]));
    let annotation: Annotation = doc.into();
    assert_eq!(annotation.folder, "imgs");
    assert_eq!(annotation.filename, "IMG_TEST.png");
    let objects = annotation.objects.unwrap();
    let got: Vec<(&str, u32)> = objects.iter().map(|o| (o.name.as_str(), o.bndbox.xmin)).collect();
    assert_eq!(got, vec![("B", 5), ("a", 3), ("a", 7), ("ab", 9), ("b", 1)]);
    assert_eq!(objects[0].bndbox, annotation::Bndbox { xmin: 5, ymin: 5, xmax: 6, ymax: 6 });
}

#[test]
fn pascal_without_objects_has_none() {
    let annotation: Annotation = document(None).into();
    assert_eq!(annotation.objects, None);
    let annotation: Annotation = parse_xml(XML0).unwrap().into();
    assert_eq!(annotation.objects, None);
    assert_eq!(annotation.with_filtered_objects(&None), None);
}

#[test]
fn coordinates_agree_with_floats_where_floats_are_exact() {
    for whole in [0u32, 1, 7, 55, 145, 220, 1023, 4096, 65535, 1_000_000] {
        for fraction in ["", ".", ".0", ".5", ".25", ".125", ".75", ".875", ".000", ".5000"] {
            let token = format!("{}{}", whole, fraction);
            let float: f32 = token.parse().unwrap();
            assert_eq!(CoordVal::from_str(&token), Ok(CoordVal(float as u32)), "{:?}", token);
            let negative = format!("-{}", token);
            let float: f32 = negative.parse().unwrap();
            assert_eq!(CoordVal::from_str(&negative), Ok(CoordVal(float as u32)), "{:?}", negative);
        }
    }
    for token in ["1e3", "1.5e3", "12E2", "2.5e-1", "1e10", "4e9", "1e-3", "+3.5", "0.0e0"] {
        let float: f32 = token.parse().unwrap();
        assert_eq!(CoordVal::from_str(token), Ok(CoordVal(float as u32)), "{:?}", token);
    }
}

#[test]
fn coordinates_can_be_parsed_from_text() {
    assert_eq!("220.1".parse::<CoordVal>(), Ok(CoordVal(220)));
    assert_eq!("55".parse::<CoordVal>(), Ok(CoordVal(55)));
    assert_eq!("fifty".parse::<CoordVal>(), Err(InvalidCoordinate));
}

#[test]
fn pascal_file_to_filtered_annotation() {
    let annotation: Annotation = parse_xml(XML2).unwrap().into();
    let labels = Some(vec!["PENIAGONE_VITREA".to_string()]);
    let kept = annotation.with_filtered_objects(&labels).unwrap();
    assert_eq!(
        kept,
        Annotation {
            folder: "imgs".to_string(),
            filename: "IMG_TEST.png".to_string(),
            objects: Some(vec![annotation::Object {
                name: "PENIAGONE_VITREA".to_string(),
                bndbox: annotation::Bndbox { xmin: 55, ymin: 145, xmax: 150, ymax: 220 },
            }]),
        }
    );
}

#[test]
fn pascal_file_with_a_token_that_is_no_number_is_refused() {
    assert!(parse_xml(&XML1.replace("145.0", "abc")).is_err());
    assert!(parse_xml(&XML1.replace("<ymax>220.0</ymax>", "")).is_err());
    assert!(parse_xml(&XML1.replace("<filename>IMG_TEST.png</filename>", "")).is_err());
    assert!(parse_xml(&XML1.replace("</annotation>", "")).is_err());
}
