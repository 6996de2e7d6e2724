//! Lines of text read as image sizes and boxes.

use bbox_iou::binary32::Binary32;
use bbox_iou::formats::{
    parse_coco, parse_image_size, parse_pascal, read_pixels, BoxVariant, Field, Format,
    ImageSize, ParseError,
};
use bbox_iou::text::{chars_of, parse_u32, split_fields};

fn token(text: &str) -> Vec<char> {
    text.chars().collect()
}

fn tokens(texts: &[&str]) -> Vec<Vec<char>> {
    texts.iter().map(|t| token(t)).collect()
}

/// Reads a line of a normalized format: the library splits the line and
/// makes the box, the machine reads each field as a binary32 number.
fn parse_normalized(format: Format, text: &str) -> Result<BoxVariant, ParseError> {
    let readings: Vec<Option<u32>> = split_fields(text)
        .iter()
        .map(|t| t.iter().collect::<String>().parse::<f32>().ok().map(f32::to_bits))
        .collect();
    BoxVariant::from_readings(format, &readings)
}

fn malformed() -> ParseError {
    ParseError::MalformedInput { expected: 4 }
}

fn unread(field: Field) -> ParseError {
    ParseError::FieldParseError { field }
}

struct Stream(u64);

impl Stream {
    fn next(&mut self) -> u64 {
        let mut x = self.0;
        x ^= x << 13;
        x ^= x >> 7;
        x ^= x << 17;
        self.0 = x;
        x
    }

    fn text(&mut self, alphabet: &[char], longest: u64) -> String {
        let len = self.next() % (longest + 1);
        (0..len).map(|_| alphabet[(self.next() % alphabet.len() as u64) as usize]).collect()
    }
}

#[test]
fn chars_of_gives_every_character() {
    assert_eq!(chars_of(""), Vec::<char>::new());
    assert_eq!(chars_of("1 2"), vec!['1', ' ', '2']);
    assert_eq!(chars_of("é√1"), vec!['é', '√', '1']);
}

#[test]
fn split_gives_one_field_more_than_spaces() {
    assert_eq!(split_fields(""), tokens(&[""]));
    assert_eq!(split_fields("12"), tokens(&["12"]));
    assert_eq!(split_fields("1 2 3 4"), tokens(&["1", "2", "3", "4"]));
    assert_eq!(split_fields("1  2"), tokens(&["1", "", "2"]));
    assert_eq!(split_fields(" 1"), tokens(&["", "1"]));
    assert_eq!(split_fields("1 "), tokens(&["1", ""]));
    assert_eq!(split_fields(" "), tokens(&["", ""]));
    assert_eq!(split_fields("a\tb c"), tokens(&["a\tb", "c"]));
}

#[test]
fn split_agrees_with_std_split() {
    let alphabet = ['0', '1', '9', ' ', ' ', '+', '-', 'a', '.', 'é'];
    let mut stream = Stream(0x0123_4567_89ab_cdef);
    for _ in 0..20_000 {
        let text = stream.text(&alphabet, 12);
        let expected: Vec<Vec<char>> = text.split(' ').map(|t| t.chars().collect()).collect();
        assert_eq!(split_fields(&text), expected, "{:?}", text);
    }
}

#[test]
fn parse_u32_reads_decimal_numbers() {
    assert_eq!(parse_u32(&token("0")), Some(0));
    assert_eq!(parse_u32(&token("7")), Some(7));
    assert_eq!(parse_u32(&token("007")), Some(7));
    assert_eq!(parse_u32(&token("+7")), Some(7));
    assert_eq!(parse_u32(&token("+0")), Some(0));
    assert_eq!(parse_u32(&token("1234567890")), Some(1_234_567_890));
    assert_eq!(parse_u32(&token("4294967295")), Some(u32::MAX));
    assert_eq!(parse_u32(&token("0000000004294967295")), Some(u32::MAX));
}

#[test]
fn parse_u32_refuses_everything_else() {
    for text in [
        "", "+", "-", "-1", "-0", "++1", "+-1", "1+", " 1", "1 ", "1.0", "1e3", "0x10", "1_000",
        "a", "12a", "a12", "4294967296", "4294967300", "42949672950", "99999999999999999999",
        "１２", "٣", "1\n",
    ] {
        assert_eq!(parse_u32(&token(text)), None, "{:?}", text);
    }
}

#[test]
fn parse_u32_agrees_with_std_parse() {
    let alphabet = ['0', '1', '2', '4', '9', '9', '+', '-', 'a', '.'];
    let mut stream = Stream(0xfeed_face_cafe_beef);
    for _ in 0..50_000 {
        let text = stream.text(&alphabet, 12);
        assert_eq!(parse_u32(&token(&text)), text.parse::<u32>().ok(), "{:?}", text);
    }
    let digits = ['0', '1', '2', '3', '4', '5', '6', '7', '8', '9'];
    for _ in 0..50_000 {
        let text = stream.text(&digits, 11);
        assert_eq!(parse_u32(&token(&text)), text.parse::<u32>().ok(), "{:?}", text);
    }
    for value in [0u64, 1, 9, 10, 4294967294, 4294967295, 4294967296, 4294967297, 5000000000] {
        let text = value.to_string();
        assert_eq!(parse_u32(&token(&text)), text.parse::<u32>().ok(), "{:?}", text);
    }
}

#[test]
fn read_pixels_reads_each_field() {
    assert_eq!(
        read_pixels(&tokens(&["1", "x", "", "+4", "-4"])),
        vec![Some(1), None, None, Some(4), None]
    );
    assert_eq!(read_pixels(&Vec::new()), Vec::<Option<u32>>::new());
}

#[test]
fn image_size_is_read() {
    assert_eq!(parse_image_size("640 480"), Ok(ImageSize { width: 640, height: 480 }));
    assert_eq!(parse_image_size("0 0"), Ok(ImageSize { width: 0, height: 0 }));
    assert_eq!(
        parse_image_size("4294967295 +1"),
        Ok(ImageSize { width: u32::MAX, height: 1 })
    );
}

#[test]
fn image_size_wants_two_fields() {
    let expected = Err(ParseError::MalformedInput { expected: 2 });
    assert_eq!(parse_image_size(""), expected);
    assert_eq!(parse_image_size("640"), expected);
    assert_eq!(parse_image_size("640 480 3"), expected);
    assert_eq!(parse_image_size("640  480"), expected);
    assert_eq!(parse_image_size("640 480 "), expected);
    assert_eq!(parse_image_size("a b c"), expected);
}

#[test]
fn image_size_names_the_first_field_that_fails() {
    assert_eq!(parse_image_size("w 480"), Err(unread(Field::Width)));
    assert_eq!(parse_image_size("640 h"), Err(unread(Field::Height)));
    assert_eq!(parse_image_size("w h"), Err(unread(Field::Width)));
    assert_eq!(parse_image_size(" 480"), Err(unread(Field::Width)));
    assert_eq!(parse_image_size("640 "), Err(unread(Field::Height)));
    assert_eq!(parse_image_size("-1 480"), Err(unread(Field::Width)));
    assert_eq!(parse_image_size("640 4294967296"), Err(unread(Field::Height)));
    assert_eq!(parse_image_size("640.0 480"), Err(unread(Field::Width)));
}

#[test]
fn three_fields_are_malformed_in_every_format() {
    assert_eq!(parse_pascal("1 2 3"), Err(malformed()));
    assert_eq!(parse_coco("1 2 3"), Err(malformed()));
    assert_eq!(parse_normalized(Format::Albumentations, "1 2 3"), Err(malformed()));
    assert_eq!(parse_normalized(Format::Yolo, "1 2 3"), Err(malformed()));
    for format in [Format::Pascal, Format::Albumentations, Format::Coco, Format::Yolo] {
        assert_eq!(
            BoxVariant::from_readings(format, &vec![Some(1), Some(2), Some(3)]),
            Err(malformed())
        );
        assert_eq!(BoxVariant::from_readings(format, &vec![None, None, None]), Err(malformed()));
    }
}

#[test]
fn other_field_counts_are_malformed_too() {
    for text in ["", "1", "1 2", "1 2 3 4 5", "1 2 3 4 ", " 1 2 3 4", "1 2  3 4", "a b c d e"] {
        assert_eq!(parse_pascal(text), Err(malformed()), "{:?}", text);
        assert_eq!(parse_coco(text), Err(malformed()), "{:?}", text);
        assert_eq!(parse_normalized(Format::Albumentations, text), Err(malformed()), "{:?}", text);
        assert_eq!(parse_normalized(Format::Yolo, text), Err(malformed()), "{:?}", text);
    }
}

#[test]
fn pascal_names_x_min_for_a_letter_in_front() {
    let error = parse_pascal("a 2 3 4").unwrap_err();
    assert_eq!(error, ParseError::FieldParseError { field: Field::XMin });
    match error {
        ParseError::FieldParseError { field } => assert_eq!(field.name(), "x_min"),
        ParseError::MalformedInput { .. } => panic!("the line has four fields"),
    }
}

#[test]
fn pascal_is_read() {
    assert_eq!(
        parse_pascal("1 2 3 4"),
        Ok(BoxVariant::Pascal { x_min: 1, y_min: 2, x_max: 3, y_max: 4 })
    );
    assert_eq!(
        parse_pascal("30 40 10 20"),
        Ok(BoxVariant::Pascal { x_min: 30, y_min: 40, x_max: 10, y_max: 20 })
    );
    assert_eq!(
        parse_pascal("0 +0 4294967295 007"),
        Ok(BoxVariant::Pascal { x_min: 0, y_min: 0, x_max: u32::MAX, y_max: 7 })
    );
}

#[test]
fn pascal_names_the_first_field_that_fails() {
    assert_eq!(parse_pascal("a 2 3 4"), Err(unread(Field::XMin)));
    assert_eq!(parse_pascal("1 b 3 4"), Err(unread(Field::YMin)));
    assert_eq!(parse_pascal("1 2 c 4"), Err(unread(Field::XMax)));
    assert_eq!(parse_pascal("1 2 3 d"), Err(unread(Field::YMax)));
    assert_eq!(parse_pascal("1 b c d"), Err(unread(Field::YMin)));
    assert_eq!(parse_pascal("a b c d"), Err(unread(Field::XMin)));
    assert_eq!(parse_pascal("1 2 3 "), Err(unread(Field::YMax)));
    assert_eq!(parse_pascal("1 2 3 4.5"), Err(unread(Field::YMax)));
    assert_eq!(parse_pascal("1 -2 3 4"), Err(unread(Field::YMin)));
    assert_eq!(parse_pascal("1 2 4294967296 4"), Err(unread(Field::XMax)));
}

#[test]
fn coco_is_read() {
    assert_eq!(
        parse_coco("1 2 3 4"),
        Ok(BoxVariant::Coco { x_min: 1, y_min: 2, width: 3, height: 4 })
    );
    assert_eq!(
        parse_coco("4294967295 0 4294967295 0"),
        Ok(BoxVariant::Coco { x_min: u32::MAX, y_min: 0, width: u32::MAX, height: 0 })
    );
}

#[test]
fn coco_names_the_first_field_that_fails() {
    assert_eq!(parse_coco("a 2 3 4"), Err(unread(Field::XMin)));
    assert_eq!(parse_coco("1 b 3 4"), Err(unread(Field::YMin)));
    assert_eq!(parse_coco("1 2 c 4"), Err(unread(Field::Width)));
    assert_eq!(parse_coco("1 2 3 d"), Err(unread(Field::Height)));
    assert_eq!(parse_coco("1 2 c d"), Err(unread(Field::Width)));
}

#[test]
fn albumentations_is_read() {
    assert_eq!(
        parse_normalized(Format::Albumentations, "0.1 0.25 0.5 1"),
        Ok(BoxVariant::Albumentations {
            norm_x_min: Binary32 { bits: 0.1f32.to_bits() },
            norm_y_min: Binary32 { bits: 0.25f32.to_bits() },
            norm_x_max: Binary32 { bits: 0.5f32.to_bits() },
            norm_y_max: Binary32 { bits: 1.0f32.to_bits() },
        })
    );
    assert_eq!(
        parse_normalized(Format::Albumentations, "-1.5 1e3 inf .5"),
        Ok(BoxVariant::Albumentations {
            norm_x_min: Binary32 { bits: (-1.5f32).to_bits() },
            norm_y_min: Binary32 { bits: 1000.0f32.to_bits() },
            norm_x_max: Binary32 { bits: f32::INFINITY.to_bits() },
            norm_y_max: Binary32 { bits: 0.5f32.to_bits() },
        })
    );
}

#[test]
fn albumentations_names_the_first_field_that_fails() {
    let format = Format::Albumentations;
    assert_eq!(parse_normalized(format, "a 0.2 0.3 0.4"), Err(unread(Field::NormXMin)));
    assert_eq!(parse_normalized(format, "0.1 b 0.3 0.4"), Err(unread(Field::NormYMin)));
    assert_eq!(parse_normalized(format, "0.1 0.2 c 0.4"), Err(unread(Field::NormXMax)));
    assert_eq!(parse_normalized(format, "0.1 0.2 0.3 d"), Err(unread(Field::NormYMax)));
    assert_eq!(parse_normalized(format, "0.1 0.2 0.3 "), Err(unread(Field::NormYMax)));
    assert_eq!(parse_normalized(format, "0.1 b c 0.4"), Err(unread(Field::NormYMin)));
}

#[test]
fn yolo_is_read() {
    assert_eq!(
        parse_normalized(Format::Yolo, "0.5 0.5 0.2 0.2"),
        Ok(BoxVariant::Yolo {
            norm_x_center: Binary32 { bits: 0.5f32.to_bits() },
            norm_y_center: Binary32 { bits: 0.5f32.to_bits() },
            norm_width: Binary32 { bits: 0.2f32.to_bits() },
            norm_height: Binary32 { bits: 0.2f32.to_bits() },
        })
    );
}

#[test]
fn yolo_names_the_first_field_that_fails() {
    let format = Format::Yolo;
    assert_eq!(parse_normalized(format, "a 0.2 0.3 0.4"), Err(unread(Field::NormXCenter)));
    assert_eq!(parse_normalized(format, "0.1 b 0.3 0.4"), Err(unread(Field::NormYCenter)));
    assert_eq!(parse_normalized(format, "0.1 0.2 c 0.4"), Err(unread(Field::NormWidth)));
    assert_eq!(parse_normalized(format, "0.1 0.2 0.3 d"), Err(unread(Field::NormHeight)));
    assert_eq!(parse_normalized(format, "x y z w"), Err(unread(Field::NormXCenter)));
}

#[test]
fn readings_make_the_box_of_the_format() {
    let readings = vec![Some(1), Some(2), Some(3), Some(4)];
    assert_eq!(
        BoxVariant::from_readings(Format::Pascal, &readings),
        Ok(BoxVariant::Pascal { x_min: 1, y_min: 2, x_max: 3, y_max: 4 })
    );
    assert_eq!(
        BoxVariant::from_readings(Format::Coco, &readings),
        Ok(BoxVariant::Coco { x_min: 1, y_min: 2, width: 3, height: 4 })
    );
    assert_eq!(
        BoxVariant::from_readings(Format::Albumentations, &readings),
        Ok(BoxVariant::Albumentations {
            norm_x_min: Binary32 { bits: 1 },
            norm_y_min: Binary32 { bits: 2 },
            norm_x_max: Binary32 { bits: 3 },
            norm_y_max: Binary32 { bits: 4 },
        })
    );
    assert_eq!(
        BoxVariant::from_readings(Format::Yolo, &readings),
        Ok(BoxVariant::Yolo {
            norm_x_center: Binary32 { bits: 1 },
            norm_y_center: Binary32 { bits: 2 },
            norm_width: Binary32 { bits: 3 },
            norm_height: Binary32 { bits: 4 },
        })
    );
    for format in [Format::Pascal, Format::Albumentations, Format::Coco, Format::Yolo] {
        let made = BoxVariant::from_readings(format, &readings).unwrap();
        assert_eq!(made.format(), format);
        assert_eq!(made, BoxVariant::of_values(format, 1, 2, 3, 4));
    }
}

#[test]
fn fields_are_named_in_the_order_of_the_line() {
    let names = |format: Format| format.fields().map(|f| f.name());
    assert_eq!(names(Format::Pascal), ["x_min", "y_min", "x_max", "y_max"]);
    assert_eq!(
        names(Format::Albumentations),
        ["norm_x_min", "norm_y_min", "norm_x_max", "norm_y_max"]
    );
    assert_eq!(names(Format::Coco), ["x_min", "y_min", "width", "height"]);
    assert_eq!(
        names(Format::Yolo),
        ["norm_x_center", "norm_y_center", "norm_width", "norm_height"]
    );
    assert!(!Format::Pascal.is_normalized());
    assert!(Format::Albumentations.is_normalized());
    assert!(!Format::Coco.is_normalized());
    assert!(Format::Yolo.is_normalized());
}

/// What the line says when it is read the plain way: split at each space,
/// count, then read each field with the standard parser.
fn plain_pascal(text: &str) -> Result<BoxVariant, ParseError> {
    let parts: Vec<&str> = text.split(' ').collect();
    if parts.len() != 4 {
        return Err(malformed());
    }
    let read = |i: usize, field: Field| parts[i].parse::<u32>().map_err(|_| unread(field));
    Ok(BoxVariant::Pascal {
        x_min: read(0, Field::XMin)?,
        y_min: read(1, Field::YMin)?,
        x_max: read(2, Field::XMax)?,
        y_max: read(3, Field::YMax)?,
    })
}

#[test]
fn pascal_agrees_with_the_plain_reading() {
    let words = [
        "0", "1", "17", "+3", "007", "4294967295", "4294967296", "", "-1", "x", "1.5", "+",
    ];
    let mut stream = Stream(0x0bad_5eed_0bad_5eed);
    let mut read = 0;
    for _ in 0..100_000 {
        let count = 3 + stream.next() % 3;
        let parts: Vec<&str> =
            (0..count).map(|_| words[(stream.next() % words.len() as u64) as usize]).collect();
        let text = parts.join(" ");
        let expected = plain_pascal(&text);
        if expected.is_ok() {
            read += 1;
        }
        assert_eq!(parse_pascal(&text), expected, "{:?}", text);
    }
    assert!(read > 100);
    let alphabet = ['0', '1', '7', '9', ' ', ' ', ' ', '+', '-', 'x'];
    for _ in 0..100_000 {
        let text = stream.text(&alphabet, 14);
        assert_eq!(parse_pascal(&text), plain_pascal(&text), "{:?}", text);
    }
}
