//! The box formats: their fields, how a line of text is read as a box, and
//! how a box of any format becomes absolute corner coordinates.

use crate::binary32::Binary32;
use crate::text::{contents, decimal_u32, fields, parse_u32, split_fields};
use vstd::prelude::*;

verus! {

/// The size of an image in pixels.
#[derive(Clone, Copy, Debug, PartialEq, Eq, Structural)]
pub struct ImageSize {
    pub width: u32,
    pub height: u32,
}

/// A box by its absolute corners, in pixels. Nothing forces `x_max >= x_min`
/// or `y_max >= y_min`: a box with a corner pair the wrong way round is
/// carried like any other.
#[derive(Clone, Copy, Debug, PartialEq, Eq, Structural)]
pub struct CanonicalBox {
    pub x_min: u32,
    pub y_min: u32,
    pub x_max: u32,
    pub y_max: u32,
}

/// The tag of a box format.
#[derive(Clone, Copy, Debug, PartialEq, Eq, Structural)]
pub enum Format {
    Pascal,
    Albumentations,
    Coco,
    Yolo,
}

/// The name of a field of a line of input.
#[derive(Clone, Copy, Debug, PartialEq, Eq, Structural)]
pub enum Field {
    XMin,
    YMin,
    XMax,
    YMax,
    Width,
    Height,
    NormXMin,
    NormYMin,
    NormXMax,
    NormYMax,
    NormXCenter,
    NormYCenter,
    NormWidth,
    NormHeight,
}

/// Why a line of input was not read.
#[derive(Clone, Copy, Debug, PartialEq, Eq, Structural)]
pub enum ParseError {
    /// The line does not have `expected` fields.
    MalformedInput { expected: usize },
    /// The named field is not a number of the kind its format asks for.
    FieldParseError { field: Field },
}

impl Field {
    /// The field's name as it is written in prompts and messages.
    pub open spec fn spec_name(self) -> Seq<char> {
        match self {
            Field::XMin => "x_min"@,
            Field::YMin => "y_min"@,
            Field::XMax => "x_max"@,
            Field::YMax => "y_max"@,
            Field::Width => "width"@,
            Field::Height => "height"@,
            Field::NormXMin => "norm_x_min"@,
            Field::NormYMin => "norm_y_min"@,
            Field::NormXMax => "norm_x_max"@,
            Field::NormYMax => "norm_y_max"@,
            Field::NormXCenter => "norm_x_center"@,
            Field::NormYCenter => "norm_y_center"@,
            Field::NormWidth => "norm_width"@,
            Field::NormHeight => "norm_height"@,
        }
    }

    /// The field's name as it is written in prompts and messages.
    pub fn name(self) -> (out: &'static str)
        ensures
            out@ == self.spec_name(),
    {
        match self {
            Field::XMin => "x_min",
            Field::YMin => "y_min",
            Field::XMax => "x_max",
            Field::YMax => "y_max",
            Field::Width => "width",
            Field::Height => "height",
            Field::NormXMin => "norm_x_min",
            Field::NormYMin => "norm_y_min",
            Field::NormXMax => "norm_x_max",
            Field::NormYMax => "norm_y_max",
            Field::NormXCenter => "norm_x_center",
            Field::NormYCenter => "norm_y_center",
            Field::NormWidth => "norm_width",
            Field::NormHeight => "norm_height",
        }
    }
}

impl ParseError {
    /// The name of the field that was not read, where the error is about a
    /// field.
    pub open spec fn spec_field_name(self) -> Option<Seq<char>> {
        match self {
            ParseError::MalformedInput { .. } => None,
            ParseError::FieldParseError { field } => Some(field.spec_name()),
        }
    }

    /// The name of the field that was not read, where the error is about a
    /// field.
    pub fn field_name(self) -> (out: Option<&'static str>)
        ensures
            out is Some == self.spec_field_name() is Some,
            out matches Some(name) ==> Some(name@) == self.spec_field_name(),
    {
        match self {
            ParseError::MalformedInput { .. } => None,
            ParseError::FieldParseError { field } => Some(field.name()),
        }
    }
}

/// The number of fields of a box, in every format.
pub const BOX_FIELDS: usize = 4;

/// The number of fields of an image size.
pub const SIZE_FIELDS: usize = 2;

impl Format {
    /// Whether the format's fields are fractions of the image's width and
    /// height rather than whole pixels.
    pub open spec fn spec_is_normalized(self) -> bool {
        self == Format::Albumentations || self == Format::Yolo
    }

    /// Whether the format's fields are fractions of the image's width and
    /// height rather than whole pixels.
    #[verifier::when_used_as_spec(spec_is_normalized)]
    pub fn is_normalized(self) -> (out: bool)
        ensures
            out == self.spec_is_normalized(),
    {
        match self {
            Format::Pascal => false,
            Format::Albumentations => true,
            Format::Coco => false,
            Format::Yolo => true,
        }
    }

    /// The format's four fields in the order in which a line holds them.
    pub open spec fn spec_fields(self) -> Seq<Field> {
        match self {
            Format::Pascal => seq![Field::XMin, Field::YMin, Field::XMax, Field::YMax],
            Format::Albumentations => seq![
                Field::NormXMin,
                Field::NormYMin,
                Field::NormXMax,
                Field::NormYMax,
            ],
            Format::Coco => seq![Field::XMin, Field::YMin, Field::Width, Field::Height],
            Format::Yolo => seq![
                Field::NormXCenter,
                Field::NormYCenter,
                Field::NormWidth,
                Field::NormHeight,
            ],
        }
    }

    /// The format's four fields in the order in which a line holds them.
    pub fn fields(self) -> (out: [Field; 4])
        ensures
            out@ == self.spec_fields(),
    {
        let out = match self {
            Format::Pascal => [Field::XMin, Field::YMin, Field::XMax, Field::YMax],
            Format::Albumentations => [
                Field::NormXMin,
                Field::NormYMin,
                Field::NormXMax,
                Field::NormYMax,
            ],
            Format::Coco => [Field::XMin, Field::YMin, Field::Width, Field::Height],
            Format::Yolo => [
                Field::NormXCenter,
                Field::NormYCenter,
                Field::NormWidth,
                Field::NormHeight,
            ],
        };
        assert(out@ =~= self.spec_fields());
        out
    }
}

/// What each field of a line holds when it is read as an unsigned decimal
/// number: the number, or nothing where the field does not write one.
pub open spec fn pixel_readings(tokens: Seq<Seq<char>>) -> Seq<Option<u32>> {
    Seq::new(tokens.len(), |i: int| decimal_u32(tokens[i]))
}

/// Reads every field as an unsigned decimal number.
pub fn read_pixels(tokens: &Vec<Vec<char>>) -> (out: Vec<Option<u32>>)
    ensures
        out@ == pixel_readings(contents(tokens@)),
{
    let mut out: Vec<Option<u32>> = Vec::new();
    let mut i: usize = 0;
    while i < tokens.len()
        invariant
            i <= tokens.len(),
            out@ == pixel_readings(contents(tokens@)).take(i as int),
        decreases tokens.len() - i,
    {
        let reading = parse_u32(&tokens[i]);
        out.push(reading);
        assert(out@ =~= pixel_readings(contents(tokens@)).take(i + 1));
        i += 1;
    }
    assert(out@ =~= pixel_readings(contents(tokens@)));
    out
}

/// What a line says as an image size: `width height`, two unsigned decimal
/// numbers. A line with another number of fields is malformed; otherwise the
/// first field from the left that is no such number is reported.
pub open spec fn image_size_of(readings: Seq<Option<u32>>) -> Result<ImageSize, ParseError> {
    if readings.len() != SIZE_FIELDS {
        Err(ParseError::MalformedInput { expected: SIZE_FIELDS })
    } else if readings[0] is None {
        Err(ParseError::FieldParseError { field: Field::Width })
    } else if readings[1] is None {
        Err(ParseError::FieldParseError { field: Field::Height })
    } else {
        Ok(ImageSize { width: readings[0]->0, height: readings[1]->0 })
    }
}

/// Reads a line `width height` as an image size.
pub fn parse_image_size(text: &str) -> (out: Result<ImageSize, ParseError>)
    ensures
        out == image_size_of(pixel_readings(fields(text@))),
{
    let tokens = split_fields(text);
    let readings = read_pixels(&tokens);
    if readings.len() != SIZE_FIELDS {
        return Err(ParseError::MalformedInput { expected: SIZE_FIELDS });
    }
    let width = match readings[0] {
        Some(v) => v,
        None => return Err(ParseError::FieldParseError { field: Field::Width }),
    };
    let height = match readings[1] {
        Some(v) => v,
        None => return Err(ParseError::FieldParseError { field: Field::Height }),
    };
    Ok(ImageSize { width, height })
}

/// A box as one of the formats writes it.
#[derive(Clone, Copy, Debug, PartialEq, Eq, Structural)]
pub enum BoxVariant {
    /// Absolute corners.
    Pascal { x_min: u32, y_min: u32, x_max: u32, y_max: u32 },
    /// Corners as fractions of the image's width and height.
    Albumentations {
        norm_x_min: Binary32,
        norm_y_min: Binary32,
        norm_x_max: Binary32,
        norm_y_max: Binary32,
    },
    /// The absolute top-left corner, then the absolute width and height.
    Coco { x_min: u32, y_min: u32, width: u32, height: u32 },
    /// The centre, then the width and height, as fractions of the image's
    /// width and height.
    Yolo {
        norm_x_center: Binary32,
        norm_y_center: Binary32,
        norm_width: Binary32,
        norm_height: Binary32,
    },
}

impl BoxVariant {
    /// The box of a format whose four fields hold the given values, in the
    /// format's order: whole pixels for the pixel formats, binary32 bit
    /// patterns for the normalized ones.
    pub open spec fn spec_of_values(format: Format, a: u32, b: u32, c: u32, d: u32) -> BoxVariant {
        match format {
            Format::Pascal => BoxVariant::Pascal { x_min: a, y_min: b, x_max: c, y_max: d },
            Format::Albumentations => BoxVariant::Albumentations {
                norm_x_min: Binary32 { bits: a },
                norm_y_min: Binary32 { bits: b },
                norm_x_max: Binary32 { bits: c },
                norm_y_max: Binary32 { bits: d },
            },
            Format::Coco => BoxVariant::Coco { x_min: a, y_min: b, width: c, height: d },
            Format::Yolo => BoxVariant::Yolo {
                norm_x_center: Binary32 { bits: a },
                norm_y_center: Binary32 { bits: b },
                norm_width: Binary32 { bits: c },
                norm_height: Binary32 { bits: d },
            },
        }
    }

    /// The box of a format whose four fields hold the given values.
    #[verifier::when_used_as_spec(spec_of_values)]
    pub fn of_values(format: Format, a: u32, b: u32, c: u32, d: u32) -> (out: BoxVariant)
        ensures
            out == BoxVariant::spec_of_values(format, a, b, c, d),
    {
        match format {
            Format::Pascal => BoxVariant::Pascal { x_min: a, y_min: b, x_max: c, y_max: d },
            Format::Albumentations => BoxVariant::Albumentations {
                norm_x_min: Binary32 { bits: a },
                norm_y_min: Binary32 { bits: b },
                norm_x_max: Binary32 { bits: c },
                norm_y_max: Binary32 { bits: d },
            },
            Format::Coco => BoxVariant::Coco { x_min: a, y_min: b, width: c, height: d },
            Format::Yolo => BoxVariant::Yolo {
                norm_x_center: Binary32 { bits: a },
                norm_y_center: Binary32 { bits: b },
                norm_width: Binary32 { bits: c },
                norm_height: Binary32 { bits: d },
            },
        }
    }

    /// The box that the readings of a line's fields make. A line with
    /// another number of fields than four is malformed; otherwise the first
    /// field from the left that could not be read is reported under the name
    /// that the format gives it; otherwise the four values make the box.
    pub open spec fn assemble(format: Format, readings: Seq<Option<u32>>) -> Result<
        BoxVariant,
        ParseError,
    > {
        if readings.len() != BOX_FIELDS {
            Err(ParseError::MalformedInput { expected: BOX_FIELDS })
        } else if readings[0] is None {
            Err(ParseError::FieldParseError { field: format.spec_fields()[0] })
        } else if readings[1] is None {
            Err(ParseError::FieldParseError { field: format.spec_fields()[1] })
        } else if readings[2] is None {
            Err(ParseError::FieldParseError { field: format.spec_fields()[2] })
        } else if readings[3] is None {
            Err(ParseError::FieldParseError { field: format.spec_fields()[3] })
        } else {
            Ok(
                BoxVariant::spec_of_values(
                    format,
                    readings[0]->0,
                    readings[1]->0,
                    readings[2]->0,
                    readings[3]->0,
                ),
            )
        }
    }

    /// Makes a box from the readings of a line's fields.
    pub fn from_readings(format: Format, readings: &Vec<Option<u32>>) -> (out: Result<
        BoxVariant,
        ParseError,
    >)
        ensures
            out == BoxVariant::assemble(format, readings@),
    {
        if readings.len() != BOX_FIELDS {
            return Err(ParseError::MalformedInput { expected: BOX_FIELDS });
        }
        let names = format.fields();
        let a = match readings[0] {
            Some(v) => v,
            None => return Err(ParseError::FieldParseError { field: names[0] }),
        };
        let b = match readings[1] {
            Some(v) => v,
            None => return Err(ParseError::FieldParseError { field: names[1] }),
        };
        let c = match readings[2] {
            Some(v) => v,
            None => return Err(ParseError::FieldParseError { field: names[2] }),
        };
        let d = match readings[3] {
            Some(v) => v,
            None => return Err(ParseError::FieldParseError { field: names[3] }),
        };
        Ok(BoxVariant::of_values(format, a, b, c, d))
    }

    /// The format that writes a box this way.
    pub open spec fn spec_format(self) -> Format {
        match self {
            BoxVariant::Pascal { .. } => Format::Pascal,
            BoxVariant::Albumentations { .. } => Format::Albumentations,
            BoxVariant::Coco { .. } => Format::Coco,
            BoxVariant::Yolo { .. } => Format::Yolo,
        }
    }

    /// The format that writes a box this way.
    #[verifier::when_used_as_spec(spec_format)]
    pub fn format(self) -> (out: Format)
        ensures
            out == self.spec_format(),
    {
        match self {
            BoxVariant::Pascal { .. } => Format::Pascal,
            BoxVariant::Albumentations { .. } => Format::Albumentations,
            BoxVariant::Coco { .. } => Format::Coco,
            BoxVariant::Yolo { .. } => Format::Yolo,
        }
    }

    /// Whether the box's corners can be written in 32 bits: always, but for
    /// a corner-and-size box whose far corner lies beyond `u32::MAX`.
    pub open spec fn spec_converts(self) -> bool {
        match self {
            BoxVariant::Coco { x_min, y_min, width, height } => x_min + width <= u32::MAX
                && y_min + height <= u32::MAX,
            _ => true,
        }
    }

    /// The box's absolute corners in an image of the given size.
    pub open spec fn canonical(self, image_size: ImageSize) -> CanonicalBox {
        match self {
            BoxVariant::Pascal { x_min, y_min, x_max, y_max } => CanonicalBox {
                x_min,
                y_min,
                x_max,
                y_max,
            },
            BoxVariant::Albumentations { norm_x_min, norm_y_min, norm_x_max, norm_y_max } => {
                CanonicalBox {
                    x_min: norm_x_min.scale(image_size.width),
                    y_min: norm_y_min.scale(image_size.height),
                    x_max: norm_x_max.scale(image_size.width),
                    y_max: norm_y_max.scale(image_size.height),
                }
            },
            BoxVariant::Coco { x_min, y_min, width, height } => CanonicalBox {
                x_min,
                y_min,
                x_max: (x_min + width) as u32,
                y_max: (y_min + height) as u32,
            },
            BoxVariant::Yolo { norm_x_center, norm_y_center, norm_width, norm_height } => {
                let across = norm_x_center.span(norm_width, image_size.width);
                let down = norm_y_center.span(norm_height, image_size.height);
                CanonicalBox { x_min: across.0, y_min: down.0, x_max: across.1, y_max: down.1 }
            },
        }
    }

    /// Whether the box's corners can be written in 32 bits.
    #[verifier::when_used_as_spec(spec_converts)]
    pub fn converts(self) -> (out: bool)
        ensures
            out == self.spec_converts(),
    {
        match self {
            BoxVariant::Coco { x_min, y_min, width, height } => width <= u32::MAX - x_min
                && height <= u32::MAX - y_min,
            _ => true,
        }
    }

    /// The box's absolute corners in an image of the given size.
    pub fn to_canonical(self, image_size: ImageSize) -> (out: CanonicalBox)
        requires
            self.converts(),
        ensures
            out == self.canonical(image_size),
    {
        match self {
            BoxVariant::Pascal { x_min, y_min, x_max, y_max } => CanonicalBox {
                x_min,
                y_min,
                x_max,
                y_max,
            },
            BoxVariant::Albumentations { norm_x_min, norm_y_min, norm_x_max, norm_y_max } => {
                CanonicalBox {
                    x_min: norm_x_min.scale(image_size.width),
                    y_min: norm_y_min.scale(image_size.height),
                    x_max: norm_x_max.scale(image_size.width),
                    y_max: norm_y_max.scale(image_size.height),
                }
            },
            BoxVariant::Coco { x_min, y_min, width, height } => CanonicalBox {
                x_min,
                y_min,
                x_max: x_min + width,
                y_max: y_min + height,
            },
            BoxVariant::Yolo { norm_x_center, norm_y_center, norm_width, norm_height } => {
                let across = norm_x_center.span(norm_width, image_size.width);
                let down = norm_y_center.span(norm_height, image_size.height);
                CanonicalBox { x_min: across.0, y_min: down.0, x_max: across.1, y_max: down.1 }
            },
        }
    }

    /// The box's absolute corners in an image of the given size, where they
    /// can be written in 32 bits.
    pub fn checked_to_canonical(self, image_size: ImageSize) -> (out: Option<CanonicalBox>)
        ensures
            out == if self.converts() {
                Some(self.canonical(image_size))
            } else {
                None
            },
    {
        if self.converts() {
            Some(self.to_canonical(image_size))
        } else {
            None
        }
    }
}

/// A box given by its absolute corners converts to those corners, whatever
/// the size of the image.
pub proof fn law_pascal_converts_to_itself(corners: CanonicalBox, image_size: ImageSize)
    ensures
        (BoxVariant::Pascal {
            x_min: corners.x_min,
            y_min: corners.y_min,
            x_max: corners.x_max,
            y_max: corners.y_max,
        }).converts(),
        (BoxVariant::Pascal {
            x_min: corners.x_min,
            y_min: corners.y_min,
            x_max: corners.x_max,
            y_max: corners.y_max,
        }).canonical(image_size) == corners,
{
}

/// The corner-and-size box made from a well-formed box's top-left corner,
/// width and height converts back to that box, whatever the size of the
/// image.
pub proof fn law_coco_round_trip(corners: CanonicalBox, image_size: ImageSize)
    requires
        corners.x_min <= corners.x_max,
        corners.y_min <= corners.y_max,
    ensures
        (BoxVariant::Coco {
            x_min: corners.x_min,
            y_min: corners.y_min,
            width: (corners.x_max - corners.x_min) as u32,
            height: (corners.y_max - corners.y_min) as u32,
        }).converts(),
        (BoxVariant::Coco {
            x_min: corners.x_min,
            y_min: corners.y_min,
            width: (corners.x_max - corners.x_min) as u32,
            height: (corners.y_max - corners.y_min) as u32,
        }).canonical(image_size) == corners,
{
}

/// In every format a line of another number of fields than four is
/// malformed, whatever the fields hold.
pub proof fn law_field_count_comes_first(format: Format, readings: Seq<Option<u32>>)
    requires
        readings.len() != BOX_FIELDS,
    ensures
        BoxVariant::assemble(format, readings) == Err::<BoxVariant, ParseError>(
            ParseError::MalformedInput { expected: BOX_FIELDS },
        ),
{
}

/// Four fields that were all read make a box of the format asked for, and
/// the box holds the four values in the order of the line.
pub proof fn law_read_fields_make_the_box(format: Format, a: u32, b: u32, c: u32, d: u32)
    ensures
        BoxVariant::assemble(format, seq![Some(a), Some(b), Some(c), Some(d)]) == Ok::<
            BoxVariant,
            ParseError,
        >(BoxVariant::of_values(format, a, b, c, d)),
        BoxVariant::of_values(format, a, b, c, d).format() == format,
{
}

/// Reads a line `x_min y_min x_max y_max` of unsigned decimal numbers.
pub fn parse_pascal(text: &str) -> (out: Result<BoxVariant, ParseError>)
    ensures
        out == BoxVariant::assemble(Format::Pascal, pixel_readings(fields(text@))),
{
    let tokens = split_fields(text);
    let readings = read_pixels(&tokens);
    BoxVariant::from_readings(Format::Pascal, &readings)
}

/// Reads a line `x_min y_min width height` of unsigned decimal numbers.
pub fn parse_coco(text: &str) -> (out: Result<BoxVariant, ParseError>)
    ensures
        out == BoxVariant::assemble(Format::Coco, pixel_readings(fields(text@))),
{
    let tokens = split_fields(text);
    let readings = read_pixels(&tokens);
    BoxVariant::from_readings(Format::Coco, &readings)
}

} // verus!
