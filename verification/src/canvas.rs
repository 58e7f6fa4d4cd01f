//! SVG elements.

use svg::node::element::{Line, Rectangle, Text, SVG};
use vstd::prelude::*;

use crate::number::{decimal, decimal_text};

verus! {

/// A rectangle of a picture.
#[verifier::external_type_specification]
#[verifier::external_body]
pub struct ExRectangle(Rectangle);

/// A line of a picture.
#[verifier::external_type_specification]
#[verifier::external_body]
pub struct ExLine(Line);

/// A text of a picture.
#[verifier::external_type_specification]
#[verifier::external_body]
pub struct ExText(Text);

/// A picture.
#[verifier::external_type_specification]
#[verifier::external_body]
pub struct ExSvg(SVG);

/// Values by name.
pub type Attributes = Map<Seq<char>, Seq<char>>;

/// What a picture is made of: rectangles, lines and texts. A text has its parts one behind the other.
pub enum Shape {
    Rect(Attributes),
    Segment(Attributes),
    Label(Attributes, Seq<Seq<char>>),
}

/// The attributes of a rectangle.
pub uninterp spec fn rectangle_attributes(shape: Rectangle) -> Attributes;

/// The attributes of a line.
pub uninterp spec fn line_attributes(shape: Line) -> Attributes;

/// The attributes of a text.
pub uninterp spec fn text_attributes(shape: Text) -> Attributes;

/// The parts of a text, in order.
pub uninterp spec fn text_parts(shape: Text) -> Seq<Seq<char>>;

/// The attributes of a picture.
pub uninterp spec fn picture_attributes(picture: SVG) -> Attributes;

/// The shapes of a picture, in order.
pub uninterp spec fn picture_shapes(picture: SVG) -> Seq<Shape>;

/// How a picture with these attributes and shapes is written.
pub uninterp spec fn markup(attributes: Attributes, shapes: Seq<Shape>) -> Seq<char>;

/// No attributes.
pub open spec fn plain() -> Attributes {
    Map::empty()
}

/// `svg::node::element::Rectangle::new`: a rectangle without attributes.
pub assume_specification[ Rectangle::new ]() -> (r: Rectangle)
    ensures
        rectangle_attributes(r) == plain(),
;

/// `svg::node::element::Line::new`: a line without attributes.
pub assume_specification[ Line::new ]() -> (r: Line)
    ensures
        line_attributes(r) == plain(),
;

/// `svg::Document::new`: a picture without shapes, which has the namespace of SVG as its only
/// attribute.
pub assume_specification[ SVG::new ]() -> (r: SVG)
    ensures
        picture_attributes(r) == plain().insert("xmlns"@, "http://www.w3.org/2000/svg"@),
        picture_shapes(r).len() == 0,
;

/// `svg::node::element::Text::new`: a text without attributes and of one part.
#[verifier::external_body]
fn new_text(content: &str) -> (r: Text)
    ensures
        text_attributes(r) == plain(),
        text_parts(r) == seq![content@],
{
    Text::new(content)
}

/// `svg::node::element::Rectangle::set`: the attribute has the value, whatever it had before.
#[verifier::external_body]
pub(crate) fn set_on_rectangle(shape: Rectangle, name: &str, value: &str) -> (r: Rectangle)
    ensures
        rectangle_attributes(r) == rectangle_attributes(shape).insert(name@, value@),
{
    shape.set(name, value)
}

/// `svg::node::element::Line::set`: the attribute has the value, whatever it had before.
#[verifier::external_body]
fn set_on_line(shape: Line, name: &str, value: &str) -> (r: Line)
    ensures
        line_attributes(r) == line_attributes(shape).insert(name@, value@),
{
    shape.set(name, value)
}

/// `svg::node::element::Text::set`: the attribute has the value, whatever it had before.
#[verifier::external_body]
pub(crate) fn set_on_text(shape: Text, name: &str, value: &str) -> (r: Text)
    ensures
        text_attributes(r) == text_attributes(shape).insert(name@, value@),
        text_parts(r) == text_parts(shape),
{
    shape.set(name, value)
}

/// `svg::node::element::Text::add` of a `svg::node::Text`: the text has one more part.
#[verifier::external_body]
fn add_part(shape: Text, content: &str) -> (r: Text)
    ensures
        text_attributes(r) == text_attributes(shape),
        text_parts(r) == text_parts(shape).push(content@),
{
    shape.add(svg::node::Text::new(content))
}

/// `svg::Document::set`: the attribute has the value, whatever it had before.
#[verifier::external_body]
pub(crate) fn set_on_picture(picture: SVG, name: &str, value: &str) -> (r: SVG)
    ensures
        picture_attributes(r) == picture_attributes(picture).insert(name@, value@),
        picture_shapes(r) == picture_shapes(picture),
{
    picture.set(name, value)
}

/// `svg::Document::add` of a rectangle: it comes last.
#[verifier::external_body]
pub(crate) fn add_rectangle(picture: SVG, shape: Rectangle) -> (r: SVG)
    ensures
        picture_attributes(r) == picture_attributes(picture),
        picture_shapes(r) == picture_shapes(picture).push(
            Shape::Rect(rectangle_attributes(shape)),
        ),
{
    picture.add(shape)
}

/// `svg::Document::add` of a line: it comes last.
#[verifier::external_body]
pub(crate) fn add_line(picture: SVG, shape: Line) -> (r: SVG)
    ensures
        picture_attributes(r) == picture_attributes(picture),
        picture_shapes(r) == picture_shapes(picture).push(Shape::Segment(line_attributes(shape))),
{
    picture.add(shape)
}

/// `svg::Document::add` of a text: it comes last.
#[verifier::external_body]
pub(crate) fn add_text(picture: SVG, shape: Text) -> (r: SVG)
    ensures
        picture_attributes(r) == picture_attributes(picture),
        picture_shapes(r) == picture_shapes(picture).push(
            Shape::Label(text_attributes(shape), text_parts(shape)),
        ),
{
    picture.add(shape)
}

/// `svg::Document` written out with `to_string`: the same attributes and shapes are always written
/// the same way.
#[verifier::external_body]
pub(crate) fn write_picture(picture: &SVG) -> (r: String)
    ensures
        r@ == markup(picture_attributes(*picture), picture_shapes(*picture)),
{
    picture.to_string()
}

/// The attributes of a text of the size at the place.
pub open spec fn text_at(x: int, y: int, size: int) -> Attributes {
    plain().insert("x"@, decimal(x)).insert("y"@, decimal(y)).insert("font-size"@, decimal(size))
}

/// The attributes of a rectangle at the place.
pub open spec fn rect_at(x: int, y: int, w: int, h: int) -> Attributes {
    plain().insert("x"@, decimal(x)).insert("y"@, decimal(y)).insert("width"@, decimal(w)).insert(
        "height"@,
        decimal(h),
    )
}

/// The attributes of an upright line.
pub open spec fn vline_at(x: int, y0: int, y1: int, stroke: Seq<char>) -> Attributes {
    plain().insert("x1"@, decimal(x)).insert("y1"@, decimal(y0)).insert("x2"@, decimal(x)).insert(
        "y2"@,
        decimal(y1),
    ).insert("stroke"@, stroke)
}

/// A text with its reference point at the place.
pub fn text(x: i32, y: i32, size: i32, content: &str) -> (r: Text)
    ensures
        text_attributes(r) == text_at(x as int, y as int, size as int),
        text_parts(r) == seq![""@, content@],
{
    let shape = new_text("");
    let shape = set_on_text(shape, "x", decimal_text(x).as_str());
    let shape = set_on_text(shape, "y", decimal_text(y).as_str());
    let shape = set_on_text(shape, "font-size", decimal_text(size).as_str());
    let shape = add_part(shape, content);
    assert(text_parts(shape) =~= seq![""@, content@]);
    shape
}

/// A rectangle with its upper left corner at the place.
pub fn rect(x: i32, y: i32, w: i32, h: i32) -> (r: Rectangle)
    ensures
        rectangle_attributes(r) == rect_at(x as int, y as int, w as int, h as int),
{
    let shape = set_on_rectangle(Rectangle::new(), "x", decimal_text(x).as_str());
    let shape = set_on_rectangle(shape, "y", decimal_text(y).as_str());
    let shape = set_on_rectangle(shape, "width", decimal_text(w).as_str());
    set_on_rectangle(shape, "height", decimal_text(h).as_str())
}

/// An upright line.
pub fn vline(x: i32, y0: i32, y1: i32, stroke: &str) -> (r: Line)
    ensures
        line_attributes(r) == vline_at(x as int, y0 as int, y1 as int, stroke@),
{
    let shape = set_on_line(Line::new(), "x1", decimal_text(x).as_str());
    let shape = set_on_line(shape, "y1", decimal_text(y0).as_str());
    let shape = set_on_line(shape, "x2", decimal_text(x).as_str());
    let shape = set_on_line(shape, "y2", decimal_text(y1).as_str());
    set_on_line(shape, "stroke", stroke)
}

} // verus!
