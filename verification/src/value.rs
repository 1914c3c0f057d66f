//! The values of the format and their text.

use vstd::prelude::*;
use crate::ascii::{is_hex_digit, HASH, NEWLINE, QUOTE};
use crate::bytes::{push_bytes, push_str, text};
use crate::literal::is_double_text;
use crate::number::{fmt_integer, int_text};

verus! {

/// A vector of two integers.
#[derive(Clone, Copy, Debug, PartialEq, Eq, Structural)]
pub struct Vector2i {
    pub x: i64,
    pub y: i64,
}

/// A double-precision number, held as the text that stands for it in a file.
#[derive(Clone, Debug, PartialEq, Eq)]
pub enum Double {
    Nan,
    Infinity,
    NegInfinity,
    /// A finite number as a number literal.
    Finite(Vec<u8>),
}

pub enum DoubleView {
    Nan,
    Infinity,
    NegInfinity,
    Finite(Seq<u8>),
}

/// A colour: four components, or a `#` literal that is kept as it was written.
#[derive(Clone, Debug, PartialEq, Eq)]
pub enum Color {
    Rgba(Double, Double, Double, Double),
    Html(Vec<u8>),
}

pub enum ColorView {
    Rgba(DoubleView, DoubleView, DoubleView, DoubleView),
    Html(Seq<u8>),
}

/// A value of a field or of a property.
#[derive(Clone, Debug, PartialEq, Eq)]
pub enum Value {
    Bool(bool),
    Null,
    Integer(i64),
    Double(Double),
    String(Vec<u8>),
    StringName(Vec<u8>),
    Color(Color),
    Vector2i(Vector2i),
    /// A reference to a resource of the same file, by its id.
    SubResource(Vec<u8>),
    /// A reference to a resource of another file, by its id.
    ExtResource(Vec<u8>),
}

pub enum ValueView {
    Bool(bool),
    Null,
    Integer(i64),
    Double(DoubleView),
    String(Seq<u8>),
    StringName(Seq<u8>),
    Color(ColorView),
    Vector2i(Vector2i),
    SubResource(Seq<u8>),
    ExtResource(Seq<u8>),
}

impl View for Double {
    type V = DoubleView;

    open spec fn view(&self) -> DoubleView {
        match self {
            Double::Nan => DoubleView::Nan,
            Double::Infinity => DoubleView::Infinity,
            Double::NegInfinity => DoubleView::NegInfinity,
            Double::Finite(t) => DoubleView::Finite(t@),
        }
    }
}

impl View for Color {
    type V = ColorView;

    open spec fn view(&self) -> ColorView {
        match self {
            Color::Rgba(r, g, b, a) => ColorView::Rgba(r@, g@, b@, a@),
            Color::Html(t) => ColorView::Html(t@),
        }
    }
}

impl View for Value {
    type V = ValueView;

    open spec fn view(&self) -> ValueView {
        match self {
            Value::Bool(b) => ValueView::Bool(*b),
            Value::Null => ValueView::Null,
            Value::Integer(n) => ValueView::Integer(*n),
            Value::Double(d) => ValueView::Double(d@),
            Value::String(t) => ValueView::String(t@),
            Value::StringName(t) => ValueView::StringName(t@),
            Value::Color(c) => ValueView::Color(c@),
            Value::Vector2i(v) => ValueView::Vector2i(*v),
            Value::SubResource(id) => ValueView::SubResource(id@),
            Value::ExtResource(id) => ValueView::ExtResource(id@),
        }
    }
}

/// Text that can stand between two quotes: it holds no quote and no line feed.
pub open spec fn is_quotable(t: Seq<u8>) -> bool {
    forall|k: int| 0 <= k < t.len() ==> #[trigger] t[k] != QUOTE && t[k] != NEWLINE
}

/// A colour literal: `#` and hexadecimal digits.
pub open spec fn is_color_literal(t: Seq<u8>) -> bool {
    &&& t.len() >= 1
    &&& t[0] == HASH
    &&& forall|k: int| 1 <= k < t.len() ==> is_hex_digit(#[trigger] t[k])
}

impl DoubleView {
    pub open spec fn is_finite(self) -> bool {
        self is Finite
    }

    /// The text of a finite number is a literal with a fraction or an exponent, or the
    /// text of an integer.
    pub open spec fn well_formed(self) -> bool {
        self matches DoubleView::Finite(t) ==> is_double_text(t)
    }
}

impl ColorView {
    /// The components are finite numbers; a `#` literal has hexadecimal digits only.
    pub open spec fn well_formed(self) -> bool {
        match self {
            ColorView::Rgba(r, g, b, a) => {
                &&& r.is_finite() && r.well_formed()
                &&& g.is_finite() && g.well_formed()
                &&& b.is_finite() && b.well_formed()
                &&& a.is_finite() && a.well_formed()
            },
            ColorView::Html(t) => is_color_literal(t),
        }
    }
}

impl ValueView {
    /// Whether the text of the value can be read again: this is so of every value that
    /// was read from a file.
    pub open spec fn well_formed(self) -> bool {
        match self {
            ValueView::Double(d) => d.well_formed(),
            ValueView::String(t) => is_quotable(t),
            ValueView::StringName(t) => is_quotable(t),
            ValueView::Color(c) => c.well_formed(),
            ValueView::SubResource(id) => is_quotable(id),
            ValueView::ExtResource(id) => is_quotable(id),
            _ => true,
        }
    }
}

/// The text of a number: a fixed word for each of the three numbers that are not
/// finite, else the literal.
pub open spec fn render_double(d: DoubleView) -> Seq<u8> {
    match d {
        DoubleView::Nan => text("nan"),
        DoubleView::Infinity => text("inf"),
        DoubleView::NegInfinity => text("neg_inf"),
        DoubleView::Finite(t) => t,
    }
}

pub open spec fn render_vector(v: Vector2i) -> Seq<u8> {
    text("Vector2i(") + int_text(v.x as int) + text(", ") + int_text(v.y as int) + text(")")
}

pub open spec fn render_color(c: ColorView) -> Seq<u8> {
    match c {
        ColorView::Rgba(r, g, b, a) => text("Color(") + render_double(r) + text(", ")
            + render_double(g) + text(", ") + render_double(b) + text(", ") + render_double(a)
            + text(")"),
        ColorView::Html(t) => t,
    }
}

/// The text of a value, as a file holds it.
pub open spec fn render_value(v: ValueView) -> Seq<u8> {
    match v {
        ValueView::Null => text("null"),
        ValueView::Bool(true) => text("true"),
        ValueView::Bool(false) => text("false"),
        ValueView::Integer(n) => int_text(n as int),
        ValueView::Double(d) => render_double(d),
        ValueView::String(t) => text("\"") + t + text("\""),
        ValueView::StringName(t) => text("&\"") + t + text("\""),
        ValueView::Color(c) => render_color(c),
        ValueView::Vector2i(v) => render_vector(v),
        ValueView::SubResource(id) => text("SubResource(\"") + id + text("\")"),
        ValueView::ExtResource(id) => text("ExtResource(\"") + id + text("\")"),
    }
}

impl From<[u32; 2]> for Vector2i {
    /// The vector of a width and a height.
    fn from(size: [u32; 2]) -> (v: Vector2i) {
        Vector2i { x: size[0] as i64, y: size[1] as i64 }
    }
}

impl vstd::std_specs::convert::FromSpecImpl<[u32; 2]> for Vector2i {
    open spec fn obeys_from_spec() -> bool {
        true
    }

    open spec fn from_spec(size: [u32; 2]) -> Vector2i {
        Vector2i { x: size[0] as i64, y: size[1] as i64 }
    }
}

impl Vector2i {
    /// Appends the text of the vector to `out`.
    pub fn godot_fmt(&self, out: &mut Vec<u8>)
        ensures
            final(out)@ == old(out)@ + render_vector(*self),
    {
        push_str(out, "Vector2i(");
        fmt_integer(self.x, out);
        push_str(out, ", ");
        fmt_integer(self.y, out);
        push_str(out, ")");
        assert(final(out)@ =~= old(out)@ + render_vector(*self));
    }
}

impl Double {
    /// Appends the text of the number to `out`.
    pub fn godot_fmt(&self, out: &mut Vec<u8>)
        ensures
            final(out)@ == old(out)@ + render_double(self@),
    {
        match self {
            Double::Nan => push_str(out, "nan"),
            Double::Infinity => push_str(out, "inf"),
            Double::NegInfinity => push_str(out, "neg_inf"),
            Double::Finite(t) => push_bytes(out, t.as_slice()),
        }
    }
}

impl Color {
    /// Appends the text of the colour to `out`.
    pub fn godot_fmt(&self, out: &mut Vec<u8>)
        ensures
            final(out)@ == old(out)@ + render_color(self@),
    {
        match self {
            Color::Rgba(r, g, b, a) => {
                push_str(out, "Color(");
                r.godot_fmt(out);
                push_str(out, ", ");
                g.godot_fmt(out);
                push_str(out, ", ");
                b.godot_fmt(out);
                push_str(out, ", ");
                a.godot_fmt(out);
                push_str(out, ")");
                assert(final(out)@ =~= old(out)@ + render_color(self@));
            },
            Color::Html(t) => push_bytes(out, t.as_slice()),
        }
    }
}

impl Value {
    /// Appends the text of the value to `out`.
    pub fn godot_fmt(&self, out: &mut Vec<u8>)
        ensures
            final(out)@ == old(out)@ + render_value(self@),
    {
        match self {
            Value::Null => push_str(out, "null"),
            Value::Bool(true) => push_str(out, "true"),
            Value::Bool(false) => push_str(out, "false"),
            Value::Integer(n) => fmt_integer(*n, out),
            Value::Double(d) => d.godot_fmt(out),
            Value::String(t) => {
                push_str(out, "\"");
                push_bytes(out, t.as_slice());
                push_str(out, "\"");
                assert(final(out)@ =~= old(out)@ + render_value(self@));
            },
            Value::StringName(t) => {
                push_str(out, "&\"");
                push_bytes(out, t.as_slice());
                push_str(out, "\"");
                assert(final(out)@ =~= old(out)@ + render_value(self@));
            },
            Value::Color(c) => c.godot_fmt(out),
            Value::Vector2i(v) => v.godot_fmt(out),
            Value::SubResource(id) => {
                push_str(out, "SubResource(\"");
                push_bytes(out, id.as_slice());
                push_str(out, "\")");
                assert(final(out)@ =~= old(out)@ + render_value(self@));
            },
            Value::ExtResource(id) => {
                push_str(out, "ExtResource(\"");
                push_bytes(out, id.as_slice());
                push_str(out, "\")");
                assert(final(out)@ =~= old(out)@ + render_value(self@));
            },
        }
    }
}

} // verus!
