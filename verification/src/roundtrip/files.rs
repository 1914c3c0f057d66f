//! What the parser reads from the text of a tag or of a file that the writer wrote.

use vstd::prelude::*;
use crate::ascii::{
    is_digit, is_identifier_byte, is_identifier_start, lemma_run_end, run_end, BRACKET_CLOSE,
    BRACKET_OPEN, ByteClass, COLON, EQUAL, NEWLINE, PERIOD, QUOTE, SEMICOLON, SPACE,
};
use crate::bytes::text;
use crate::document::{FieldView, GodotFileView, TagAssignView, TagView};
use crate::error::{ParseError, SyntaxError};
use crate::roundtrip::tokens::{
    delimited, holds_at, is_identifier, lemma_holds_split, lemma_lex_identifier,
    lemma_lex_punctuation, lemma_lex_space,
};
use crate::roundtrip::words::lemma_signs;
use crate::parser::{
    begins_field, format_supported, spec_parse_assign, spec_parse_assigns, spec_parse_block,
    spec_parse_file, spec_parse_tag, spec_parse_tags, spec_parse_value, spec_tag_body,
};
use crate::roundtrip::values::{lemma_read_value, read_back_value};
use crate::token::{spec_next_token, TokenView};
use crate::value::render_value;
use crate::writer::{
    render_assign, render_assigns, render_field, render_fields, render_file, render_tag,
    render_tag_header, render_tags,
};

verus! {

/// The bytes of which the name of a tag is made: those of identifiers, periods and
/// colons.
pub open spec fn is_name_byte(b: u8) -> bool {
    is_identifier_byte(b) || b == PERIOD || b == COLON
}

/// A name of a tag: identifiers, periods and colons one behind the other, an identifier
/// first.
pub open spec fn is_tag_name(name: Seq<u8>) -> bool {
    &&& name.len() >= 1
    &&& is_identifier_start(name[0])
    &&& forall|k: int| 0 <= k < name.len() ==> is_name_byte(#[trigger] name[k])
    &&& forall|k: int|
        1 <= k < name.len() && is_digit(#[trigger] name[k]) ==> is_identifier_byte(name[k - 1])
}

/// A byte that can stand in the path of a property line as it is.
pub open spec fn is_path_byte(b: u8) -> bool {
    b > SPACE && b != EQUAL && b != SEMICOLON && b != QUOTE
}

/// A path of a property line that is written as it is: it has no byte up to the space,
/// no `=`, `;` or quote, and does not begin with an opening bracket.
pub open spec fn is_assign_path(path: Seq<u8>) -> bool {
    &&& forall|k: int| 0 <= k < path.len() ==> is_path_byte(#[trigger] path[k])
    &&& path.len() > 0 ==> path[0] != BRACKET_OPEN
}

impl FieldView {
    pub open spec fn well_formed(self) -> bool {
        is_identifier(self.identifier) && self.value.well_formed()
    }

    /// The field that is read from the text of this one.
    pub open spec fn read_back(self) -> FieldView {
        FieldView { identifier: self.identifier, value: read_back_value(self.value) }
    }
}

impl TagAssignView {
    pub open spec fn well_formed(self) -> bool {
        is_assign_path(self.assign) && self.value.well_formed()
    }

    /// The property line that is read from the text of this one.
    pub open spec fn read_back(self) -> TagAssignView {
        TagAssignView { assign: self.assign, value: read_back_value(self.value) }
    }
}

pub open spec fn read_back_fields(fields: Seq<FieldView>) -> Seq<FieldView> {
    fields.map_values(|f: FieldView| f.read_back())
}

pub open spec fn read_back_assigns(assigns: Seq<TagAssignView>) -> Seq<TagAssignView> {
    assigns.map_values(|a: TagAssignView| a.read_back())
}

impl TagView {
    /// Whether the text of the tag can be read again: its name is a name, its fields
    /// have identifiers and its property lines have paths that are written as they
    /// are, and each value is well formed.
    pub open spec fn well_formed(self) -> bool {
        &&& is_tag_name(self.name)
        &&& forall|k: int| 0 <= k < self.fields.len() ==> (#[trigger] self.fields[k]).well_formed()
        &&& forall|k: int|
            0 <= k < self.assigns.len() ==> (#[trigger] self.assigns[k]).well_formed()
    }

    /// The tag that is read from the text of this one.
    pub open spec fn read_back(self) -> TagView {
        TagView {
            name: self.name,
            fields: read_back_fields(self.fields),
            assigns: read_back_assigns(self.assigns),
        }
    }
}

pub open spec fn read_back_tags(tags: Seq<TagView>) -> Seq<TagView> {
    tags.map_values(|t: TagView| t.read_back())
}

impl GodotFileView {
    /// Whether the text of the file can be read again: every tag is well formed, and
    /// the header has no property lines and names no format but the supported one.
    pub open spec fn well_formed(self) -> bool {
        &&& self.header.well_formed()
        &&& self.header.assigns.len() == 0
        &&& format_supported(self.header.read_back())
        &&& forall|k: int| 0 <= k < self.tags.len() ==> (#[trigger] self.tags[k]).well_formed()
    }

    /// The file that is read from the text of this one.
    pub open spec fn read_back(self) -> GodotFileView {
        GodotFileView { header: self.header.read_back(), tags: read_back_tags(self.tags) }
    }
}

/// The text of the fields begins with the text of the first field.
pub proof fn lemma_render_fields_first(fields: Seq<FieldView>)
    requires
        fields.len() > 0,
    ensures
        render_fields(fields) == render_field(fields[0]) + render_fields(fields.drop_first()),
    decreases fields.len(),
{
    if fields.len() == 1 {
        assert(fields.drop_last() =~= Seq::empty());
        assert(fields.drop_first() =~= Seq::empty());
        assert(render_fields(fields) =~= render_field(fields[0]) + render_fields(
            fields.drop_first(),
        ));
    } else {
        lemma_render_fields_first(fields.drop_last());
        assert(fields.drop_last().drop_first() =~= fields.drop_first().drop_last());
        assert(fields.drop_first().last() == fields.last());
        assert(render_fields(fields) =~= render_field(fields[0]) + render_fields(
            fields.drop_first(),
        ));
    }
}

/// The text of the property lines begins with the text of the first line.
pub proof fn lemma_render_assigns_first(assigns: Seq<TagAssignView>)
    requires
        assigns.len() > 0,
    ensures
        render_assigns(assigns) == render_assign(assigns[0]) + render_assigns(
            assigns.drop_first(),
        ),
    decreases assigns.len(),
{
    if assigns.len() == 1 {
        assert(assigns.drop_last() =~= Seq::empty());
        assert(assigns.drop_first() =~= Seq::empty());
        assert(render_assigns(assigns) =~= render_assign(assigns[0]) + render_assigns(
            assigns.drop_first(),
        ));
    } else {
        lemma_render_assigns_first(assigns.drop_last());
        assert(assigns.drop_last().drop_first() =~= assigns.drop_first().drop_last());
        assert(assigns.drop_first().last() == assigns.last());
        assert(render_assigns(assigns) =~= render_assign(assigns[0]) + render_assigns(
            assigns.drop_first(),
        ));
    }
}

/// The text of the tags begins with an empty line and the text of the first tag.
pub proof fn lemma_render_tags_first(tags: Seq<TagView>)
    requires
        tags.len() > 0,
    ensures
        render_tags(tags) == text("\n") + render_tag(tags[0]) + render_tags(tags.drop_first()),
    decreases tags.len(),
{
    if tags.len() == 1 {
        assert(tags.drop_last() =~= Seq::empty());
        assert(tags.drop_first() =~= Seq::empty());
        assert(render_tags(tags) =~= text("\n") + render_tag(tags[0]) + render_tags(
            tags.drop_first(),
        ));
    } else {
        lemma_render_tags_first(tags.drop_last());
        assert(tags.drop_last().drop_first() =~= tags.drop_first().drop_last());
        assert(tags.drop_first().last() == tags.last());
        assert(render_tags(tags) =~= text("\n") + render_tag(tags[0]) + render_tags(
            tags.drop_first(),
        ));
    }
}

/// What is read back is written as what was written.
pub proof fn lemma_render_read_back_fields(fields: Seq<FieldView>)
    requires
        forall|k: int| 0 <= k < fields.len() ==> (#[trigger] fields[k]).well_formed(),
    ensures
        render_fields(read_back_fields(fields)) == render_fields(fields),
    decreases fields.len(),
{
    if fields.len() > 0 {
        lemma_render_read_back_fields(fields.drop_last());
        assert(read_back_fields(fields).drop_last() =~= read_back_fields(fields.drop_last()));
        assert(fields.last().well_formed());
        lemma_value_text_kept(fields.last().value);
    }
}

/// What is read back is written as what was written.
pub proof fn lemma_render_read_back_assigns(assigns: Seq<TagAssignView>)
    requires
        forall|k: int| 0 <= k < assigns.len() ==> (#[trigger] assigns[k]).well_formed(),
    ensures
        render_assigns(read_back_assigns(assigns)) == render_assigns(assigns),
    decreases assigns.len(),
{
    if assigns.len() > 0 {
        lemma_render_read_back_assigns(assigns.drop_last());
        assert(read_back_assigns(assigns).drop_last() =~= read_back_assigns(
            assigns.drop_last(),
        ));
        assert(assigns.last().well_formed());
        lemma_value_text_kept(assigns.last().value);
    }
}

/// The value that is read back has the text of the value that was written.
pub proof fn lemma_value_text_kept(v: crate::value::ValueView)
    requires
        v.well_formed(),
    ensures
        render_value(read_back_value(v)) == render_value(v),
{
}

/// What is read back is written as what was written.
pub proof fn lemma_render_read_back_tag(tag: TagView)
    requires
        tag.well_formed(),
    ensures
        render_tag(tag.read_back()) == render_tag(tag),
{
    lemma_render_read_back_fields(tag.fields);
    lemma_render_read_back_assigns(tag.assigns);
}

/// What is read back is written as what was written.
pub proof fn lemma_render_read_back_tags(tags: Seq<TagView>)
    requires
        forall|k: int| 0 <= k < tags.len() ==> (#[trigger] tags[k]).well_formed(),
    ensures
        render_tags(read_back_tags(tags)) == render_tags(tags),
    decreases tags.len(),
{
    if tags.len() > 0 {
        lemma_render_read_back_tags(tags.drop_last());
        assert(read_back_tags(tags).drop_last() =~= read_back_tags(tags.drop_last()));
        lemma_render_read_back_tag(tags.last());
    }
}

/// Line feeds and spaces before a token are skipped.
pub proof fn lemma_skip_blank(s: Seq<u8>, q: int, b: int)
    requires
        0 <= q <= b <= s.len(),
        forall|k: int| q <= k < b ==> #[trigger] s[k] == NEWLINE || s[k] == SPACE,
    ensures
        spec_next_token(s, q) == spec_next_token(s, b),
    decreases b - q,
{
    if q < b {
        lemma_lex_space(s, q);
        lemma_skip_blank(s, q + 1, b);
    }
}

/// The tag that the fields `rest` complete.
pub open spec fn tag_with(name: Seq<u8>, done: Seq<FieldView>, rest: Seq<FieldView>) -> TagView {
    TagView { name, fields: done + read_back_fields(rest), assigns: Seq::empty() }
}

/// Where the parts of the first field stand, and what stands behind it.
proof fn lemma_first_field_stands(s: Seq<u8>, p: int, rest: Seq<FieldView>)
    requires
        rest.len() > 0,
        holds_at(s, p, render_fields(rest) + text("]\n")),
        rest[0].well_formed(),
    ensures
        ({
            let id = rest[0].identifier;
            let value = render_value(rest[0].value);
            let at = p + 2 + id.len();
            &&& 0 <= p
            &&& at + value.len() < s.len()
            &&& s[p] == SPACE
            &&& holds_at(s, p + 1, id)
            &&& s[p + 1 + id.len()] == EQUAL
            &&& holds_at(s, at, value)
            &&& delimited(s, at + value.len())
            &&& holds_at(s, at + value.len(), render_fields(rest.drop_first()) + text("]\n"))
            &&& render_fields(rest).len() == 2 + id.len() + value.len() + render_fields(
                rest.drop_first(),
            ).len()
        }),
{
    lemma_signs();
    let tail = text("]\n");
    let first = rest[0];
    let others = rest.drop_first();
    lemma_render_fields_first(rest);
    let id = first.identifier;
    let value = render_value(first.value);
    let following = render_fields(others) + tail;
    assert(render_fields(rest) + tail =~= text(" ") + id + text("=") + value + following);
    lemma_holds_split(s, p, text(" ") + id + text("=") + value, following);
    lemma_holds_split(s, p, text(" ") + id + text("="), value);
    lemma_holds_split(s, p, text(" ") + id, text("="));
    lemma_holds_split(s, p, text(" "), id);
    let after = p + 2 + id.len() + value.len();
    assert(s[p] == text(" ")[0]);
    assert(s[p + 1 + id.len()] == text("=")[0]);
    if others.len() == 0 {
        assert(following =~= tail);
        assert(s[after] == following[0]);
    } else {
        lemma_render_fields_first(others);
        assert(following[0] == SPACE);
        assert(s[after] == following[0]);
    }
}

/// One field is read and added to the fields.
proof fn lemma_read_field(
    s: Seq<u8>,
    p: int,
    name: Seq<u8>,
    done: Seq<FieldView>,
    first: FieldView,
    in_name: bool,
)
    requires
        first.well_formed(),
        0 <= p,
        p + 2 + first.identifier.len() + render_value(first.value).len() < s.len(),
        s[p] == SPACE,
        holds_at(s, p + 1, first.identifier),
        s[p + 1 + first.identifier.len()] == EQUAL,
        holds_at(s, p + 2 + first.identifier.len(), render_value(first.value)),
        delimited(s, p + 2 + first.identifier.len() + render_value(first.value).len()),
    ensures
        spec_tag_body(s, p, name, done, in_name) == spec_tag_body(
            s,
            p + 2 + first.identifier.len() + render_value(first.value).len(),
            name,
            done.push(first.read_back()),
            false,
        ),
{
    let id = first.identifier;
    let equal = p + 1 + id.len();
    lemma_lex_space(s, p);
    lemma_lex_identifier(s, p + 1, id);
    lemma_lex_punctuation(s, equal, EQUAL);
    assert(begins_field(s, equal));
    lemma_read_value(s, equal + 1, first.value);
}

/// The fields of a tag are read from their text up to the closing bracket.
pub proof fn lemma_read_fields(
    s: Seq<u8>,
    p: int,
    name: Seq<u8>,
    done: Seq<FieldView>,
    rest: Seq<FieldView>,
    in_name: bool,
)
    requires
        holds_at(s, p, render_fields(rest) + text("]\n")),
        forall|k: int| 0 <= k < rest.len() ==> (#[trigger] rest[k]).well_formed(),
    ensures
        spec_tag_body(s, p, name, done, in_name) == Ok::<(TagView, int), SyntaxError>(
            (tag_with(name, done, rest), p + render_fields(rest).len() + 1),
        ),
    decreases rest.len(),
{
    if rest.len() == 0 {
        lemma_signs();
        let tail = text("]\n");
        lemma_holds_split(s, p, render_fields(rest), tail);
        assert(s[p] == tail[0]);
        lemma_lex_punctuation(s, p, BRACKET_CLOSE);
        assert(done + read_back_fields(rest) =~= done);
    } else {
        let first = rest[0];
        let others = rest.drop_first();
        assert(first.well_formed());
        lemma_first_field_stands(s, p, rest);
        lemma_read_field(s, p, name, done, first, in_name);
        let after = p + 2 + first.identifier.len() + render_value(first.value).len();
        assert forall|k: int| 0 <= k < others.len() implies (
        #[trigger] others[k]).well_formed() by {
            assert(others[k] == rest[k + 1]);
        }
        lemma_read_fields(s, after, name, done.push(first.read_back()), others, false);
        assert(done.push(first.read_back()) + read_back_fields(others) =~= done
            + read_back_fields(rest));
    }
}

/// A place in a name where a token of the name ends.
pub open spec fn is_name_boundary(name: Seq<u8>, q: int) -> bool {
    &&& 0 < q <= name.len()
    &&& q < name.len() ==> !is_identifier_byte(name[q]) || !is_identifier_byte(name[q - 1])
}

/// What stands behind the name of a tag: the closing bracket, or a space and the
/// identifier of the first field.
pub open spec fn name_ends(s: Seq<u8>, j: int) -> bool {
    &&& 0 <= j < s.len()
    &&& s[j] == BRACKET_CLOSE || (s[j] == SPACE && j + 1 < s.len() && is_identifier_start(
        s[j + 1],
    ))
}

/// The identifier that begins at `q` of a name is read whole and added to the name.
proof fn lemma_read_name_identifier(s: Seq<u8>, base: int, name: Seq<u8>, q: int)
    requires
        holds_at(s, base, name),
        is_tag_name(name),
        0 <= q < name.len(),
        is_identifier_start(name[q]),
        name_ends(s, base + name.len()),
    ensures
        ({
            let e = run_end(name, q, ByteClass::Identifier);
            &&& q < e <= name.len()
            &&& is_name_boundary(name, e)
            &&& spec_next_token(s, base + q) == Ok::<(Option<TokenView>, int), SyntaxError>(
                (Some(TokenView::Identifier(name.subrange(q, e))), base + e),
            )
            &&& !begins_field(s, base + e)
        }),
{
    let e = run_end(name, q, ByteClass::Identifier);
    lemma_run_end(name, q, ByteClass::Identifier);
    let w = name.subrange(q, e);
    assert(holds_at(s, base + q, w)) by {
        assert forall|k: int| 0 <= k < w.len() implies s[base + q + k] == #[trigger] w[k] by {
            assert(s[base + (q + k)] == name[q + k]);
        }
    }
    assert(is_identifier(w));
    if e < name.len() {
        assert(s[base + e] == name[e]);
        assert(is_name_byte(name[e]));
        lemma_lex_identifier(s, base + q, w);
        if name[e] == PERIOD {
            lemma_lex_punctuation(s, base + e, PERIOD);
        } else {
            lemma_lex_punctuation(s, base + e, COLON);
        }
    } else {
        lemma_lex_identifier(s, base + q, w);
        if s[base + e] == BRACKET_CLOSE {
            lemma_lex_punctuation(s, base + e, BRACKET_CLOSE);
        } else {
            lemma_lex_space(s, base + e);
        }
    }
}

/// The rest of the name of a tag is read token by token.
pub proof fn lemma_read_name(s: Seq<u8>, base: int, name: Seq<u8>, q: int)
    requires
        holds_at(s, base, name),
        is_tag_name(name),
        is_name_boundary(name, q),
        name_ends(s, base + name.len()),
    ensures
        spec_tag_body(s, base + q, name.take(q), Seq::empty(), true) == spec_tag_body(
            s,
            base + name.len(),
            name,
            Seq::empty(),
            true,
        ),
    decreases name.len() - q,
{
    if q == name.len() {
        assert(name.take(q) =~= name);
    } else {
        let c = name[q];
        assert(s[base + q] == c);
        assert(is_name_byte(c));
        if c == PERIOD || c == COLON {
            lemma_lex_punctuation(s, base + q, c);
            assert(name.take(q).push(c) =~= name.take(q + 1));
            lemma_read_name(s, base, name, q + 1);
        } else {
            assert(is_identifier_byte(name[q]));
            assert(!is_identifier_byte(name[q - 1]));
            assert(is_identifier_start(c));
            lemma_read_name_identifier(s, base, name, q);
            let e = run_end(name, q, ByteClass::Identifier);
            assert(name.take(q) + name.subrange(q, e) =~= name.take(e));
            lemma_read_name(s, base, name, e);
        }
    }
}

/// The header of a tag is read from its text: the tag comes out with the fields that
/// are read back and without property lines, and the position is behind the closing
/// bracket.
pub proof fn lemma_read_tag_header(s: Seq<u8>, b: int, tag: TagView)
    requires
        holds_at(s, b, render_tag_header(tag)),
        is_tag_name(tag.name),
        forall|k: int| 0 <= k < tag.fields.len() ==> (#[trigger] tag.fields[k]).well_formed(),
    ensures
        spec_parse_tag(s, b) == Ok::<(Option<TagView>, int), SyntaxError>(
            (
                Some(tag_with(tag.name, Seq::empty(), tag.fields)),
                b + render_tag_header(tag).len() - 1,
            ),
        ),
        render_tag_header(tag).len() == 3 + tag.name.len() + render_fields(tag.fields).len(),
{
    lemma_signs();
    let name = tag.name;
    let fields = render_fields(tag.fields);
    let tail = text("]\n");
    assert(render_tag_header(tag) =~= text("[") + name + (fields + tail));
    lemma_holds_split(s, b, text("[") + name, fields + tail);
    lemma_holds_split(s, b, text("["), name);
    let base = b + 1;
    let behind = base + name.len();
    assert(s[b] == text("[")[0]);
    lemma_lex_punctuation(s, b, BRACKET_OPEN);
    assert(name_ends(s, behind)) by {
        lemma_holds_split(s, behind, fields, tail);
        if tag.fields.len() == 0 {
            assert(fields + tail =~= tail);
            assert(s[behind] == (fields + tail)[0]);
        } else {
            lemma_render_fields_first(tag.fields);
            assert(tag.fields[0].well_formed());
            let id = tag.fields[0].identifier;
            assert(fields =~= text(" ") + id + (text("=") + render_value(tag.fields[0].value)
                + render_fields(tag.fields.drop_first())));
            assert((fields + tail)[0] == SPACE);
            assert((fields + tail)[1] == id[0]);
            assert(s[behind] == (fields + tail)[0]);
            assert(s[behind + 1] == (fields + tail)[1]);
        }
    }
    lemma_read_name_identifier(s, base, name, 0);
    let e = run_end(name, 0, ByteClass::Identifier);
    assert(name.subrange(0, e) =~= name.take(e));
    lemma_read_name(s, base, name, e);
    lemma_read_fields(s, behind, name, Seq::empty(), tag.fields, true);
}

/// The path of a property line is read byte by byte.
pub proof fn lemma_read_path(s: Seq<u8>, p: int, path: Seq<u8>, k: int)
    requires
        holds_at(s, p, path),
        is_assign_path(path),
        0 <= k <= path.len(),
    ensures
        spec_parse_assign(s, p + k, path.take(k)) == spec_parse_assign(s, p + path.len(), path),
    decreases path.len() - k,
{
    if k == path.len() {
        assert(path.take(k) =~= path);
    } else {
        let c = path[k];
        assert(s[p + k] == c);
        assert(is_path_byte(c));
        assert(path.take(k).push(c) =~= path.take(k + 1));
        lemma_read_path(s, p, path, k + 1);
    }
}

/// A property line is read from its text; the position is before the line feed that
/// ends the line.
pub proof fn lemma_read_assign(s: Seq<u8>, p: int, line: TagAssignView)
    requires
        holds_at(s, p, render_assign(line)),
        line.well_formed(),
    ensures
        spec_parse_assign(s, p, Seq::empty()) == Ok::<(Option<TagAssignView>, int), SyntaxError>(
            (Some(line.read_back()), p + render_assign(line).len() - 1),
        ),
        render_assign(line).len() == line.assign.len() + render_value(line.value).len() + 4,
        s[p + render_assign(line).len() - 1] == NEWLINE,
{
    lemma_signs();
    let path = line.assign;
    let value = render_value(line.value);
    lemma_holds_split(s, p, path + text(" = ") + value, text("\n"));
    lemma_holds_split(s, p, path + text(" = "), value);
    lemma_holds_split(s, p, path, text(" = "));
    let e = p + path.len();
    assert(s[e] == text(" = ")[0]);
    assert(s[e + 1] == text(" = ")[1]);
    assert(s[e + 2] == text(" = ")[2]);
    assert(s[e + 3 + value.len()] == text("\n")[0]);
    assert(path.take(0) =~= Seq::<u8>::empty());
    lemma_read_path(s, p, path, 0);
    assert(spec_parse_assign(s, e, path) == spec_parse_assign(s, e + 1, path));
    lemma_lex_space(s, e + 2);
    assert(spec_parse_value(s, e + 2) == spec_parse_value(s, e + 3));
    lemma_read_value(s, e + 3, line.value);
}

/// What stands behind the property lines of a tag: the end of the text, or an empty
/// line and the next tag.
pub open spec fn lines_end(s: Seq<u8>, j: int) -> bool {
    j == s.len() || (0 <= j && j + 1 < s.len() && s[j] == NEWLINE && s[j + 1] == BRACKET_OPEN)
}

/// Where the parser stands behind the property lines of a tag: at the end of the text,
/// or at the bracket of the next tag.
pub open spec fn behind_lines(s: Seq<u8>, j: int) -> int {
    if j == s.len() {
        j
    } else {
        j + 1
    }
}

/// The property lines of a tag are read from their text, from the line feed before the
/// first of them.
pub proof fn lemma_read_lines(
    s: Seq<u8>,
    e: int,
    done: Seq<TagAssignView>,
    rest: Seq<TagAssignView>,
)
    requires
        0 <= e < s.len(),
        s[e] == NEWLINE,
        holds_at(s, e + 1, render_assigns(rest)),
        forall|k: int| 0 <= k < rest.len() ==> (#[trigger] rest[k]).well_formed(),
        lines_end(s, e + 1 + render_assigns(rest).len()),
    ensures
        spec_parse_assigns(s, e, done) == Ok::<(Seq<TagAssignView>, int), SyntaxError>(
            (
                done + read_back_assigns(rest),
                behind_lines(s, e + 1 + render_assigns(rest).len()),
            ),
        ),
    decreases rest.len(),
{
    assert(spec_parse_assign(s, e, Seq::empty()) == spec_parse_assign(s, e + 1, Seq::empty()));
    if rest.len() == 0 {
        assert(done + read_back_assigns(rest) =~= done);
        if e + 1 < s.len() {
            assert(spec_parse_assign(s, e + 1, Seq::empty()) == spec_parse_assign(
                s,
                e + 2,
                Seq::empty(),
            ));
        }
    } else {
        let first = rest[0];
        let others = rest.drop_first();
        lemma_render_assigns_first(rest);
        assert(first.well_formed());
        lemma_holds_split(s, e + 1, render_assign(first), render_assigns(others));
        lemma_read_assign(s, e + 1, first);
        let next = e + render_assign(first).len();
        lemma_read_lines(s, next, done.push(first.read_back()), others);
        assert(done.push(first.read_back()) + read_back_assigns(others) =~= done
            + read_back_assigns(rest));
    }
}

/// A tag with its property lines is read from its text.
pub proof fn lemma_read_block(s: Seq<u8>, q: int, b: int, tag: TagView, index: usize)
    requires
        0 <= q <= b,
        forall|k: int| q <= k < b ==> #[trigger] s[k] == NEWLINE || s[k] == SPACE,
        holds_at(s, b, render_tag(tag)),
        tag.well_formed(),
        lines_end(s, b + render_tag(tag).len()),
    ensures
        spec_parse_block(s, q, index) == Ok::<(Option<TagView>, int), ParseError>(
            (Some(tag.read_back()), behind_lines(s, b + render_tag(tag).len())),
        ),
        q < behind_lines(s, b + render_tag(tag).len()) <= s.len(),
{
    lemma_signs();
    lemma_holds_split(s, b, render_tag_header(tag), render_assigns(tag.assigns));
    lemma_skip_blank(s, q, b);
    assert(spec_parse_tag(s, q) == spec_parse_tag(s, b));
    lemma_read_tag_header(s, b, tag);
    let h = b + render_tag_header(tag).len() - 1;
    assert(s[h] == NEWLINE) by {
        let header = render_tag_header(tag);
        assert(header[header.len() - 1] == NEWLINE);
        assert(s[b + (header.len() - 1)] == header[header.len() - 1]);
    }
    lemma_read_lines(s, h, Seq::empty(), tag.assigns);
    assert(Seq::<TagAssignView>::empty() + read_back_assigns(tag.assigns) =~= read_back_assigns(
        tag.assigns,
    ));
    assert(Seq::<FieldView>::empty() + read_back_fields(tag.fields) =~= read_back_fields(
        tag.fields,
    ));
}

/// The text of tags begins with a line feed and an opening bracket.
pub proof fn lemma_tags_begin(tags: Seq<TagView>)
    requires
        tags.len() > 0,
    ensures
        render_tags(tags).len() >= 2,
        render_tags(tags)[0] == NEWLINE,
        render_tags(tags)[1] == BRACKET_OPEN,
{
    lemma_signs();
    lemma_render_tags_first(tags);
    let tag = tags[0];
    assert(render_tag(tag) =~= text("[") + (tag.name + render_fields(tag.fields) + text("]\n")
        + render_assigns(tag.assigns)));
    assert(render_tags(tags) =~= text("\n") + text("[") + (tag.name + render_fields(tag.fields)
        + text("]\n") + render_assigns(tag.assigns) + render_tags(tags.drop_first())));
}

/// The header line of a tag ends with a line feed.
pub proof fn lemma_header_ends(tag: TagView)
    ensures
        render_tag_header(tag).len() >= 3,
        render_tag_header(tag)[render_tag_header(tag).len() - 1] == NEWLINE,
{
    lemma_signs();
}

/// Where the first of the tags stands and what stands behind it.
proof fn lemma_first_tag_stands(s: Seq<u8>, e: int, rest: Seq<TagView>)
    requires
        rest.len() > 0,
        holds_at(s, e, render_tags(rest)),
        e + render_tags(rest).len() == s.len(),
    ensures
        s[e] == NEWLINE,
        holds_at(s, e + 1, render_tag(rest[0])),
        holds_at(s, e + 1 + render_tag(rest[0]).len(), render_tags(rest.drop_first())),
        e + 1 + render_tag(rest[0]).len() + render_tags(rest.drop_first()).len() == s.len(),
        lines_end(s, e + 1 + render_tag(rest[0]).len()),
{
    lemma_signs();
    let first = rest[0];
    let others = rest.drop_first();
    lemma_render_tags_first(rest);
    lemma_holds_split(s, e, text("\n") + render_tag(first), render_tags(others));
    lemma_holds_split(s, e, text("\n"), render_tag(first));
    assert(s[e] == text("\n")[0]);
    let j = e + 1 + render_tag(first).len();
    if others.len() > 0 {
        lemma_tags_begin(others);
        let following = render_tags(others);
        assert(s[j] == following[0]);
        assert(s[j + 1] == following[1]);
    } else {
        assert(render_tags(others) =~= Seq::<u8>::empty());
    }
}

/// What is between the parser and the text of the tags: nothing but line feeds and
/// spaces; or the parser stands behind the line feed with which the text begins.
pub open spec fn before_tags(s: Seq<u8>, q: int, e: int, rest: Seq<TagView>) -> bool {
    ||| (0 <= q <= e && forall|k: int| q <= k < e ==> #[trigger] s[k] == NEWLINE || s[k] == SPACE)
    ||| (0 <= q == e + 1 && rest.len() > 0)
}

/// Without a further tag the tags that were read are all.
proof fn lemma_no_more_tags(s: Seq<u8>, q: int, done: Seq<TagView>)
    requires
        0 <= q <= s.len(),
        forall|k: int| q <= k < s.len() ==> #[trigger] s[k] == NEWLINE || s[k] == SPACE,
    ensures
        spec_parse_tags(s, q, done) == Ok::<Seq<TagView>, ParseError>(done),
{
    lemma_skip_blank(s, q, s.len() as int);
    assert(spec_parse_tag(s, q) == spec_parse_tag(s, s.len() as int));
    assert(spec_parse_block(s, q, done.len() as usize) == Ok::<
        (Option<TagView>, int),
        ParseError,
    >((None, s.len() as int)));
}

/// With a further tag the reading goes on behind it.
proof fn lemma_one_more_tag(s: Seq<u8>, q: int, done: Seq<TagView>, tag: TagView, next: int)
    requires
        spec_parse_block(s, q, done.len() as usize) == Ok::<(Option<TagView>, int), ParseError>(
            (Some(tag), next),
        ),
        q < next <= s.len(),
    ensures
        spec_parse_tags(s, q, done) == spec_parse_tags(s, next, done.push(tag)),
{
}

/// The first of the tags is read from its text.
proof fn lemma_read_first_tag(s: Seq<u8>, q: int, e: int, rest: Seq<TagView>, index: usize)
    requires
        rest.len() > 0,
        holds_at(s, e, render_tags(rest)),
        e + render_tags(rest).len() == s.len(),
        before_tags(s, q, e, rest),
        rest[0].well_formed(),
    ensures
        ({
            let j = e + 1 + render_tag(rest[0]).len();
            let next = behind_lines(s, j);
            &&& spec_parse_block(s, q, index) == Ok::<(Option<TagView>, int), ParseError>(
                (Some(rest[0].read_back()), next),
            )
            &&& q < next <= s.len()
            &&& holds_at(s, j, render_tags(rest.drop_first()))
            &&& j + render_tags(rest.drop_first()).len() == s.len()
            &&& before_tags(s, next, j, rest.drop_first())
        }),
{
    lemma_first_tag_stands(s, e, rest);
    lemma_read_block(s, q, e + 1, rest[0], index);
}

/// The tags of a file are read from their text, which runs to the end of the input.
pub proof fn lemma_read_tags(s: Seq<u8>, q: int, e: int, done: Seq<TagView>, rest: Seq<TagView>)
    requires
        holds_at(s, e, render_tags(rest)),
        e + render_tags(rest).len() == s.len(),
        before_tags(s, q, e, rest),
        forall|k: int| 0 <= k < rest.len() ==> (#[trigger] rest[k]).well_formed(),
    ensures
        spec_parse_tags(s, q, done) == Ok::<Seq<TagView>, ParseError>(
            done + read_back_tags(rest),
        ),
    decreases rest.len(),
{
    if rest.len() == 0 {
        assert(render_tags(rest) =~= Seq::<u8>::empty());
        lemma_no_more_tags(s, q, done);
        assert(done + read_back_tags(rest) =~= done);
    } else {
        let first = rest[0];
        let others = rest.drop_first();
        assert(first.well_formed());
        lemma_read_first_tag(s, q, e, rest, done.len() as usize);
        let j = e + 1 + render_tag(first).len();
        let next = behind_lines(s, j);
        lemma_one_more_tag(s, q, done, first.read_back(), next);
        assert forall|k: int| 0 <= k < others.len() implies (
        #[trigger] others[k]).well_formed() by {
            assert(others[k] == rest[k + 1]);
        }
        lemma_read_tags(s, next, j, done.push(first.read_back()), others);
        assert(done.push(first.read_back()) + read_back_tags(others) =~= done + read_back_tags(
            rest,
        ));
    }
}

/// The header of a file is read from the text of the file.
proof fn lemma_read_file_header(file: GodotFileView)
    requires
        file.well_formed(),
    ensures
        ({
            let s = render_file(file);
            let e = render_tag_header(file.header).len() as int;
            &&& spec_parse_tag(s, 0) == Ok::<(Option<TagView>, int), SyntaxError>(
                (Some(file.header.read_back()), e - 1),
            )
            &&& 1 <= e <= s.len()
            &&& s[e - 1] == NEWLINE
            &&& holds_at(s, e, render_tags(file.tags))
            &&& e + render_tags(file.tags).len() == s.len()
        }),
{
    let s = render_file(file);
    let header = file.header;
    assert(header.assigns =~= Seq::empty());
    assert(render_tag(header) =~= render_tag_header(header));
    crate::roundtrip::tokens::lemma_holds_prefix(render_tag_header(header), render_tags(file.tags));
    lemma_read_tag_header(s, 0, header);
    lemma_header_ends(header);
    let e = render_tag_header(header).len() as int;
    assert(s[0 + (e - 1)] == render_tag_header(header)[e - 1]);
    assert(Seq::<FieldView>::empty() + read_back_fields(header.fields) =~= read_back_fields(
        header.fields,
    ));
    assert(read_back_assigns(header.assigns) =~= Seq::empty());
}

/// A file is read from its text.
pub proof fn lemma_read_file(file: GodotFileView)
    requires
        file.well_formed(),
    ensures
        spec_parse_file(render_file(file)) == Ok::<GodotFileView, ParseError>(file.read_back()),
{
    let s = render_file(file);
    let e = render_tag_header(file.header).len() as int;
    lemma_read_file_header(file);
    assert(before_tags(s, e - 1, e, file.tags));
    lemma_read_tags(s, e - 1, e, Seq::empty(), file.tags);
    assert(Seq::<TagView>::empty() + read_back_tags(file.tags) =~= read_back_tags(file.tags));
}

} // verus!
