//! The writer: from tags to text.

use vstd::prelude::*;
use crate::bytes::{push_bytes, push_str, text};
use crate::document::{
    lemma_deep_view_prefix, FieldView, GodotFile, GodotFileView, Tag, TagAssignView, TagView,
};
use crate::value::render_value;

verus! {

pub open spec fn render_field(field: FieldView) -> Seq<u8> {
    text(" ") + field.identifier + text("=") + render_value(field.value)
}

/// The fields of a tag, each behind a space.
pub open spec fn render_fields(fields: Seq<FieldView>) -> Seq<u8>
    decreases fields.len(),
{
    if fields.len() == 0 {
        Seq::empty()
    } else {
        render_fields(fields.drop_last()) + render_field(fields.last())
    }
}

pub open spec fn render_assign(assign: TagAssignView) -> Seq<u8> {
    assign.assign + text(" = ") + render_value(assign.value) + text("\n")
}

/// The property lines of a tag, one line each.
pub open spec fn render_assigns(assigns: Seq<TagAssignView>) -> Seq<u8>
    decreases assigns.len(),
{
    if assigns.len() == 0 {
        Seq::empty()
    } else {
        render_assigns(assigns.drop_last()) + render_assign(assigns.last())
    }
}

/// The bracketed header of a tag on a line of its own.
pub open spec fn render_tag_header(tag: TagView) -> Seq<u8> {
    text("[") + tag.name + render_fields(tag.fields) + text("]\n")
}

/// A tag: its header line, then its property lines.
pub open spec fn render_tag(tag: TagView) -> Seq<u8> {
    render_tag_header(tag) + render_assigns(tag.assigns)
}

/// The tags behind the header, each behind an empty line.
pub open spec fn render_tags(tags: Seq<TagView>) -> Seq<u8>
    decreases tags.len(),
{
    if tags.len() == 0 {
        Seq::empty()
    } else {
        render_tags(tags.drop_last()) + text("\n") + render_tag(tags.last())
    }
}

/// The text of a whole file.
pub open spec fn render_file(file: GodotFileView) -> Seq<u8> {
    render_tag(file.header) + render_tags(file.tags)
}

impl Tag {
    /// Appends the text of the tag to `out`.
    pub fn godot_fmt(&self, out: &mut Vec<u8>)
        ensures
            final(out)@ == old(out)@ + render_tag(self@),
    {
        let ghost before = out@;
        push_str(out, "[");
        push_bytes(out, self.name.as_slice());
        let mut i: usize = 0;
        proof {
            lemma_deep_view_prefix(self.fields, 0);
        }
        while i < self.fields.len()
            invariant
                i <= self.fields.len(),
                out@ == before + text("[") + self.name@ + render_fields(
                    self.fields.deep_view().take(i as int),
                ),
            decreases self.fields.len() - i,
        {
            let field = &self.fields[i];
            let ghost line = out@;
            push_str(out, " ");
            push_bytes(out, field.identifier.as_slice());
            push_str(out, "=");
            field.value.godot_fmt(out);
            proof {
                lemma_deep_view_prefix(self.fields, i as int);
                lemma_deep_view_prefix(self.fields, i + 1);
                let fields = self.fields.deep_view();
                assert(fields.take(i + 1).drop_last() =~= fields.take(i as int));
                assert(fields.take(i + 1).last() == field@);
                assert(out@ =~= line + render_field(field@));
            }
            i = i + 1;
        }
        push_str(out, "]\n");
        let ghost header = out@;
        proof {
            assert(self.fields.deep_view().take(i as int) =~= self.fields.deep_view());
            assert(header =~= before + render_tag_header(self@));
            lemma_deep_view_prefix(self.assigns, 0);
        }
        let mut k: usize = 0;
        while k < self.assigns.len()
            invariant
                k <= self.assigns.len(),
                out@ == header + render_assigns(self.assigns.deep_view().take(k as int)),
            decreases self.assigns.len() - k,
        {
            let assign = &self.assigns[k];
            let ghost line = out@;
            push_bytes(out, assign.assign.as_slice());
            push_str(out, " = ");
            assign.value.godot_fmt(out);
            push_str(out, "\n");
            proof {
                lemma_deep_view_prefix(self.assigns, k as int);
                lemma_deep_view_prefix(self.assigns, k + 1);
                let assigns = self.assigns.deep_view();
                assert(assigns.take(k + 1).drop_last() =~= assigns.take(k as int));
                assert(assigns.take(k + 1).last() == assign@);
                assert(out@ =~= line + render_assign(assign@));
            }
            k = k + 1;
        }
        proof {
            assert(self.assigns.deep_view().take(k as int) =~= self.assigns.deep_view());
            assert(out@ =~= before + render_tag(self@));
        }
    }
}

/// Collects the text of a file: the header first, then each tag behind an empty line.
pub struct GodotWriter {
    out: Vec<u8>,
}

impl GodotWriter {
    /// The text written so far.
    pub closed spec fn written(&self) -> Seq<u8> {
        self.out@
    }

    /// A writer that holds the text of the header tag.
    pub fn begin(header: &Tag) -> (writer: Self)
        ensures
            writer.written() == render_tag(header@),
    {
        let mut out: Vec<u8> = Vec::new();
        header.godot_fmt(&mut out);
        assert(out@ =~= render_tag(header@));
        GodotWriter { out }
    }

    /// Writes an empty line and the tag.
    pub fn write_tag(&mut self, tag: &Tag)
        ensures
            final(self).written() == old(self).written() + text("\n") + render_tag(tag@),
    {
        push_str(&mut self.out, "\n");
        tag.godot_fmt(&mut self.out);
    }

    /// The text that was written.
    pub fn finish(self) -> (out: Vec<u8>)
        ensures
            out@ == self.written(),
    {
        self.out
    }
}

impl GodotFile {
    /// The text of the file.
    pub fn to_bytes(&self) -> (out: Vec<u8>)
        ensures
            out@ == render_file(self@),
    {
        let mut writer = GodotWriter::begin(&self.header);
        let mut i: usize = 0;
        proof {
            lemma_deep_view_prefix(self.tags, 0);
        }
        while i < self.tags.len()
            invariant
                i <= self.tags.len(),
                writer.written() == render_tag(self.header@) + render_tags(
                    self.tags.deep_view().take(i as int),
                ),
            decreases self.tags.len() - i,
        {
            let ghost before = writer.written();
            writer.write_tag(&self.tags[i]);
            proof {
                lemma_deep_view_prefix(self.tags, i as int);
                lemma_deep_view_prefix(self.tags, i + 1);
                let tags = self.tags.deep_view();
                assert(tags.take(i + 1).drop_last() =~= tags.take(i as int));
                assert(tags.take(i + 1).last() == self.tags@[i as int]@);
                assert(writer.written() =~= render_tag(self.header@) + render_tags(
                    tags.take(i + 1),
                ));
            }
            i = i + 1;
        }
        proof {
            assert(self.tags.deep_view().take(i as int) =~= self.tags.deep_view());
        }
        writer.finish()
    }
}

} // verus!
