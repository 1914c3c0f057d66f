//! The generic model of a file: a header tag and the tags that follow it.

use vstd::prelude::*;
use crate::value::{Value, ValueView};

verus! {

/// A `key=value` pair inside the brackets of a tag.
#[derive(Clone, Debug, PartialEq, Eq)]
pub struct Field {
    pub identifier: Vec<u8>,
    pub value: Value,
}

pub struct FieldView {
    pub identifier: Seq<u8>,
    pub value: ValueView,
}

/// A `path = value` property line behind a tag.
#[derive(Clone, Debug, PartialEq, Eq)]
pub struct TagAssign {
    pub assign: Vec<u8>,
    pub value: Value,
}

pub struct TagAssignView {
    pub assign: Seq<u8>,
    pub value: ValueView,
}

/// One bracketed header with its fields, and the property lines behind it.
#[derive(Clone, Debug, PartialEq, Eq)]
pub struct Tag {
    pub name: Vec<u8>,
    pub fields: Vec<Field>,
    pub assigns: Vec<TagAssign>,
}

pub struct TagView {
    pub name: Seq<u8>,
    pub fields: Seq<FieldView>,
    pub assigns: Seq<TagAssignView>,
}

/// A whole file, its tags in the order of the text.
#[derive(Clone, Debug, PartialEq, Eq)]
pub struct GodotFile {
    pub header: Tag,
    pub tags: Vec<Tag>,
}

pub struct GodotFileView {
    pub header: TagView,
    pub tags: Seq<TagView>,
}

impl View for Field {
    type V = FieldView;

    open spec fn view(&self) -> FieldView {
        FieldView { identifier: self.identifier@, value: self.value@ }
    }
}

impl DeepView for Field {
    type V = FieldView;

    open spec fn deep_view(&self) -> FieldView {
        self@
    }
}

impl View for TagAssign {
    type V = TagAssignView;

    open spec fn view(&self) -> TagAssignView {
        TagAssignView { assign: self.assign@, value: self.value@ }
    }
}

impl DeepView for TagAssign {
    type V = TagAssignView;

    open spec fn deep_view(&self) -> TagAssignView {
        self@
    }
}

impl View for Tag {
    type V = TagView;

    open spec fn view(&self) -> TagView {
        TagView {
            name: self.name@,
            fields: self.fields.deep_view(),
            assigns: self.assigns.deep_view(),
        }
    }
}

impl DeepView for Tag {
    type V = TagView;

    open spec fn deep_view(&self) -> TagView {
        self@
    }
}

impl View for GodotFile {
    type V = GodotFileView;

    open spec fn view(&self) -> GodotFileView {
        GodotFileView { header: self.header@, tags: self.tags.deep_view() }
    }
}

/// Pushing onto a vector pushes the view of the item onto the view of the vector.
pub proof fn lemma_deep_view_push<T: DeepView>(before: Vec<T>, after: Vec<T>, item: T)
    requires
        after@ == before@.push(item),
    ensures
        after.deep_view() == before.deep_view().push(item.deep_view()),
{
    assert(after.deep_view() =~= before.deep_view().push(item.deep_view()));
}

/// The vector without its last item has the view without its last item.
pub proof fn lemma_deep_view_prefix<T: DeepView>(v: Vec<T>, k: int)
    requires
        0 <= k <= v@.len(),
    ensures
        v.deep_view().take(k) == Seq::new(k as nat, |i: int| v@[i].deep_view()),
        v.deep_view().len() == v@.len(),
        forall|i: int| 0 <= i < v@.len() ==> v.deep_view()[i] == #[trigger] v@[i].deep_view(),
{
    assert(v.deep_view().take(k) =~= Seq::new(k as nat, |i: int| v@[i].deep_view()));
}

} // verus!
