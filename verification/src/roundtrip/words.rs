//! The bytes of the words and signs that the format is written with.

use vstd::prelude::*;
use crate::ascii::{
    AMPERSAND, BRACKET_CLOSE, BRACKET_OPEN, COMMA, EQUAL, NEWLINE, PAREN_CLOSE, PAREN_OPEN, QUOTE,
    SPACE,
};
use crate::bytes::text;
use crate::roundtrip::tokens::is_identifier;

verus! {

/// The signs between the parts of a file.
pub proof fn lemma_signs()
    ensures
        text(" ") == seq![SPACE],
        text("=") == seq![EQUAL],
        text("[") == seq![BRACKET_OPEN],
        text("]\n") == seq![BRACKET_CLOSE, NEWLINE],
        text(" = ") == seq![SPACE, EQUAL, SPACE],
        text("\n") == seq![NEWLINE],
        text(", ") == seq![COMMA, SPACE],
        text(")") == seq![PAREN_CLOSE],
        text("\"") == seq![QUOTE],
        text("&\"") == seq![AMPERSAND, QUOTE],
        text("\")") == seq![QUOTE, PAREN_CLOSE],
{
    broadcast use vstd::string::is_ascii_spec_bytes;

    reveal_strlit(" ");
    reveal_strlit("=");
    reveal_strlit("[");
    reveal_strlit("]\n");
    reveal_strlit(" = ");
    reveal_strlit("\n");
    reveal_strlit(", ");
    reveal_strlit(")");
    reveal_strlit("\"");
    reveal_strlit("&\"");
    reveal_strlit("\")");
    assert(vstd::string::is_ascii(" "));
    assert(vstd::string::is_ascii("="));
    assert(vstd::string::is_ascii("["));
    assert(vstd::string::is_ascii("]\n"));
    assert(vstd::string::is_ascii(" = "));
    assert(vstd::string::is_ascii("\n"));
    assert(vstd::string::is_ascii(", "));
    assert(vstd::string::is_ascii(")"));
    assert(vstd::string::is_ascii("\""));
    assert(vstd::string::is_ascii("&\""));
    assert(vstd::string::is_ascii("\")"));
    assert(text(" ") =~= seq![SPACE]);
    assert(text("=") =~= seq![EQUAL]);
    assert(text("[") =~= seq![BRACKET_OPEN]);
    assert(text("]\n") =~= seq![BRACKET_CLOSE, NEWLINE]);
    assert(text(" = ") =~= seq![SPACE, EQUAL, SPACE]);
    assert(text("\n") =~= seq![NEWLINE]);
    assert(text(", ") =~= seq![COMMA, SPACE]);
    assert(text(")") =~= seq![PAREN_CLOSE]);
    assert(text("\"") =~= seq![QUOTE]);
    assert(text("&\"") =~= seq![AMPERSAND, QUOTE]);
    assert(text("\")") =~= seq![QUOTE, PAREN_CLOSE]);
}

/// The words that stand for a value are identifiers, and no two of them are the same.
pub proof fn lemma_words()
    ensures
        is_identifier(text("true")),
        is_identifier(text("false")),
        is_identifier(text("null")),
        is_identifier(text("nil")),
        is_identifier(text("inf")),
        is_identifier(text("neg_inf")),
        is_identifier(text("nan")),
        text("true").len() == 4 && text("true")[0] == 116,
        text("false").len() == 5 && text("false")[0] == 102,
        text("null").len() == 4 && text("null")[0] == 110,
        text("nil").len() == 3 && text("nil")[0] == 110 && text("nil")[1] == 105,
        text("inf").len() == 3 && text("inf")[0] == 105,
        text("neg_inf").len() == 7,
        text("nan").len() == 3 && text("nan")[0] == 110 && text("nan")[1] == 97,
{
    broadcast use vstd::string::is_ascii_spec_bytes;

    reveal_strlit("true");
    reveal_strlit("false");
    reveal_strlit("null");
    reveal_strlit("nil");
    reveal_strlit("inf");
    reveal_strlit("neg_inf");
    reveal_strlit("nan");
    assert(vstd::string::is_ascii("true"));
    assert(vstd::string::is_ascii("false"));
    assert(vstd::string::is_ascii("null"));
    assert(vstd::string::is_ascii("nil"));
    assert(vstd::string::is_ascii("inf"));
    assert(vstd::string::is_ascii("neg_inf"));
    assert(vstd::string::is_ascii("nan"));
    assert(text("true") =~= seq![116u8, 114, 117, 101]);
    assert(text("false") =~= seq![102u8, 97, 108, 115, 101]);
    assert(text("null") =~= seq![110u8, 117, 108, 108]);
    assert(text("nil") =~= seq![110u8, 105, 108]);
    assert(text("inf") =~= seq![105u8, 110, 102]);
    assert(text("neg_inf") =~= seq![110u8, 101, 103, 95, 105, 110, 102]);
    assert(text("nan") =~= seq![110u8, 97, 110]);
}

/// The names of the constructors are identifiers, no two of them are the same, and none
/// is a word that stands for a value. Where a constructor is written, its name stands
/// before the opening parenthesis.
pub proof fn lemma_constructors()
    ensures
        is_identifier(text("Vector2i")),
        is_identifier(text("Color")),
        is_identifier(text("SubResource")),
        is_identifier(text("ExtResource")),
        text("Vector2i").len() == 8 && text("Vector2i")[0] == 86,
        text("Color").len() == 5 && text("Color")[0] == 67,
        text("SubResource").len() == 11 && text("SubResource")[0] == 83,
        text("ExtResource").len() == 11 && text("ExtResource")[0] == 69,
        text("Vector2i(") == text("Vector2i") + seq![PAREN_OPEN],
        text("Color(") == text("Color") + seq![PAREN_OPEN],
        text("SubResource(\"") == text("SubResource") + seq![PAREN_OPEN, QUOTE],
        text("ExtResource(\"") == text("ExtResource") + seq![PAREN_OPEN, QUOTE],
{
    broadcast use vstd::string::is_ascii_spec_bytes;

    reveal_strlit("Vector2i");
    reveal_strlit("Color");
    reveal_strlit("SubResource");
    reveal_strlit("ExtResource");
    reveal_strlit("Vector2i(");
    reveal_strlit("Color(");
    reveal_strlit("SubResource(\"");
    reveal_strlit("ExtResource(\"");
    assert(vstd::string::is_ascii("Vector2i"));
    assert(vstd::string::is_ascii("Color"));
    assert(vstd::string::is_ascii("SubResource"));
    assert(vstd::string::is_ascii("ExtResource"));
    assert(vstd::string::is_ascii("Vector2i("));
    assert(vstd::string::is_ascii("Color("));
    assert(vstd::string::is_ascii("SubResource(\""));
    assert(vstd::string::is_ascii("ExtResource(\""));
    assert(text("Vector2i") =~= seq![86u8, 101, 99, 116, 111, 114, 50, 105]);
    assert(text("Color") =~= seq![67u8, 111, 108, 111, 114]);
    assert(text("SubResource") =~= seq![83u8, 117, 98, 82, 101, 115, 111, 117, 114, 99, 101]);
    assert(text("ExtResource") =~= seq![69u8, 120, 116, 82, 101, 115, 111, 117, 114, 99, 101]);
    assert(text("Vector2i(") =~= text("Vector2i") + seq![PAREN_OPEN]);
    assert(text("Color(") =~= text("Color") + seq![PAREN_OPEN]);
    assert(text("SubResource(\"") =~= text("SubResource") + seq![PAREN_OPEN, QUOTE]);
    assert(text("ExtResource(\"") =~= text("ExtResource") + seq![PAREN_OPEN, QUOTE]);
}

} // verus!
