//! The reserved words.

use vstd::prelude::*;
use crate::chars::spells;
use crate::token::KeywordKind;

verus! {

/// Whether the word, in small letters, is a reserved word that the parser does not tell
/// apart from the other reserved words.
pub open spec fn is_other_reserved(word: Seq<char>) -> bool {
    ||| word == "and"@
    ||| word == "array"@
    ||| word == "as"@
    ||| word == "class"@
    ||| word == "const"@
    ||| word == "constructor"@
    ||| word == "destructor"@
    ||| word == "dispinterface"@
    ||| word == "div"@
    ||| word == "downto"@
    ||| word == "except"@
    ||| word == "exports"@
    ||| word == "file"@
    ||| word == "finalization"@
    ||| word == "finally"@
    ||| word == "function"@
    ||| word == "goto"@
    ||| word == "implementation"@
    ||| word == "in"@
    ||| word == "inherited"@
    ||| word == "initialization"@
    ||| word == "inline"@
    ||| word == "interface"@
    ||| word == "is"@
    ||| word == "label"@
    ||| word == "library"@
    ||| word == "mod"@
    ||| word == "nil"@
    ||| word == "not"@
    ||| word == "object"@
    ||| word == "or"@
    ||| word == "packed"@
    ||| word == "procedure"@
    ||| word == "program"@
    ||| word == "property"@
    ||| word == "raise"@
    ||| word == "record"@
    ||| word == "resourcestring"@
    ||| word == "set"@
    ||| word == "shl"@
    ||| word == "shr"@
    ||| word == "string"@
    ||| word == "threadvar"@
    ||| word == "to"@
    ||| word == "type"@
    ||| word == "unit"@
    ||| word == "uses"@
    ||| word == "var"@
    ||| word == "with"@
    ||| word == "xor"@
}

/// The reserved word that the word, in small letters, spells.
pub open spec fn keyword_of(word: Seq<char>) -> Option<KeywordKind> {
    if word == "if"@ {
        Some(KeywordKind::If)
    } else if word == "then"@ {
        Some(KeywordKind::Then)
    } else if word == "else"@ {
        Some(KeywordKind::Else)
    } else if word == "for"@ {
        Some(KeywordKind::For)
    } else if word == "while"@ {
        Some(KeywordKind::While)
    } else if word == "do"@ {
        Some(KeywordKind::Do)
    } else if word == "begin"@ {
        Some(KeywordKind::Begin)
    } else if word == "end"@ {
        Some(KeywordKind::End)
    } else if word == "case"@ {
        Some(KeywordKind::Case)
    } else if word == "of"@ {
        Some(KeywordKind::Of)
    } else if word == "try"@ {
        Some(KeywordKind::Try)
    } else if word == "repeat"@ {
        Some(KeywordKind::Repeat)
    } else if word == "until"@ {
        Some(KeywordKind::Until)
    } else if word == "asm"@ {
        Some(KeywordKind::Asm)
    } else if is_other_reserved(word) {
        Some(KeywordKind::Other)
    } else {
        None
    }
}

fn other_reserved(word: &Vec<char>) -> (yes: bool)
    ensures
        yes == is_other_reserved(word@),
{
    spells(word, "and")
        || spells(word, "array")
        || spells(word, "as")
        || spells(word, "class")
        || spells(word, "const")
        || spells(word, "constructor")
        || spells(word, "destructor")
        || spells(word, "dispinterface")
        || spells(word, "div")
        || spells(word, "downto")
        || spells(word, "except")
        || spells(word, "exports")
        || spells(word, "file")
        || spells(word, "finalization")
        || spells(word, "finally")
        || spells(word, "function")
        || spells(word, "goto")
        || spells(word, "implementation")
        || spells(word, "in")
        || spells(word, "inherited")
        || spells(word, "initialization")
        || spells(word, "inline")
        || spells(word, "interface")
        || spells(word, "is")
        || spells(word, "label")
        || spells(word, "library")
        || spells(word, "mod")
        || spells(word, "nil")
        || spells(word, "not")
        || spells(word, "object")
        || spells(word, "or")
        || spells(word, "packed")
        || spells(word, "procedure")
        || spells(word, "program")
        || spells(word, "property")
        || spells(word, "raise")
        || spells(word, "record")
        || spells(word, "resourcestring")
        || spells(word, "set")
        || spells(word, "shl")
        || spells(word, "shr")
        || spells(word, "string")
        || spells(word, "threadvar")
        || spells(word, "to")
        || spells(word, "type")
        || spells(word, "unit")
        || spells(word, "uses")
        || spells(word, "var")
        || spells(word, "with")
        || spells(word, "xor")
}

/// The reserved word that the word, in small letters, spells.
pub fn keyword(word: &Vec<char>) -> (kind: Option<KeywordKind>)
    ensures
        kind == keyword_of(word@),
{
    if spells(word, "if") {
        Some(KeywordKind::If)
    } else if spells(word, "then") {
        Some(KeywordKind::Then)
    } else if spells(word, "else") {
        Some(KeywordKind::Else)
    } else if spells(word, "for") {
        Some(KeywordKind::For)
    } else if spells(word, "while") {
        Some(KeywordKind::While)
    } else if spells(word, "do") {
        Some(KeywordKind::Do)
    } else if spells(word, "begin") {
        Some(KeywordKind::Begin)
    } else if spells(word, "end") {
        Some(KeywordKind::End)
    } else if spells(word, "case") {
        Some(KeywordKind::Case)
    } else if spells(word, "of") {
        Some(KeywordKind::Of)
    } else if spells(word, "try") {
        Some(KeywordKind::Try)
    } else if spells(word, "repeat") {
        Some(KeywordKind::Repeat)
    } else if spells(word, "until") {
        Some(KeywordKind::Until)
    } else if spells(word, "asm") {
        Some(KeywordKind::Asm)
    } else if other_reserved(word) {
        Some(KeywordKind::Other)
    } else {
        None
    }
}

} // verus!
