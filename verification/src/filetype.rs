//! Per-language classification rules: which lexical categories are
//! coloured and which words count as keywords.
//!
//! A rules object is pure data, looked up once from the filename when a
//! document is loaded. An unrecognised file type yields rules with every
//! category disabled and empty keyword sets, never a failure.

use vstd::prelude::*;
use vstd::string::StrSliceExecFns;
use crate::chars::chars_of;

verus! {

/// Category toggles and keyword sets for one language.
pub struct HighlightingOptions {
    pub numbers: bool,
    pub strings: bool,
    pub characters: bool,
    pub comments: bool,
    pub punctuation: bool,
    pub primary_keywords: Vec<Vec<char>>,
    pub secondary_keywords: Vec<Vec<char>>,
}

/// The mathematical content of a rules object.
pub ghost struct RulesView {
    pub numbers: bool,
    pub strings: bool,
    pub characters: bool,
    pub comments: bool,
    pub punctuation: bool,
    pub primary_keywords: Seq<Seq<char>>,
    pub secondary_keywords: Seq<Seq<char>>,
}

impl View for HighlightingOptions {
    type V = RulesView;

    open spec fn view(&self) -> RulesView {
        RulesView {
            numbers: self.numbers,
            strings: self.strings,
            characters: self.characters,
            comments: self.comments,
            punctuation: self.punctuation,
            primary_keywords: self.primary_keywords@.map_values(|w: Vec<char>| w@),
            secondary_keywords: self.secondary_keywords@.map_values(|w: Vec<char>| w@),
        }
    }
}

/// The closed set of recognised file types.
#[derive(Clone, Copy, Debug, PartialEq, Eq, Structural)]
pub enum FileType {
    Rust,
    PlainText,
}

/// A filename selects Rust rules exactly when it ends in ".rs".
pub open spec fn file_type_of(name: Seq<char>) -> FileType {
    if name.len() >= 3 && name[name.len() - 3] == '.' && name[name.len() - 2] == 'r' && name[
        name.len() - 1] == 's' {
        FileType::Rust
    } else {
        FileType::PlainText
    }
}

/// Rules with every category disabled and no keywords.
pub open spec fn disabled_rules() -> RulesView {
    RulesView {
        numbers: false,
        strings: false,
        characters: false,
        comments: false,
        punctuation: false,
        primary_keywords: Seq::empty(),
        secondary_keywords: Seq::empty(),
    }
}

pub open spec fn rust_primary_keywords() -> Seq<Seq<char>> {
    seq![
        "as"@, "break"@, "const"@, "continue"@, "crate"@, "else"@, "enum"@, "false"@,
        "fn"@, "for"@, "if"@, "impl"@, "in"@, "let"@, "loop"@, "match"@, "mod"@, "move"@,
        "mut"@, "pub"@, "ref"@, "return"@, "self"@, "static"@, "struct"@, "super"@,
        "trait"@, "true"@, "type"@, "unsafe"@, "use"@, "where"@, "while"@,
    ]
}

pub open spec fn rust_secondary_keywords() -> Seq<Seq<char>> {
    seq![
        "bool"@, "char"@, "i8"@, "i16"@, "i32"@, "i64"@, "isize"@, "str"@, "u8"@, "u16"@,
        "u32"@, "u64"@, "usize"@,
    ]
}

/// Rust rules: every category on, with the Rust keyword sets.
pub open spec fn rust_rules() -> RulesView {
    RulesView {
        numbers: true,
        strings: true,
        characters: true,
        comments: true,
        punctuation: true,
        primary_keywords: rust_primary_keywords(),
        secondary_keywords: rust_secondary_keywords(),
    }
}

/// The rules that each file type exposes.
pub open spec fn rules_of(t: FileType) -> RulesView {
    match t {
        FileType::Rust => rust_rules(),
        FileType::PlainText => disabled_rules(),
    }
}

impl HighlightingOptions {
    /// The all-disabled rules object.
    pub fn disabled() -> (r: HighlightingOptions)
        ensures
            r@ == disabled_rules(),
    {
        let r = HighlightingOptions {
            numbers: false,
            strings: false,
            characters: false,
            comments: false,
            punctuation: false,
            primary_keywords: Vec::new(),
            secondary_keywords: Vec::new(),
        };
        proof {
            assert(r@.primary_keywords =~= Seq::<Seq<char>>::empty());
            assert(r@.secondary_keywords =~= Seq::<Seq<char>>::empty());
        }
        r
    }

    /// The Rust rules object.
    pub fn rust() -> (r: HighlightingOptions)
        ensures
            r@ == rust_rules(),
    {
        let mut primary: Vec<Vec<char>> = Vec::new();
        primary.push(chars_of("as"));
        primary.push(chars_of("break"));
        primary.push(chars_of("const"));
        primary.push(chars_of("continue"));
        primary.push(chars_of("crate"));
        primary.push(chars_of("else"));
        primary.push(chars_of("enum"));
        primary.push(chars_of("false"));
        primary.push(chars_of("fn"));
        primary.push(chars_of("for"));
        primary.push(chars_of("if"));
        primary.push(chars_of("impl"));
        primary.push(chars_of("in"));
        primary.push(chars_of("let"));
        primary.push(chars_of("loop"));
        primary.push(chars_of("match"));
        primary.push(chars_of("mod"));
        primary.push(chars_of("move"));
        primary.push(chars_of("mut"));
        primary.push(chars_of("pub"));
        primary.push(chars_of("ref"));
        primary.push(chars_of("return"));
        primary.push(chars_of("self"));
        primary.push(chars_of("static"));
        primary.push(chars_of("struct"));
        primary.push(chars_of("super"));
        primary.push(chars_of("trait"));
        primary.push(chars_of("true"));
        primary.push(chars_of("type"));
        primary.push(chars_of("unsafe"));
        primary.push(chars_of("use"));
        primary.push(chars_of("where"));
        primary.push(chars_of("while"));
        let mut secondary: Vec<Vec<char>> = Vec::new();
        secondary.push(chars_of("bool"));
        secondary.push(chars_of("char"));
        secondary.push(chars_of("i8"));
        secondary.push(chars_of("i16"));
        secondary.push(chars_of("i32"));
        secondary.push(chars_of("i64"));
        secondary.push(chars_of("isize"));
        secondary.push(chars_of("str"));
        secondary.push(chars_of("u8"));
        secondary.push(chars_of("u16"));
        secondary.push(chars_of("u32"));
        secondary.push(chars_of("u64"));
        secondary.push(chars_of("usize"));
        let r = HighlightingOptions {
            numbers: true,
            strings: true,
            characters: true,
            comments: true,
            punctuation: true,
            primary_keywords: primary,
            secondary_keywords: secondary,
        };
        proof {
            assert(r@.primary_keywords =~= rust_primary_keywords());
            assert(r@.secondary_keywords =~= rust_secondary_keywords());
        }
        r
    }
}

impl FileType {
    /// The file type inferred from a filename's extension.
    pub fn from(filename: &str) -> (r: FileType)
        ensures
            r == file_type_of(filename@),
    {
        let n = filename.unicode_len();
        if n >= 3 {
            let a = filename.get_char(n - 3);
            let b = filename.get_char(n - 2);
            let c = filename.get_char(n - 1);
            if a == '.' && b == 'r' && c == 's' {
                return FileType::Rust;
            }
        }
        FileType::PlainText
    }

    /// The rules this file type exposes to the tokenizer.
    pub fn highlighting_options(&self) -> (r: HighlightingOptions)
        ensures
            r@ == rules_of(*self),
    {
        match self {
            FileType::Rust => HighlightingOptions::rust(),
            FileType::PlainText => HighlightingOptions::disabled(),
        }
    }
}

} // verus!
