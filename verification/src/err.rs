//! The error taxonomy of the analyser: configuration errors raised while the
//! symbol table is built, and lexical errors raised while lexemes are
//! classified.  Every error aborts the whole operation; no partial result is
//! ever returned.

use vstd::prelude::*;

verus! {

/// Declares `serde_json::Error` so that a value of it can be carried inside
/// [`LexicalAnalysisErr`].  The value is opaque to the verifier.
#[verifier::external_type_specification]
#[verifier::external_body]
pub struct ExSerdeJsonError(serde_json::Error);

pub type LexicalAnalysisResult<T> = Result<T, LexicalAnalysisErr>;

/// Which partition an unrecognized symbol lexeme was looked up in.
#[derive(Clone, Copy, Debug, PartialEq, Eq, Structural)]
pub enum KeySymbolKind {
    /// A lexeme of two or more symbol characters.
    ComplexSymbol,
    /// A lexeme of exactly one symbol character.
    SingleSymbol,
}

#[derive(Debug)]
pub enum LexicalAnalysisErr {
    /// The configuration document is not well-formed JSON.
    FailToSerializationKeyWordsJson(serde_json::Error),
    /// The configuration document's root is not an object.
    FailToReadKeyWordsJsonTree,
    /// A configuration value is not a string.
    SymbolOfKeywordsIsNotString,
    /// A configuration key fits none of the three partitions.
    UnsupportedKeywords(String),
    /// A lexeme was looked up in the named partition and was not found.
    UndefinedKeywords(KeySymbolKind, String),
}

/// The mathematical image of a [`LexicalAnalysisErr`]: the variant and the
/// text it carries.  The payload of a JSON syntax error is opaque and is
/// dropped here.
pub enum LexicalAnalysisErrView {
    FailToSerializationKeyWordsJson,
    FailToReadKeyWordsJsonTree,
    SymbolOfKeywordsIsNotString,
    UnsupportedKeywords(Seq<char>),
    UndefinedKeywords(KeySymbolKind, Seq<char>),
}

impl View for LexicalAnalysisErr {
    type V = LexicalAnalysisErrView;

    open spec fn view(&self) -> LexicalAnalysisErrView {
        match self {
            LexicalAnalysisErr::FailToSerializationKeyWordsJson(_) => LexicalAnalysisErrView::FailToSerializationKeyWordsJson,
            LexicalAnalysisErr::FailToReadKeyWordsJsonTree => LexicalAnalysisErrView::FailToReadKeyWordsJsonTree,
            LexicalAnalysisErr::SymbolOfKeywordsIsNotString => LexicalAnalysisErrView::SymbolOfKeywordsIsNotString,
            LexicalAnalysisErr::UnsupportedKeywords(s) => LexicalAnalysisErrView::UnsupportedKeywords(s@),
            LexicalAnalysisErr::UndefinedKeywords(kind, s) => LexicalAnalysisErrView::UndefinedKeywords(*kind, s@),
        }
    }
}

} // verus!
