//! Folding tokens into a package record, and the parse entry points.

use vstd::prelude::*;
use crate::package::{
    kind_of, texts_view, value_kind, Entry, MetaValue, Metadata, MetadataMap, Package,
    PackageModel, ValueKind,
};
use crate::text::{parse_size, parse_timestamp, size_of_text, timestamp_of_text};
use crate::tokenizer::{lex, tokenize, tokens_view, Lexed, Lexing, Token, TokenModel};

verus! {

/// Why a parse failed.
#[derive(Clone, Copy, Debug, PartialEq, Eq)]
pub enum ParseError {
    /// A value is not valid UTF-8.
    InvalidText,
    /// A size or timestamp value is not a decimal integer of its range.
    MalformedNumber,
    /// A field that holds a single value occurs more than once.
    DuplicateScalarField,
}

/// The fields gathered while folding tokens, in the model.
pub struct Assembly {
    pub name: Option<Seq<char>>,
    pub version: Option<Seq<char>>,
    pub arch: Option<Seq<char>>,
    pub metadata: Map<Entry, MetaValue>,
}

pub open spec fn empty_assembly() -> Assembly {
    Assembly { name: None, version: None, arch: None, metadata: Map::empty() }
}

/// The value that the first occurrence of a field creates.
pub open spec fn first_value(e: Entry, v: Seq<char>) -> Option<MetaValue> {
    match kind_of(e) {
        ValueKind::Text => Some(MetaValue::Text(v)),
        ValueKind::Size => match size_of_text(v) {
            Some(n) => Some(MetaValue::Size(n)),
            None => None,
        },
        ValueKind::Timestamp => match timestamp_of_text(v) {
            Some(t) => Some(MetaValue::Timestamp(t)),
            None => None,
        },
        ValueKind::List => Some(MetaValue::List(seq![v])),
    }
}

/// Folds one token into the gathered fields.
pub open spec fn fold_token(st: Assembly, t: TokenModel) -> Result<Assembly, ParseError> {
    match t {
        TokenModel::Comment => Ok(st),
        TokenModel::Name(v) => Ok(Assembly { name: Some(v), ..st }),
        TokenModel::Version(v) => Ok(Assembly { version: Some(v), ..st }),
        TokenModel::Arch(v) => Ok(Assembly { arch: Some(v), ..st }),
        TokenModel::Metadata(e, v) => if st.metadata.contains_key(e) {
            match st.metadata[e] {
                MetaValue::List(l) => Ok(
                    Assembly { metadata: st.metadata.insert(e, MetaValue::List(l.push(v))), ..st },
                ),
                _ => Err(ParseError::DuplicateScalarField),
            }
        } else {
            match first_value(e, v) {
                Some(m) => Ok(Assembly { metadata: st.metadata.insert(e, m), ..st }),
                None => Err(ParseError::MalformedNumber),
            }
        },
    }
}

/// Folds tokens in order, stopping at the first error.
pub open spec fn fold_tokens(ts: Seq<TokenModel>) -> Result<Assembly, ParseError>
    decreases ts.len(),
{
    if ts.len() == 0 {
        Ok(empty_assembly())
    } else {
        match fold_tokens(ts.drop_last()) {
            Ok(st) => fold_token(st, ts.last()),
            Err(e) => Err(e),
        }
    }
}

/// The record of the gathered fields: present when name and version are.
pub open spec fn record_of(st: Assembly) -> Option<PackageModel> {
    match (st.name, st.version) {
        (Some(n), Some(v)) => Some(
            PackageModel {
                name: n,
                version: v,
                arch: match st.arch {
                    Some(a) => a,
                    None => Seq::empty(),
                },
                metadata: st.metadata,
            },
        ),
        _ => None,
    }
}

pub open spec fn assemble(ts: Seq<TokenModel>) -> Result<Option<PackageModel>, ParseError> {
    match fold_tokens(ts) {
        Ok(st) => Ok(record_of(st)),
        Err(e) => Err(e),
    }
}

/// Once folding fails, the tokens that follow cannot undo it.
proof fn lemma_fold_error_sticks(ts: Seq<TokenModel>, n: int)
    requires
        0 <= n <= ts.len(),
        fold_tokens(ts.take(n)) is Err,
    ensures
        fold_tokens(ts) == fold_tokens(ts.take(n)),
    decreases ts.len(),
{
    if n == ts.len() {
        assert(ts.take(n) =~= ts);
    } else {
        assert(ts.drop_last().take(n) =~= ts.take(n));
        lemma_fold_error_sticks(ts.drop_last(), n);
    }
}

pub open spec fn built_view(r: Result<Option<Package>, ParseError>) -> Result<
    Option<PackageModel>,
    ParseError,
> {
    match r {
        Ok(Some(p)) => Ok(Some(p@)),
        Ok(None) => Ok(None),
        Err(e) => Err(e),
    }
}

pub open spec fn option_view(r: Option<Metadata>) -> Option<MetaValue> {
    match r {
        Some(m) => Some(m@),
        None => None,
    }
}

fn first_metadata(e: Entry, v: String) -> (r: Option<Metadata>)
    ensures
        option_view(r) == first_value(e, v@),
{
    match value_kind(e) {
        ValueKind::Text => Some(Metadata::Text(v)),
        ValueKind::Size => match parse_size(&v) {
            Some(n) => Some(Metadata::Size(n)),
            None => None,
        },
        ValueKind::Timestamp => match parse_timestamp(&v) {
            Some(t) => Some(Metadata::Timestamp(t)),
            None => None,
        },
        ValueKind::List => {
            let ghost vv = v@;
            let l = vec![v];
            assert(texts_view(l@) =~= seq![vv]);
            Some(Metadata::List(l))
        },
    }
}

pub open spec fn string_view(s: Option<String>) -> Option<Seq<char>> {
    match s {
        Some(x) => Some(x@),
        None => None,
    }
}

/// Folds tokens into a package record: the last name, version and arch win,
/// a repeated list field collects its values in order, and the record is
/// present only when both name and version occurred.
pub fn build_pkg(tokens: &[Token]) -> (r: Result<Option<Package>, ParseError>)
    ensures
        built_view(r) == assemble(tokens_view(tokens@)),
        r matches Ok(Some(p)) ==> p.wf(),
{
    let ghost ts = tokens_view(tokens@);
    let mut name: Option<String> = None;
    let mut version: Option<String> = None;
    let mut arch: Option<String> = None;
    let mut metadata = MetadataMap::new();
    let mut i: usize = 0;
    proof {
        assert(ts.take(0) =~= Seq::<TokenModel>::empty());
    }
    while i < tokens.len()
        invariant
            i <= tokens@.len(),
            ts == tokens_view(tokens@),
            metadata.wf(),
            fold_tokens(ts.take(i as int)) == Ok::<Assembly, ParseError>(
                Assembly {
                    name: string_view(name),
                    version: string_view(version),
                    arch: string_view(arch),
                    metadata: metadata@,
                },
            ),
        decreases tokens@.len() - i,
    {
        proof {
            assert(ts.take(i + 1).drop_last() =~= ts.take(i as int));
            assert(ts.take(i + 1).last() == tokens@[i as int]@);
        }
        match &tokens[i] {
            Token::Comment => {},
            Token::Name(v) => {
                name = Some(v.clone());
            },
            Token::Version(v) => {
                version = Some(v.clone());
            },
            Token::Arch(v) => {
                arch = Some(v.clone());
            },
            Token::Metadata(e, v) => {
                if metadata.contains(*e) {
                    if !metadata.push_item(*e, v.clone()) {
                        proof {
                            lemma_fold_error_sticks(ts, i + 1);
                        }
                        return Err(ParseError::DuplicateScalarField);
                    }
                } else {
                    match first_metadata(*e, v.clone()) {
                        Some(m) => metadata.insert(*e, m),
                        None => {
                            proof {
                                lemma_fold_error_sticks(ts, i + 1);
                            }
                            return Err(ParseError::MalformedNumber);
                        },
                    }
                }
            },
        }
        i = i + 1;
    }
    proof {
        assert(ts.take(i as int) =~= ts);
    }
    match (name, version) {
        (Some(n), Some(v)) => {
            let a = match arch {
                Some(a) => a,
                None => String::new(),
            };
            Ok(Some(Package { name: n, version: v, arch: a, metadata }))
        },
        _ => Ok(None),
    }
}

/// Outcome of parsing a buffer.
#[derive(Debug, PartialEq, Eq)]
pub enum ParseOutcome<'a> {
    /// The part of the input that was not consumed, and the record, if name
    /// and version occurred.
    Done(&'a [u8], Option<Package>),
    /// The input ends inside a line: more bytes are needed.
    Incomplete,
    Failed(ParseError),
}

/// Mathematical model of a parse outcome.
pub enum OutcomeModel {
    Done(Seq<u8>, Option<PackageModel>),
    Incomplete,
    Failed(ParseError),
}

impl<'a> View for ParseOutcome<'a> {
    type V = OutcomeModel;

    open spec fn view(&self) -> OutcomeModel {
        match self {
            ParseOutcome::Done(rest, Some(p)) => OutcomeModel::Done(rest@, Some(p@)),
            ParseOutcome::Done(rest, None) => OutcomeModel::Done(rest@, None),
            ParseOutcome::Incomplete => OutcomeModel::Incomplete,
            ParseOutcome::Failed(e) => OutcomeModel::Failed(*e),
        }
    }
}

/// Tokenizing, then folding the tokens into a record.
pub open spec fn parse_model(s: Seq<u8>) -> OutcomeModel {
    match lex(s) {
        Lexed::Done(ts, q) => match assemble(ts) {
            Ok(p) => OutcomeModel::Done(s.subrange(q, s.len() as int), p),
            Err(e) => OutcomeModel::Failed(e),
        },
        Lexed::Incomplete => OutcomeModel::Incomplete,
        Lexed::BadText => OutcomeModel::Failed(ParseError::InvalidText),
    }
}

/// Parses a PKGINFO buffer. Tokenizing stops at the first line that is not
/// recognized; that line and all that follows are handed back unconsumed.
pub fn parse_pkginfo<'a>(input: &'a [u8]) -> (r: ParseOutcome<'a>)
    ensures
        r@ == parse_model(input@),
        r matches ParseOutcome::Done(_, Some(p)) ==> p.wf(),
{
    match tokenize(input) {
        Lexing::Done(tokens, q) => match build_pkg(tokens.as_slice()) {
            Ok(p) => ParseOutcome::Done(vstd::slice::slice_subrange(input, q, input.len()), p),
            Err(e) => ParseOutcome::Failed(e),
        },
        Lexing::Incomplete => ParseOutcome::Incomplete,
        Lexing::BadText => ParseOutcome::Failed(ParseError::InvalidText),
    }
}

impl Package {
    /// Parses a complete PKGINFO buffer: a record comes back only when the
    /// whole input was consumed and both name and version occurred.
    pub fn pkginfo(input: &[u8]) -> (r: Option<Package>)
        ensures
            match r {
                Some(p) => p.wf() && parse_model(input@) == OutcomeModel::Done(
                    Seq::<u8>::empty(),
                    Some(p@),
                ),
                None => !(parse_model(input@) matches OutcomeModel::Done(rest, Some(_))
                    && rest.len() == 0),
            },
    {
        match parse_pkginfo(input) {
            ParseOutcome::Done(rest, pkg) => {
                if rest.len() == 0 {
                    proof {
                        assert(rest@ =~= Seq::<u8>::empty());
                    }
                    pkg
                } else {
                    None
                }
            },
            _ => None,
        }
    }
}

} // verus!
