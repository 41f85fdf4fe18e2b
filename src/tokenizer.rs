//! The line grammar: bytes to tokens, one per recognized line.

use vstd::prelude::*;
use vstd::string::StringSliceAdditionalSpecFns;
use vstd::utf8::{decode_utf8, valid_utf8};
use crate::package::Entry;
use crate::text::decode_text;

verus! {

pub const HASH: u8 = 0x23;
pub const EQUALS: u8 = 0x3d;
pub const SPACE: u8 = 0x20;
pub const TAB: u8 = 0x09;
pub const CR: u8 = 0x0d;
pub const LF: u8 = 0x0a;

/// Number of key literals that the grammar recognizes.
pub const KEY_COUNT: usize = 25;

/// What a key line sets.
#[derive(Clone, Copy, Debug, PartialEq, Eq)]
pub enum Target {
    Name,
    Version,
    Arch,
    Meta(Entry),
}

/// The key literals, in the order in which they are tried, with the field
/// each one sets.
pub open spec fn key_entry(i: int) -> (Seq<u8>, Target) {
    if i == 0 { ("pkgname".spec_bytes(), Target::Name) }
    else if i == 1 { ("pkgver".spec_bytes(), Target::Version) }
    else if i == 2 { ("arch".spec_bytes(), Target::Arch) }
    else if i == 3 { ("pkgbase".spec_bytes(), Target::Meta(Entry::Base)) }
    else if i == 4 { ("pkgdesc".spec_bytes(), Target::Meta(Entry::Description)) }
    else if i == 5 { ("url".spec_bytes(), Target::Meta(Entry::Url)) }
    else if i == 6 { ("builddate".spec_bytes(), Target::Meta(Entry::BuildDate)) }
    else if i == 7 { ("packager".spec_bytes(), Target::Meta(Entry::Packager)) }
    else if i == 8 { ("size".spec_bytes(), Target::Meta(Entry::InstallSize)) }
    else if i == 9 { ("group".spec_bytes(), Target::Meta(Entry::Groups)) }
    else if i == 10 { ("license".spec_bytes(), Target::Meta(Entry::License)) }
    else if i == 11 { ("replaces".spec_bytes(), Target::Meta(Entry::Replaces)) }
    else if i == 12 { ("depend".spec_bytes(), Target::Meta(Entry::Depends)) }
    else if i == 13 { ("conflict".spec_bytes(), Target::Meta(Entry::Conflicts)) }
    else if i == 14 { ("provides".spec_bytes(), Target::Meta(Entry::Provides)) }
    else if i == 15 { ("optdepend".spec_bytes(), Target::Meta(Entry::OptDepends)) }
    else if i == 16 { ("makedepend".spec_bytes(), Target::Meta(Entry::MakeDepends)) }
    else if i == 17 { ("checkdepend".spec_bytes(), Target::Meta(Entry::CheckDepends)) }
    else if i == 18 { ("backup".spec_bytes(), Target::Meta(Entry::Backups)) }
    else if i == 19 { ("makepkgopt".spec_bytes(), Target::Meta(Entry::BuildOptions)) }
    else if i == 20 { ("options".spec_bytes(), Target::Meta(Entry::BuildOptions)) }
    else if i == 21 { ("builddir".spec_bytes(), Target::Meta(Entry::BuildDirectory)) }
    else if i == 22 { ("buildenv".spec_bytes(), Target::Meta(Entry::BuildEnvironment)) }
    else if i == 23 { ("pkgbuild_sha256sum".spec_bytes(), Target::Meta(Entry::SHA256Sum)) }
    else { ("installed".spec_bytes(), Target::Meta(Entry::BuildInstalled)) }
}

fn key_table(i: usize) -> (r: (&'static [u8], Target))
    requires
        i < KEY_COUNT,
    ensures
        r.0@ == key_entry(i as int).0,
        r.1 == key_entry(i as int).1,
{
    if i == 0 { ("pkgname".as_bytes(), Target::Name) }
    else if i == 1 { ("pkgver".as_bytes(), Target::Version) }
    else if i == 2 { ("arch".as_bytes(), Target::Arch) }
    else if i == 3 { ("pkgbase".as_bytes(), Target::Meta(Entry::Base)) }
    else if i == 4 { ("pkgdesc".as_bytes(), Target::Meta(Entry::Description)) }
    else if i == 5 { ("url".as_bytes(), Target::Meta(Entry::Url)) }
    else if i == 6 { ("builddate".as_bytes(), Target::Meta(Entry::BuildDate)) }
    else if i == 7 { ("packager".as_bytes(), Target::Meta(Entry::Packager)) }
    else if i == 8 { ("size".as_bytes(), Target::Meta(Entry::InstallSize)) }
    else if i == 9 { ("group".as_bytes(), Target::Meta(Entry::Groups)) }
    else if i == 10 { ("license".as_bytes(), Target::Meta(Entry::License)) }
    else if i == 11 { ("replaces".as_bytes(), Target::Meta(Entry::Replaces)) }
    else if i == 12 { ("depend".as_bytes(), Target::Meta(Entry::Depends)) }
    else if i == 13 { ("conflict".as_bytes(), Target::Meta(Entry::Conflicts)) }
    else if i == 14 { ("provides".as_bytes(), Target::Meta(Entry::Provides)) }
    else if i == 15 { ("optdepend".as_bytes(), Target::Meta(Entry::OptDepends)) }
    else if i == 16 { ("makedepend".as_bytes(), Target::Meta(Entry::MakeDepends)) }
    else if i == 17 { ("checkdepend".as_bytes(), Target::Meta(Entry::CheckDepends)) }
    else if i == 18 { ("backup".as_bytes(), Target::Meta(Entry::Backups)) }
    else if i == 19 { ("makepkgopt".as_bytes(), Target::Meta(Entry::BuildOptions)) }
    else if i == 20 { ("options".as_bytes(), Target::Meta(Entry::BuildOptions)) }
    else if i == 21 { ("builddir".as_bytes(), Target::Meta(Entry::BuildDirectory)) }
    else if i == 22 { ("buildenv".as_bytes(), Target::Meta(Entry::BuildEnvironment)) }
    else if i == 23 { ("pkgbuild_sha256sum".as_bytes(), Target::Meta(Entry::SHA256Sum)) }
    else { ("installed".as_bytes(), Target::Meta(Entry::BuildInstalled)) }
}

pub open spec fn is_blank(c: u8) -> bool {
    c == SPACE || c == TAB
}

pub open spec fn is_space(c: u8) -> bool {
    is_blank(c) || c == CR || c == LF
}

/// The first position at or after `p` that holds no space or tab.
pub open spec fn skip_blank(s: Seq<u8>, p: int) -> int
    decreases s.len() - p,
{
    if 0 <= p < s.len() && is_blank(s[p]) {
        skip_blank(s, p + 1)
    } else {
        p
    }
}

/// The first position at or after `p` that holds no whitespace or line break.
pub open spec fn skip_space(s: Seq<u8>, p: int) -> int
    decreases s.len() - p,
{
    if 0 <= p < s.len() && is_space(s[p]) {
        skip_space(s, p + 1)
    } else {
        p
    }
}

/// The position of the first line break at or after `p`, or the length of
/// `s` when there is none.
pub open spec fn line_end(s: Seq<u8>, p: int) -> int
    decreases s.len() - p,
{
    if 0 <= p < s.len() && s[p] != LF {
        line_end(s, p + 1)
    } else {
        p
    }
}

pub open spec fn matches_at(s: Seq<u8>, p: int, lit: Seq<u8>) -> bool {
    0 <= p && p + lit.len() <= s.len() && s.subrange(p, p + lit.len()) == lit
}

/// The first key literal, from index `i` on, that `s` holds at `p`.
pub open spec fn key_from(s: Seq<u8>, p: int, i: int) -> Option<int>
    decreases KEY_COUNT - i,
{
    if i < 0 || i >= KEY_COUNT {
        None
    } else if matches_at(s, p, key_entry(i).0) {
        Some(i)
    } else {
        key_from(s, p, i + 1)
    }
}

pub open spec fn key_at(s: Seq<u8>, p: int) -> Option<int> {
    key_from(s, p, 0)
}

/// One line of input, as a token.
#[derive(Clone, Debug, PartialEq, Eq)]
pub enum Token {
    Comment,
    Name(String),
    Version(String),
    Arch(String),
    Metadata(Entry, String),
}

/// Mathematical model of a token.
pub enum TokenModel {
    Comment,
    Name(Seq<char>),
    Version(Seq<char>),
    Arch(Seq<char>),
    Metadata(Entry, Seq<char>),
}

impl View for Token {
    type V = TokenModel;

    open spec fn view(&self) -> TokenModel {
        match self {
            Token::Comment => TokenModel::Comment,
            Token::Name(v) => TokenModel::Name(v@),
            Token::Version(v) => TokenModel::Version(v@),
            Token::Arch(v) => TokenModel::Arch(v@),
            Token::Metadata(e, v) => TokenModel::Metadata(*e, v@),
        }
    }
}

pub open spec fn tokens_view(ts: Seq<Token>) -> Seq<TokenModel> {
    ts.map_values(|t: Token| t@)
}

pub open spec fn token_for(t: Target, v: Seq<char>) -> TokenModel {
    match t {
        Target::Name => TokenModel::Name(v),
        Target::Version => TokenModel::Version(v),
        Target::Arch => TokenModel::Arch(v),
        Target::Meta(e) => TokenModel::Metadata(e, v),
    }
}

/// What the line starting at one position gives.
pub enum Step {
    /// The line is not recognized.
    Stop,
    /// The buffer ends before the line does.
    Incomplete,
    /// The value is not valid UTF-8.
    BadText,
    /// A token, and the position of the next line.
    Emit(TokenModel, int),
}

/// The line that starts at `p`: a comment, or a key, a separator
/// (`=` with optional spaces or tabs on both sides) and a value that runs to
/// the line break. After a token, all whitespace and line breaks are skipped.
pub open spec fn step_at(s: Seq<u8>, p: int) -> Step {
    if s[p] == HASH {
        let e = line_end(s, p);
        if e < s.len() {
            Step::Emit(TokenModel::Comment, skip_space(s, e))
        } else {
            Step::Incomplete
        }
    } else {
        match key_at(s, p) {
            None => Step::Stop,
            Some(i) => {
                let a = skip_blank(s, p + key_entry(i).0.len());
                if a >= s.len() {
                    Step::Incomplete
                } else if s[a] != EQUALS {
                    Step::Stop
                } else {
                    let v = skip_blank(s, a + 1);
                    let e = line_end(s, v);
                    if e >= s.len() {
                        Step::Incomplete
                    } else if !valid_utf8(s.subrange(v, e)) {
                        Step::BadText
                    } else {
                        Step::Emit(
                            token_for(key_entry(i).1, decode_utf8(s.subrange(v, e))),
                            skip_space(s, e),
                        )
                    }
                }
            },
        }
    }
}

/// Outcome of tokenizing, in the model.
pub enum Lexed {
    /// The tokens, and the position at which tokenizing stopped.
    Done(Seq<TokenModel>, int),
    Incomplete,
    BadText,
}

pub open spec fn prepend_all(ts: Seq<TokenModel>, r: Lexed) -> Lexed {
    match r {
        Lexed::Done(rest, q) => Lexed::Done(ts + rest, q),
        other => other,
    }
}

/// Tokenizing from `p` on: one token per recognized line, until the end of
/// the input or the first line that is not recognized.
pub open spec fn lex_from(s: Seq<u8>, p: int) -> Lexed
    decreases s.len() - p,
    via lex_from_decreases
{
    if p < 0 || p >= s.len() {
        Lexed::Done(seq![], p)
    } else {
        match step_at(s, p) {
            Step::Stop => Lexed::Done(seq![], p),
            Step::Incomplete => Lexed::Incomplete,
            Step::BadText => Lexed::BadText,
            Step::Emit(t, next) => prepend_all(seq![t], lex_from(s, next)),
        }
    }
}

pub open spec fn lex(s: Seq<u8>) -> Lexed {
    lex_from(s, 0)
}

pub(crate) proof fn lemma_skip_blank(s: Seq<u8>, p: int)
    requires
        0 <= p <= s.len(),
    ensures
        p <= skip_blank(s, p) <= s.len(),
        skip_blank(s, p) < s.len() ==> !is_blank(s[skip_blank(s, p)]),
    decreases s.len() - p,
{
    if p < s.len() && is_blank(s[p]) {
        lemma_skip_blank(s, p + 1);
    }
}

proof fn lemma_skip_space(s: Seq<u8>, p: int)
    requires
        0 <= p <= s.len(),
    ensures
        p <= skip_space(s, p) <= s.len(),
        p < s.len() && is_space(s[p]) ==> p < skip_space(s, p),
    decreases s.len() - p,
{
    if p < s.len() && is_space(s[p]) {
        lemma_skip_space(s, p + 1);
    }
}

pub(crate) proof fn lemma_line_end(s: Seq<u8>, p: int)
    requires
        0 <= p <= s.len(),
    ensures
        p <= line_end(s, p) <= s.len(),
        line_end(s, p) < s.len() ==> s[line_end(s, p)] == LF,
    decreases s.len() - p,
{
    if p < s.len() && s[p] != LF {
        lemma_line_end(s, p + 1);
    }
}

/// A recognized line always moves past its own line break, and never past
/// the end of the input.
pub proof fn lemma_step_advances(s: Seq<u8>, p: int)
    requires
        0 <= p < s.len(),
    ensures
        step_at(s, p) is Emit ==> p < step_at(s, p)->Emit_1 <= s.len(),
{
    if s[p] == HASH {
        lemma_line_end(s, p);
        let e = line_end(s, p);
        if e < s.len() {
            lemma_skip_space(s, e);
        }
    } else {
        match key_at(s, p) {
            None => {},
            Some(i) => {
                let k = p + key_entry(i).0.len();
                if k <= s.len() {
                    lemma_skip_blank(s, k);
                    let a = skip_blank(s, k);
                    if a < s.len() && s[a] == EQUALS {
                        lemma_skip_blank(s, a + 1);
                        let v = skip_blank(s, a + 1);
                        lemma_line_end(s, v);
                        let e = line_end(s, v);
                        if e < s.len() {
                            lemma_skip_space(s, e);
                        }
                    }
                } else {
                    lemma_key_from_fits(s, p, 0);
                }
            },
        }
    }
}

pub(crate) proof fn lemma_key_from_fits(s: Seq<u8>, p: int, i: int)
    ensures
        key_from(s, p, i) matches Some(j) ==> 0 <= j < KEY_COUNT && matches_at(s, p, key_entry(j).0),
    decreases KEY_COUNT - i,
{
    if 0 <= i < KEY_COUNT && !matches_at(s, p, key_entry(i).0) {
        lemma_key_from_fits(s, p, i + 1);
    }
}

fn skip_blanks(s: &[u8], p: usize) -> (r: usize)
    requires
        p <= s@.len(),
    ensures
        r == skip_blank(s@, p as int),
{
    let mut q = p;
    while q < s.len() && (s[q] == SPACE || s[q] == TAB)
        invariant
            p <= q <= s@.len(),
            skip_blank(s@, q as int) == skip_blank(s@, p as int),
        decreases s@.len() - q,
    {
        q = q + 1;
    }
    q
}

fn skip_spaces(s: &[u8], p: usize) -> (r: usize)
    requires
        p <= s@.len(),
    ensures
        r == skip_space(s@, p as int),
{
    let mut q = p;
    while q < s.len() && (s[q] == SPACE || s[q] == TAB || s[q] == CR || s[q] == LF)
        invariant
            p <= q <= s@.len(),
            skip_space(s@, q as int) == skip_space(s@, p as int),
        decreases s@.len() - q,
    {
        q = q + 1;
    }
    q
}

fn find_line_end(s: &[u8], p: usize) -> (r: usize)
    requires
        p <= s@.len(),
    ensures
        r == line_end(s@, p as int),
{
    let mut q = p;
    while q < s.len() && s[q] != LF
        invariant
            p <= q <= s@.len(),
            line_end(s@, q as int) == line_end(s@, p as int),
        decreases s@.len() - q,
    {
        q = q + 1;
    }
    q
}

fn has_at(s: &[u8], p: usize, lit: &[u8]) -> (r: bool)
    requires
        p <= s@.len(),
    ensures
        r == matches_at(s@, p as int, lit@),
{
    if lit.len() > s.len() - p {
        return false;
    }
    let mut j: usize = 0;
    while j < lit.len()
        invariant
            j <= lit@.len(),
            p + lit@.len() <= s@.len(),
            s@.len() == s.len(),
            p <= s@.len(),
            forall|k: int| 0 <= k < j ==> s@[p + k] == lit@[k],
        decreases lit@.len() - j,
    {
        if s[p + j] != lit[j] {
            assert(s@.subrange(p as int, p + lit@.len())[j as int] != lit@[j as int]);
            return false;
        }
        j = j + 1;
    }
    assert(s@.subrange(p as int, p + lit@.len()) =~= lit@);
    true
}

/// The first key literal that `s` holds at `p`, with its length and target.
fn find_key(s: &[u8], p: usize) -> (r: Option<(usize, Target)>)
    requires
        p <= s@.len(),
    ensures
        match r {
            Some((n, t)) => key_at(s@, p as int) matches Some(i) && n == key_entry(i).0.len()
                && t == key_entry(i).1,
            None => key_at(s@, p as int) is None,
        },
{
    let mut i: usize = 0;
    while i < KEY_COUNT
        invariant
            i <= KEY_COUNT,
            p <= s@.len(),
            key_from(s@, p as int, i as int) == key_at(s@, p as int),
        decreases KEY_COUNT - i,
    {
        let (lit, target) = key_table(i);
        if has_at(s, p, lit) {
            return Some((lit.len(), target));
        }
        i = i + 1;
    }
    None
}

fn make_token(t: Target, v: String) -> (r: Token)
    ensures
        r@ == token_for(t, v@),
{
    match t {
        Target::Name => Token::Name(v),
        Target::Version => Token::Version(v),
        Target::Arch => Token::Arch(v),
        Target::Meta(e) => Token::Metadata(e, v),
    }
}

/// Executable outcome of one line.
pub enum LineOutcome {
    Stop,
    Incomplete,
    BadText,
    Emit(Token, usize),
}

impl View for LineOutcome {
    type V = Step;

    open spec fn view(&self) -> Step {
        match self {
            LineOutcome::Stop => Step::Stop,
            LineOutcome::Incomplete => Step::Incomplete,
            LineOutcome::BadText => Step::BadText,
            LineOutcome::Emit(t, q) => Step::Emit(t@, *q as int),
        }
    }
}

/// Reads the line that starts at `p`.
fn read_line(s: &[u8], p: usize) -> (r: LineOutcome)
    requires
        p < s@.len(),
    ensures
        r@ == step_at(s@, p as int),
{
    if s[p] == HASH {
        let e = find_line_end(s, p);
        if e < s.len() {
            proof {
                lemma_line_end(s@, p as int);
            }
            return LineOutcome::Emit(Token::Comment, skip_spaces(s, e));
        } else {
            return LineOutcome::Incomplete;
        }
    }
    match find_key(s, p) {
        None => LineOutcome::Stop,
        Some((n, target)) => {
            proof {
                lemma_key_from_fits(s@, p as int, 0);
            }
            let a = skip_blanks(s, p + n);
            proof {
                lemma_skip_blank(s@, (p + n) as int);
            }
            if a >= s.len() {
                LineOutcome::Incomplete
            } else if s[a] != EQUALS {
                LineOutcome::Stop
            } else {
                let v = skip_blanks(s, a + 1);
                proof {
                    lemma_skip_blank(s@, a + 1);
                }
                let e = find_line_end(s, v);
                proof {
                    lemma_line_end(s@, v as int);
                }
                if e >= s.len() {
                    LineOutcome::Incomplete
                } else {
                    let value = vstd::slice::slice_subrange(s, v, e);
                    match decode_text(value) {
                        None => LineOutcome::BadText,
                        Some(text) => {
                            proof {
                                lemma_skip_space(s@, e as int);
                            }
                            LineOutcome::Emit(make_token(target, text), skip_spaces(s, e))
                        },
                    }
                }
            }
        },
    }
}

/// Executable outcome of tokenizing.
pub enum Lexing {
    /// The tokens, and the position at which tokenizing stopped.
    Done(Vec<Token>, usize),
    Incomplete,
    BadText,
}

impl View for Lexing {
    type V = Lexed;

    open spec fn view(&self) -> Lexed {
        match self {
            Lexing::Done(ts, q) => Lexed::Done(tokens_view(ts@), *q as int),
            Lexing::Incomplete => Lexed::Incomplete,
            Lexing::BadText => Lexed::BadText,
        }
    }
}

/// Splits `input` into tokens, one per recognized line, and stops at the
/// first line that is not recognized.
pub fn tokenize(input: &[u8]) -> (r: Lexing)
    ensures
        r@ == lex(input@),
        r matches Lexing::Done(_, q) ==> q <= input@.len(),
{
    let mut toks: Vec<Token> = Vec::new();
    let mut p: usize = 0;
    proof {
        assert(tokens_view(toks@) + seq![] =~= seq![]);
    }
    loop
        invariant
            p <= input@.len(),
            lex(input@) == prepend_all(tokens_view(toks@), lex_from(input@, p as int)),
        decreases input@.len() - p,
    {
        if p >= input.len() {
            proof {
                assert(tokens_view(toks@) + seq![] =~= tokens_view(toks@));
            }
            return Lexing::Done(toks, p);
        }
        proof {
            lemma_step_advances(input@, p as int);
        }
        match read_line(input, p) {
            LineOutcome::Stop => {
                proof {
                    assert(tokens_view(toks@) + seq![] =~= tokens_view(toks@));
                }
                return Lexing::Done(toks, p);
            },
            LineOutcome::Incomplete => {
                return Lexing::Incomplete;
            },
            LineOutcome::BadText => {
                return Lexing::BadText;
            },
            LineOutcome::Emit(t, next) => {
                let ghost before = tokens_view(toks@);
                let ghost tv = t@;
                toks.push(t);
                proof {
                    assert(tokens_view(toks@) =~= before.push(tv));
                    match lex_from(input@, next as int) {
                        Lexed::Done(rest, q) => {
                            assert(before + (seq![tv] + rest) =~= before.push(tv) + rest);
                        },
                        _ => {},
                    }
                }
                p = next;
            },
        }
    }
}

#[via_fn]
proof fn lex_from_decreases(s: Seq<u8>, p: int) {
    if 0 <= p < s.len() {
        lemma_step_advances(s, p);
    }
}

} // verus!
