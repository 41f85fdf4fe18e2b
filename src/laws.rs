//! Facts about whole parses: required fields, the default arch, list order,
//! and where tokenizing stops.

use vstd::prelude::*;
use crate::assemble::{fold_tokens, parse_model, OutcomeModel};
use crate::package::{kind_of, Entry, MetaValue, ValueKind};
use crate::tokenizer::{lex, lex_from, prepend_all, step_at, Lexed, Step, TokenModel};

verus! {

/// The values of the occurrences of field `e` among `ts`, in order.
pub open spec fn values_of(ts: Seq<TokenModel>, e: Entry) -> Seq<Seq<char>>
    decreases ts.len(),
{
    if ts.len() == 0 {
        Seq::empty()
    } else {
        let r = values_of(ts.drop_last(), e);
        match ts.last() {
            TokenModel::Metadata(k, v) => if k == e {
                r.push(v)
            } else {
                r
            },
            _ => r,
        }
    }
}

pub open spec fn has_name(ts: Seq<TokenModel>) -> bool {
    exists|i: int| 0 <= i < ts.len() && ts[i] is Name
}

pub open spec fn has_version(ts: Seq<TokenModel>) -> bool {
    exists|i: int| 0 <= i < ts.len() && ts[i] is Version
}

pub open spec fn has_arch(ts: Seq<TokenModel>) -> bool {
    exists|i: int| 0 <= i < ts.len() && ts[i] is Arch
}

proof fn lemma_fold_absent_fields(ts: Seq<TokenModel>)
    ensures
        fold_tokens(ts) matches Ok(st) ==> {
            &&& !has_name(ts) ==> st.name is None
            &&& !has_version(ts) ==> st.version is None
            &&& !has_arch(ts) ==> st.arch is None
        },
    decreases ts.len(),
{
    if ts.len() > 0 {
        let init = ts.drop_last();
        lemma_fold_absent_fields(init);
        if !has_name(ts) {
            assert(!has_name(init)) by {
                if has_name(init) {
                    let i = choose|i: int| 0 <= i < init.len() && init[i] is Name;
                    assert(ts[i] is Name);
                }
            }
            assert(!(ts[ts.len() - 1] is Name));
        }
        if !has_version(ts) {
            assert(!has_version(init)) by {
                if has_version(init) {
                    let i = choose|i: int| 0 <= i < init.len() && init[i] is Version;
                    assert(ts[i] is Version);
                }
            }
            assert(!(ts[ts.len() - 1] is Version));
        }
        if !has_arch(ts) {
            assert(!has_arch(init)) by {
                if has_arch(init) {
                    let i = choose|i: int| 0 <= i < init.len() && init[i] is Arch;
                    assert(ts[i] is Arch);
                }
            }
            assert(!(ts[ts.len() - 1] is Arch));
        }
    }
}

/// A record needs both a `pkgname` and a `pkgver` line: when the tokens of
/// an input hold no name, or no version, no record comes out, however many
/// metadata lines there are.
pub proof fn lemma_no_record_without_name_and_version(s: Seq<u8>)
    requires
        lex(s) matches Lexed::Done(ts, _) && (!has_name(ts) || !has_version(ts)),
    ensures
        !(parse_model(s) matches OutcomeModel::Done(_, Some(_))),
{
    if let Lexed::Done(ts, _) = lex(s) {
        lemma_fold_absent_fields(ts);
    }
}

/// Without an `arch` line the record's arch is empty.
pub proof fn lemma_arch_defaults_to_empty(s: Seq<u8>)
    requires
        lex(s) matches Lexed::Done(ts, _) && !has_arch(ts),
    ensures
        parse_model(s) matches OutcomeModel::Done(_, Some(p)) ==> p.arch == Seq::<char>::empty(),
{
    if let Lexed::Done(ts, _) = lex(s) {
        lemma_fold_absent_fields(ts);
    }
}

proof fn lemma_fold_list(ts: Seq<TokenModel>, e: Entry)
    requires
        kind_of(e) == ValueKind::List,
    ensures
        fold_tokens(ts) matches Ok(st) ==> {
            &&& st.metadata.contains_key(e) <==> values_of(ts, e).len() > 0
            &&& st.metadata.contains_key(e) ==> st.metadata[e] == MetaValue::List(values_of(ts, e))
        },
    decreases ts.len(),
{
    if ts.len() > 0 {
        let init = ts.drop_last();
        lemma_fold_list(init, e);
        if let Ok(st0) = fold_tokens(init) {
            if let TokenModel::Metadata(k, v) = ts.last() {
                if k == e {
                    assert(values_of(ts, e) == values_of(init, e).push(v));
                    if !st0.metadata.contains_key(e) {
                        assert(values_of(init, e).push(v) =~= seq![v]);
                    }
                } else {
                    assert(values_of(ts, e) == values_of(init, e));
                }
            } else {
                assert(values_of(ts, e) == values_of(init, e));
            }
        }
    }
}

/// A list field collects the values of its lines in the order of the input:
/// in a record, the field holds exactly the values of its occurrences among
/// the tokens, and is absent when it never occurs.
pub proof fn lemma_list_keeps_input_order(s: Seq<u8>, e: Entry)
    requires
        kind_of(e) == ValueKind::List,
    ensures
        parse_model(s) matches OutcomeModel::Done(_, Some(p)) ==> lex(s) matches Lexed::Done(
            ts,
            _,
        ) && (p.metadata.contains_key(e) <==> values_of(ts, e).len() > 0) && (values_of(ts, e).len()
            > 0 ==> p.metadata[e] == MetaValue::List(values_of(ts, e))),
{
    if let Lexed::Done(ts, _) = lex(s) {
        lemma_fold_list(ts, e);
    }
}

/// The first `n` lines from `p` on, when each of them is recognized: their
/// tokens and the position where the next line starts.
pub open spec fn lex_lines(s: Seq<u8>, p: int, n: nat) -> Option<(Seq<TokenModel>, int)>
    decreases n,
{
    if n == 0 {
        Some((Seq::empty(), p))
    } else if 0 <= p < s.len() {
        match step_at(s, p) {
            Step::Emit(t, next) => match lex_lines(s, next, (n - 1) as nat) {
                Some((ts, q)) => Some((seq![t] + ts, q)),
                None => None,
            },
            _ => None,
        }
    } else {
        None
    }
}

proof fn lemma_stop_from(s: Seq<u8>, p: int, n: nat)
    requires
        0 <= p,
        lex_lines(s, p, n) matches Some((ts, q)) && 0 <= q < s.len() && step_at(s, q) is Stop,
    ensures
        lex_lines(s, p, n) matches Some((ts, q)) && lex_from(s, p) == Lexed::Done(ts, q),
    decreases n,
{
    if n == 0 {
    } else {
        if let Step::Emit(t, next) = step_at(s, p) {
            crate::tokenizer::lemma_step_advances(s, p);
            lemma_stop_from(s, next, (n - 1) as nat);
            if let Some((ts, q)) = lex_lines(s, next, (n - 1) as nat) {
                assert(prepend_all(seq![t], Lexed::Done(ts, q)) == Lexed::Done(seq![t] + ts, q));
            }
        }
    }
}

/// Tokenizing stops at the first line that is not recognized: when the first
/// `n` lines are recognized and the next one is not, the result is exactly
/// the tokens of those `n` lines, and the unconsumed part starts at the first
/// byte of the line that was not recognized.
pub proof fn lemma_stops_at_unknown_line(s: Seq<u8>, n: nat)
    requires
        lex_lines(s, 0, n) matches Some((ts, q)) && q < s.len() && step_at(s, q) is Stop,
    ensures
        lex_lines(s, 0, n) matches Some((ts, q)) && lex(s) == Lexed::Done(ts, q)
            && (parse_model(s) matches OutcomeModel::Done(rest, _) ==> rest == s.subrange(
            q,
            s.len() as int,
        )),
{
    lemma_lex_lines_nonneg(s, 0, n);
    lemma_stop_from(s, 0, n);
}

proof fn lemma_lex_lines_nonneg(s: Seq<u8>, p: int, n: nat)
    requires
        0 <= p,
    ensures
        lex_lines(s, p, n) matches Some((_, q)) ==> p <= q,
    decreases n,
{
    if n > 0 && 0 <= p < s.len() {
        if let Step::Emit(t, next) = step_at(s, p) {
            crate::tokenizer::lemma_step_advances(s, p);
            lemma_lex_lines_nonneg(s, next, (n - 1) as nat);
        }
    }
}

} // verus!
