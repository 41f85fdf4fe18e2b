//! The canonical tokens of a record, and the proof that they assemble back
//! into the same record.

use vstd::prelude::*;
use crate::assemble::{assemble, empty_assembly, fold_token, fold_tokens, Assembly, ParseError};
use crate::package::{entry_index, kind_of, kind_of_value, Entry, MetaValue, PackageModel, ValueKind};
use crate::text::{all_digits, digits_value, size_of_text, timestamp_of_text};
use crate::tokenizer::TokenModel;

verus! {

pub open spec fn digit_char(d: int) -> char {
    if d == 0 { '0' }
    else if d == 1 { '1' }
    else if d == 2 { '2' }
    else if d == 3 { '3' }
    else if d == 4 { '4' }
    else if d == 5 { '5' }
    else if d == 6 { '6' }
    else if d == 7 { '7' }
    else if d == 8 { '8' }
    else { '9' }
}

/// The decimal digits of `n`, without leading zeros.
pub open spec fn decimal(n: nat) -> Seq<char>
    decreases n,
{
    if n < 10 {
        seq![digit_char(n as int)]
    } else {
        decimal(n / 10).push(digit_char((n % 10) as int))
    }
}

pub open spec fn timestamp_text(t: i64) -> Seq<char> {
    if t >= 0 {
        decimal(t as nat)
    } else {
        seq!['-'] + decimal((-t) as nat)
    }
}

pub(crate) proof fn lemma_decimal(n: nat)
    ensures
        all_digits(decimal(n)),
        digits_value(decimal(n)) == n,
    decreases n,
{
    if n >= 10 {
        lemma_decimal(n / 10);
        let d = decimal(n / 10);
        assert(decimal(n).drop_last() =~= d);
        lemma_digit_char((n % 10) as int);
        let dn = decimal(n);
        assert(dn.last() == digit_char((n % 10) as int));
        assert(digits_value(dn) == 10 * digits_value(dn.drop_last()) + ((dn.last() as u32) as int
            - ('0' as u32) as int));
        assert(n == 10 * (n / 10) + n % 10) by (nonlinear_arith);
    } else {
        lemma_digit_char(n as int);
        assert(decimal(n).drop_last() =~= Seq::<char>::empty());
        assert(digits_value(decimal(n).drop_last()) == 0);
    }
}

proof fn lemma_digit_char(d: int)
    requires
        0 <= d < 10,
    ensures
        (digit_char(d) as u32) as int - ('0' as u32) as int == d,
        '0' <= digit_char(d) <= '9',
{
}

proof fn lemma_size_text(n: u64)
    ensures
        size_of_text(decimal(n as nat)) == Some(n),
{
    lemma_decimal(n as nat);
    assert(decimal(n as nat)[0] != '+');
}

proof fn lemma_timestamp_text(t: i64)
    ensures
        timestamp_of_text(timestamp_text(t)) == Some(t),
{
    if t >= 0 {
        lemma_decimal(t as nat);
        assert(decimal(t as nat)[0] != '+' && decimal(t as nat)[0] != '-');
    } else {
        lemma_decimal((-t) as nat);
        assert((seq!['-'] + decimal((-t) as nat)).drop_first() =~= decimal((-t) as nat));
    }
}

/// The texts that write a metadata value: one per list item, or one that
/// holds the text or the decimal of the number.
pub open spec fn value_texts(v: MetaValue) -> Seq<Seq<char>> {
    match v {
        MetaValue::Text(s) => seq![s],
        MetaValue::Size(n) => seq![decimal(n as nat)],
        MetaValue::Timestamp(t) => seq![timestamp_text(t)],
        MetaValue::List(l) => l,
    }
}

pub open spec fn entry_tokens(m: Map<Entry, MetaValue>, e: Entry) -> Seq<TokenModel> {
    if m.contains_key(e) {
        value_texts(m[e]).map_values(|v: Seq<char>| TokenModel::Metadata(e, v))
    } else {
        Seq::empty()
    }
}

pub open spec fn entry_at(i: int) -> Entry {
    if i == 0 { Entry::Base }
    else if i == 1 { Entry::Description }
    else if i == 2 { Entry::Url }
    else if i == 3 { Entry::BuildDate }
    else if i == 4 { Entry::Packager }
    else if i == 5 { Entry::InstallSize }
    else if i == 6 { Entry::Groups }
    else if i == 7 { Entry::License }
    else if i == 8 { Entry::Replaces }
    else if i == 9 { Entry::Depends }
    else if i == 10 { Entry::Conflicts }
    else if i == 11 { Entry::Provides }
    else if i == 12 { Entry::OptDepends }
    else if i == 13 { Entry::MakeDepends }
    else if i == 14 { Entry::CheckDepends }
    else if i == 15 { Entry::Backups }
    else if i == 16 { Entry::BuildOptions }
    else if i == 17 { Entry::BuildDirectory }
    else if i == 18 { Entry::BuildEnvironment }
    else if i == 19 { Entry::SHA256Sum }
    else { Entry::BuildInstalled }
}

/// The tokens of the fields whose index is below `k`, field by field in
/// index order.
pub open spec fn metadata_tokens(m: Map<Entry, MetaValue>, k: int) -> Seq<TokenModel>
    decreases k,
{
    if k <= 0 {
        Seq::empty()
    } else {
        metadata_tokens(m, k - 1) + entry_tokens(m, entry_at(k - 1))
    }
}

/// The tokens that write a record back in the grammar: name, version and
/// arch lines, then the metadata lines field by field.
pub open spec fn record_tokens(p: PackageModel) -> Seq<TokenModel> {
    seq![TokenModel::Name(p.name), TokenModel::Version(p.version), TokenModel::Arch(p.arch)]
        + metadata_tokens(p.metadata, 21)
}

/// Every value has the kind of its field, and every list holds an item.
pub open spec fn well_kinded(m: Map<Entry, MetaValue>) -> bool {
    forall|e: Entry|
        #![trigger m[e]]
        m.contains_key(e) ==> kind_of_value(m[e]) == kind_of(e) && (m[e] is List
            ==> m[e]->List_0.len() > 0)
}

pub(crate) proof fn lemma_fold_well_kinded(ts: Seq<TokenModel>)
    ensures
        fold_tokens(ts) matches Ok(st) ==> well_kinded(st.metadata),
    decreases ts.len(),
{
    if ts.len() > 0 {
        lemma_fold_well_kinded(ts.drop_last());
        if let Ok(st0) = fold_tokens(ts.drop_last()) {
            if let TokenModel::Metadata(k, v) = ts.last() {
                if let Ok(st) = fold_token(st0, ts.last()) {
                    assert forall|e: Entry| #![trigger st.metadata[e]]
                        st.metadata.contains_key(e) implies kind_of_value(st.metadata[e])
                        == kind_of(e) && (st.metadata[e] is List ==> st.metadata[e]->List_0.len()
                        > 0) by {}
                }
            }
        }
    }
}

pub open spec fn with_metadata(st: Assembly, m: Map<Entry, MetaValue>) -> Assembly {
    Assembly { metadata: m, ..st }
}

proof fn lemma_fold_list_items(
    a: Seq<TokenModel>,
    st: Assembly,
    e: Entry,
    l: Seq<Seq<char>>,
    j: int,
)
    requires
        fold_tokens(a) == Ok::<Assembly, ParseError>(st),
        !st.metadata.contains_key(e),
        kind_of(e) == ValueKind::List,
        1 <= j <= l.len(),
    ensures
        fold_tokens(a + l.take(j).map_values(|v: Seq<char>| TokenModel::Metadata(e, v))) == Ok::<
            Assembly,
            ParseError,
        >(with_metadata(st, st.metadata.insert(e, MetaValue::List(l.take(j))))),
    decreases j,
{
    let f = |v: Seq<char>| TokenModel::Metadata(e, v);
    let ts = a + l.take(j).map_values(f);
    assert(ts.drop_last() =~= a + l.take(j - 1).map_values(f));
    assert(ts.last() == TokenModel::Metadata(e, l[j - 1]));
    if j == 1 {
        assert(l.take(0).map_values(f) =~= Seq::<TokenModel>::empty());
        assert(a + Seq::<TokenModel>::empty() =~= a);
        assert(l.take(1) =~= seq![l[0]]);
    } else {
        lemma_fold_list_items(a, st, e, l, j - 1);
        assert(l.take(j - 1).push(l[j - 1]) =~= l.take(j));
        assert(st.metadata.insert(e, MetaValue::List(l.take(j - 1))).insert(
            e,
            MetaValue::List(l.take(j)),
        ) =~= st.metadata.insert(e, MetaValue::List(l.take(j))));
    }
}


proof fn lemma_fold_entry(a: Seq<TokenModel>, st: Assembly, m: Map<Entry, MetaValue>, e: Entry)
    requires
        fold_tokens(a) == Ok::<Assembly, ParseError>(st),
        !st.metadata.contains_key(e),
        well_kinded(m),
    ensures
        fold_tokens(a + entry_tokens(m, e)) == Ok::<Assembly, ParseError>(
            with_metadata(
                st,
                if m.contains_key(e) {
                    st.metadata.insert(e, m[e])
                } else {
                    st.metadata
                },
            ),
        ),
{
    let f = |v: Seq<char>| TokenModel::Metadata(e, v);
    if !m.contains_key(e) {
        assert(a + entry_tokens(m, e) =~= a);
        assert(with_metadata(st, st.metadata) == st);
    } else {
        let v = m[e];
        let ts = a + entry_tokens(m, e);
        match v {
            MetaValue::List(l) => {
                lemma_fold_list_items(a, st, e, l, l.len() as int);
                assert(l.take(l.len() as int) =~= l);
            },
            MetaValue::Text(s) => {
                assert(ts.drop_last() =~= a);
            },
            MetaValue::Size(n) => {
                assert(ts.drop_last() =~= a);
                lemma_size_text(n);
            },
            MetaValue::Timestamp(t) => {
                assert(ts.drop_last() =~= a);
                lemma_timestamp_text(t);
            },
        }
    }
}

pub open spec fn below(m: Map<Entry, MetaValue>, k: int) -> Map<Entry, MetaValue> {
    Map::new(|e: Entry| m.contains_key(e) && entry_index(e) < k, |e: Entry| m[e])
}

proof fn lemma_entry_at(k: int)
    requires
        0 <= k < 21,
    ensures
        entry_index(entry_at(k)) == k,
        forall|e: Entry| entry_index(e) == k ==> e == entry_at(k),
{
}

proof fn lemma_fold_metadata(head: Seq<TokenModel>, st: Assembly, m: Map<Entry, MetaValue>, k: int)
    requires
        fold_tokens(head) == Ok::<Assembly, ParseError>(st),
        st.metadata == Map::<Entry, MetaValue>::empty(),
        well_kinded(m),
        0 <= k <= 21,
    ensures
        fold_tokens(head + metadata_tokens(m, k)) == Ok::<Assembly, ParseError>(
            with_metadata(st, below(m, k)),
        ),
    decreases k,
{
    if k == 0 {
        assert(head + metadata_tokens(m, 0) =~= head);
        assert(below(m, 0) =~= st.metadata);
        assert(with_metadata(st, st.metadata) == st);
    } else {
        lemma_fold_metadata(head, st, m, k - 1);
        let e = entry_at(k - 1);
        lemma_entry_at(k - 1);
        let a = head + metadata_tokens(m, k - 1);
        assert(head + metadata_tokens(m, k) =~= a + entry_tokens(m, e));
        lemma_fold_entry(a, with_metadata(st, below(m, k - 1)), m, e);
        if m.contains_key(e) {
            assert(below(m, k - 1).insert(e, m[e]) =~= below(m, k));
        } else {
            assert(below(m, k - 1) =~= below(m, k));
        }
    }
}

/// Writing a record back as tokens and folding them again gives the same
/// record: for the record of any token sequence, its canonical tokens
/// (name, version, arch, then each field's values, numbers in decimal)
/// assemble to that record.
pub proof fn lemma_record_tokens_reassemble(ts: Seq<TokenModel>)
    requires
        assemble(ts) matches Ok(Some(_)),
    ensures
        assemble(ts) matches Ok(Some(p)) && assemble(record_tokens(p)) == assemble(ts),
{
    if let Ok(Some(p)) = assemble(ts) {
        lemma_fold_well_kinded(ts);
        let head = seq![TokenModel::Name(p.name), TokenModel::Version(p.version), TokenModel::Arch(p.arch)];
        let h1 = seq![TokenModel::Name(p.name)];
        let h2 = seq![TokenModel::Name(p.name), TokenModel::Version(p.version)];
        assert(head.drop_last() =~= h2);
        assert(h2.drop_last() =~= h1);
        assert(h1.drop_last() =~= Seq::<TokenModel>::empty());
        let st1 = Assembly { name: Some(p.name), ..empty_assembly() };
        let st2 = Assembly { version: Some(p.version), ..st1 };
        assert(fold_tokens(h1.drop_last()) == Ok::<Assembly, ParseError>(empty_assembly()));
        assert(fold_tokens(h1) == Ok::<Assembly, ParseError>(st1));
        assert(fold_tokens(h2) == Ok::<Assembly, ParseError>(st2));
        let st = Assembly {
            name: Some(p.name),
            version: Some(p.version),
            arch: Some(p.arch),
            metadata: Map::empty(),
        };
        assert(fold_tokens(head) == Ok::<Assembly, ParseError>(st));
        lemma_fold_metadata(head, st, p.metadata, 21);
        assert forall|e: Entry| #![auto] entry_index(e) < 21 by {
        }
        assert(below(p.metadata, 21) =~= p.metadata);
    }
}

} // verus!
