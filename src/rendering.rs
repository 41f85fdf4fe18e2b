//! Writing tokens back as lines of the grammar, and the proof that a parsed
//! record, written back, parses to itself.

use vstd::prelude::*;
use vstd::string::{is_ascii_spec_bytes, StringSliceAdditionalSpecFns};
use vstd::utf8::{decode_utf8, encode_utf8, valid_utf8};
use crate::assemble::{assemble, fold_token, fold_tokens, parse_model, OutcomeModel};
use crate::canonical::{
    decimal, entry_tokens, lemma_decimal, lemma_record_tokens_reassemble, metadata_tokens,
    record_tokens, value_texts,
};
use crate::package::{Entry, MetaValue};
use crate::tokenizer::{lemma_line_end, lemma_skip_blank, lemma_step_advances, lex};
use crate::tokenizer::{
    is_blank, is_space, key_entry, key_from, key_at, line_end, lex_from, matches_at,
    skip_blank, skip_space, step_at, token_for, Lexed, Step, Target, TokenModel, EQUALS, HASH, LF,
    SPACE,
};

verus! {

/// The key literals as bytes.
pub open spec fn literal_bytes(i: int) -> Seq<u8> {
    if i == 0 { seq![112u8, 107u8, 103u8, 110u8, 97u8, 109u8, 101u8] }
    else if i == 1 { seq![112u8, 107u8, 103u8, 118u8, 101u8, 114u8] }
    else if i == 2 { seq![97u8, 114u8, 99u8, 104u8] }
    else if i == 3 { seq![112u8, 107u8, 103u8, 98u8, 97u8, 115u8, 101u8] }
    else if i == 4 { seq![112u8, 107u8, 103u8, 100u8, 101u8, 115u8, 99u8] }
    else if i == 5 { seq![117u8, 114u8, 108u8] }
    else if i == 6 { seq![98u8, 117u8, 105u8, 108u8, 100u8, 100u8, 97u8, 116u8, 101u8] }
    else if i == 7 { seq![112u8, 97u8, 99u8, 107u8, 97u8, 103u8, 101u8, 114u8] }
    else if i == 8 { seq![115u8, 105u8, 122u8, 101u8] }
    else if i == 9 { seq![103u8, 114u8, 111u8, 117u8, 112u8] }
    else if i == 10 { seq![108u8, 105u8, 99u8, 101u8, 110u8, 115u8, 101u8] }
    else if i == 11 { seq![114u8, 101u8, 112u8, 108u8, 97u8, 99u8, 101u8, 115u8] }
    else if i == 12 { seq![100u8, 101u8, 112u8, 101u8, 110u8, 100u8] }
    else if i == 13 { seq![99u8, 111u8, 110u8, 102u8, 108u8, 105u8, 99u8, 116u8] }
    else if i == 14 { seq![112u8, 114u8, 111u8, 118u8, 105u8, 100u8, 101u8, 115u8] }
    else if i == 15 { seq![111u8, 112u8, 116u8, 100u8, 101u8, 112u8, 101u8, 110u8, 100u8] }
    else if i == 16 { seq![109u8, 97u8, 107u8, 101u8, 100u8, 101u8, 112u8, 101u8, 110u8, 100u8] }
    else if i == 17 { seq![99u8, 104u8, 101u8, 99u8, 107u8, 100u8, 101u8, 112u8, 101u8, 110u8, 100u8] }
    else if i == 18 { seq![98u8, 97u8, 99u8, 107u8, 117u8, 112u8] }
    else if i == 19 { seq![109u8, 97u8, 107u8, 101u8, 112u8, 107u8, 103u8, 111u8, 112u8, 116u8] }
    else if i == 20 { seq![111u8, 112u8, 116u8, 105u8, 111u8, 110u8, 115u8] }
    else if i == 21 { seq![98u8, 117u8, 105u8, 108u8, 100u8, 100u8, 105u8, 114u8] }
    else if i == 22 { seq![98u8, 117u8, 105u8, 108u8, 100u8, 101u8, 110u8, 118u8] }
    else if i == 23 { seq![112u8, 107u8, 103u8, 98u8, 117u8, 105u8, 108u8, 100u8, 95u8, 115u8, 104u8, 97u8, 50u8, 53u8, 54u8, 115u8, 117u8, 109u8] }
    else { seq![105u8, 110u8, 115u8, 116u8, 97u8, 108u8, 108u8, 101u8, 100u8] }
}

proof fn lemma_literal_bytes(i: int)
    requires
        0 <= i < 25,
    ensures
        key_entry(i).0 == literal_bytes(i),
{
    if i == 0 {
        reveal_strlit("pkgname");
        is_ascii_spec_bytes("pkgname");
        assert(vstd::string::is_ascii("pkgname"));
        assert("pkgname".spec_bytes() =~= literal_bytes(0));
    } else if i == 1 {
        reveal_strlit("pkgver");
        is_ascii_spec_bytes("pkgver");
        assert(vstd::string::is_ascii("pkgver"));
        assert("pkgver".spec_bytes() =~= literal_bytes(1));
    } else if i == 2 {
        reveal_strlit("arch");
        is_ascii_spec_bytes("arch");
        assert(vstd::string::is_ascii("arch"));
        assert("arch".spec_bytes() =~= literal_bytes(2));
    } else if i == 3 {
        reveal_strlit("pkgbase");
        is_ascii_spec_bytes("pkgbase");
        assert(vstd::string::is_ascii("pkgbase"));
        assert("pkgbase".spec_bytes() =~= literal_bytes(3));
    } else if i == 4 {
        reveal_strlit("pkgdesc");
        is_ascii_spec_bytes("pkgdesc");
        assert(vstd::string::is_ascii("pkgdesc"));
        assert("pkgdesc".spec_bytes() =~= literal_bytes(4));
    } else if i == 5 {
        reveal_strlit("url");
        is_ascii_spec_bytes("url");
        assert(vstd::string::is_ascii("url"));
        assert("url".spec_bytes() =~= literal_bytes(5));
    } else if i == 6 {
        reveal_strlit("builddate");
        is_ascii_spec_bytes("builddate");
        assert(vstd::string::is_ascii("builddate"));
        assert("builddate".spec_bytes() =~= literal_bytes(6));
    } else if i == 7 {
        reveal_strlit("packager");
        is_ascii_spec_bytes("packager");
        assert(vstd::string::is_ascii("packager"));
        assert("packager".spec_bytes() =~= literal_bytes(7));
    } else if i == 8 {
        reveal_strlit("size");
        is_ascii_spec_bytes("size");
        assert(vstd::string::is_ascii("size"));
        assert("size".spec_bytes() =~= literal_bytes(8));
    } else if i == 9 {
        reveal_strlit("group");
        is_ascii_spec_bytes("group");
        assert(vstd::string::is_ascii("group"));
        assert("group".spec_bytes() =~= literal_bytes(9));
    } else if i == 10 {
        reveal_strlit("license");
        is_ascii_spec_bytes("license");
        assert(vstd::string::is_ascii("license"));
        assert("license".spec_bytes() =~= literal_bytes(10));
    } else if i == 11 {
        reveal_strlit("replaces");
        is_ascii_spec_bytes("replaces");
        assert(vstd::string::is_ascii("replaces"));
        assert("replaces".spec_bytes() =~= literal_bytes(11));
    } else if i == 12 {
        reveal_strlit("depend");
        is_ascii_spec_bytes("depend");
        assert(vstd::string::is_ascii("depend"));
        assert("depend".spec_bytes() =~= literal_bytes(12));
    } else if i == 13 {
        reveal_strlit("conflict");
        is_ascii_spec_bytes("conflict");
        assert(vstd::string::is_ascii("conflict"));
        assert("conflict".spec_bytes() =~= literal_bytes(13));
    } else if i == 14 {
        reveal_strlit("provides");
        is_ascii_spec_bytes("provides");
        assert(vstd::string::is_ascii("provides"));
        assert("provides".spec_bytes() =~= literal_bytes(14));
    } else if i == 15 {
        reveal_strlit("optdepend");
        is_ascii_spec_bytes("optdepend");
        assert(vstd::string::is_ascii("optdepend"));
        assert("optdepend".spec_bytes() =~= literal_bytes(15));
    } else if i == 16 {
        reveal_strlit("makedepend");
        is_ascii_spec_bytes("makedepend");
        assert(vstd::string::is_ascii("makedepend"));
        assert("makedepend".spec_bytes() =~= literal_bytes(16));
    } else if i == 17 {
        reveal_strlit("checkdepend");
        is_ascii_spec_bytes("checkdepend");
        assert(vstd::string::is_ascii("checkdepend"));
        assert("checkdepend".spec_bytes() =~= literal_bytes(17));
    } else if i == 18 {
        reveal_strlit("backup");
        is_ascii_spec_bytes("backup");
        assert(vstd::string::is_ascii("backup"));
        assert("backup".spec_bytes() =~= literal_bytes(18));
    } else if i == 19 {
        reveal_strlit("makepkgopt");
        is_ascii_spec_bytes("makepkgopt");
        assert(vstd::string::is_ascii("makepkgopt"));
        assert("makepkgopt".spec_bytes() =~= literal_bytes(19));
    } else if i == 20 {
        reveal_strlit("options");
        is_ascii_spec_bytes("options");
        assert(vstd::string::is_ascii("options"));
        assert("options".spec_bytes() =~= literal_bytes(20));
    } else if i == 21 {
        reveal_strlit("builddir");
        is_ascii_spec_bytes("builddir");
        assert(vstd::string::is_ascii("builddir"));
        assert("builddir".spec_bytes() =~= literal_bytes(21));
    } else if i == 22 {
        reveal_strlit("buildenv");
        is_ascii_spec_bytes("buildenv");
        assert(vstd::string::is_ascii("buildenv"));
        assert("buildenv".spec_bytes() =~= literal_bytes(22));
    } else if i == 23 {
        reveal_strlit("pkgbuild_sha256sum");
        is_ascii_spec_bytes("pkgbuild_sha256sum");
        assert(vstd::string::is_ascii("pkgbuild_sha256sum"));
        assert("pkgbuild_sha256sum".spec_bytes() =~= literal_bytes(23));
    } else {
        reveal_strlit("installed");
        is_ascii_spec_bytes("installed");
        assert(vstd::string::is_ascii("installed"));
        assert("installed".spec_bytes() =~= literal_bytes(24));
    }
}

proof fn lemma_literal_shape(i: int)
    requires
        0 <= i < 25,
    ensures
        literal_bytes(i).len() > 0,
        0x61 <= literal_bytes(i)[0] <= 0x7a,
{
}

/// Whether `a` and `b` differ at some index below both lengths, from `k` on.
pub open spec fn mismatch_from(a: Seq<u8>, b: Seq<u8>, k: int) -> bool
    decreases a.len() - k,
{
    if k < 0 || k >= a.len() || k >= b.len() {
        false
    } else if a[k] != b[k] {
        true
    } else {
        mismatch_from(a, b, k + 1)
    }
}

/// No literal before `i` agrees with literal `i` followed by a space.
pub open spec fn earlier_differ(i: int, j: int) -> bool
    decreases j,
{
    if j <= 0 {
        true
    } else {
        mismatch_from(literal_bytes(j - 1), literal_bytes(i).push(SPACE), 0) && earlier_differ(i, j - 1)
    }
}


proof fn lemma_literals_checked()
    ensures
        forall|i: int| 0 <= i < 25 ==> earlier_differ(i, i),
{
    assert(earlier_differ(0, 0)) by {
        reveal_with_fuel(earlier_differ, 26);
        reveal_with_fuel(mismatch_from, 10);
    }
    assert(earlier_differ(1, 1)) by {
        reveal_with_fuel(earlier_differ, 26);
        reveal_with_fuel(mismatch_from, 10);
    }
    assert(earlier_differ(2, 2)) by {
        reveal_with_fuel(earlier_differ, 26);
        reveal_with_fuel(mismatch_from, 10);
    }
    assert(earlier_differ(3, 3)) by {
        reveal_with_fuel(earlier_differ, 26);
        reveal_with_fuel(mismatch_from, 10);
    }
    assert(earlier_differ(4, 4)) by {
        reveal_with_fuel(earlier_differ, 26);
        reveal_with_fuel(mismatch_from, 10);
    }
    assert(earlier_differ(5, 5)) by {
        reveal_with_fuel(earlier_differ, 26);
        reveal_with_fuel(mismatch_from, 10);
    }
    assert(earlier_differ(6, 6)) by {
        reveal_with_fuel(earlier_differ, 26);
        reveal_with_fuel(mismatch_from, 10);
    }
    assert(earlier_differ(7, 7)) by {
        reveal_with_fuel(earlier_differ, 26);
        reveal_with_fuel(mismatch_from, 10);
    }
    assert(earlier_differ(8, 8)) by {
        reveal_with_fuel(earlier_differ, 26);
        reveal_with_fuel(mismatch_from, 10);
    }
    assert(earlier_differ(9, 9)) by {
        reveal_with_fuel(earlier_differ, 26);
        reveal_with_fuel(mismatch_from, 10);
    }
    assert(earlier_differ(10, 10)) by {
        reveal_with_fuel(earlier_differ, 26);
        reveal_with_fuel(mismatch_from, 10);
    }
    assert(earlier_differ(11, 11)) by {
        reveal_with_fuel(earlier_differ, 26);
        reveal_with_fuel(mismatch_from, 10);
    }
    assert(earlier_differ(12, 12)) by {
        reveal_with_fuel(earlier_differ, 26);
        reveal_with_fuel(mismatch_from, 10);
    }
    assert(earlier_differ(13, 13)) by {
        reveal_with_fuel(earlier_differ, 26);
        reveal_with_fuel(mismatch_from, 10);
    }
    assert(earlier_differ(14, 14)) by {
        reveal_with_fuel(earlier_differ, 26);
        reveal_with_fuel(mismatch_from, 10);
    }
    assert(earlier_differ(15, 15)) by {
        reveal_with_fuel(earlier_differ, 26);
        reveal_with_fuel(mismatch_from, 10);
    }
    assert(earlier_differ(16, 16)) by {
        reveal_with_fuel(earlier_differ, 26);
        reveal_with_fuel(mismatch_from, 10);
    }
    assert(earlier_differ(17, 17)) by {
        reveal_with_fuel(earlier_differ, 26);
        reveal_with_fuel(mismatch_from, 10);
    }
    assert(earlier_differ(18, 18)) by {
        reveal_with_fuel(earlier_differ, 26);
        reveal_with_fuel(mismatch_from, 10);
    }
    assert(earlier_differ(19, 19)) by {
        reveal_with_fuel(earlier_differ, 26);
        reveal_with_fuel(mismatch_from, 10);
    }
    assert(earlier_differ(20, 20)) by {
        reveal_with_fuel(earlier_differ, 26);
        reveal_with_fuel(mismatch_from, 10);
    }
    assert(earlier_differ(21, 21)) by {
        reveal_with_fuel(earlier_differ, 26);
        reveal_with_fuel(mismatch_from, 10);
    }
    assert(earlier_differ(22, 22)) by {
        reveal_with_fuel(earlier_differ, 26);
        reveal_with_fuel(mismatch_from, 10);
    }
    assert(earlier_differ(23, 23)) by {
        reveal_with_fuel(earlier_differ, 26);
        reveal_with_fuel(mismatch_from, 10);
    }
    assert(earlier_differ(24, 24)) by {
        reveal_with_fuel(earlier_differ, 26);
        reveal_with_fuel(mismatch_from, 10);
    }
}

/// The index of the literal that writes a field.
pub open spec fn entry_literal(e: Entry) -> int {
    match e {
        Entry::Base => 3,
        Entry::Description => 4,
        Entry::Url => 5,
        Entry::BuildDate => 6,
        Entry::Packager => 7,
        Entry::InstallSize => 8,
        Entry::Groups => 9,
        Entry::License => 10,
        Entry::Replaces => 11,
        Entry::Depends => 12,
        Entry::Conflicts => 13,
        Entry::Provides => 14,
        Entry::OptDepends => 15,
        Entry::MakeDepends => 16,
        Entry::CheckDepends => 17,
        Entry::Backups => 18,
        Entry::BuildOptions => 19,
        Entry::BuildDirectory => 21,
        Entry::BuildEnvironment => 22,
        Entry::SHA256Sum => 23,
        Entry::BuildInstalled => 24,
    }
}

pub open spec fn key_index(t: TokenModel) -> int {
    match t {
        TokenModel::Metadata(e, _) => entry_literal(e),
        TokenModel::Version(_) => 1,
        TokenModel::Arch(_) => 2,
        _ => 0,
    }
}

pub open spec fn token_value(t: TokenModel) -> Seq<char> {
    match t {
        TokenModel::Comment => Seq::empty(),
        TokenModel::Name(v) => v,
        TokenModel::Version(v) => v,
        TokenModel::Arch(v) => v,
        TokenModel::Metadata(_, v) => v,
    }
}

/// The line that writes a token: `key = value` and a line break, or an
/// empty comment.
pub open spec fn token_line(t: TokenModel) -> Seq<u8> {
    match t {
        TokenModel::Comment => seq![HASH, LF],
        _ => literal_bytes(key_index(t)) + seq![SPACE, EQUALS, SPACE] + encode_utf8(token_value(t))
            + seq![LF],
    }
}

/// The lines of a token sequence, one after another.
pub open spec fn render(ts: Seq<TokenModel>) -> Seq<u8>
    decreases ts.len(),
{
    if ts.len() == 0 {
        Seq::empty()
    } else {
        token_line(ts[0]) + render(ts.drop_first())
    }
}

/// A value that a line can carry back: no line break, and no leading space
/// or tab, in its UTF-8 encoding.
pub open spec fn clean_bytes(b: Seq<u8>) -> bool {
    &&& forall|k: int| 0 <= k < b.len() ==> b[k] != LF
    &&& b.len() > 0 ==> !is_blank(b[0])
}

pub open spec fn clean_token(t: TokenModel) -> bool {
    clean_bytes(encode_utf8(token_value(t)))
}

proof fn lemma_mismatch(s: Seq<u8>, p: int, a: Seq<u8>, b: Seq<u8>, k: int)
    requires
        0 <= k,
        0 <= p,
        p + b.len() <= s.len(),
        s.subrange(p, p + b.len()) == b,
        mismatch_from(a, b, k),
    ensures
        !matches_at(s, p, a),
    decreases a.len() - k,
{
    if a[k] != b[k] {
        if matches_at(s, p, a) {
            assert(s.subrange(p, p + a.len())[k] == s.subrange(p, p + b.len())[k]);
        }
    } else {
        lemma_mismatch(s, p, a, b, k + 1);
    }
}

proof fn lemma_earlier_differ(i: int, n: int, j: int)
    requires
        earlier_differ(i, n),
        0 <= j < n,
    ensures
        mismatch_from(literal_bytes(j), literal_bytes(i).push(SPACE), 0),
    decreases n,
{
    if j < n - 1 {
        lemma_earlier_differ(i, n - 1, j);
    }
}

proof fn lemma_key_found(s: Seq<u8>, p: int, i: int, j: int)
    requires
        0 <= j <= i < 25,
        0 <= p,
        p + literal_bytes(i).len() + 1 <= s.len(),
        s.subrange(p, p + literal_bytes(i).len() + 1) == literal_bytes(i).push(SPACE),
    ensures
        key_from(s, p, j) == Some(i),
    decreases i - j,
{
    lemma_literal_bytes(j);
    lemma_literal_bytes(i);
    lemma_literal_shape(i);
    if j == i {
        let m = literal_bytes(i).len();
        assert(s.subrange(p, p + m) =~= literal_bytes(i)) by {
            assert forall|k: int| 0 <= k < m implies #[trigger] s.subrange(p, p + m)[k]
                == literal_bytes(i)[k] by {
                assert(s.subrange(p, p + m + 1)[k] == literal_bytes(i).push(SPACE)[k]);
            }
        }
    } else {
        lemma_literals_checked();
        lemma_earlier_differ(i, i, j);
        lemma_mismatch(s, p, literal_bytes(j), literal_bytes(i).push(SPACE), 0);
        lemma_key_found(s, p, i, j + 1);
    }
}

proof fn lemma_line_end_at(s: Seq<u8>, v: int, e: int)
    requires
        0 <= v <= e < s.len(),
        s[e] == LF,
        forall|k: int| v <= k < e ==> s[k] != LF,
    ensures
        line_end(s, v) == e,
    decreases e - v,
{
    if v < e {
        lemma_line_end_at(s, v + 1, e);
    }
}

/// A written line reads back as its token, and the next line starts right
/// after it.
proof fn lemma_step_line(s: Seq<u8>, p: int, t: TokenModel)
    requires
        clean_token(t),
        0 <= p,
        p + token_line(t).len() <= s.len(),
        s.subrange(p, p + token_line(t).len()) == token_line(t),
        p + token_line(t).len() == s.len() || !is_space(s[p + token_line(t).len()]),
    ensures
        step_at(s, p) == Step::Emit(t, p + token_line(t).len()),
{
    let line = token_line(t);
    let n = line.len();
    assert forall|k: int| 0 <= k < n implies s[p + k] == line[k] by {
        assert(s.subrange(p, p + n)[k] == s[p + k]);
    }
    let q = p + n;
    assert(skip_space(s, q) == q);
    if t is Comment {
        assert(line_end(s, p + 1) == p + 1);
        assert(line_end(s, p) == p + 1);
    } else {
        let i = key_index(t);
        let lit = literal_bytes(i);
        let enc = encode_utf8(token_value(t));
        lemma_literal_bytes(i);
        lemma_literal_shape(i);
        let m = lit.len() as int;
        let pre = lit + seq![SPACE, EQUALS, SPACE];
        assert(line == pre + enc + seq![LF]);
        assert forall|k: int| 0 <= k < m + 3 implies line[k] == #[trigger] pre[k] by {
            assert((pre + enc)[k] == pre[k]);
        }
        assert forall|k: int| 0 <= k < m implies #[trigger] pre[k] == lit[k] by {}
        assert(pre[m] == SPACE && pre[m + 1] == EQUALS && pre[m + 2] == SPACE);
        assert forall|k: int| 0 <= k < enc.len() implies line[m + 3 + k] == #[trigger] enc[k] by {
            assert((pre + enc)[m + 3 + k] == enc[k]);
        }
        assert(line[m + 3 + enc.len() as int] == LF);
        assert(line[0] == lit[0]);
        assert(s[p] != HASH);
        assert(s.subrange(p, p + m + 1) =~= lit.push(SPACE)) by {
            assert forall|k: int| 0 <= k < m + 1 implies s.subrange(p, p + m + 1)[k] == lit.push(SPACE)[k] by {
                assert(s[p + k] == line[k]);
            }
        }
        lemma_key_found(s, p, i, 0);
        assert(s[p + m] == SPACE);
        assert(s[p + m + 1] == EQUALS);
        assert(skip_blank(s, p + m + 1) == p + m + 1);
        assert(skip_blank(s, p + m) == p + m + 1);
        let v = p + m + 3;
        assert(s[p + m + 2] == SPACE);
        let e = v + enc.len();
        assert(s[e] == LF);
        assert(skip_blank(s, v) == v) by {
            if enc.len() > 0 {
                assert(s[v] == enc[0]);
            }
        }
        assert(skip_blank(s, p + m + 2) == v);
        assert forall|k: int| v <= k < e implies s[k] != LF by {
            assert(s[k] == line[k - p]);
            assert(line[k - p] == enc[k - v]);
        }
        lemma_line_end_at(s, v, e);
        assert(s.subrange(v, e) =~= enc) by {
            assert forall|k: int| 0 <= k < enc.len() implies s.subrange(v, e)[k] == enc[k] by {
                assert(s[v + k] == line[m + 3 + k]);
            }
        }
        vstd::utf8::encode_utf8_valid_utf8(token_value(t));
        vstd::utf8::encode_utf8_decode_utf8(token_value(t));
        assert(skip_space(s, e + 1) == e + 1);
        assert(e + 1 == q);
        lemma_target(t);
    }
}

proof fn lemma_target(t: TokenModel)
    requires
        !(t is Comment),
    ensures
        token_for(key_entry(key_index(t)).1, token_value(t)) == t,
{
}

proof fn lemma_line_start(t: TokenModel)
    ensures
        token_line(t).len() > 0,
        !is_space(token_line(t)[0]),
{
    if !(t is Comment) {
        lemma_literal_shape(key_index(t));
    }
}

proof fn lemma_lex_render(s: Seq<u8>, p: int, ts: Seq<TokenModel>)
    requires
        0 <= p <= s.len(),
        s.subrange(p, s.len() as int) == render(ts),
        forall|k: int| 0 <= k < ts.len() ==> clean_token(#[trigger] ts[k]),
    ensures
        lex_from(s, p) == Lexed::Done(ts, s.len() as int),
    decreases ts.len(),
{
    if ts.len() == 0 {
        assert(ts =~= Seq::<TokenModel>::empty());
    } else {
        let line = token_line(ts[0]);
        let n = line.len() as int;
        let rest = ts.drop_first();
        lemma_line_start(ts[0]);
        assert(render(ts) == line + render(rest));
        assert(s.subrange(p, p + n) =~= line) by {
            assert forall|k: int| 0 <= k < n implies #[trigger] s.subrange(p, p + n)[k] == line[k] by {
                assert(s.subrange(p, s.len() as int)[k] == render(ts)[k]);
            }
        }
        assert(s.subrange(p + n, s.len() as int) =~= render(rest)) by {
            assert forall|k: int| 0 <= k < render(rest).len() implies #[trigger] s.subrange(
                p + n,
                s.len() as int,
            )[k] == render(rest)[k] by {
                assert(s.subrange(p, s.len() as int)[n + k] == render(ts)[n + k]);
            }
        }
        if p + n < s.len() {
            assert(rest.len() > 0);
            lemma_line_start(rest[0]);
            assert(render(rest) == token_line(rest[0]) + render(rest.drop_first()));
            assert(s[p + n] == s.subrange(p + n, s.len() as int)[0]);
        }
        assert(clean_token(ts[0]));
        lemma_step_line(s, p, ts[0]);
        assert forall|k: int| 0 <= k < rest.len() implies clean_token(#[trigger] rest[k]) by {
            assert(rest[k] == ts[k + 1]);
        }
        lemma_lex_render(s, p + n, rest);
        assert(seq![ts[0]] + rest =~= ts);
    }
}

pub open spec fn clean_value(v: Seq<char>) -> bool {
    clean_bytes(encode_utf8(v))
}

proof fn lemma_no_lf_before_line_end(s: Seq<u8>, v: int, k: int)
    requires
        0 <= v <= k < line_end(s, v),
    ensures
        s[k] != LF,
    decreases k - v,
{
    if v < k {
        lemma_no_lf_before_line_end(s, v + 1, k);
    }
}

proof fn lemma_token_for_value(t: Target, v: Seq<char>)
    ensures
        token_value(token_for(t, v)) == v,
{
}

proof fn lemma_step_clean(s: Seq<u8>, p: int)
    requires
        0 <= p < s.len(),
    ensures
        step_at(s, p) matches Step::Emit(t, _) ==> clean_token(t),
{
    if s[p] == HASH {
        assert(encode_utf8(Seq::<char>::empty()) =~= Seq::<u8>::empty());
    } else if let Some(i) = key_at(s, p) {
        let k = p + key_entry(i).0.len();
        if 0 <= k <= s.len() {
            lemma_skip_blank(s, k);
            let a = skip_blank(s, k);
            if a < s.len() && s[a] == EQUALS {
                lemma_skip_blank(s, a + 1);
                let v = skip_blank(s, a + 1);
                lemma_line_end(s, v);
                let e = line_end(s, v);
                let b = s.subrange(v, e);
                if e < s.len() && valid_utf8(b) {
                    vstd::utf8::decode_utf8_encode_utf8(b);
                    lemma_token_for_value(key_entry(i).1, decode_utf8(b));
                    assert forall|j: int| 0 <= j < b.len() implies b[j] != LF by {
                        lemma_no_lf_before_line_end(s, v, v + j);
                    }
                }
            }
        } else {
            crate::tokenizer::lemma_key_from_fits(s, p, 0);
        }
    }
}

proof fn lemma_lex_clean(s: Seq<u8>, p: int)
    requires
        0 <= p,
    ensures
        lex_from(s, p) matches Lexed::Done(ts, _) ==> forall|k: int|
            0 <= k < ts.len() ==> clean_token(#[trigger] ts[k]),
    decreases s.len() - p,
{
    if p < s.len() {
        lemma_step_advances(s, p);
        lemma_step_clean(s, p);
        if let Step::Emit(t, next) = step_at(s, p) {
            lemma_lex_clean(s, next);
            if let Lexed::Done(rest, _) = lex_from(s, next) {
                assert forall|k: int| 0 <= k < rest.len() + 1 implies clean_token(
                    #[trigger] (seq![t] + rest)[k],
                ) by {
                    if k > 0 {
                        assert((seq![t] + rest)[k] == rest[k - 1]);
                    }
                }
            }
        }
    }
}

pub open spec fn clean_meta(m: Map<Entry, MetaValue>) -> bool {
    forall|e: Entry|
        #![trigger m[e]]
        m.contains_key(e) ==> match m[e] {
            MetaValue::Text(v) => clean_value(v),
            MetaValue::List(l) => forall|k: int| 0 <= k < l.len() ==> clean_value(#[trigger] l[k]),
            _ => true,
        }
}

proof fn lemma_fold_clean(ts: Seq<TokenModel>)
    requires
        forall|k: int| 0 <= k < ts.len() ==> clean_token(#[trigger] ts[k]),
    ensures
        fold_tokens(ts) matches Ok(st) ==> {
            &&& st.name matches Some(v) ==> clean_value(v)
            &&& st.version matches Some(v) ==> clean_value(v)
            &&& st.arch matches Some(v) ==> clean_value(v)
            &&& clean_meta(st.metadata)
        },
    decreases ts.len(),
{
    if ts.len() == 0 {
        assert(clean_meta(Map::<Entry, MetaValue>::empty()));
    } else {
        let init = ts.drop_last();
        assert forall|k: int| 0 <= k < init.len() implies clean_token(#[trigger] init[k]) by {
            assert(init[k] == ts[k]);
        }
        lemma_fold_clean(init);
        let t = ts.last();
        assert(clean_token(t));
        if let Ok(st0) = fold_tokens(init) {
            if let Ok(st) = fold_token(st0, t) {
                if let TokenModel::Metadata(k, v) = t {
                    assert(clean_value(v));
                    assert forall|e: Entry| #![trigger st.metadata[e]] st.metadata.contains_key(e) implies match st.metadata[e] {
                        MetaValue::Text(x) => clean_value(x),
                        MetaValue::List(l) => forall|j: int| 0 <= j < l.len() ==> clean_value(#[trigger] l[j]),
                        _ => true,
                    } by {
                        if e == k {
                            if st0.metadata.contains_key(e) {
                                if let MetaValue::List(l0) = st0.metadata[e] {
                                    assert forall|j: int| 0 <= j < l0.len() + 1 implies clean_value(
                                        #[trigger] l0.push(v)[j],
                                    ) by {
                                        if j < l0.len() {
                                            assert(l0.push(v)[j] == l0[j]);
                                        }
                                    }
                                }
                            } else {
                                assert forall|j: int| 0 <= j < 1 implies clean_value(#[trigger] seq![v][j]) by {}
                            }
                        }
                    }
                }
            }
        }
    }
}

proof fn lemma_ascii_clean(c: Seq<char>)
    requires
        vstd::utf8::is_ascii_chars(c),
        forall|k: int| 0 <= k < c.len() ==> #[trigger] c[k] != '\n',
        c.len() > 0 ==> c[0] != ' ' && c[0] != '\t',
    ensures
        clean_value(c),
{
    vstd::utf8::is_ascii_chars_encode_utf8(c);
    let b = encode_utf8(c);
    assert forall|k: int| 0 <= k < b.len() implies b[k] != LF by {
        assert(c[k] as u8 == b[k]);
    }
    if b.len() > 0 {
        assert(c[0] as u8 == b[0]);
    }
}

proof fn lemma_decimal_clean(n: nat)
    ensures
        clean_value(decimal(n)),
        clean_value(seq!['-'] + decimal(n)),
{
    lemma_decimal(n);
    let d = decimal(n);
    assert(vstd::utf8::is_ascii_chars(d));
    lemma_ascii_clean(d);
    let m = seq!['-'] + d;
    assert forall|k: int| 0 <= k < m.len() implies '\0' <= #[trigger] m[k] <= '\u{7f}' && m[k] != '\n' by {
        if k > 0 {
            assert(m[k] == d[k - 1]);
        }
    }
    lemma_ascii_clean(m);
}

proof fn lemma_metadata_tokens_clean(m: Map<Entry, MetaValue>, i: int)
    requires
        clean_meta(m),
    ensures
        forall|k: int| 0 <= k < metadata_tokens(m, i).len() ==> clean_token(
            #[trigger] metadata_tokens(m, i)[k],
        ),
    decreases i,
{
    if i > 0 {
        lemma_metadata_tokens_clean(m, i - 1);
        let a = metadata_tokens(m, i - 1);
        let e = crate::canonical::entry_at(i - 1);
        let b = entry_tokens(m, e);
        assert forall|k: int| 0 <= k < b.len() implies clean_token(#[trigger] b[k]) by {
            let texts = value_texts(m[e]);
            assert(b[k] == TokenModel::Metadata(e, texts[k]));
            match m[e] {
                MetaValue::Size(n) => lemma_decimal_clean(n as nat),
                MetaValue::Timestamp(t) => {
                    if t >= 0 {
                        lemma_decimal_clean(t as nat);
                    } else {
                        lemma_decimal_clean((-t) as nat);
                    }
                },
                _ => {},
            }
        }
        assert forall|k: int| 0 <= k < (a + b).len() implies clean_token(#[trigger] (a + b)[k]) by {
            if k >= a.len() {
                assert((a + b)[k] == b[k - a.len()]);
            }
        }
    }
}

/// Writing a record back in the grammar and parsing the result again gives
/// the same record, with nothing left over: for every input that yields a
/// record, the lines of that record's canonical tokens (name, version and
/// arch, then each field's values, numbers in decimal) parse to it.
pub proof fn lemma_round_trip(s: Seq<u8>)
    requires
        parse_model(s) matches OutcomeModel::Done(_, Some(_)),
    ensures
        parse_model(s) matches OutcomeModel::Done(_, Some(p)) && parse_model(
            render(record_tokens(p)),
        ) == OutcomeModel::Done(Seq::empty(), Some(p)),
{
    if let Lexed::Done(ts, _) = lex(s) {
        if let Ok(Some(p)) = assemble(ts) {
            lemma_lex_clean(s, 0);
            lemma_fold_clean(ts);
            lemma_record_tokens_reassemble(ts);
            let rt = record_tokens(p);
            let head = seq![TokenModel::Name(p.name), TokenModel::Version(p.version), TokenModel::Arch(p.arch)];
            lemma_metadata_tokens_clean(p.metadata, 21);
            let mt = metadata_tokens(p.metadata, 21);
            assert(clean_value(p.arch)) by {
                if fold_tokens(ts)->Ok_0.arch is None {
                    assert(encode_utf8(Seq::<char>::empty()) =~= Seq::<u8>::empty());
                }
            }
            assert forall|k: int| 0 <= k < rt.len() implies clean_token(#[trigger] rt[k]) by {
                if k >= 3 {
                    assert(rt[k] == mt[k - 3]);
                }
            }
            let r = render(rt);
            assert(r.subrange(0, r.len() as int) =~= r);
            lemma_lex_render(r, 0, rt);
            assert(r.subrange(r.len() as int, r.len() as int) =~= Seq::<u8>::empty());
        }
    }
}

} // verus!
