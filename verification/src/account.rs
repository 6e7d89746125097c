//! Account identifiers and their canonical text form.
//!
//! An account is a pair of an owner principal (an opaque text) and an
//! optional 32-byte subaccount. Its canonical text form is the owner alone
//! when the subaccount is absent, empty or all zero, and otherwise
//! `owner:0x<hex-subaccount>`. Two text forms denote the same logical
//! account exactly when they normalize to the same string.

use vstd::prelude::*;
use crate::strutil::{idx_of, lemma_idx_of, lemma_idx_of_found, str_eq, find_char};
use crate::numeric::{hex_of, hex_encode, hex_digit, lemma_hex_of_index, lemma_hex_of_chars, lemma_hex_of_len};

verus! {

/// Repeatedly strips a leading `0x` marker.
pub open spec fn strip_0x(s: Seq<char>) -> Seq<char>
    decreases s.len(),
{
    if s.len() >= 2 && s[0] == '0' && s[1] == 'x' {
        strip_0x(s.skip(2))
    } else {
        s
    }
}

pub open spec fn all_zero_chars(s: Seq<char>) -> bool {
    forall|i: int| 0 <= i < s.len() ==> #[trigger] s[i] == '0'
}

/// A subaccount text denotes the default subaccount when, after stripping
/// `0x` markers, it is exactly 64 zero characters.
pub open spec fn spec_is_default_sub(s: Seq<char>) -> bool {
    strip_0x(s).len() == 64 && all_zero_chars(strip_0x(s))
}

/// The owner part of an account text: everything before the first colon.
pub open spec fn spec_principal(s: Seq<char>) -> Seq<char> {
    s.take(idx_of(s, ':'))
}

/// The subaccount part of an account text: the segment between the first
/// colon and the second colon or the end; `None` when there is no colon.
pub open spec fn spec_sub(s: Seq<char>) -> Option<Seq<char>> {
    if idx_of(s, ':') == s.len() {
        None
    } else {
        let rest = s.skip(idx_of(s, ':') + 1);
        Some(rest.take(idx_of(rest, ':')))
    }
}

/// Two account texts denote the same logical account.
#[verifier::opaque]
pub open spec fn spec_account_match(a: Seq<char>, b: Seq<char>) -> bool {
    if a == b {
        true
    } else if spec_principal(a) != spec_principal(b) {
        false
    } else {
        match (spec_sub(a), spec_sub(b)) {
            (Option::None, Option::None) => true,
            (Option::Some(s), Option::None) => spec_is_default_sub(s),
            (Option::None, Option::Some(s)) => spec_is_default_sub(s),
            (Option::Some(s1), Option::Some(s2)) => s1 == s2 || (spec_is_default_sub(s1)
                && spec_is_default_sub(s2)),
        }
    }
}

/// The normal form of an account text: the owner alone when the subaccount
/// part is the default one, and the whole text otherwise.
pub open spec fn spec_normalize(s: Seq<char>) -> Seq<char> {
    match spec_sub(s) {
        Option::None => s,
        Option::Some(sub) => if spec_is_default_sub(sub) {
            spec_principal(s)
        } else {
            s
        },
    }
}

/// Checks whether a subaccount text denotes the default (all-zero) subaccount.
#[verifier::spinoff_prover]
pub fn is_default_subaccount(subaccount: &str) -> (r: bool)
    ensures
        r == spec_is_default_sub(subaccount@),
{
    let n = subaccount.unicode_len();
    let mut i: usize = 0;
    proof {
        assert(subaccount@.skip(0) =~= subaccount@);
    }
    while i < n && i + 1 < n
        invariant
            n == subaccount@.len(),
            0 <= i <= n,
            strip_0x(subaccount@) == strip_0x(subaccount@.skip(i as int)),
        ensures
            0 <= i <= n,
            strip_0x(subaccount@) == subaccount@.skip(i as int),
        decreases n - i,
    {
        let c0 = subaccount.get_char(i);
        let c1 = subaccount.get_char(i + 1);
        proof {
            let rem = subaccount@.skip(i as int);
            assert(rem[0] == subaccount@[i as int]);
            assert(rem[1] == subaccount@[i as int + 1]);
            assert(rem.skip(2) =~= subaccount@.skip(i as int + 2));
        }
        if !(c0 == '0' && c1 == 'x') {
            break;
        }
        i += 2;
    }
    if n - i != 64 {
        return false;
    }
    let mut j: usize = i;
    while j < n
        invariant
            n == subaccount@.len(),
            i <= j <= n,
            n - i == 64,
            strip_0x(subaccount@) == subaccount@.skip(i as int),
            forall|k: int| i <= k < j ==> subaccount@[k] == '0',
        decreases n - j,
    {
        if subaccount.get_char(j) != '0' {
            proof {
                assert(subaccount@.skip(i as int)[j - i] == subaccount@[j as int]);
            }
            return false;
        }
        j += 1;
    }
    proof {
        let rem = subaccount@.skip(i as int);
        assert forall|k: int| 0 <= k < rem.len() implies rem[k] == '0' by {
            assert(rem[k] == subaccount@[k + i]);
        }
    }
    true
}

/// Returns the normal form of an account text, dropping a default
/// subaccount part together with anything after it.
#[verifier::spinoff_prover]
pub fn normalize_account_id(account: &str) -> (r: String)
    ensures
        r@ == spec_normalize(account@),
{
    let n = account.unicode_len();
    let i = find_char(account, ':');
    proof {
        lemma_idx_of(account@, ':');
    }
    if i == n {
        return account.to_owned();
    }
    let rest = account.substring_char(i + 1, n);
    let j = find_char(rest, ':');
    proof {
        lemma_idx_of(rest@, ':');
    }
    let sub = rest.substring_char(0, j);
    proof {
        lemma_idx_of(account@, ':');
        assert(rest@ =~= account@.skip(i as int + 1));
        assert(sub@ =~= rest@.take(j as int));
    }
    if is_default_subaccount(sub) {
        let p = account.substring_char(0, i);
        proof {
            assert(p@ =~= spec_principal(account@));
        }
        p.to_owned()
    } else {
        account.to_owned()
    }
}

/// Decides whether two account texts denote the same logical account,
/// treating an absent subaccount and a default subaccount alike.
#[verifier::spinoff_prover]
pub fn account_match(account1: &str, account2: &str) -> (r: bool)
    ensures
        r == spec_account_match(account1@, account2@),
{
    proof {
        reveal(spec_account_match);
    }
    if str_eq(account1, account2) {
        return true;
    }
    let n1 = account1.unicode_len();
    let n2 = account2.unicode_len();
    let i1 = find_char(account1, ':');
    let i2 = find_char(account2, ':');
    proof {
        lemma_idx_of(account1@, ':');
        lemma_idx_of(account2@, ':');
    }
    let p1 = account1.substring_char(0, i1);
    let p2 = account2.substring_char(0, i2);
    proof {
        assert(p1@ =~= spec_principal(account1@));
        assert(p2@ =~= spec_principal(account2@));
    }
    if !str_eq(p1, p2) {
        return false;
    }
    if i1 == n1 && i2 == n2 {
        return true;
    }
    if i1 < n1 && i2 == n2 {
        let rest1 = account1.substring_char(i1 + 1, n1);
        let j1 = find_char(rest1, ':');
        proof {
            lemma_idx_of(rest1@, ':');
        }
        let sub1 = rest1.substring_char(0, j1);
        proof {
            assert(rest1@ =~= account1@.skip(i1 as int + 1));
            assert(sub1@ =~= rest1@.take(j1 as int));
        }
        return is_default_subaccount(sub1);
    }
    if i1 == n1 && i2 < n2 {
        let rest2 = account2.substring_char(i2 + 1, n2);
        let j2 = find_char(rest2, ':');
        proof {
            lemma_idx_of(rest2@, ':');
        }
        let sub2 = rest2.substring_char(0, j2);
        proof {
            assert(rest2@ =~= account2@.skip(i2 as int + 1));
            assert(sub2@ =~= rest2@.take(j2 as int));
        }
        return is_default_subaccount(sub2);
    }
    let rest1 = account1.substring_char(i1 + 1, n1);
    let j1 = find_char(rest1, ':');
    proof {
        lemma_idx_of(rest1@, ':');
    }
    let sub1 = rest1.substring_char(0, j1);
    let rest2 = account2.substring_char(i2 + 1, n2);
    let j2 = find_char(rest2, ':');
    proof {
        lemma_idx_of(rest2@, ':');
    }
    let sub2 = rest2.substring_char(0, j2);
    proof {
        assert(rest1@ =~= account1@.skip(i1 as int + 1));
        assert(sub1@ =~= rest1@.take(j1 as int));
        assert(rest2@ =~= account2@.skip(i2 as int + 1));
        assert(sub2@ =~= rest2@.take(j2 as int));
    }
    if str_eq(sub1, sub2) {
        return true;
    }
    is_default_subaccount(sub1) && is_default_subaccount(sub2)
}

/// An account: an owner principal with an optional subaccount.
pub struct Account {
    pub owner: String,
    pub subaccount: Option<Vec<u8>>,
}

pub open spec fn spec_sub_is_zero(b: Seq<u8>) -> bool {
    forall|i: int| 0 <= i < b.len() ==> #[trigger] b[i] == 0u8
}

/// Canonical text of an account from its parts.
pub open spec fn spec_account_text(owner: Seq<char>, sub: Option<Seq<u8>>) -> Seq<char> {
    match sub {
        Option::None => owner,
        Option::Some(b) => if b.len() == 0 || spec_sub_is_zero(b) {
            owner
        } else {
            owner + ":0x"@ + hex_of(b)
        },
    }
}

impl Account {
    pub open spec fn sub_view(&self) -> Option<Seq<u8>> {
        match self.subaccount {
            Option::None => Option::None,
            Option::Some(v) => Option::Some(v@),
        }
    }

    /// Renders the canonical text form of this account.
    pub fn to_text(&self) -> (r: String)
        ensures
            r@ == spec_account_text(self.owner@, self.sub_view()),
    {
        match &self.subaccount {
            None => self.owner.clone(),
            Some(sub) => {
                let mut all_zero = true;
                let mut i: usize = 0;
                while i < sub.len()
                    invariant
                        0 <= i <= sub@.len(),
                        all_zero <==> (forall|k: int| 0 <= k < i ==> #[trigger] sub@[k] == 0u8),
                    decreases sub@.len() - i,
                {
                    if sub[i] != 0 {
                        all_zero = false;
                    }
                    proof {
                        if !all_zero {
                        } else {
                            assert forall|k: int| 0 <= k < i + 1 implies #[trigger] sub@[k]
                                == 0u8 by {}
                        }
                    }
                    i += 1;
                }
                if sub.len() == 0 || all_zero {
                    self.owner.clone()
                } else {
                    let hex = hex_encode(sub);
                    let r = self.owner.clone().concat(":0x").concat(hex.as_str());
                    proof {
                        assert(r@ =~= spec_account_text(self.owner@, self.sub_view()));
                    }
                    r
                }
            },
        }
    }
}

} // verus!

// Account laws.

use vstd::prelude::*;

verus! {

/// An account text in expected shape: at most one colon.
pub open spec fn single_colon_form(s: Seq<char>) -> bool {
    idx_of(s, ':') == s.len() || idx_of(s.skip(idx_of(s, ':') + 1), ':') == s.skip(
        idx_of(s, ':') + 1,
    ).len()
}

/// The owner part of an account text contains no colon.
pub proof fn lemma_principal_no_colon(s: Seq<char>)
    ensures
        idx_of(spec_principal(s), ':') == spec_principal(s).len(),
{
    lemma_idx_of(s, ':');
    let i = idx_of(s, ':');
    let p = spec_principal(s);
    assert forall|j: int| 0 <= j < p.len() implies p[j] != ':' by {
        assert(p[j] == s[j]);
    }
    lemma_idx_of_found(p, ':', p.len() as int);
}

/// A text without a colon is its own owner part and its own normal form.
pub proof fn lemma_no_colon_forms(s: Seq<char>)
    requires
        idx_of(s, ':') == s.len(),
    ensures
        spec_principal(s) == s,
        spec_sub(s) is None,
        spec_normalize(s) == s,
{
    lemma_idx_of(s, ':');
    assert(s.take(s.len() as int) =~= s);
}

/// Normalization is idempotent.
pub proof fn lemma_normalize_idempotent(s: Seq<char>)
    ensures
        spec_normalize(spec_normalize(s)) == spec_normalize(s),
{
    lemma_idx_of(s, ':');
    match spec_sub(s) {
        Option::None => {},
        Option::Some(sub) => {
            if spec_is_default_sub(sub) {
                lemma_principal_no_colon(s);
                lemma_no_colon_forms(spec_principal(s));
            }
        },
    }
}

/// A text with a colon splits into its owner part, the colon, and the rest.
proof fn lemma_decompose(s: Seq<char>)
    requires
        idx_of(s, ':') < s.len(),
    ensures
        s == spec_principal(s) + seq![':'] + s.skip(idx_of(s, ':') + 1),
        s[idx_of(s, ':')] == ':',
{
    lemma_idx_of(s, ':');
    let i = idx_of(s, ':');
    assert(s =~= s.take(i) + seq![':'] + s.skip(i + 1));
}

/// In single-colon form, the subaccount part is everything after the colon.
proof fn lemma_sub_is_rest(s: Seq<char>)
    requires
        single_colon_form(s),
        idx_of(s, ':') < s.len(),
    ensures
        spec_sub(s) == Option::Some(s.skip(idx_of(s, ':') + 1)),
{
    lemma_idx_of(s, ':');
    let rest = s.skip(idx_of(s, ':') + 1);
    lemma_idx_of(rest, ':');
    assert(rest.take(rest.len() as int) =~= rest);
}

/// Two texts in single-colon form denote the same logical account exactly
/// when their normal forms are equal: normalization is collision-free for
/// distinct logical accounts and identifies equal ones.
pub proof fn lemma_match_iff_same_normal_form(a: Seq<char>, b: Seq<char>)
    requires
        single_colon_form(a),
        single_colon_form(b),
    ensures
        spec_account_match(a, b) <==> spec_normalize(a) == spec_normalize(b),
{
    reveal(spec_account_match);
    lemma_idx_of(a, ':');
    lemma_idx_of(b, ':');
    let ia = idx_of(a, ':');
    let ib = idx_of(b, ':');
    if ia == a.len() && ib == b.len() {
        lemma_no_colon_forms(a);
        lemma_no_colon_forms(b);
    } else if ia < a.len() && ib == b.len() {
        lemma_no_colon_forms(b);
        lemma_sub_is_rest(a);
        lemma_decompose(a);
        let sa = a.skip(ia + 1);
        lemma_principal_no_colon(a);
        if spec_is_default_sub(sa) {
            assert(spec_normalize(a) == spec_principal(a));
            assert(a != b);
        } else {
            assert(spec_normalize(a) == a);
            assert(a != b);
            assert(spec_account_match(a, b) == false);
        }
    } else if ia == a.len() && ib < b.len() {
        lemma_no_colon_forms(a);
        lemma_sub_is_rest(b);
        lemma_decompose(b);
        let sb = b.skip(ib + 1);
        lemma_principal_no_colon(b);
        if spec_is_default_sub(sb) {
            assert(spec_normalize(b) == spec_principal(b));
            assert(a != b);
        } else {
            assert(spec_normalize(b) == b);
            assert(a != b);
            assert(spec_account_match(a, b) == false);
        }
    } else {
        lemma_sub_is_rest(a);
        lemma_sub_is_rest(b);
        lemma_decompose(a);
        lemma_decompose(b);
        lemma_principal_no_colon(a);
        lemma_principal_no_colon(b);
        let pa = spec_principal(a);
        let pb = spec_principal(b);
        let sa = a.skip(ia + 1);
        let sb = b.skip(ib + 1);
        // The decomposition is unique: equal texts have equal parts, and
        // equal parts give equal texts.
        if a == b {
            assert(pa == pb && sa == sb);
        }
        if pa == pb && sa == sb {
            assert(a =~= b);
        }
        if spec_is_default_sub(sa) && spec_is_default_sub(sb) {
            assert(spec_account_match(a, b) <==> pa == pb);
        } else if spec_is_default_sub(sa) && !spec_is_default_sub(sb) {
            assert(spec_normalize(a) == pa && spec_normalize(b) == b);
            if pa == b {
                lemma_no_colon_forms(pa);
                assert(idx_of(b, ':') == b.len());
            }
            assert(spec_account_match(a, b) == false);
        } else if !spec_is_default_sub(sa) && spec_is_default_sub(sb) {
            assert(spec_normalize(a) == a && spec_normalize(b) == pb);
            if a == pb {
                lemma_no_colon_forms(pb);
                assert(idx_of(a, ':') == a.len());
            }
            assert(spec_account_match(a, b) == false);
        } else {
            assert(spec_normalize(a) == a && spec_normalize(b) == b);
        }
    }
}


/// The canonical text of an account whose owner holds no colon is already in
/// normal form and has at most one colon: normalizing it changes nothing.
pub proof fn lemma_account_text_normalized(owner: Seq<char>, sub: Option<Seq<u8>>)
    requires
        idx_of(owner, ':') == owner.len(),
    ensures
        spec_normalize(spec_account_text(owner, sub)) == spec_account_text(owner, sub),
        single_colon_form(spec_account_text(owner, sub)),
{
    lemma_idx_of(owner, ':');
    match sub {
        Option::None => {
            lemma_no_colon_forms(owner);
        },
        Option::Some(b) => {
            if b.len() == 0 || spec_sub_is_zero(b) {
                lemma_no_colon_forms(owner);
            } else {
                reveal_strlit(":0x");
                let t = spec_account_text(owner, Option::Some(b));
                let hex = hex_of(b);
                lemma_hex_of_len(b);
                lemma_hex_of_chars(b);
                assert(":0x"@.len() == 3);
                assert(":0x"@[0] == ':' && ":0x"@[1] == '0' && ":0x"@[2] == 'x');
                assert(t.len() == owner.len() + 3 + hex.len());
                assert forall|j: int| 0 <= j < owner.len() implies t[j] != ':' by {
                    assert(t[j] == owner[j]);
                }
                assert(t[owner.len() as int] == ':');
                lemma_idx_of_found(t, ':', owner.len() as int);
                let rest = t.skip(owner.len() as int + 1);
                assert(rest.len() == 2 + hex.len());
                assert(rest[0] == '0' && rest[1] == 'x');
                assert forall|j: int| 2 <= j < rest.len() implies rest[j] == hex[j - 2] by {
                    assert(rest[j] == t[owner.len() + 1 + j]);
                }
                assert forall|j: int| 0 <= j < rest.len() implies rest[j] != ':' by {
                    if j >= 2 {
                        assert(rest[j] == hex[j - 2]);
                    }
                }
                lemma_idx_of_found(rest, ':', rest.len() as int);
                assert(single_colon_form(t));
                assert(rest.take(rest.len() as int) =~= rest);
                assert(spec_sub(t) == Option::Some(rest));
                // the subaccount part is not the default one: some hex
                // character is not '0'
                assert(rest.skip(2) =~= hex);
                assert(strip_0x(rest) == strip_0x(hex));
                assert(strip_0x(hex) == hex) by {
                    if hex.len() >= 2 && hex[0] == '0' && hex[1] == 'x' {
                        assert(false);
                    }
                }
                let j = choose|j: int| 0 <= j < b.len() && b[j] != 0u8;
                lemma_hex_of_index(b, j);
                assert(b[j] == 16 * (b[j] / 16) + b[j] % 16) by (nonlinear_arith);
                if b[j] / 16 != 0 {
                    assert(hex[2 * j] == hex_digit(b[j] / 16));
                    assert(hex[2 * j] != '0');
                    assert(!all_zero_chars(hex));
                } else {
                    assert(b[j] % 16 != 0);
                    assert(hex[2 * j + 1] == hex_digit(b[j] % 16));
                    assert(hex[2 * j + 1] != '0');
                    assert(!all_zero_chars(hex));
                }
                assert(!spec_is_default_sub(rest));
            }
        },
    }
}

} // verus!
