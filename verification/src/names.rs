//! Construction of the generated variable and label names that the
//! compilation pipeline hands out: versioned variable names of the shape
//! `#var_<origin>_#<k>`, temporary names `#var_<k>` and labels `#label_<k>`.
//!
//! The pipeline's single-assignment guarantee rests on these names being
//! distinct, so this module also proves that the versioned-name constructor
//! is injective as long as the origin names are free of `#`.

use vstd::prelude::*;

verus! {

/// The decimal digit character for `d` (meaningful for `d < 10`).
pub open spec fn dec_digit(d: nat) -> char {
    "0123456789"@[d as int]
}

/// The decimal rendering of `n`, most significant digit first.
pub open spec fn dec_seq(n: nat) -> Seq<char>
    decreases n,
{
    if n < 10 {
        seq![dec_digit(n)]
    } else {
        dec_seq(n / 10).push(dec_digit(n % 10))
    }
}

/// The number a sequence of decimal digit characters denotes.
pub open spec fn dec_val(s: Seq<char>) -> nat
    decreases s.len(),
{
    if s.len() <= 1 {
        if s.len() == 1 {
            dec_char_val(s[0])
        } else {
            0
        }
    } else {
        dec_val(s.drop_last()) * 10 + dec_char_val(s.last())
    }
}

/// The value of a single decimal digit character.
pub open spec fn dec_char_val(c: char) -> nat {
    if '0' <= c && c <= '9' {
        ((c as int) - ('0' as int)) as nat
    } else {
        0
    }
}

/// Every character of a decimal rendering is a digit.
pub open spec fn all_dec_digits(s: Seq<char>) -> bool {
    forall|i: int| 0 <= i < s.len() ==> '0' <= #[trigger] s[i] && s[i] <= '9'
}

pub proof fn lemma_dec_seq_digits(n: nat)
    ensures
        dec_seq(n).len() >= 1,
        all_dec_digits(dec_seq(n)),
    decreases n,
{
    reveal_strlit("0123456789");
    if n < 10 {
    } else {
        lemma_dec_seq_digits(n / 10);
        assert forall|i: int| 0 <= i < dec_seq(n).len() implies '0' <= #[trigger] dec_seq(n)[i]
            && dec_seq(n)[i] <= '9' by {
            if i < dec_seq(n).len() - 1 {
                assert(dec_seq(n)[i] == dec_seq(n / 10)[i]);
            }
        }
    }
}

/// Rendering a number and reading the digits back returns the number, so the
/// rendering is injective.
pub proof fn lemma_dec_val_of_dec_seq(n: nat)
    ensures
        dec_val(dec_seq(n)) == n,
    decreases n,
{
    reveal_strlit("0123456789");
    if n < 10 {
    } else {
        lemma_dec_val_of_dec_seq(n / 10);
        assert(dec_seq(n).drop_last() =~= dec_seq(n / 10));
        assert(dec_seq(n).last() == dec_digit(n % 10));
        assert(dec_val(dec_seq(n)) == (n / 10) * 10 + n % 10);
        assert((n / 10) * 10 + n % 10 == n) by (nonlinear_arith);
    }
}

pub proof fn lemma_dec_seq_injective(a: nat, b: nat)
    requires
        dec_seq(a) == dec_seq(b),
    ensures
        a == b,
{
    lemma_dec_val_of_dec_seq(a);
    lemma_dec_val_of_dec_seq(b);
}

/// Renders `n` as its decimal digits, most significant first.
pub(crate) fn u64_to_dec(n: u64) -> (r: String)
    ensures
        r@ == dec_seq(n as nat),
    decreases n,
{
    let digits = "0123456789";
    proof {
        reveal_strlit("0123456789");
    }
    let d = (n % 10) as usize;
    let last = digits.substring_char(d, d + 1);
    proof {
        assert(last@ =~= seq![dec_digit((n % 10) as nat)]);
    }
    if n < 10 {
        String::from_str(last)
    } else {
        let prefix = u64_to_dec(n / 10);
        let r = prefix.concat(last);
        proof {
            assert(r@ =~= dec_seq(n as nat));
        }
        r
    }
}

/// The versioned name that single-assignment conversion gives to version
/// `version` of the source variable `origin`.
pub open spec fn spec_versioned_name(origin: Seq<char>, version: nat) -> Seq<char> {
    "#var_"@ + origin + "_#"@ + dec_seq(version)
}

/// The name of the `k`-th temporary introduced by the lowering to
/// three-address code.
pub open spec fn spec_temp_name(k: nat) -> Seq<char> {
    "#var_"@ + dec_seq(k)
}

/// The name of the `k`-th jump label introduced by the lowering.
pub open spec fn spec_label_name(k: nat) -> Seq<char> {
    "#label_"@ + dec_seq(k)
}

pub fn versioned_name(origin: &str, version: u64) -> (r: String)
    ensures
        r@ == spec_versioned_name(origin@, version as nat),
{
    let mut s = String::from_str("#var_");
    s.append(origin);
    s.append("_#");
    let d = u64_to_dec(version);
    s.append(d.as_str());
    proof {
        assert(s@ =~= spec_versioned_name(origin@, version as nat));
    }
    s
}

pub fn temp_name(k: u64) -> (r: String)
    ensures
        r@ == spec_temp_name(k as nat),
{
    let mut s = String::from_str("#var_");
    let d = u64_to_dec(k);
    s.append(d.as_str());
    proof {
        assert(s@ =~= spec_temp_name(k as nat));
    }
    s
}

pub fn label_name(k: u64) -> (r: String)
    ensures
        r@ == spec_label_name(k as nat),
{
    let mut s = String::from_str("#label_");
    let d = u64_to_dec(k);
    s.append(d.as_str());
    proof {
        assert(s@ =~= spec_label_name(k as nat));
    }
    s
}

/// Character-by-character string comparison.
pub fn str_eq(a: &str, b: &str) -> (r: bool)
    ensures
        r == (a@ == b@),
{
    let na = a.unicode_len();
    let nb = b.unicode_len();
    if na != nb {
        return false;
    }
    let mut i: usize = 0;
    while i < na
        invariant
            i <= na,
            na == a@.len(),
            na == b@.len(),
            forall|j: int| 0 <= j < i ==> a@[j] == b@[j],
        decreases na - i,
    {
        if a.get_char(i) != b.get_char(i) {
            return false;
        }
        i += 1;
    }
    proof {
        assert(a@ =~= b@);
    }
    true
}

/// Origin names taken from source programs never contain `#`; the versioned
/// names lean on that to keep the `_#` separator unambiguous.
pub open spec fn hash_free(s: Seq<char>) -> bool {
    forall|i: int| 0 <= i < s.len() ==> #[trigger] s[i] != '#'
}

/// The set of positions holding `#` in a versioned name: exactly the leading
/// `#` and the one introduced by the `_#` separator.
proof fn lemma_versioned_hash_positions(origin: Seq<char>, version: nat)
    requires
        hash_free(origin),
    ensures
        forall|p: int|
            0 < p < spec_versioned_name(origin, version).len()
                ==> ((#[trigger] spec_versioned_name(origin, version)[p] == '#') <==> p == 6
                + origin.len()),
{
    reveal_strlit("#var_");
    reveal_strlit("_#");
    lemma_dec_seq_digits(version);
    let s = spec_versioned_name(origin, version);
    assert forall|p: int| 0 < p < s.len() implies ((#[trigger] s[p] == '#') <==> p == 6
        + origin.len()) by {
        if p < 5 {
            assert(s[p] == "#var_"@[p]);
        } else if p < 5 + origin.len() {
            assert(s[p] == origin[p - 5]);
        } else if p == 5 + origin.len() {
            assert(s[p] == '_');
        } else if p == 6 + origin.len() {
            assert(s[p] == '#');
        } else {
            assert(s[p] == dec_seq(version)[p - 7 - origin.len()]);
            assert('0' <= s[p] && s[p] <= '9');
        }
    }
}

/// Distinct origin/version pairs give distinct versioned names.
pub proof fn lemma_versioned_name_injective(o1: Seq<char>, v1: nat, o2: Seq<char>, v2: nat)
    requires
        hash_free(o1),
        hash_free(o2),
        spec_versioned_name(o1, v1) == spec_versioned_name(o2, v2),
    ensures
        o1 == o2,
        v1 == v2,
{
    reveal_strlit("#var_");
    reveal_strlit("_#");
    let s = spec_versioned_name(o1, v1);
    lemma_versioned_hash_positions(o1, v1);
    lemma_versioned_hash_positions(o2, v2);
    lemma_dec_seq_digits(v1);
    lemma_dec_seq_digits(v2);
    assert(s.len() == 7 + o1.len() + dec_seq(v1).len());
    assert(s[6 + o1.len() as int] == "_#"@[1]);
    assert(0 < 6 + o1.len() < s.len());
    assert(0 < 6 + o2.len() < s.len());
    assert(o1.len() == o2.len());
    assert(o1 =~= o2) by {
        assert forall|i: int| 0 <= i < o1.len() implies o1[i] == o2[i] by {
            assert(s[5 + i] == o1[i]);
            assert(spec_versioned_name(o2, v2)[5 + i] == o2[i]);
        }
    }
    assert(dec_seq(v1) =~= dec_seq(v2)) by {
        assert(dec_seq(v1).len() == dec_seq(v2).len());
        assert forall|i: int| 0 <= i < dec_seq(v1).len() implies dec_seq(v1)[i] == dec_seq(
            v2,
        )[i] by {
            assert(s[7 + o1.len() + i] == dec_seq(v1)[i]);
            assert(spec_versioned_name(o2, v2)[7 + o2.len() + i] == dec_seq(v2)[i]);
        }
    }
    lemma_dec_seq_injective(v1, v2);
}

} // verus!
