//! Text-level rules for person names: a valid full name has at least two
//! whitespace-separated tokens, the last of which is the house name, and
//! names are ordered lexicographically by character code.

use vstd::prelude::*;
use vstd::string::StrSliceExecFns;

verus! {

/// ASCII whitespace, the separator between name tokens.
pub open spec fn is_ws(c: char) -> bool {
    c == ' ' || c == '\t' || c == '\n' || c == '\r' || c == '\u{0C}'
}

/// `e` is one past the last character of the final token of `s`:
/// everything from `e` on is whitespace and the character before `e` is not.
pub open spec fn last_token_end(s: Seq<char>, e: int) -> bool {
    &&& 0 < e <= s.len()
    &&& !is_ws(s[e - 1])
    &&& forall|k: int| e <= k < s.len() ==> is_ws(#[trigger] s[k])
}

/// `a` is the first character of the token ending at `e`: the characters of
/// `[a, e)` are all non-whitespace and `a` sits at the start or after a space.
pub open spec fn last_token_start(s: Seq<char>, a: int, e: int) -> bool {
    &&& 0 <= a < e
    &&& forall|k: int| a <= k < e ==> !is_ws(#[trigger] s[k])
    &&& (a == 0 || is_ws(s[a - 1]))
}

/// The name splits into at least two whitespace-separated tokens:
/// a final (house) token, and some non-whitespace character before it.
pub open spec fn valid_name(s: Seq<char>) -> bool {
    exists|a: int, e: int|
        #[trigger] last_token_start(s, a, e) && last_token_end(s, e) && (exists|k: int|
            0 <= k < a && !is_ws(#[trigger] s[k]))
}

/// The house of a name: its last whitespace-separated token.
/// Meaningful whenever the name has at least one token.
pub open spec fn house_of(s: Seq<char>) -> Seq<char> {
    let e = choose|e: int| last_token_end(s, e);
    let a = choose|a: int| last_token_start(s, a, e);
    s.subrange(a, e)
}

pub proof fn lemma_token_end_unique(s: Seq<char>, e1: int, e2: int)
    requires
        last_token_end(s, e1),
        last_token_end(s, e2),
    ensures
        e1 == e2,
{
    if e1 < e2 {
        assert(is_ws(s[e2 - 1]));
    }
    if e2 < e1 {
        assert(is_ws(s[e1 - 1]));
    }
}

pub proof fn lemma_token_start_unique(s: Seq<char>, a1: int, a2: int, e: int)
    requires
        last_token_start(s, a1, e),
        last_token_start(s, a2, e),
    ensures
        a1 == a2,
{
    if a1 < a2 {
        assert(!is_ws(s[a2 - 1]));
        assert(is_ws(s[a2 - 1]));
    }
    if a2 < a1 {
        assert(!is_ws(s[a1 - 1]));
        assert(is_ws(s[a1 - 1]));
    }
}

/// With witnesses for the last token's bounds, `house_of` is that token.
pub proof fn lemma_house_of(s: Seq<char>, a: int, e: int)
    requires
        last_token_end(s, e),
        last_token_start(s, a, e),
    ensures
        house_of(s) == s.subrange(a, e),
{
    let e0 = choose|e0: int| last_token_end(s, e0);
    lemma_token_end_unique(s, e, e0);
    let a0 = choose|a0: int| last_token_start(s, a0, e0);
    lemma_token_start_unique(s, a, a0, e);
}

/// Strict lexicographic order on names, by character code.
pub open spec fn lex_lt(a: Seq<char>, b: Seq<char>) -> bool
    decreases a.len(),
{
    if b.len() == 0 {
        false
    } else if a.len() == 0 {
        true
    } else if a[0] != b[0] {
        (a[0] as u32) < (b[0] as u32)
    } else {
        lex_lt(a.drop_first(), b.drop_first())
    }
}

pub open spec fn lex_le(a: Seq<char>, b: Seq<char>) -> bool {
    lex_lt(a, b) || a == b
}

pub proof fn lemma_lex_lt_irreflexive(a: Seq<char>)
    ensures
        !lex_lt(a, a),
    decreases a.len(),
{
    if a.len() > 0 {
        lemma_lex_lt_irreflexive(a.drop_first());
    }
}

pub proof fn lemma_lex_lt_trans(a: Seq<char>, b: Seq<char>, c: Seq<char>)
    requires
        lex_lt(a, b),
        lex_lt(b, c),
    ensures
        lex_lt(a, c),
    decreases a.len(),
{
    if a.len() > 0 && b.len() > 0 && c.len() > 0 && a[0] == b[0] && b[0] == c[0] {
        lemma_lex_lt_trans(a.drop_first(), b.drop_first(), c.drop_first());
    }
}

/// Any two names are comparable: the order is connected.
pub proof fn lemma_lex_connected(a: Seq<char>, b: Seq<char>)
    ensures
        lex_lt(a, b) || lex_lt(b, a) || a == b,
    decreases a.len(),
{
    if a.len() == 0 && b.len() == 0 {
        assert(a =~= b);
    } else if a.len() == 0 {
        assert(lex_lt(a, b));
    } else if b.len() == 0 {
        assert(lex_lt(b, a));
    } else if a[0] != b[0] {
        assert((a[0] as u32) != (b[0] as u32)) by {
            vstd::utf8::char_u32_cast(a[0], a[0] as u32);
            vstd::utf8::char_u32_cast(b[0], b[0] as u32);
        }
        assert(lex_lt(a, b) || lex_lt(b, a));
    } else if a.len() > 0 && b.len() > 0 && a[0] == b[0] {
        lemma_lex_connected(a.drop_first(), b.drop_first());
        if a.drop_first() == b.drop_first() {
            assert(a =~= b) by {
                assert(forall|i: int| 1 <= i < a.len() ==> #[trigger] a[i] == a.drop_first()[i - 1]);
            }
        }
    }
}

/// Exec check for the whitespace class used by name splitting.
fn ws_char(c: char) -> (b: bool)
    ensures
        b == is_ws(c),
{
    c == ' ' || c == '\t' || c == '\n' || c == '\r' || c == '\u{0C}'
}

/// Whether two string slices hold the same characters.
pub fn str_eq(a: &str, b: &str) -> (r: bool)
    ensures
        r == (a@ == b@),
{
    let la = a.unicode_len();
    let lb = b.unicode_len();
    if la != lb {
        return false;
    }
    let mut i: usize = 0;
    while i < la
        invariant
            la == a@.len(),
            lb == b@.len(),
            la == lb,
            i <= la,
            forall|k: int| 0 <= k < i ==> a@[k] == b@[k],
        decreases la - i,
    {
        if a.get_char(i) != b.get_char(i) {
            return false;
        }
        i += 1;
    }
    proof {
        assert(a@ =~= b@);
    }
    true
}

proof fn lemma_lex_lt_skip_step(a: Seq<char>, b: Seq<char>, i: int)
    requires
        0 <= i < a.len(),
        i < b.len(),
        a[i] == b[i],
    ensures
        lex_lt(a.skip(i), b.skip(i)) == lex_lt(a.skip(i + 1), b.skip(i + 1)),
{
    assert(a.skip(i).drop_first() =~= a.skip(i + 1));
    assert(b.skip(i).drop_first() =~= b.skip(i + 1));
    assert(a.skip(i)[0] == a[i]);
    assert(b.skip(i)[0] == b[i]);
}

/// Whether `a` comes strictly before `b` in lexicographic order.
pub fn str_lt(a: &str, b: &str) -> (r: bool)
    ensures
        r == lex_lt(a@, b@),
{
    let la = a.unicode_len();
    let lb = b.unicode_len();
    proof {
        assert(a@.skip(0) =~= a@);
        assert(b@.skip(0) =~= b@);
    }
    let mut i: usize = 0;
    while i < la && i < lb
        invariant
            la == a@.len(),
            lb == b@.len(),
            i <= la,
            i <= lb,
            lex_lt(a@, b@) == lex_lt(a@.skip(i as int), b@.skip(i as int)),
        decreases la - i,
    {
        let ca = a.get_char(i);
        let cb = b.get_char(i);
        if ca != cb {
            proof {
                assert(a@.skip(i as int)[0] == a@[i as int]);
                assert(b@.skip(i as int)[0] == b@[i as int]);
            }
            return (ca as u32) < (cb as u32);
        }
        proof {
            lemma_lex_lt_skip_step(a@, b@, i as int);
        }
        i += 1;
    }
    proof {
        assert(a@.skip(i as int).len() == la - i);
        assert(b@.skip(i as int).len() == lb - i);
    }
    la == i && i < lb
}

/// Index one past the last non-whitespace character, if the string has one.
fn last_non_ws(name: &str) -> (r: Option<usize>)
    ensures
        r matches Some(e) ==> last_token_end(name@, e as int),
        r is None ==> forall|k: int| 0 <= k < name@.len() ==> is_ws(#[trigger] name@[k]),
{
    let n = name.unicode_len();
    let mut i: usize = n;
    while i > 0
        invariant
            i <= n,
            n == name@.len(),
            forall|k: int| i <= k < n ==> is_ws(#[trigger] name@[k]),
        decreases i,
    {
        if !ws_char(name.get_char(i - 1)) {
            return Some(i);
        }
        i -= 1;
    }
    None
}

/// Start index of the token that ends at `e`.
fn token_start_before(name: &str, e: usize) -> (a: usize)
    requires
        last_token_end(name@, e as int),
    ensures
        last_token_start(name@, a as int, e as int),
{
    let mut a: usize = e - 1;
    while a > 0
        invariant
            a < e,
            e <= name@.len(),
            forall|k: int| a <= k < e ==> !is_ws(#[trigger] name@[k]),
        decreases a,
    {
        if ws_char(name.get_char(a - 1)) {
            return a;
        }
        a -= 1;
    }
    0
}

/// Whether any non-whitespace character stands before index `a`.
fn any_non_ws_before(name: &str, a: usize) -> (b: bool)
    requires
        a <= name@.len(),
    ensures
        b == exists|k: int| 0 <= k < a && !is_ws(#[trigger] name@[k]),
{
    let mut i: usize = 0;
    while i < a
        invariant
            i <= a,
            a <= name@.len(),
            forall|k: int| 0 <= k < i ==> is_ws(#[trigger] name@[k]),
        decreases a - i,
    {
        if !ws_char(name.get_char(i)) {
            return true;
        }
        i += 1;
    }
    false
}

/// When the name has no non-whitespace character at all, it has no tokens.
proof fn lemma_all_ws_not_valid(s: Seq<char>)
    requires
        forall|k: int| 0 <= k < s.len() ==> is_ws(#[trigger] s[k]),
    ensures
        !valid_name(s),
{
    if valid_name(s) {
        let (a, e): (int, int) = choose|a: int, e: int|
            #[trigger] last_token_start(s, a, e) && last_token_end(s, e) && (exists|k: int|
                0 <= k < a && !is_ws(#[trigger] s[k]));
        assert(is_ws(s[e - 1]));
    }
}

/// With the last token's bounds fixed, validity is exactly the presence of
/// an earlier non-whitespace character.
proof fn lemma_valid_name_char(s: Seq<char>, a: int, e: int)
    requires
        last_token_end(s, e),
        last_token_start(s, a, e),
    ensures
        valid_name(s) <==> (exists|k: int| 0 <= k < a && !is_ws(#[trigger] s[k])),
{
    if valid_name(s) {
        let (a2, e2): (int, int) = choose|a2: int, e2: int|
            #[trigger] last_token_start(s, a2, e2) && last_token_end(s, e2) && (exists|k: int|
                0 <= k < a2 && !is_ws(#[trigger] s[k]));
        lemma_token_end_unique(s, e, e2);
        lemma_token_start_unique(s, a, a2, e);
    }
}

/// Whether the name splits into at least two whitespace-separated tokens.
pub fn is_valid_name(name: &str) -> (b: bool)
    ensures
        b == valid_name(name@),
{
    match last_non_ws(name) {
        None => {
            proof {
                lemma_all_ws_not_valid(name@);
            }
            false
        },
        Some(e) => {
            let a = token_start_before(name, e);
            proof {
                lemma_valid_name_char(name@, a as int, e as int);
            }
            any_non_ws_before(name, a)
        },
    }
}

/// The house token of a full name, or `None` when the name does not have
/// at least two whitespace-separated tokens.
pub fn parse_house(name: &str) -> (r: Option<String>)
    ensures
        r is Some <==> valid_name(name@),
        r matches Some(h) ==> h@ == house_of(name@),
{
    match last_non_ws(name) {
        None => {
            proof {
                lemma_all_ws_not_valid(name@);
            }
            None
        },
        Some(e) => {
            let a = token_start_before(name, e);
            proof {
                lemma_valid_name_char(name@, a as int, e as int);
            }
            if any_non_ws_before(name, a) {
                proof {
                    lemma_house_of(name@, a as int, e as int);
                }
                let h = name.substring_char(a, e);
                Some(h.to_owned())
            } else {
                None
            }
        },
    }
}

} // verus!
