//! Trading symbols: a pair like `"ETH/USDC"` names a base asset (before
//! the first slash) and a quote asset (between the first and second
//! slash). A symbol with no slash is its own base asset and quotes in
//! the fallback asset name.

use vstd::prelude::*;

verus! {

/// The index of the first `'/'` in `s`, or `s.len()` when there is none.
pub open spec fn slash_pos(s: Seq<char>) -> int
    decreases s.len(),
{
    if s.len() == 0 {
        0
    } else if s[0] == '/' {
        0
    } else {
        1 + slash_pos(s.drop_first())
    }
}

/// The base asset of a symbol: everything before the first slash, or
/// the whole symbol when it has none.
pub open spec fn base_of(s: Seq<char>) -> Seq<char> {
    s.take(slash_pos(s))
}

/// The quote asset of a symbol: everything between the first slash and
/// the next one (or the end), or the fallback name when the symbol has
/// no slash.
pub open spec fn quote_of(s: Seq<char>) -> Seq<char> {
    if slash_pos(s) == s.len() {
        "QUOTE"@
    } else {
        base_of(s.subrange(slash_pos(s) + 1, s.len() as int))
    }
}

/// `slash_pos` is the first slash: in range, a slash when in bounds,
/// and nothing before it is one.
pub proof fn lemma_slash_pos(s: Seq<char>)
    ensures
        0 <= slash_pos(s) <= s.len(),
        slash_pos(s) < s.len() ==> s[slash_pos(s)] == '/',
        forall|j: int| 0 <= j < slash_pos(s) ==> s[j] != '/',
    decreases s.len(),
{
    if s.len() > 0 && s[0] != '/' {
        lemma_slash_pos(s.drop_first());
        assert(forall|j: int| 0 <= j < s.drop_first().len() ==> s.drop_first()[j] == s[j + 1]);
        assert forall|j: int| 0 <= j < slash_pos(s) implies s[j] != '/' by {
            if j > 0 {
                assert(s.drop_first()[j - 1] == s[j]);
            }
        };
    }
}

/// Finds the first slash in `s`, reporting the string's length when
/// there is none.
fn first_slash_index(s: &str) -> (r: usize)
    ensures
        r == slash_pos(s@),
{
    let n = s.unicode_len();
    let mut i: usize = 0;
    while i < n
        invariant
            n == s@.len(),
            0 <= i <= n,
            forall|j: int| 0 <= j < i ==> s@[j] != '/',
        decreases n - i,
    {
        if s.get_char(i) == '/' {
            proof {
                lemma_slash_pos(s@);
                if slash_pos(s@) < i {
                    assert(s@[slash_pos(s@)] == '/');
                    assert(false);
                }
                if slash_pos(s@) > i {
                    assert(s@[i as int] != '/');
                    assert(false);
                }
            }
            return i;
        }
        i = i + 1;
    }
    proof {
        lemma_slash_pos(s@);
        if slash_pos(s@) < n {
            assert(s@[slash_pos(s@)] == '/');
            assert(false);
        }
    }
    n
}

/// The base asset named by `symbol`.
pub fn base_currency(symbol: &str) -> (r: String)
    ensures
        r@ == base_of(symbol@),
{
    let pos = first_slash_index(symbol);
    proof {
        lemma_slash_pos(symbol@);
        assert(symbol@.subrange(0, slash_pos(symbol@)) =~= base_of(symbol@));
    }
    let sub = symbol.substring_char(0, pos);
    sub.to_owned()
}

/// The quote asset named by `symbol`.
pub fn quote_currency(symbol: &str) -> (r: String)
    ensures
        r@ == quote_of(symbol@),
{
    let n = symbol.unicode_len();
    let pos = first_slash_index(symbol);
    proof {
        lemma_slash_pos(symbol@);
    }
    if pos == n {
        let r = "QUOTE".to_owned();
        r
    } else {
        let rest = symbol.substring_char(pos + 1, n);
        base_currency(rest)
    }
}

} // verus!
