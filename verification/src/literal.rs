//! ISO SQL string literals: the text between single quotes, each quote in it
//! written twice.

use vstd::prelude::*;

verus! {

/// How one character of a string stands inside its literal.
pub open spec fn escape(c: char) -> Seq<char> {
    if c == '\'' {
        seq!['\'', '\'']
    } else {
        seq![c]
    }
}

/// The text of `s` between the quotes of its literal.
pub open spec fn quote_body(s: Seq<char>) -> Seq<char>
    decreases s.len(),
{
    if s.len() == 0 {
        seq![]
    } else {
        escape(s[0]) + quote_body(s.drop_first())
    }
}

/// `s` as a string literal.
pub open spec fn quote(s: Seq<char>) -> Seq<char> {
    seq!['\''] + quote_body(s) + seq!['\'']
}

/// The string literal in `r` whose body starts at `i` (just after its
/// opening quote): its value and the position just after its closing quote,
/// or `None` where no closing quote comes.
pub open spec fn read_literal(r: Seq<char>, i: int) -> Option<(Seq<char>, int)>
    decreases r.len() - i,
{
    if i < 0 || i >= r.len() {
        None
    } else if r[i] == '\'' {
        if i + 1 < r.len() && r[i + 1] == '\'' {
            match read_literal(r, i + 2) {
                Some((v, e)) => Some((seq!['\''] + v, e)),
                None => None,
            }
        } else {
            Some((seq![], i + 1))
        }
    } else {
        match read_literal(r, i + 1) {
            Some((v, e)) => Some((seq![r[i]] + v, e)),
            None => None,
        }
    }
}

pub proof fn lemma_quote_body_push(s: Seq<char>, c: char)
    ensures
        quote_body(s.push(c)) == quote_body(s) + escape(c),
    decreases s.len(),
{
    if s.len() == 0 {
        assert(s.push(c).drop_first() == s);
        assert(quote_body(s.push(c)) == escape(c) + quote_body(s));
    } else {
        assert(s.push(c).drop_first() == s.drop_first().push(c));
        lemma_quote_body_push(s.drop_first(), c);
    }
}

/// Appends the literal of `s` to `out`.
pub fn push_quoted(out: &mut Vec<char>, s: &[char])
    ensures
        final(out)@ == old(out)@ + quote(s@),
{
    let ghost start = out@;
    out.push('\'');
    let mut i: usize = 0;
    while i < s.len()
        invariant
            i <= s.len(),
            out@ == start + seq!['\''] + quote_body(s@.take(i as int)),
        decreases s.len() - i,
    {
        let c = s[i];
        out.push(c);
        if c == '\'' {
            out.push('\'');
        }
        proof {
            assert(s@.take(i + 1) == s@.take(i as int).push(c));
            lemma_quote_body_push(s@.take(i as int), c);
        }
        i = i + 1;
    }
    out.push('\'');
    assert(s@.take(s.len() as int) == s@);
}

/// Reading the literal of `s` gives `s` back, and ends just after it, where
/// no quote follows it.
pub proof fn lemma_read_quoted(r: Seq<char>, i: int, s: Seq<char>)
    requires
        0 <= i,
        i + quote_body(s).len() + 1 <= r.len(),
        r.subrange(i, i + quote_body(s).len() + 1) == quote_body(s) + seq!['\''],
        i + quote_body(s).len() + 1 < r.len() ==> r[i + quote_body(s).len() + 1] != '\'',
    ensures
        read_literal(r, i) == Some((s, i + quote_body(s).len() + 1)),
    decreases s.len(),
{
    let q = quote_body(s);
    assert(r[i] == r.subrange(i, i + q.len() + 1)[0]);
    if s.len() == 0 {
        assert(q.len() == 0);
        assert(r[i] == '\'');
        assert(r.subrange(i, i + 1)[0] == r[i]);
    } else {
        let c = s[0];
        let t = s.drop_first();
        let qt = quote_body(t);
        assert(q == escape(c) + qt);
        let k = escape(c).len() as int;
        assert(r.subrange(i + k, i + k + qt.len() + 1) == qt + seq!['\'']) by {
            assert forall|j: int| 0 <= j < qt.len() + 1 implies
                #[trigger] r.subrange(i + k, i + k + qt.len() + 1)[j] == (qt + seq!['\''])[j] by {
                assert(r.subrange(i, i + q.len() + 1)[j + k] == (q + seq!['\''])[j + k]);
            }
        }
        lemma_read_quoted(r, i + k, t);
        if c == '\'' {
            assert(r.subrange(i, i + q.len() + 1)[1] == (q + seq!['\''])[1]);
            assert(seq!['\''] + t == s);
        } else {
            assert(seq![c] + t == s);
        }
    }
}


/// The literal whose body starts at `i` in `r`: its value and the position
/// just after its closing quote, or `None` where it is not terminated.
pub fn read_literal_at(r: &[char], i: usize) -> (res: Option<(Vec<char>, usize)>)
    ensures
        match res {
            Some((v, e)) => read_literal(r@, i as int) == Some((v@, e as int)),
            None => read_literal(r@, i as int) is None,
        },
{
    let mut acc: Vec<char> = Vec::new();
    let mut j: usize = i;
    let n = r.len();
    while j < n
        invariant
            n == r@.len(),
            i <= j,
            read_literal(r@, i as int) == match read_literal(r@, j as int) {
                Some((v, e)) => Some((acc@ + v, e)),
                None => None,
            },
        decreases n - j,
    {
        let c = r[j];
        if c == '\'' {
            if j + 1 < n && r[j + 1] == '\'' {
                proof {
                    match read_literal(r@, j + 2) {
                        Some((v, e)) => {
                            assert(acc@.push('\'') + v == acc@ + (seq!['\''] + v));
                        },
                        None => {},
                    }
                }
                acc.push('\'');
                j = j + 2;
            } else {
                assert(acc@ + seq![] == acc@);
                return Some((acc, j + 1));
            }
        } else {
            proof {
                match read_literal(r@, j + 1) {
                    Some((v, e)) => {
                        assert(acc@.push(c) + v == acc@ + (seq![c] + v));
                    },
                    None => {},
                }
            }
            acc.push(c);
            j = j + 1;
        }
    }
    None
}

/// Reading a literal from a prefix `r.take(m)` of `r` either goes as on `r`
/// (where the literal ends within the prefix), or fails, or ends at the end
/// of the prefix.
pub proof fn lemma_read_literal_prefix(r: Seq<char>, i: int, m: int)
    requires
        0 <= i <= m <= r.len(),
        read_literal(r, i) is Some,
    ensures
        match read_literal(r, i) {
            Some((_, e)) => {
                &&& i < e
                &&& m >= e ==> read_literal(r.take(m), i) == read_literal(r, i)
                &&& m < e ==> match read_literal(r.take(m), i) {
                    Some((_, e2)) => e2 == m,
                    None => true,
                }
            },
            None => true,
        },
    decreases r.len() - i,
{
    let p = r.take(m);
    if i < m {
        assert(p[i] == r[i]);
        if r[i] == '\'' {
            if i + 1 < r.len() && r[i + 1] == '\'' {
                if i + 1 < m {
                    assert(p[i + 1] == r[i + 1]);
                    lemma_read_literal_prefix(r, i + 2, m);
                } else {
                    lemma_read_literal_prefix(r, i + 2, r.len() as int);
                }
            } else if i + 1 < m {
                assert(p[i + 1] == r[i + 1]);
            }
        } else {
            lemma_read_literal_prefix(r, i + 1, m);
        }
    } else {
        if r[i] == '\'' && i + 1 < r.len() && r[i + 1] == '\'' {
            lemma_read_literal_prefix(r, i + 2, r.len() as int);
        } else if r[i] != '\'' {
            lemma_read_literal_prefix(r, i + 1, r.len() as int);
        }
    }
}

} // verus!
