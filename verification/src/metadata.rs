//! The metadata pairs of an item, encoded into the one text column: pairs
//! split on the record separator, key from value on the unit separator.

use vstd::prelude::*;

use crate::text::{chars_of, push_all, string_of};

verus! {

/// Separates one pair from the next.
pub const PAIR: char = '\u{1e}';

/// Separates a key from its value.
pub const KV: char = '\u{1f}';

/// One pair as text: the key, `KV`, the value.
pub open spec fn pair_text(p: (Seq<char>, Seq<char>)) -> Seq<char> {
    p.0 + seq![KV] + p.1
}

/// The pairs as one text: their texts joined by `PAIR`.
pub open spec fn encode(pairs: Seq<(Seq<char>, Seq<char>)>) -> Seq<char>
    decreases pairs.len(),
{
    if pairs.len() == 0 {
        seq![]
    } else if pairs.len() == 1 {
        pair_text(pairs[0])
    } else {
        encode(pairs.drop_last()) + seq![PAIR] + pair_text(pairs.last())
    }
}

/// The pieces of `s` from position `i` on, where `cur` holds the piece
/// begun before `i`.
pub open spec fn split_acc(s: Seq<char>, sep: char, i: int, cur: Seq<char>) -> Seq<Seq<char>>
    decreases s.len() - i,
{
    if i >= s.len() {
        seq![cur]
    } else if s[i] == sep {
        seq![cur] + split_acc(s, sep, i + 1, seq![])
    } else {
        split_acc(s, sep, i + 1, cur.push(s[i]))
    }
}

/// The pieces of `s` between the occurrences of `sep`, as `str::split` gives them.
pub open spec fn split_on(s: Seq<char>, sep: char) -> Seq<Seq<char>> {
    split_acc(s, sep, 0, seq![])
}

/// The first position from `i` on where `s` holds `c`, or the end of `s`.
pub open spec fn index_from(s: Seq<char>, c: char, i: int) -> int
    decreases s.len() - i,
{
    if i < 0 || i >= s.len() {
        s.len() as int
    } else if s[i] == c {
        i
    } else {
        index_from(s, c, i + 1)
    }
}

/// `s` split at its first `c`, as `str::split_once` gives it.
pub open spec fn split_once(s: Seq<char>, c: char) -> Option<(Seq<char>, Seq<char>)> {
    let k = index_from(s, c, 0);
    if k < s.len() {
        Some((s.take(k), s.skip(k + 1)))
    } else {
        None
    }
}

/// The pairs that `pieces` hold, a piece without `KV` left out.
pub open spec fn decode_pieces(pieces: Seq<Seq<char>>) -> Seq<(Seq<char>, Seq<char>)>
    decreases pieces.len(),
{
    if pieces.len() == 0 {
        seq![]
    } else {
        match split_once(pieces.last(), KV) {
            Some(p) => decode_pieces(pieces.drop_last()).push(p),
            None => decode_pieces(pieces.drop_last()),
        }
    }
}

/// The pairs an encoded text holds; none for the empty text.
pub open spec fn decode(encoded: Seq<char>) -> Seq<(Seq<char>, Seq<char>)> {
    if encoded.len() == 0 {
        seq![]
    } else {
        decode_pieces(split_on(encoded, PAIR))
    }
}

/// The pairs as one text.
pub fn encode_metadata(pairs: &[(String, String)]) -> (encoded: String)
    ensures
        encoded@ == encode(pairs.deep_view()),
{
    let mut out: Vec<char> = Vec::new();
    let mut i: usize = 0;
    while i < pairs.len()
        invariant
            i <= pairs.len(),
            out@ == encode(pairs.deep_view().take(i as int)),
        decreases pairs.len() - i,
    {
        let ghost before = out@;
        if i > 0 {
            out.push(PAIR);
        }
        push_all(&mut out, chars_of(pairs[i].0.as_str()).as_slice());
        out.push(KV);
        push_all(&mut out, chars_of(pairs[i].1.as_str()).as_slice());
        proof {
            let d = pairs.deep_view();
            assert(d.take(i + 1).drop_last() == d.take(i as int));
            assert(d.take(i + 1).last() == d[i as int]);
            if i == 0 {
                assert(out@ == pair_text(d[0]));
            } else {
                assert(out@ == before + seq![PAIR] + pair_text(d[i as int]));
            }
        }
        i = i + 1;
    }
    assert(pairs.deep_view().take(pairs.len() as int) == pairs.deep_view());
    string_of(out.as_slice())
}


/// `piece` split at its first `KV`, as two strings.
fn split_pair(piece: &[char]) -> (r: Option<(String, String)>)
    ensures
        match r {
            Some((k, v)) => split_once(piece@, KV) == Some((k@, v@)),
            None => split_once(piece@, KV) is None,
        },
{
    let n = piece.len();
    let mut k: usize = 0;
    while k < n && piece[k] != KV
        invariant
            k <= n,
            n == piece@.len(),
            index_from(piece@, KV, 0) == index_from(piece@, KV, k as int),
        decreases n - k,
    {
        k = k + 1;
    }
    if k >= n {
        return None;
    }
    let mut key: Vec<char> = Vec::new();
    let mut j: usize = 0;
    while j < k
        invariant
            j <= k < n,
            n == piece@.len(),
            key@ == piece@.take(j as int),
        decreases k - j,
    {
        key.push(piece[j]);
        assert(piece@.take(j + 1) == piece@.take(j as int).push(piece@[j as int]));
        j = j + 1;
    }
    let mut value: Vec<char> = Vec::new();
    let mut j: usize = k + 1;
    while j < n
        invariant
            k < j <= n,
            n == piece@.len(),
            value@ == piece@.subrange(k + 1, j as int),
        decreases n - j,
    {
        value.push(piece[j]);
        assert(piece@.subrange(k + 1, j + 1) == piece@.subrange(k + 1, j as int).push(
            piece@[j as int],
        ));
        j = j + 1;
    }
    assert(piece@.subrange(k + 1, n as int) == piece@.skip(k + 1));
    Some((string_of(key.as_slice()), string_of(value.as_slice())))
}

/// The pairs that an encoded text holds; a piece without a key-value
/// separator is left out, and the empty text holds none.
pub fn decode_metadata(encoded: &str) -> (pairs: Vec<(String, String)>)
    ensures
        pairs.deep_view() == decode(encoded@),
{
    let e = chars_of(encoded);
    let mut out: Vec<(String, String)> = Vec::new();
    if e.len() == 0 {
        assert(out.deep_view() == Seq::<(Seq<char>, Seq<char>)>::empty());
        return out;
    }
    let mut cur: Vec<char> = Vec::new();
    let ghost done: Seq<Seq<char>> = seq![];
    let mut i: usize = 0;
    while i < e.len()
        invariant
            i <= e.len(),
            e@ == encoded@,
            split_on(e@, PAIR) == done + split_acc(e@, PAIR, i as int, cur@),
            out.deep_view() == decode_pieces(done),
        decreases e.len() - i,
    {
        if e[i] == PAIR {
            let ghost old_out = out.deep_view();
            match split_pair(cur.as_slice()) {
                Some(p) => {
                    out.push(p);
                },
                None => {},
            }
            proof {
                let d2 = done.push(cur@);
                assert(d2.drop_last() == done);
                assert(d2.last() == cur@);
                assert(out.deep_view() =~= decode_pieces(d2));
                assert(done + split_acc(e@, PAIR, i as int, cur@) == d2 + split_acc(
                    e@,
                    PAIR,
                    i + 1,
                    seq![],
                ));
                done = d2;
            }
            cur = Vec::new();
        } else {
            cur.push(e[i]);
        }
        i = i + 1;
    }
    match split_pair(cur.as_slice()) {
        Some(p) => {
            out.push(p);
        },
        None => {},
    }
    proof {
        let d2 = done.push(cur@);
        assert(d2.drop_last() == done);
        assert(out.deep_view() =~= decode_pieces(d2));
        assert(split_on(e@, PAIR) == d2);
    }
    out
}


proof fn lemma_split_shift(p: Seq<char>, y: Seq<char>, sep: char, j: int, cur: Seq<char>)
    requires
        0 <= j <= y.len(),
    ensures
        split_acc(p + y, sep, p.len() + j, cur) == split_acc(y, sep, j, cur),
    decreases y.len() - j,
{
    if j < y.len() {
        assert((p + y)[p.len() + j] == y[j]);
        if y[j] == sep {
            lemma_split_shift(p, y, sep, j + 1, seq![]);
        } else {
            lemma_split_shift(p, y, sep, j + 1, cur.push(y[j]));
        }
    }
}

proof fn lemma_split_join(x: Seq<char>, y: Seq<char>, sep: char, i: int, cur: Seq<char>)
    requires
        0 <= i <= x.len(),
    ensures
        split_acc(x + seq![sep] + y, sep, i, cur) == split_acc(x, sep, i, cur) + split_on(y, sep),
    decreases x.len() - i,
{
    let z = x + seq![sep] + y;
    if i < x.len() {
        assert(z[i] == x[i]);
        if x[i] == sep {
            lemma_split_join(x, y, sep, i + 1, seq![]);
            assert(seq![cur] + (split_acc(x, sep, i + 1, seq![]) + split_on(y, sep)) == (seq![cur]
                + split_acc(x, sep, i + 1, seq![])) + split_on(y, sep));
        } else {
            lemma_split_join(x, y, sep, i + 1, cur.push(x[i]));
        }
    } else {
        assert(z[i] == sep);
        assert(z == (x + seq![sep]) + y);
        lemma_split_shift(x + seq![sep], y, sep, 0, seq![]);
    }
}

proof fn lemma_split_whole(y: Seq<char>, sep: char, i: int, cur: Seq<char>)
    requires
        0 <= i <= y.len(),
        !y.contains(sep),
    ensures
        split_acc(y, sep, i, cur) == seq![cur + y.skip(i)],
    decreases y.len() - i,
{
    if i < y.len() {
        assert(y[i] != sep);
        lemma_split_whole(y, sep, i + 1, cur.push(y[i]));
        assert(cur.push(y[i]) + y.skip(i + 1) == cur + y.skip(i));
    } else {
        assert(cur + y.skip(i) == cur);
    }
}

pub proof fn lemma_index_from_stops(s: Seq<char>, c: char, i: int, j: int)
    requires
        0 <= i <= j < s.len(),
        s[j] == c,
        forall|k: int| i <= k < j ==> s[k] != c,
    ensures
        index_from(s, c, i) == j,
    decreases j - i,
{
    if i < j {
        lemma_index_from_stops(s, c, i + 1, j);
    }
}

/// Whether the pairs come back as they are from their text: no key holds
/// either separator, and no value holds the pair separator.
pub open spec fn encodable(pairs: Seq<(Seq<char>, Seq<char>)>) -> bool {
    forall|i: int|
        0 <= i < pairs.len() ==> {
            &&& !(#[trigger] pairs[i]).0.contains(KV)
            &&& !pairs[i].0.contains(PAIR)
            &&& !pairs[i].1.contains(PAIR)
        }
}

proof fn lemma_pair_text(p: (Seq<char>, Seq<char>))
    requires
        !p.0.contains(KV),
        !p.0.contains(PAIR),
        !p.1.contains(PAIR),
    ensures
        !pair_text(p).contains(PAIR),
        split_once(pair_text(p), KV) == Some(p),
{
    let t = pair_text(p);
    assert forall|k: int| 0 <= k < t.len() implies t[k] != PAIR by {
        if k < p.0.len() {
            assert(t[k] == p.0[k]);
        } else if k > p.0.len() {
            assert(t[k] == p.1[k - p.0.len() - 1]);
        }
    }
    assert forall|k: int| 0 <= k < p.0.len() implies t[k] != KV by {
        assert(t[k] == p.0[k]);
    }
    lemma_index_from_stops(t, KV, 0, p.0.len() as int);
    assert(t.take(p.0.len() as int) == p.0);
    assert(t.skip(p.0.len() as int + 1) == p.1);
}

proof fn lemma_split_encoded(pairs: Seq<(Seq<char>, Seq<char>)>)
    requires
        pairs.len() > 0,
        encodable(pairs),
    ensures
        split_on(encode(pairs), PAIR) == pairs.map_values(|p: (Seq<char>, Seq<char>)| pair_text(p)),
    decreases pairs.len(),
{
    let last = pairs.last();
    assert(pairs[pairs.len() - 1] == last);
    lemma_pair_text(last);
    lemma_split_whole(pair_text(last), PAIR, 0, seq![]);
    assert(seq![] + pair_text(last).skip(0) == pair_text(last));
    if pairs.len() == 1 {
        assert(pairs.map_values(|p: (Seq<char>, Seq<char>)| pair_text(p)) == seq![pair_text(last)]);
    } else {
        let front = pairs.drop_last();
        assert forall|i: int| 0 <= i < front.len() implies {
            &&& !(#[trigger] front[i]).0.contains(KV)
            &&& !front[i].0.contains(PAIR)
            &&& !front[i].1.contains(PAIR)
        } by {
            assert(front[i] == pairs[i]);
        }
        lemma_split_encoded(front);
        lemma_split_join(encode(front), pair_text(last), PAIR, 0, seq![]);
        assert(pairs.map_values(|p: (Seq<char>, Seq<char>)| pair_text(p)) == front.map_values(
            |p: (Seq<char>, Seq<char>)| pair_text(p),
        ).push(pair_text(last)));
    }
}

proof fn lemma_decode_texts(pairs: Seq<(Seq<char>, Seq<char>)>)
    requires
        encodable(pairs),
    ensures
        decode_pieces(pairs.map_values(|p: (Seq<char>, Seq<char>)| pair_text(p))) == pairs,
    decreases pairs.len(),
{
    if pairs.len() > 0 {
        let texts = pairs.map_values(|p: (Seq<char>, Seq<char>)| pair_text(p));
        let front = pairs.drop_last();
        assert(texts.drop_last() == front.map_values(|p: (Seq<char>, Seq<char>)| pair_text(p)));
        assert(pairs[pairs.len() - 1] == pairs.last());
        lemma_pair_text(pairs.last());
        assert forall|i: int| 0 <= i < front.len() implies {
            &&& !(#[trigger] front[i]).0.contains(KV)
            &&& !front[i].0.contains(PAIR)
            &&& !front[i].1.contains(PAIR)
        } by {
            assert(front[i] == pairs[i]);
        }
        lemma_decode_texts(front);
        assert(front.push(pairs.last()) == pairs);
    }
}

/// Metadata decoded from its encoded text is the metadata that was encoded,
/// where no key holds a separator and no value holds the pair separator.
pub proof fn law_metadata_roundtrip(pairs: Seq<(Seq<char>, Seq<char>)>)
    requires
        encodable(pairs),
    ensures
        decode(encode(pairs)) == pairs,
{
    if pairs.len() > 0 {
        assert(encode(pairs).len() > 0) by {
            if pairs.len() > 1 {
                assert(encode(pairs) == encode(pairs.drop_last()) + seq![PAIR] + pair_text(pairs.last()));
            }
        }
        lemma_split_encoded(pairs);
        lemma_decode_texts(pairs);
    }
}


/// The encoded text holds `c` nowhere where no key or value holds it and it
/// is neither separator.
pub proof fn lemma_encode_free(pairs: Seq<(Seq<char>, Seq<char>)>, c: char)
    requires
        c != KV,
        c != PAIR,
        forall|i: int|
            0 <= i < pairs.len() ==> !(#[trigger] pairs[i]).0.contains(c) && !pairs[i].1.contains(c),
    ensures
        !encode(pairs).contains(c),
    decreases pairs.len(),
{
    if pairs.len() > 0 {
        let last = pairs[pairs.len() - 1];
        let t = pair_text(last);
        assert forall|k: int| 0 <= k < t.len() implies t[k] != c by {
            if k < last.0.len() {
                assert(t[k] == last.0[k]);
            } else if k > last.0.len() {
                assert(t[k] == last.1[k - last.0.len() - 1]);
            }
        }
        if pairs.len() > 1 {
            let front = pairs.drop_last();
            assert forall|i: int| 0 <= i < front.len() implies !(#[trigger] front[i]).0.contains(c)
                && !front[i].1.contains(c) by {
                assert(front[i] == pairs[i]);
            }
            lemma_encode_free(front, c);
            let e = encode(front) + seq![PAIR] + t;
            assert(pairs.last() == last);
            assert forall|k: int| 0 <= k < e.len() implies e[k] != c by {
                if k < encode(front).len() {
                    assert(e[k] == encode(front)[k]);
                } else if k > encode(front).len() {
                    assert(e[k] == t[k - encode(front).len() - 1]);
                }
            }
        }
    }
}

} // verus!
