//! Character-level helpers over `str` and `String`, stated over `Seq<char>`.

use vstd::prelude::*;

verus! {

/// `std::string::String::push`: appends one character.
#[verifier::external_body]
pub(crate) fn push_char(s: &mut String, c: char)
    ensures
        final(s)@ == old(s)@.push(c),
{
    s.push(c);
}

/// The characters of `s`, in order.
pub fn chars_of(s: &str) -> (v: Vec<char>)
    ensures
        v@ == s@,
{
    let mut v: Vec<char> = Vec::new();
    for c in it: s.chars()
        invariant
            it.seq() == s@,
            v@ == it.seq().take(it.index()),
    {
        v.push(c);
    }
    v
}

/// The string made of the characters of `v`.
pub fn string_of(v: &[char]) -> (s: String)
    ensures
        s@ == v@,
{
    let mut s = String::new();
    let mut i: usize = 0;
    while i < v.len()
        invariant
            i <= v.len(),
            s@ == v@.take(i as int),
        decreases v.len() - i,
    {
        push_char(&mut s, v[i]);
        assert(v@.take(i + 1) == v@.take(i as int).push(v@[i as int]));
        i = i + 1;
    }
    assert(v@.take(v.len() as int) == v@);
    s
}


/// The characters of `s` pushed onto `out`.
pub fn push_all(out: &mut Vec<char>, s: &[char])
    ensures
        final(out)@ == old(out)@ + s@,
{
    let mut i: usize = 0;
    while i < s.len()
        invariant
            i <= s.len(),
            out@ == old(out)@ + s@.take(i as int),
        decreases s.len() - i,
    {
        out.push(s[i]);
        assert(s@.take(i + 1) == s@.take(i as int).push(s@[i as int]));
        i = i + 1;
    }
    assert(s@.take(s.len() as int) == s@);
}

/// The characters of `v` from `from` up to `to`.
pub fn chars_between(v: &[char], from: usize, to: usize) -> (r: Vec<char>)
    requires
        from <= to <= v.len(),
    ensures
        r@ == v@.subrange(from as int, to as int),
{
    let mut r: Vec<char> = Vec::new();
    let mut k: usize = from;
    while k < to
        invariant
            from <= k <= to <= v.len(),
            r@ == v@.subrange(from as int, k as int),
        decreases to - k,
    {
        r.push(v[k]);
        assert(v@.subrange(from as int, k + 1) == v@.subrange(from as int, k as int).push(
            v@[k as int],
        ));
        k = k + 1;
    }
    r
}

/// Whether `a` and `b` hold the same characters.
pub fn same_chars(a: &[char], b: &[char]) -> (same: bool)
    ensures
        same == (a@ == b@),
{
    if a.len() != b.len() {
        return false;
    }
    let mut k: usize = 0;
    while k < a.len()
        invariant
            k <= a.len() == b.len(),
            forall|j: int| 0 <= j < k ==> a@[j] == b@[j],
        decreases a.len() - k,
    {
        if a[k] != b[k] {
            return false;
        }
        k = k + 1;
    }
    assert(a@ == b@);
    true
}

/// Whether `c` has the Unicode `White_Space` property, as `char::is_whitespace` decides.
pub open spec fn is_white_space(c: char) -> bool {
    ||| '\t' <= c <= '\r'
    ||| c == ' '
    ||| c == '\u{85}'
    ||| c == '\u{a0}'
    ||| c == '\u{1680}'
    ||| '\u{2000}' <= c <= '\u{200a}'
    ||| c == '\u{2028}'
    ||| c == '\u{2029}'
    ||| c == '\u{202f}'
    ||| c == '\u{205f}'
    ||| c == '\u{3000}'
}

/// Decides `is_white_space`.
pub fn white_space(c: char) -> (b: bool)
    ensures
        b == is_white_space(c),
{
    ('\t' <= c && c <= '\r') || c == ' ' || c == '\u{85}' || c == '\u{a0}' || c == '\u{1680}'
        || ('\u{2000}' <= c && c <= '\u{200a}') || c == '\u{2028}' || c == '\u{2029}'
        || c == '\u{202f}' || c == '\u{205f}' || c == '\u{3000}'
}

/// `s` without its leading white space.
pub open spec fn trim_start(s: Seq<char>) -> Seq<char>
    decreases s.len(),
{
    if s.len() > 0 && is_white_space(s[0]) {
        trim_start(s.drop_first())
    } else {
        s
    }
}

/// `s` without its trailing white space.
pub open spec fn trim_end(s: Seq<char>) -> Seq<char>
    decreases s.len(),
{
    if s.len() > 0 && is_white_space(s.last()) {
        trim_end(s.drop_last())
    } else {
        s
    }
}

/// `s` without leading and trailing white space, as `str::trim` gives it.
pub open spec fn trim(s: Seq<char>) -> Seq<char> {
    trim_end(trim_start(s))
}

proof fn lemma_trim_start_skip(s: Seq<char>, i: int)
    requires
        0 <= i <= s.len(),
        forall|k: int| 0 <= k < i ==> is_white_space(#[trigger] s[k]),
    ensures
        trim_start(s) == trim_start(s.skip(i)),
    decreases i,
{
    if i > 0 {
        assert(s.drop_first().skip(i - 1) == s.skip(i));
        assert(is_white_space(s[0]));
        assert forall|k: int| 0 <= k < i - 1 implies is_white_space(#[trigger] s.drop_first()[k]) by {
            assert(is_white_space(s[k + 1]));
        }
        lemma_trim_start_skip(s.drop_first(), i - 1);
    } else {
        assert(s.skip(0) == s);
    }
}

proof fn lemma_trim_end_take(s: Seq<char>, j: int)
    requires
        0 <= j <= s.len(),
        forall|k: int| j <= k < s.len() ==> is_white_space(#[trigger] s[k]),
    ensures
        trim_end(s) == trim_end(s.take(j)),
    decreases s.len() - j,
{
    if j < s.len() {
        assert(s.drop_last().take(j) == s.take(j));
        lemma_trim_end_take(s.drop_last(), j);
    } else {
        assert(s.take(j) == s);
    }
}

/// Trimming the end of `s` leaves a prefix of `s`.
pub proof fn lemma_trim_end_is_prefix(s: Seq<char>) -> (j: int)
    ensures
        0 <= j <= s.len(),
        trim_end(s) == s.take(j),
    decreases s.len(),
{
    if s.len() > 0 && is_white_space(s.last()) {
        let j = lemma_trim_end_is_prefix(s.drop_last());
        assert(s.drop_last().take(j) == s.take(j));
        j
    } else {
        assert(s.take(s.len() as int) == s);
        s.len() as int
    }
}

/// The characters of `s` between its leading and its trailing white space.
pub fn trim_chars(s: &[char]) -> (t: Vec<char>)
    ensures
        t@ == trim(s@),
{
    let n = s.len();
    let mut i: usize = 0;
    while i < n && white_space(s[i])
        invariant
            i <= n,
            n == s@.len(),
            forall|k: int| 0 <= k < i ==> is_white_space(#[trigger] s@[k]),
        decreases n - i,
    {
        i = i + 1;
    }
    proof {
        lemma_trim_start_skip(s@, i as int);
    }
    let ghost rest = s@.skip(i as int);
    let mut j: usize = n;
    while j > i && white_space(s[j - 1])
        invariant
            i <= j <= n,
            n == s@.len(),
            rest == s@.skip(i as int),
            forall|k: int| j - i <= k < rest.len() ==> is_white_space(#[trigger] rest[k]),
        decreases j - i,
    {
        j = j - 1;
    }
    proof {
        lemma_trim_end_take(rest, j - i);
    }
    let t = chars_between(s, i, j);
    assert(t@ == rest.take(j - i));
    t
}


/// `line` without one trailing carriage return.
pub open spec fn strip_cr(line: Seq<char>) -> Seq<char> {
    if line.len() > 0 && line.last() == '\r' {
        line.drop_last()
    } else {
        line
    }
}

/// The lines of `s` from position `i` on, where `cur` holds the characters
/// of the line begun before `i`.
pub open spec fn lines_acc(s: Seq<char>, i: int, cur: Seq<char>) -> Seq<Seq<char>>
    decreases s.len() - i,
{
    if i >= s.len() {
        if cur.len() == 0 {
            seq![]
        } else {
            seq![cur]
        }
    } else if s[i] == '\n' {
        seq![strip_cr(cur)] + lines_acc(s, i + 1, seq![])
    } else {
        lines_acc(s, i + 1, cur.push(s[i]))
    }
}

/// The lines of `s` as `str::lines` gives them: split at each `\n`, a `\r`
/// just before it dropped, and no line after a final `\n`.
pub open spec fn lines(s: Seq<char>) -> Seq<Seq<char>> {
    lines_acc(s, 0, seq![])
}

/// The lines of `s`.
pub fn split_lines(s: &[char]) -> (r: Vec<Vec<char>>)
    ensures
        r@.len() == lines(s@).len(),
        forall|k: int| 0 <= k < r@.len() ==> #[trigger] r@[k]@ == lines(s@)[k],
{
    let mut r: Vec<Vec<char>> = Vec::new();
    let mut cur: Vec<char> = Vec::new();
    let ghost done: Seq<Seq<char>> = seq![];
    let mut i: usize = 0;
    while i < s.len()
        invariant
            i <= s.len(),
            r@.len() == done.len(),
            forall|k: int| 0 <= k < r@.len() ==> #[trigger] r@[k]@ == done[k],
            lines(s@) == done + lines_acc(s@, i as int, cur@),
        decreases s.len() - i,
    {
        if s[i] == '\n' {
            let mut line = cur;
            let n = line.len();
            if n > 0 && line[n - 1] == '\r' {
                line.pop();
            }
            proof {
                done = done.push(line@);
                assert(done + lines_acc(s@, i + 1, seq![]) == (done.drop_last() + seq![line@])
                    + lines_acc(s@, i + 1, seq![]));
            }
            r.push(line);
            cur = Vec::new();
        } else {
            cur.push(s[i]);
        }
        i = i + 1;
    }
    if cur.len() > 0 {
        proof {
            done = done.push(cur@);
        }
        r.push(cur);
    }
    proof {
        assert(lines(s@) == done);
    }
    r
}

/// The decimal digit for `d`, which is less than ten.
pub open spec fn digit_char(d: nat) -> char {
    ((d + 48) as u8) as char
}

/// `n` written in decimal, without leading zeros.
pub open spec fn decimal(n: nat) -> Seq<char>
    decreases n,
{
    if n < 10 {
        seq![digit_char(n)]
    } else {
        decimal(n / 10).push(digit_char(n % 10))
    }
}

/// Appends `n`, written in decimal, to `out`.
pub fn push_decimal(out: &mut Vec<char>, n: u128)
    ensures
        final(out)@ == old(out)@ + decimal(n as nat),
    decreases n,
{
    if n >= 10 {
        push_decimal(out, n / 10);
    }
    let d: u8 = (n % 10) as u8;
    out.push((d + 48) as char);
}


proof fn lemma_lines_shift(p: Seq<char>, y: Seq<char>, j: int, cur: Seq<char>)
    requires
        0 <= j <= y.len(),
    ensures
        lines_acc(p + y, p.len() + j, cur) == lines_acc(y, j, cur),
    decreases y.len() - j,
{
    if j < y.len() {
        assert((p + y)[p.len() + j] == y[j]);
        if y[j] == '\n' {
            lemma_lines_shift(p, y, j + 1, seq![]);
        } else {
            lemma_lines_shift(p, y, j + 1, cur.push(y[j]));
        }
    }
}

proof fn lemma_lines_after_newline(x: Seq<char>, y: Seq<char>, i: int, cur: Seq<char>)
    requires
        x.len() > 0,
        x.last() == '\n',
        0 <= i < x.len(),
    ensures
        lines_acc(x + y, i, cur) == lines_acc(x, i, cur) + lines(y),
    decreases x.len() - i,
{
    assert((x + y)[i] == x[i]);
    if x[i] == '\n' {
        if i + 1 < x.len() {
            lemma_lines_after_newline(x, y, i + 1, seq![]);
        } else {
            lemma_lines_shift(x, y, 0, seq![]);
            assert(lines_acc(x, i + 1, seq![]) == Seq::<Seq<char>>::empty());
        }
        assert(seq![strip_cr(cur)] + (lines_acc(x, i + 1, seq![]) + lines(y)) == (seq![
            strip_cr(cur),
        ] + lines_acc(x, i + 1, seq![])) + lines(y));
    } else {
        lemma_lines_after_newline(x, y, i + 1, cur.push(x[i]));
    }
}

/// The lines of `x + y`, where `x` is empty or ends with a line feed, are
/// those of `x`, then those of `y`.
pub proof fn lemma_lines_concat(x: Seq<char>, y: Seq<char>)
    requires
        x.len() == 0 || x.last() == '\n',
    ensures
        lines(x + y) == lines(x) + lines(y),
{
    if x.len() == 0 {
        assert(x + y == y);
        assert(lines(x) == Seq::<Seq<char>>::empty());
        assert(lines(x) + lines(y) == lines(y));
    } else {
        lemma_lines_after_newline(x, y, 0, seq![]);
    }
}

proof fn lemma_lines_one_acc(line: Seq<char>, i: int)
    requires
        !line.contains('\n'),
        line.len() > 0 ==> line.last() != '\r',
        0 <= i <= line.len(),
    ensures
        lines_acc(line + seq!['\n'], i, line.take(i)) == seq![line],
    decreases line.len() - i,
{
    let z = line + seq!['\n'];
    if i < line.len() {
        assert(z[i] == line[i]);
        assert(line[i] != '\n');
        assert(line.take(i).push(line[i]) == line.take(i + 1));
        lemma_lines_one_acc(line, i + 1);
    } else {
        assert(z[i] == '\n');
        assert(line.take(i) == line);
        assert(strip_cr(line) == line);
        assert(lines_acc(z, i + 1, seq![]) == Seq::<Seq<char>>::empty());
        assert(seq![line] + Seq::<Seq<char>>::empty() == seq![line]);
    }
}

/// A text without line feeds, then a line feed, is one line.
pub proof fn lemma_lines_one(line: Seq<char>)
    requires
        !line.contains('\n'),
        line.len() > 0 ==> line.last() != '\r',
    ensures
        lines(line + seq!['\n']) == seq![line],
{
    assert(line.take(0) == Seq::<char>::empty());
    lemma_lines_one_acc(line, 0);
}


/// Whether every character of `s` is white space.
pub open spec fn all_white_space(s: Seq<char>) -> bool {
    forall|k: int| 0 <= k < s.len() ==> is_white_space(#[trigger] s[k])
}

/// Leading white space makes no difference to `trim_start`.
pub proof fn lemma_trim_start_lead(lead: Seq<char>, x: Seq<char>)
    requires
        all_white_space(lead),
    ensures
        trim_start(lead + x) == trim_start(x),
    decreases lead.len(),
{
    if lead.len() > 0 {
        assert((lead + x)[0] == lead[0]);
        assert((lead + x).drop_first() == lead.drop_first() + x);
        assert forall|k: int| 0 <= k < lead.drop_first().len() implies is_white_space(
            #[trigger] lead.drop_first()[k],
        ) by {
            assert(lead.drop_first()[k] == lead[k + 1]);
        }
        lemma_trim_start_lead(lead.drop_first(), x);
    } else {
        assert(lead + x == x);
    }
}

/// Trailing white space makes no difference to `trim_end`.
pub proof fn lemma_trim_end_trail(x: Seq<char>, trail: Seq<char>)
    requires
        all_white_space(trail),
    ensures
        trim_end(x + trail) == trim_end(x),
    decreases trail.len(),
{
    if trail.len() > 0 {
        assert((x + trail).last() == trail.last());
        assert((x + trail).drop_last() == x + trail.drop_last());
        assert forall|k: int| 0 <= k < trail.drop_last().len() implies is_white_space(
            #[trigger] trail.drop_last()[k],
        ) by {
            assert(trail.drop_last()[k] == trail[k]);
        }
        lemma_trim_end_trail(x, trail.drop_last());
    } else {
        assert(x + trail == x);
    }
}

/// Where `s` holds a character that is no white space, what follows it is
/// kept whole by `trim_start`.
pub proof fn lemma_trim_start_concat(s: Seq<char>, t: Seq<char>)
    requires
        !all_white_space(s),
    ensures
        trim_start(s + t) == trim_start(s) + t,
    decreases s.len(),
{
    assert((s + t)[0] == s[0]);
    if is_white_space(s[0]) {
        assert((s + t).drop_first() == s.drop_first() + t);
        let k = choose|k: int| 0 <= k < s.len() && !is_white_space(#[trigger] s[k]);
        assert(s.drop_first()[k - 1] == s[k]);
        lemma_trim_start_concat(s.drop_first(), t);
    }
}

/// Where the end of `b` holds more than white space, `trim_end` keeps all
/// that comes before `b`.
pub proof fn lemma_trim_end_concat(a: Seq<char>, b: Seq<char>)
    requires
        trim_end(b).len() > 0,
    ensures
        trim_end(a + b) == a + trim_end(b),
    decreases b.len(),
{
    assert((a + b).last() == b.last());
    if is_white_space(b.last()) {
        assert((a + b).drop_last() == a + b.drop_last());
        lemma_trim_end_concat(a, b.drop_last());
    }
}

/// White space around a text makes no difference to `trim`.
pub proof fn lemma_trim_around(lead: Seq<char>, s: Seq<char>, trail: Seq<char>)
    requires
        all_white_space(lead),
        all_white_space(trail),
    ensures
        trim(lead + s + trail) == trim(s),
{
    assert(lead + s + trail == lead + (s + trail));
    lemma_trim_start_lead(lead, s + trail);
    if all_white_space(s) {
        lemma_trim_start_lead(s, trail);
        lemma_trim_start_lead(trail, Seq::<char>::empty());
        lemma_trim_start_lead(s, Seq::<char>::empty());
        assert(trail + Seq::<char>::empty() == trail);
        assert(s + Seq::<char>::empty() == s);
        assert(trim_start(Seq::<char>::empty()) == Seq::<char>::empty());
    } else {
        lemma_trim_start_concat(s, trail);
        lemma_trim_end_trail(trim_start(s), trail);
    }
}

} // verus!
