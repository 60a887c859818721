//! One archived item as one ISO SQL `INSERT` on one line, and that line read
//! back: a fixed head, then five values, each a string literal but the bytes,
//! which are a hex literal `X'...'`.

use vstd::prelude::*;

use crate::hex::{
    all_hex, decode_hex, hex_decode, hex_encode, hex_value, lemma_hex_roundtrip, push_hex, HexFault,
};
use crate::literal::{
    lemma_read_literal_prefix, lemma_read_quoted, push_quoted, quote, quote_body, read_literal,
    read_literal_at,
};
use crate::text::{
    chars_between, chars_of, decimal, is_white_space, lemma_trim_end_is_prefix, push_all, push_decimal, string_of,
    trim, trim_chars, trim_end, trim_start,
};

verus! {

/// Every statement opens the same way; what follows is the five values.
pub const HEAD: &'static str = "INSERT INTO archive (data_type, identifier, bytes, metadata, archived_at) VALUES (";

/// The number of characters in `HEAD`.
pub const HEAD_LEN: usize = 82;

/// The characters of `HEAD`.
pub open spec fn head() -> Seq<char> {
    HEAD@
}

/// What the proofs need to know of `HEAD`.
pub proof fn lemma_head()
    ensures
        head().len() == HEAD_LEN,
        head()[0] == 'I',
        !head().contains('\n'),
{
    reveal_strlit("INSERT INTO archive (data_type, identifier, bytes, metadata, archived_at) VALUES (");
}

/// The row one statement carries: the four item columns, `metadata` already
/// encoded to one text, and the moment of archiving.
#[derive(Clone, Debug, PartialEq, Eq)]
pub struct Statement {
    pub data_type: String,
    pub identifier: String,
    pub bytes: Vec<u8>,
    pub metadata: String,
    pub archived_at: String,
}

/// A statement's row as mathematical values.
pub struct Row {
    pub data_type: Seq<char>,
    pub identifier: Seq<char>,
    pub bytes: Seq<u8>,
    pub metadata: Seq<char>,
    pub archived_at: Seq<char>,
}

impl View for Statement {
    type V = Row;

    open spec fn view(&self) -> Row {
        Row {
            data_type: self.data_type@,
            identifier: self.identifier@,
            bytes: self.bytes@,
            metadata: self.metadata@,
            archived_at: self.archived_at@,
        }
    }
}

/// The separator between two values.
pub open spec fn sep() -> Seq<char> {
    seq![',', ' ']
}

/// What closes the statement.
pub open spec fn close() -> Seq<char> {
    seq![')', ';']
}

/// What opens the hex literal.
pub open spec fn hex_open() -> Seq<char> {
    seq!['X', '\'']
}

/// The statement of `row` as one line of SQL.
pub open spec fn sql_line(row: Row) -> Seq<char> {
    head() + quote(row.data_type) + sep() + quote(row.identifier) + sep() + hex_open()
        + hex_encode(row.bytes) + seq!['\''] + sep() + quote(row.metadata) + sep() + quote(
        row.archived_at,
    ) + close()
}

impl Statement {
    /// The statement as one line of SQL, ending in `;`.
    pub fn to_sql(&self) -> (sql: String)
        ensures
            sql@ == sql_line(self@),
    {
        let mut out: Vec<char> = chars_of(HEAD);
        push_quoted(&mut out, chars_of(self.data_type.as_str()).as_slice());
        out.push(',');
        out.push(' ');
        push_quoted(&mut out, chars_of(self.identifier.as_str()).as_slice());
        out.push(',');
        out.push(' ');
        out.push('X');
        out.push('\'');
        push_hex(&mut out, self.bytes.as_slice());
        out.push('\'');
        out.push(',');
        out.push(' ');
        push_quoted(&mut out, chars_of(self.metadata.as_str()).as_slice());
        out.push(',');
        out.push(' ');
        push_quoted(&mut out, chars_of(self.archived_at.as_str()).as_slice());
        out.push(')');
        out.push(';');
        let sql = string_of(out.as_slice());
        proof {
            let v = self@;
            assert(sql@ == sql_line(v));
        }
        sql
    }
}


/// Why a line is no statement.
pub enum ParseFailure {
    /// The line does not open with `HEAD`.
    NotAnInsert,
    /// `token` does not stand at `column`.
    Expected { token: Seq<char>, column: nat },
    /// No string literal opens at `column`.
    NoStringLiteral { column: nat },
    /// A string literal has no closing quote.
    StringNotTerminated,
    /// The hex literal has no closing quote.
    HexNotTerminated,
    /// The hex literal holds a character that is no hex digit.
    HexNotADigit,
    /// The hex literal holds an odd count of digits.
    HexOddCount,
    /// Text follows the closing `);`.
    TextAfter { rest: Seq<char> },
}

/// What `<str as Debug>::fmt` writes for `s`: the text quoted, with escapes.
pub uninterp spec fn str_debug(s: Seq<char>) -> Seq<char>;

/// `s` as `format!("{:?}", s)` writes it.
#[verifier::external_body]
fn debug_of(s: &str) -> (r: String)
    ensures
        r@ == str_debug(s@),
{
    format!("{:?}", s)
}

/// The message that reports `f`.
pub open spec fn failure_message(f: ParseFailure) -> Seq<char> {
    match f {
        ParseFailure::NotAnInsert => "not an INSERT INTO archive statement"@,
        ParseFailure::Expected { token, column } => "expected \""@ + token + "\" at column "@
            + decimal(column),
        ParseFailure::NoStringLiteral { column } => "expected a string literal at column "@
            + decimal(column),
        ParseFailure::StringNotTerminated => "a string literal is not terminated"@,
        ParseFailure::HexNotTerminated => "a hex literal is not terminated"@,
        ParseFailure::HexNotADigit => "a hex literal holds a character that is not a hex digit"@,
        ParseFailure::HexOddCount => "a hex literal holds an odd count of hex digits"@,
        ParseFailure::TextAfter { rest } => "text after the statement: "@ + str_debug(rest),
    }
}

/// The column of position `pos` of the text after `HEAD`.
pub open spec fn column_of(pos: int) -> nat {
    (pos + head().len()) as nat
}

/// The string literal that opens at `pos` of `r`: its value and the
/// position after it.
pub open spec fn string_at(r: Seq<char>, pos: int) -> Result<(Seq<char>, int), ParseFailure> {
    if 0 <= pos < r.len() && r[pos] == '\'' {
        match read_literal(r, pos + 1) {
            Some((v, e)) => Ok((v, e)),
            None => Err(ParseFailure::StringNotTerminated),
        }
    } else {
        Err(ParseFailure::NoStringLiteral { column: column_of(pos) })
    }
}

/// Whether `tok` stands at `pos` of `r`.
pub open spec fn token_at(r: Seq<char>, pos: int, tok: Seq<char>) -> bool {
    0 <= pos && pos + tok.len() <= r.len() && r.subrange(pos, pos + tok.len()) == tok
}

/// `tok` taken at `pos` of `r`: the position after it.
pub open spec fn expect_at(r: Seq<char>, pos: int, tok: Seq<char>) -> Result<int, ParseFailure> {
    if token_at(r, pos, tok) {
        Ok(pos + tok.len())
    } else {
        Err(ParseFailure::Expected { token: tok, column: column_of(pos) })
    }
}

/// The first position from `p` on where `r` holds a quote, or the end of `r`.
pub open spec fn quote_from(r: Seq<char>, p: int) -> int
    decreases r.len() - p,
{
    if p < 0 || p >= r.len() {
        r.len() as int
    } else if r[p] == '\'' {
        p
    } else {
        quote_from(r, p + 1)
    }
}

pub proof fn lemma_quote_from(r: Seq<char>, p: int)
    requires
        0 <= p <= r.len(),
    ensures
        p <= quote_from(r, p) <= r.len(),
        quote_from(r, p) < r.len() ==> r[quote_from(r, p)] == '\'',
        forall|k: int| p <= k < quote_from(r, p) ==> r[k] != '\'',
    decreases r.len() - p,
{
    if p < r.len() && r[p] != '\'' {
        lemma_quote_from(r, p + 1);
    }
}

/// The hex literal that opens at `pos` of `r`: its bytes and the position after it.
pub open spec fn hex_at(r: Seq<char>, pos: int) -> Result<(Seq<u8>, int), ParseFailure> {
    match expect_at(r, pos, hex_open()) {
        Err(f) => Err(f),
        Ok(p) => {
            let q = quote_from(r, p);
            if q >= r.len() {
                Err(ParseFailure::HexNotTerminated)
            } else if !all_hex(r.subrange(p, q)) {
                Err(ParseFailure::HexNotADigit)
            } else if (q - p) % 2 == 1 {
                Err(ParseFailure::HexOddCount)
            } else {
                Ok((hex_decode(r.subrange(p, q)), q + 1))
            }
        },
    }
}

/// A string literal at `pos` of `r`, then `tok`.
pub open spec fn string_then(r: Seq<char>, pos: int, tok: Seq<char>) -> Result<
    (Seq<char>, int),
    ParseFailure,
> {
    match string_at(r, pos) {
        Err(f) => Err(f),
        Ok((v, p)) => match expect_at(r, p, tok) {
            Err(f) => Err(f),
            Ok(q) => Ok((v, q)),
        },
    }
}

/// The hex literal at `pos` of `r`, then `tok`.
pub open spec fn hex_then(r: Seq<char>, pos: int, tok: Seq<char>) -> Result<
    (Seq<u8>, int),
    ParseFailure,
> {
    match hex_at(r, pos) {
        Err(f) => Err(f),
        Ok((v, p)) => match expect_at(r, p, tok) {
            Err(f) => Err(f),
            Ok(q) => Ok((v, q)),
        },
    }
}

/// The five values that `r`, the text after `HEAD`, holds, closed by `);`
/// and followed by nothing.
pub open spec fn parse_values(r: Seq<char>) -> Result<Row, ParseFailure> {
    match string_then(r, 0, sep()) {
        Err(f) => Err(f),
        Ok((data_type, p1)) => match string_then(r, p1, sep()) {
            Err(f) => Err(f),
            Ok((identifier, p2)) => match hex_then(r, p2, sep()) {
                Err(f) => Err(f),
                Ok((bytes, p3)) => match string_then(r, p3, sep()) {
                    Err(f) => Err(f),
                    Ok((metadata, p4)) => match string_then(r, p4, close()) {
                        Err(f) => Err(f),
                        Ok((archived_at, p5)) => if p5 == r.len() {
                            Ok(Row { data_type, identifier, bytes, metadata, archived_at })
                        } else {
                            Err(ParseFailure::TextAfter { rest: r.skip(p5) })
                        },
                    },
                },
            },
        },
    }
}

/// The statement on `line`, read after trimming its white space.
pub open spec fn parse_line(line: Seq<char>) -> Result<Row, ParseFailure> {
    let t = trim(line);
    if head().len() <= t.len() && t.take(head().len() as int) == head() {
        parse_values(t.skip(head().len() as int))
    } else {
        Err(ParseFailure::NotAnInsert)
    }
}


/// The two characters `a`, `b`.
fn two(a: char, b: char) -> (v: Vec<char>)
    ensures
        v@ == seq![a, b],
{
    let mut v: Vec<char> = Vec::new();
    v.push(a);
    v.push(b);
    v
}

/// Whether `tok` stands at `pos` of `r`.
fn token_here(r: &[char], pos: usize, tok: &[char]) -> (b: bool)
    ensures
        b == token_at(r@, pos as int, tok@),
{
    if pos > r.len() || tok.len() > r.len() - pos {
        return false;
    }
    let mut k: usize = 0;
    while k < tok.len()
        invariant
            pos + tok.len() <= r.len(),
            k <= tok.len(),
            forall|j: int| 0 <= j < k ==> r@[pos + j] == tok@[j],
        decreases tok.len() - k,
    {
        if r[pos + k] != tok[k] {
            assert(r@.subrange(pos as int, pos + tok.len())[k as int] != tok@[k as int]);
            return false;
        }
        k = k + 1;
    }
    assert(r@.subrange(pos as int, pos + tok.len()) == tok@);
    true
}

/// The message for a value or token expected at `pos`.
fn at_column(lead: &str, tok: &[char], trail: &str, pos: usize) -> (m: String)
    ensures
        m@ == lead@ + tok@ + trail@ + decimal(column_of(pos as int)),
{
    proof {
        lemma_head();
    }
    let mut out = chars_of(lead);
    push_all(&mut out, tok);
    push_all(&mut out, chars_of(trail).as_slice());
    push_decimal(&mut out, pos as u128 + HEAD_LEN as u128);
    string_of(out.as_slice())
}

/// The string literal that opens at `pos` of `r`.
fn string_step(r: &[char], pos: usize) -> (res: Result<(Vec<char>, usize), String>)
    ensures
        match res {
            Ok((v, e)) => string_at(r@, pos as int) == Ok::<(Seq<char>, int), ParseFailure>(
                (v@, e as int),
            ),
            Err(m) => match string_at(r@, pos as int) {
                Err(f) => m@ == failure_message(f),
                Ok(_) => false,
            },
        },
{
    if pos < r.len() && r[pos] == '\'' {
        match read_literal_at(r, pos + 1) {
            Some((v, e)) => Ok((v, e)),
            None => Err("a string literal is not terminated".to_owned()),
        }
    } else {
        let empty: Vec<char> = Vec::new();
        let m = at_column("expected a string literal at column ", empty.as_slice(), "", pos);
        proof {
            assert("expected a string literal at column "@ + empty@ + ""@
                == "expected a string literal at column "@) by {
                reveal_strlit("");
            }
        }
        Err(m)
    }
}

/// `tok` at `pos` of `r`.
fn expect_step(r: &[char], pos: usize, tok: &[char]) -> (res: Result<usize, String>)
    ensures
        match res {
            Ok(e) => expect_at(r@, pos as int, tok@) == Ok::<int, ParseFailure>(e as int),
            Err(m) => match expect_at(r@, pos as int, tok@) {
                Err(f) => m@ == failure_message(f),
                Ok(_) => false,
            },
        },
{
    if token_here(r, pos, tok) {
        let n = r.len();
        assert(pos + tok@.len() <= n);
        Ok(pos + tok.len())
    } else {
        Err(at_column("expected \"", tok, "\" at column ", pos))
    }
}

/// The first position from `p` on where `r` holds a quote, or its end.
fn quote_index(r: &[char], p: usize) -> (q: usize)
    ensures
        q == quote_from(r@, p as int),
{
    let mut q: usize = p;
    while q < r.len() && r[q] != '\''
        invariant
            p <= q,
            quote_from(r@, p as int) == quote_from(r@, q as int),
        decreases r.len() - q,
    {
        q = q + 1;
    }
    if q > r.len() {
        r.len()
    } else {
        q
    }
}

/// The hex literal that opens at `pos` of `r`.
fn hex_step(r: &[char], pos: usize) -> (res: Result<(Vec<u8>, usize), String>)
    ensures
        match res {
            Ok((v, e)) => hex_at(r@, pos as int) == Ok::<(Seq<u8>, int), ParseFailure>(
                (v@, e as int),
            ),
            Err(m) => match hex_at(r@, pos as int) {
                Err(f) => m@ == failure_message(f),
                Ok(_) => false,
            },
        },
{
    let open = two('X', '\'');
    let p = expect_step(r, pos, open.as_slice())?;
    let q = quote_index(r, p);
    proof {
        lemma_quote_from(r@, p as int);
    }
    if q >= r.len() {
        return Err("a hex literal is not terminated".to_owned());
    }
    let digits = chars_between(r, p, q);
    match decode_hex(digits.as_slice()) {
        Ok(b) => Ok((b, q + 1)),
        Err(HexFault::NotADigit) => Err(
            "a hex literal holds a character that is not a hex digit".to_owned(),
        ),
        Err(HexFault::OddCount) => Err("a hex literal holds an odd count of hex digits".to_owned()),
    }
}


/// A string literal at `pos` of `r`, then `tok`.
fn string_then_step(r: &[char], pos: usize, tok: &[char]) -> (res: Result<(Vec<char>, usize), String>)
    ensures
        match res {
            Ok((v, e)) => string_then(r@, pos as int, tok@) == Ok::<(Seq<char>, int), ParseFailure>(
                (v@, e as int),
            ),
            Err(m) => match string_then(r@, pos as int, tok@) {
                Err(f) => m@ == failure_message(f),
                Ok(_) => false,
            },
        },
{
    let (v, p) = string_step(r, pos)?;
    let q = expect_step(r, p, tok)?;
    Ok((v, q))
}

impl Statement {
    /// A line of the script back into its statement.
    ///
    /// # Errors
    ///
    /// A line that does not open as [`Statement::to_sql`] writes it, a string
    /// literal left unterminated, a hex literal with a character that is no
    /// hex digit or an odd count of them, or anything after the closing `);`.
    pub fn parse(line: &str) -> (res: Result<Self, String>)
        ensures
            match res {
                Ok(st) => parse_line(line@) == Ok::<Row, ParseFailure>(st@),
                Err(m) => match parse_line(line@) {
                    Err(f) => m@ == failure_message(f),
                    Ok(_) => false,
                },
            },
    {
        proof {
            lemma_head();
        }
        let chars = chars_of(line);
        let t = trim_chars(chars.as_slice());
        let h = chars_of(HEAD);
        if !token_here(t.as_slice(), 0, h.as_slice()) {
            proof {
                if head().len() <= t@.len() && t@.take(head().len() as int) == head() {
                    assert(t@.subrange(0, h@.len() as int) == t@.take(head().len() as int));
                }
            }
            return Err("not an INSERT INTO archive statement".to_owned());
        }
        assert(t@.take(head().len() as int) == t@.subrange(0, h@.len() as int));
        let r = chars_between(t.as_slice(), h.len(), t.len());
        assert(r@ == t@.skip(head().len() as int));
        let sep = two(',', ' ');
        let close = two(')', ';');
        let (data_type, p1) = string_then_step(r.as_slice(), 0, sep.as_slice())?;
        let (identifier, p2) = string_then_step(r.as_slice(), p1, sep.as_slice())?;
        let (bytes, p3) = hex_step(r.as_slice(), p2)?;
        let p3 = expect_step(r.as_slice(), p3, sep.as_slice())?;
        let (metadata, p4) = string_then_step(r.as_slice(), p3, sep.as_slice())?;
        let (archived_at, p5) = string_then_step(r.as_slice(), p4, close.as_slice())?;
        if p5 != r.len() {
            let rest = chars_between(r.as_slice(), p5, r.len());
            let shown = debug_of(string_of(rest.as_slice()).as_str());
            let mut out = chars_of("text after the statement: ");
            push_all(&mut out, chars_of(shown.as_str()).as_slice());
            proof {
                assert(r@.skip(p5 as int) == rest@);
            }
            return Err(string_of(out.as_slice()));
        }
        Ok(Statement {
            data_type: string_of(data_type.as_slice()),
            identifier: string_of(identifier.as_slice()),
            bytes,
            metadata: string_of(metadata.as_slice()),
            archived_at: string_of(archived_at.as_slice()),
        })
    }
}


/// A string literal, then `tok`, read where they were written.
proof fn lemma_string_then_written(p: Seq<char>, s: Seq<char>, tok: Seq<char>, rest: Seq<char>)
    requires
        tok.len() > 0,
        tok[0] != '\'',
    ensures
        string_then(p + quote(s) + tok + rest, p.len() as int, tok) == Ok::<
            (Seq<char>, int),
            ParseFailure,
        >((s, (p + quote(s) + tok).len() as int)),
{
    let x = p + quote(s) + tok + rest;
    let q = quote_body(s);
    let i = p.len() as int;
    assert(x[i] == '\'');
    assert(x.subrange(i + 1, i + 1 + q.len() + 1) == q + seq!['\'']);
    assert(x[i + 1 + q.len() + 1] == tok[0]);
    lemma_read_quoted(x, i + 1, s);
    let e = i + q.len() + 2;
    assert(x.subrange(e, e + tok.len()) == tok);
}

/// The hex literal of `b`, then `tok`, read where they were written.
proof fn lemma_hex_then_written(p: Seq<char>, b: Seq<u8>, tok: Seq<char>, rest: Seq<char>)
    ensures
        hex_then(p + (hex_open() + hex_encode(b) + seq!['\'']) + tok + rest, p.len() as int, tok)
            == Ok::<(Seq<u8>, int), ParseFailure>(
            (b, (p + (hex_open() + hex_encode(b) + seq!['\'']) + tok).len() as int),
        ),
{
    let lit = hex_open() + hex_encode(b) + seq!['\''];
    let x = p + lit + tok + rest;
    let h = hex_encode(b);
    let i = p.len() as int;
    lemma_hex_roundtrip(b);
    assert(x.subrange(i, i + 2) == hex_open());
    let start = i + 2;
    let end = start + h.len();
    lemma_quote_from(x, start);
    assert forall|k: int| start <= k < end implies x[k] != '\'' by {
        assert(x[k] == h[k - start]);
        assert(hex_value(h[k - start]) is Some);
    }
    assert(x[end] == '\'');
    assert(quote_from(x, start) == end) by {
        lemma_quote_from_stops(x, start, end);
    }
    assert(x.subrange(start, end) == h);
    assert(x.subrange(end + 1, end + 1 + tok.len()) == tok);
}

proof fn lemma_quote_from_stops(r: Seq<char>, p: int, q: int)
    requires
        0 <= p <= q < r.len(),
        r[q] == '\'',
        forall|k: int| p <= k < q ==> r[k] != '\'',
    ensures
        quote_from(r, p) == q,
    decreases q - p,
{
    if p < q {
        lemma_quote_from_stops(r, p + 1, q);
    }
}

/// The characters of `sql_line(row)` after `HEAD`, segment by segment.
pub open spec fn values_text(row: Row) -> Seq<char> {
    quote(row.data_type) + sep() + quote(row.identifier) + sep() + (hex_open() + hex_encode(
        row.bytes,
    ) + seq!['\'']) + sep() + quote(row.metadata) + sep() + quote(row.archived_at) + close()
}

pub proof fn lemma_sql_line_split(row: Row)
    ensures
        sql_line(row) == head() + values_text(row),
        sql_line(row).len() > head().len(),
        sql_line(row)[0] == 'I',
        sql_line(row).last() == ';',
{
    lemma_head();
    assert(sql_line(row) =~= head() + values_text(row));
}

proof fn lemma_regroup(
    a: Seq<char>,
    b: Seq<char>,
    c: Seq<char>,
    d: Seq<char>,
    e: Seq<char>,
    f: Seq<char>,
    g: Seq<char>,
    h: Seq<char>,
    i: Seq<char>,
    j: Seq<char>,
)
    ensures
        a + b + c + d + e + f + g + h + i + j == Seq::<char>::empty() + a + b + (c + d + e + f + g
            + h + i + j),
        a + b + c + d + e + f + g + h + i + j == a + b + c + d + (e + f + g + h + i + j),
        a + b + c + d + e + f + g + h + i + j == a + b + c + d + e + f + (g + h + i + j),
        a + b + c + d + e + f + g + h + i + j == a + b + c + d + e + f + g + h + (i + j),
        a + b + c + d + e + f + g + h + i + j == a + b + c + d + e + f + g + h + i + j
            + Seq::<char>::empty(),
        Seq::<char>::empty() + a + b == a + b,
{
    assert(a + b + c + d + e + f + g + h + i + j =~= Seq::<char>::empty() + a + b + (c + d + e + f
        + g + h + i + j));
    assert(a + b + c + d + e + f + g + h + i + j =~= a + b + c + d + (e + f + g + h + i + j));
    assert(a + b + c + d + e + f + g + h + i + j =~= a + b + c + d + e + f + (g + h + i + j));
    assert(a + b + c + d + e + f + g + h + i + j =~= a + b + c + d + e + f + g + h + (i + j));
    assert(a + b + c + d + e + f + g + h + i + j =~= a + b + c + d + e + f + g + h + i + j
        + Seq::<char>::empty());
    assert(Seq::<char>::empty() + a + b =~= a + b);
}

/// The pieces of `values_text(row)`, in order.
pub open spec fn pieces(row: Row) -> (
    Seq<char>,
    Seq<char>,
    Seq<char>,
    Seq<char>,
    Seq<char>,
    Seq<char>,
    Seq<char>,
    Seq<char>,
    Seq<char>,
    Seq<char>,
) {
    (
        quote(row.data_type),
        sep(),
        quote(row.identifier),
        sep(),
        hex_open() + hex_encode(row.bytes) + seq!['\''],
        sep(),
        quote(row.metadata),
        sep(),
        quote(row.archived_at),
        close(),
    )
}

proof fn lemma_step_data_type(row: Row)
    ensures
        ({
            let (a, b, c, d, e, f, g, h, i, j) = pieces(row);
            string_then(values_text(row), 0, sep()) == Ok::<(Seq<char>, int), ParseFailure>(
                (row.data_type, (a + b).len() as int),
            )
        }),
{
    let (a, b, c, d, e, f, g, h, i, j) = pieces(row);
    lemma_regroup(a, b, c, d, e, f, g, h, i, j);
    lemma_string_then_written(Seq::<char>::empty(), row.data_type, b, c + d + e + f + g + h + i + j);
}

proof fn lemma_step_identifier(row: Row)
    ensures
        ({
            let (a, b, c, d, e, f, g, h, i, j) = pieces(row);
            string_then(values_text(row), (a + b).len() as int, sep()) == Ok::<
                (Seq<char>, int),
                ParseFailure,
            >((row.identifier, (a + b + c + d).len() as int))
        }),
{
    let (a, b, c, d, e, f, g, h, i, j) = pieces(row);
    lemma_regroup(a, b, c, d, e, f, g, h, i, j);
    lemma_string_then_written(a + b, row.identifier, d, e + f + g + h + i + j);
}

proof fn lemma_step_bytes(row: Row)
    ensures
        ({
            let (a, b, c, d, e, f, g, h, i, j) = pieces(row);
            hex_then(values_text(row), (a + b + c + d).len() as int, sep()) == Ok::<
                (Seq<u8>, int),
                ParseFailure,
            >((row.bytes, (a + b + c + d + e + f).len() as int))
        }),
{
    let (a, b, c, d, e, f, g, h, i, j) = pieces(row);
    lemma_regroup(a, b, c, d, e, f, g, h, i, j);
    lemma_hex_then_written(a + b + c + d, row.bytes, f, g + h + i + j);
}

proof fn lemma_step_metadata(row: Row)
    ensures
        ({
            let (a, b, c, d, e, f, g, h, i, j) = pieces(row);
            string_then(values_text(row), (a + b + c + d + e + f).len() as int, sep()) == Ok::<
                (Seq<char>, int),
                ParseFailure,
            >((row.metadata, (a + b + c + d + e + f + g + h).len() as int))
        }),
{
    let (a, b, c, d, e, f, g, h, i, j) = pieces(row);
    lemma_regroup(a, b, c, d, e, f, g, h, i, j);
    lemma_string_then_written(a + b + c + d + e + f, row.metadata, h, i + j);
}

proof fn lemma_step_archived_at(row: Row)
    ensures
        ({
            let (a, b, c, d, e, f, g, h, i, j) = pieces(row);
            string_then(values_text(row), (a + b + c + d + e + f + g + h).len() as int, close())
                == Ok::<(Seq<char>, int), ParseFailure>(
                (row.archived_at, values_text(row).len() as int),
            )
        }),
{
    let (a, b, c, d, e, f, g, h, i, j) = pieces(row);
    lemma_regroup(a, b, c, d, e, f, g, h, i, j);
    lemma_string_then_written(
        a + b + c + d + e + f + g + h,
        row.archived_at,
        j,
        Seq::<char>::empty(),
    );
}

proof fn lemma_values_from_steps(r: Seq<char>, row: Row, p1: int, p2: int, p3: int, p4: int)
    requires
        string_then(r, 0, sep()) == Ok::<(Seq<char>, int), ParseFailure>((row.data_type, p1)),
        string_then(r, p1, sep()) == Ok::<(Seq<char>, int), ParseFailure>((row.identifier, p2)),
        hex_then(r, p2, sep()) == Ok::<(Seq<u8>, int), ParseFailure>((row.bytes, p3)),
        string_then(r, p3, sep()) == Ok::<(Seq<char>, int), ParseFailure>((row.metadata, p4)),
        string_then(r, p4, close()) == Ok::<(Seq<char>, int), ParseFailure>(
            (row.archived_at, r.len() as int),
        ),
    ensures
        parse_values(r) == Ok::<Row, ParseFailure>(row),
{
}

pub proof fn lemma_parse_values_written(row: Row)
    ensures
        parse_values(values_text(row)) == Ok::<Row, ParseFailure>(row),
{
    let (a, b, c, d, e, f, g, h, i, j) = pieces(row);
    lemma_step_data_type(row);
    lemma_step_identifier(row);
    lemma_step_bytes(row);
    lemma_step_metadata(row);
    lemma_step_archived_at(row);
    lemma_values_from_steps(
        values_text(row),
        row,
        (a + b).len() as int,
        (a + b + c + d).len() as int,
        (a + b + c + d + e + f).len() as int,
        (a + b + c + d + e + f + g + h).len() as int,
    );
}

/// Reading a written statement gives its row back.
pub proof fn law_statement_reads_back(row: Row)
    ensures
        parse_line(sql_line(row)) == Ok::<Row, ParseFailure>(row),
{
    let f = sql_line(row);
    lemma_sql_line_split(row);
    assert(!is_white_space(f[0]));
    assert(!is_white_space(f.last()));
    assert(trim_start(f) == f);
    assert(trim_end(f) == f);
    assert(f.take(head().len() as int) =~= head());
    assert(f.skip(head().len() as int) =~= values_text(row));
    lemma_parse_values_written(row);
}

proof fn lemma_quote_from_prefix(r: Seq<char>, p: int, n: int)
    requires
        0 <= p <= n <= r.len(),
    ensures
        quote_from(r.take(n), p) == if quote_from(r, p) < n {
            quote_from(r, p)
        } else {
            n
        },
    decreases r.len() - p,
{
    if p < n {
        assert(r.take(n)[p] == r[p]);
        if r[p] != '\'' {
            lemma_quote_from_prefix(r, p + 1, n);
        }
    } else {
        lemma_quote_from(r, p);
    }
}

proof fn lemma_expect_prefix(r: Seq<char>, pos: int, tok: Seq<char>, n: int)
    requires
        0 <= pos <= n <= r.len(),
        expect_at(r, pos, tok) is Ok,
    ensures
        n >= pos + tok.len() ==> expect_at(r.take(n), pos, tok) == expect_at(r, pos, tok),
        n < pos + tok.len() ==> expect_at(r.take(n), pos, tok) is Err,
{
    if n >= pos + tok.len() {
        assert(r.take(n).subrange(pos, pos + tok.len()) == r.subrange(pos, pos + tok.len()));
    }
}

proof fn lemma_string_then_prefix(r: Seq<char>, pos: int, tok: Seq<char>, n: int)
    requires
        0 <= pos <= n <= r.len(),
        string_then(r, pos, tok) is Ok,
        tok.len() > 0,
    ensures
        match string_then(r, pos, tok) {
            Ok((_, q)) => {
                &&& n >= q ==> string_then(r.take(n), pos, tok) == string_then(r, pos, tok)
                &&& n < q ==> string_then(r.take(n), pos, tok) is Err
            },
            Err(_) => true,
        },
{
    let x = r.take(n);
    assert(r[pos] == '\'');
    lemma_read_literal_prefix(r, pos + 1, r.len() as int);
    let (v, e) = read_literal(r, pos + 1)->Some_0;
    let q = e + tok.len();
    assert(string_then(r, pos, tok) == Ok::<(Seq<char>, int), ParseFailure>((v, q)));
    if pos < n {
        assert(x[pos] == r[pos]);
        lemma_read_literal_prefix(r, pos + 1, n);
        if n >= e {
            assert(read_literal(x, pos + 1) == Some((v, e)));
            assert(string_at(x, pos) == Ok::<(Seq<char>, int), ParseFailure>((v, e)));
            lemma_expect_prefix(r, e, tok, n);
        } else {
            match read_literal(x, pos + 1) {
                Some((_, e2)) => {
                    assert(e2 == n);
                    assert(expect_at(x, n, tok) is Err);
                },
                None => {},
            }
        }
    } else {
        assert(string_at(x, pos) is Err);
    }
}

proof fn lemma_hex_then_prefix(r: Seq<char>, pos: int, tok: Seq<char>, n: int)
    requires
        0 <= pos <= n <= r.len(),
        hex_then(r, pos, tok) is Ok,
    ensures
        match hex_then(r, pos, tok) {
            Ok((_, q)) => {
                &&& n >= q ==> hex_then(r.take(n), pos, tok) == hex_then(r, pos, tok)
                &&& n < q ==> hex_then(r.take(n), pos, tok) is Err
            },
            Err(_) => true,
        },
{
    let x = r.take(n);
    lemma_expect_prefix(r, pos, hex_open(), n);
    let p = pos + 2;
    lemma_quote_from(r, p);
    let qq = quote_from(r, p);
    let b = hex_decode(r.subrange(p, qq));
    assert(hex_at(r, pos) == Ok::<(Seq<u8>, int), ParseFailure>((b, qq + 1)));
    let q = qq + 1 + tok.len();
    assert(hex_then(r, pos, tok) == Ok::<(Seq<u8>, int), ParseFailure>((b, q)));
    if n >= p {
        lemma_quote_from_prefix(r, p, n);
        if qq < n {
            assert(x.subrange(p, qq) == r.subrange(p, qq));
            assert(hex_at(x, pos) == Ok::<(Seq<u8>, int), ParseFailure>((b, qq + 1)));
            lemma_expect_prefix(r, qq + 1, tok, n);
        } else {
            assert(quote_from(x, p) == n);
            assert(hex_at(x, pos) is Err);
        }
    } else {
        assert(expect_at(x, pos, hex_open()) is Err);
    }
}

/// No proper prefix of a text after `HEAD` that reads as five values reads
/// as five values too.
pub proof fn lemma_parse_values_prefix_free(r: Seq<char>, n: int)
    requires
        parse_values(r) is Ok,
        0 <= n < r.len(),
    ensures
        parse_values(r.take(n)) is Err,
{
    let x = r.take(n);
    let (sp, cl) = (sep(), close());
    lemma_string_then_prefix(r, 0, sp, n);
    let (_, p1) = string_then(r, 0, sp)->Ok_0;
    if n >= p1 {
        lemma_string_then_prefix(r, p1, sp, n);
        let (_, p2) = string_then(r, p1, sp)->Ok_0;
        if n >= p2 {
            lemma_hex_then_prefix(r, p2, sp, n);
            let (_, p3) = hex_then(r, p2, sp)->Ok_0;
            if n >= p3 {
                lemma_string_then_prefix(r, p3, sp, n);
                let (_, p4) = string_then(r, p3, sp)->Ok_0;
                if n >= p4 {
                    lemma_string_then_prefix(r, p4, cl, n);
                }
            }
        }
    }
}

/// A written statement cut anywhere short of its end is refused.
pub proof fn law_cut_statement_refused(row: Row, k: int)
    requires
        0 <= k < sql_line(row).len(),
    ensures
        parse_line(sql_line(row).take(k)) is Err,
{
    let f = sql_line(row);
    lemma_sql_line_split(row);
    let c = f.take(k);
    if k > 0 {
        assert(c[0] == 'I');
        assert(trim_start(c) == c);
    } else {
        assert(trim_start(c) == c);
    }
    let m = lemma_trim_end_is_prefix(c);
    let t = trim(c);
    assert(t == f.take(m));
    let h = head().len() as int;
    if h <= t.len() && t.take(h) == head() {
        let r = values_text(row);
        assert(f.skip(h) == r);
        assert(t.skip(h) == r.take(m - h));
        lemma_parse_values_written(row);
        lemma_parse_values_prefix_free(r, m - h);
    }
}


proof fn lemma_concat_free(a: Seq<char>, b: Seq<char>, c: char)
    requires
        !a.contains(c),
        !b.contains(c),
    ensures
        !(a + b).contains(c),
{
    assert forall|k: int| 0 <= k < (a + b).len() implies (a + b)[k] != c by {
        if k < a.len() {
            assert((a + b)[k] == a[k]);
        } else {
            assert((a + b)[k] == b[k - a.len()]);
        }
    }
}

proof fn lemma_quote_body_free(s: Seq<char>, c: char)
    requires
        c != '\'',
        !s.contains(c),
    ensures
        !quote_body(s).contains(c),
    decreases s.len(),
{
    if s.len() > 0 {
        assert(s[0] != c);
        assert forall|k: int| 0 <= k < s.drop_first().len() implies s.drop_first()[k] != c by {
            assert(s.drop_first()[k] == s[k + 1]);
        }
        lemma_quote_body_free(s.drop_first(), c);
        lemma_concat_free(crate::literal::escape(s[0]), quote_body(s.drop_first()), c);
    }
}

proof fn lemma_quote_free(s: Seq<char>, c: char)
    requires
        c != '\'',
        !s.contains(c),
    ensures
        !quote(s).contains(c),
{
    lemma_quote_body_free(s, c);
    lemma_concat_free(seq!['\''], quote_body(s), c);
    lemma_concat_free(seq!['\''] + quote_body(s), seq!['\''], c);
}

proof fn lemma_hex_free(b: Seq<u8>)
    ensures
        !hex_encode(b).contains('\n'),
{
    let h = hex_encode(b);
    assert forall|k: int| 0 <= k < h.len() implies h[k] != '\n' by {
        let v = b[k / 2] as int;
        assert(0 <= v / 16 < 16 && 0 <= v % 16 < 16);
        assert(hex_value(h[k]) is Some);
    }
}

/// A written statement is one line where none of its texts holds a line feed.
pub proof fn law_statement_is_one_line(row: Row)
    requires
        !row.data_type.contains('\n'),
        !row.identifier.contains('\n'),
        !row.metadata.contains('\n'),
        !row.archived_at.contains('\n'),
    ensures
        !sql_line(row).contains('\n'),
{
    let (a, b, c, d, e, f, g, h, i, j) = pieces(row);
    lemma_head();
    lemma_quote_free(row.data_type, '\n');
    lemma_quote_free(row.identifier, '\n');
    lemma_quote_free(row.metadata, '\n');
    lemma_quote_free(row.archived_at, '\n');
    lemma_hex_free(row.bytes);
    assert(!sep().contains('\n'));
    assert(!close().contains('\n'));
    assert(!hex_open().contains('\n'));
    lemma_concat_free(hex_open(), hex_encode(row.bytes), '\n');
    assert(!seq!['\''].contains('\n'));
    lemma_concat_free(hex_open() + hex_encode(row.bytes), seq!['\''], '\n');
    lemma_concat_free(head(), a, '\n');
    lemma_concat_free(head() + a, b, '\n');
    lemma_concat_free(head() + a + b, c, '\n');
    lemma_concat_free(head() + a + b + c, d, '\n');
    lemma_concat_free(head() + a + b + c + d, e, '\n');
    lemma_concat_free(head() + a + b + c + d + e, f, '\n');
    lemma_concat_free(head() + a + b + c + d + e + f, g, '\n');
    lemma_concat_free(head() + a + b + c + d + e + f + g, h, '\n');
    lemma_concat_free(head() + a + b + c + d + e + f + g + h, i, '\n');
    lemma_concat_free(head() + a + b + c + d + e + f + g + h + i, j, '\n');
    lemma_regroup_line(row);
}

proof fn lemma_regroup_line(row: Row)
    ensures
        ({
            let (a, b, c, d, e, f, g, h, i, j) = pieces(row);
            sql_line(row) == head() + a + b + c + d + e + f + g + h + i + j
        }),
{
    let (a, b, c, d, e, f, g, h, i, j) = pieces(row);
    assert(sql_line(row) =~= head() + a + b + c + d + e + f + g + h + i + j);
}


proof fn lemma_read_literal_extend(x: Seq<char>, y: Seq<char>, i: int)
    requires
        0 <= i,
        read_literal(x, i) is Some,
        read_literal(x, i)->Some_0.1 < x.len(),
    ensures
        read_literal(x + y, i) == read_literal(x, i),
    decreases x.len() - i,
{
    let z = x + y;
    assert(z[i] == x[i]);
    if x[i] == '\'' {
        if i + 1 < x.len() && x[i + 1] == '\'' {
            assert(z[i + 1] == x[i + 1]);
            lemma_read_literal_extend(x, y, i + 2);
        } else {
            assert(z[i + 1] == x[i + 1]);
        }
    } else {
        lemma_read_literal_extend(x, y, i + 1);
    }
}

proof fn lemma_expect_extend(x: Seq<char>, y: Seq<char>, pos: int, tok: Seq<char>)
    requires
        expect_at(x, pos, tok) is Ok,
    ensures
        expect_at(x + y, pos, tok) == expect_at(x, pos, tok),
{
    assert((x + y).subrange(pos, pos + tok.len()) == x.subrange(pos, pos + tok.len()));
}

proof fn lemma_string_then_extend(x: Seq<char>, y: Seq<char>, pos: int, tok: Seq<char>)
    requires
        string_then(x, pos, tok) is Ok,
        tok.len() > 0,
    ensures
        string_then(x + y, pos, tok) == string_then(x, pos, tok),
{
    assert((x + y)[pos] == x[pos]);
    let (_, e) = read_literal(x, pos + 1)->Some_0;
    lemma_read_literal_extend(x, y, pos + 1);
    lemma_expect_extend(x, y, e, tok);
}

proof fn lemma_quote_from_extend(x: Seq<char>, y: Seq<char>, p: int)
    requires
        0 <= p,
        quote_from(x, p) < x.len(),
    ensures
        quote_from(x + y, p) == quote_from(x, p),
    decreases x.len() - p,
{
    assert((x + y)[p] == x[p]);
    if x[p] != '\'' {
        lemma_quote_from_extend(x, y, p + 1);
    }
}

proof fn lemma_hex_then_extend(x: Seq<char>, y: Seq<char>, pos: int, tok: Seq<char>)
    requires
        hex_then(x, pos, tok) is Ok,
    ensures
        hex_then(x + y, pos, tok) == hex_then(x, pos, tok),
{
    lemma_expect_extend(x, y, pos, hex_open());
    let p = pos + 2;
    let q = quote_from(x, p);
    lemma_quote_from(x, p);
    lemma_quote_from_extend(x, y, p);
    assert((x + y).subrange(p, q) =~= x.subrange(p, q));
    lemma_expect_extend(x, y, q + 1, tok);
}

/// Text after the five values of `x` is refused, and named.
pub proof fn lemma_parse_values_text_after(x: Seq<char>, y: Seq<char>)
    requires
        parse_values(x) is Ok,
        y.len() > 0,
    ensures
        parse_values(x + y) == Err::<Row, ParseFailure>(ParseFailure::TextAfter { rest: y }),
{
    let (sp, cl) = (sep(), close());
    lemma_string_then_extend(x, y, 0, sp);
    let (_, p1) = string_then(x, 0, sp)->Ok_0;
    lemma_string_then_extend(x, y, p1, sp);
    let (_, p2) = string_then(x, p1, sp)->Ok_0;
    lemma_hex_then_extend(x, y, p2, sp);
    let (_, p3) = hex_then(x, p2, sp)->Ok_0;
    lemma_string_then_extend(x, y, p3, sp);
    let (_, p4) = string_then(x, p3, sp)->Ok_0;
    lemma_string_then_extend(x, y, p4, cl);
    assert((x + y).skip(x.len() as int) == y);
}

} // verus!
