//! What holds of the archive across its operations: what archiving writes,
//! restoring reads back.

use vstd::prelude::*;

use crate::digest::sha256_digest;
use crate::clock::{padded, timestamp};
use crate::hex::hex_encode;
use crate::literal::{quote, quote_body};
use crate::metadata::{
    decode, decode_pieces, encodable, encode, index_from, law_metadata_roundtrip, lemma_encode_free, lemma_index_from_stops, split_once,
};
use crate::statement::{
    head, law_statement_is_one_line, law_statement_reads_back, lemma_parse_values_text_after,
    lemma_parse_values_written, lemma_sql_line_split, parse_line, sql_line, values_text,
    ParseFailure, Row,
};
use crate::store::{
    item_of, keeps, settled, location_of, names_script, prefix_of, restored, row_of, sanitised,
    scan, scan_from, scan_step, script_of, target, uri_path_of, ItemView,
};
use crate::text::{
    all_white_space, decimal, digit_char, lemma_lines_concat, lemma_lines_one, lemma_trim_around, lemma_trim_end_concat,
    lines, trim, trim_end, trim_start,
};

verus! {

/// Sanitising twice changes nothing more, and what comes out holds only ASCII
/// letters, digits, `-` and `_`.
pub proof fn law_sanitise_settles(segment: Seq<char>)
    ensures
        sanitised(sanitised(segment)) == sanitised(segment),
        forall|k: int|
            0 <= k < sanitised(segment).len() ==> keeps(#[trigger] sanitised(segment)[k])
                || sanitised(segment)[k] == '_',
{
    assert(sanitised(sanitised(segment)) =~= sanitised(segment));
}

/// The path part of a receipt opens with a slash and holds no backslash.
pub proof fn law_uri_path_shape(path: Seq<char>)
    ensures
        uri_path_of(path).len() > 0,
        uri_path_of(path)[0] == '/',
        !uri_path_of(path).contains('\\'),
{
    let u = uri_path_of(path);
    assert forall|k: int| 0 <= k < u.len() implies u[k] != '\\' by {
        if !(path.len() > 0 && crate::store::forward_slashes(path)[0] == '/') {
            assert(u == seq!['/'] + crate::store::forward_slashes(path));
            if k > 0 {
                assert(u[k] == crate::store::forward_slashes(path)[k - 1]);
            }
        }
    }
}

/// A location that names a script names a file directly under the root: a
/// name without slashes or backslashes that sanitising leaves as it is,
/// ending in `.sql`. So nothing outside the root is ever read.
pub proof fn law_target_stays_under_root(root: Seq<char>, location: Seq<char>)
    requires
        target(root, location) is Ok,
    ensures
        names_script(target(root, location)->Ok_0.0),
        !target(root, location)->Ok_0.0.contains('/'),
        !target(root, location)->Ok_0.0.contains('\\'),
{
    reveal_strlit(".sql");
    let pre = prefix_of(root);
    let (script, _) = split_once(location.skip(pre.len() as int), '#')->Some_0;
    let n = script.len() - 4;
    assert forall|k: int| 0 <= k < script.len() implies script[k] != '/' && script[k] != '\\' by {
        if k < n {
            let stem = script.take(n);
            assert(stem[k] == script[k]);
            assert(sanitised(stem)[k] == stem[k]);
        } else {
            assert(script.skip(n)[k - n] == script[k]);
        }
    }
    assert(target(root, location)->Ok_0.0 == script);
}

/// The location on the receipt of an archived item names the item's script
/// and its identifier, whatever the identifier holds, where the data type is
/// not empty.
pub proof fn law_receipt_names_script(root: Seq<char>, item: ItemView)
    requires
        item.data_type.len() > 0,
    ensures
        target(root, location_of(root, item)) == Ok::<(Seq<char>, Seq<char>), Seq<char>>(
            (script_of(item.data_type), item.identifier),
        ),
{
    reveal_strlit(".sql");
    let pre = prefix_of(root);
    let script = script_of(item.data_type);
    let stem = sanitised(item.data_type);
    let loc = location_of(root, item);
    let rest = script + seq!['#'] + item.identifier;
    assert(loc =~= pre + rest);
    assert(loc.take(pre.len() as int) =~= pre);
    assert(loc.skip(pre.len() as int) =~= rest);
    assert forall|k: int| 0 <= k < script.len() implies rest[k] != '#' by {
        assert(rest[k] == script[k]);
        if k < stem.len() {
            assert(script[k] == stem[k]);
            assert(keeps(stem[k]) || stem[k] == '_');
        } else {
            assert(script[k] == ".sql"@[k - stem.len()]);
        }
    }
    assert(rest[script.len() as int] == '#');
    lemma_index_from_stops(rest, '#', 0, script.len() as int);
    assert(rest.take(script.len() as int) =~= script);
    assert(rest.skip(script.len() as int + 1) =~= item.identifier);
    assert(split_once(rest, '#') == Some((script, item.identifier)));
    assert(script.skip(script.len() - 4) =~= ".sql"@);
    assert(script.take(script.len() - 4) =~= stem);
    law_sanitise_settles(item.data_type);
    assert(names_script(script));
}

proof fn lemma_scan_concat(
    x: Seq<Seq<char>>,
    y: Seq<Seq<char>>,
    identifier: Seq<char>,
    offset: int,
    init: Option<Row>,
)
    ensures
        scan_from(x + y, identifier, offset, init) == match scan_from(x, identifier, offset, init) {
            Err(e) => Err(e),
            Ok(found) => scan_from(y, identifier, offset + x.len(), found),
        },
    decreases y.len(),
{
    if y.len() == 0 {
        assert(x + y == x);
    } else {
        assert((x + y).drop_last() == x + y.drop_last());
        assert((x + y).last() == y.last());
        lemma_scan_concat(x, y.drop_last(), identifier, offset, init);
    }
}

proof fn lemma_scan_neutral(
    y: Seq<Seq<char>>,
    identifier: Seq<char>,
    offset: int,
    other: int,
    init: Option<Row>,
)
    requires
        scan_from(y, identifier, offset, None) == Ok::<Option<Row>, (int, ParseFailure)>(None),
    ensures
        scan_from(y, identifier, other, init) == Ok::<Option<Row>, (int, ParseFailure)>(init),
    decreases y.len(),
{
    if y.len() > 0 {
        let front = scan_from(y.drop_last(), identifier, offset, None);
        assert(front == Ok::<Option<Row>, (int, ParseFailure)>(None));
        lemma_scan_neutral(y.drop_last(), identifier, offset, other, init);
    }
}

proof fn lemma_script_lines(before: Seq<char>, line: Seq<char>, after: Seq<char>)
    requires
        !line.contains('\n'),
        line.len() > 0,
        line.last() != '\r',
        before.len() == 0 || before.last() == '\n',
    ensures
        lines(before + line + seq!['\n'] + after) == lines(before) + seq![line] + lines(after),
{
    lemma_lines_one(line);
    let text = before + line + seq!['\n'] + after;
    assert(text =~= before + ((line + seq!['\n']) + after));
    lemma_lines_concat(before, (line + seq!['\n']) + after);
    lemma_lines_concat(line + seq!['\n'], after);
    assert(lines(text) =~= (lines(before) + seq![line]) + lines(after));
}

proof fn lemma_scan_finds(
    a: Seq<Seq<char>>,
    line: Seq<char>,
    b: Seq<Seq<char>>,
    id: Seq<char>,
    row: Row,
)
    requires
        scan(a, id) is Ok,
        trim(line).len() > 0,
        parse_line(line) == Ok::<Row, ParseFailure>(row),
        row.identifier == id,
        scan(b, id) == Ok::<Option<Row>, (int, ParseFailure)>(None),
    ensures
        scan(a + seq![line] + b, id) == Ok::<Option<Row>, (int, ParseFailure)>(Some(row)),
{
    lemma_scan_concat(a + seq![line], b, id, 0, None);
    lemma_scan_concat(a, seq![line], id, 0, None);
    let f0 = scan(a, id)->Ok_0;
    let one = seq![line];
    assert(one.drop_last() =~= Seq::<Seq<char>>::empty());
    assert(one.last() == line);
    assert(scan_from(one.drop_last(), id, a.len() as int, f0) == Ok::<
        Option<Row>,
        (int, ParseFailure),
    >(f0));
    assert(scan_from(one, id, a.len() as int, f0) == scan_step(line, a.len() as int, id, f0));
    lemma_scan_neutral(b, id, 0, a.len() as int + 1, Some(row));
}

proof fn lemma_line_readable(row: Row)
    requires
        !row.data_type.contains('\n'),
        !row.identifier.contains('\n'),
        !row.metadata.contains('\n'),
        !row.archived_at.contains('\n'),
    ensures
        !sql_line(row).contains('\n'),
        sql_line(row).len() > 0,
        sql_line(row).last() != '\r',
        trim(sql_line(row)).len() > 0,
        parse_line(sql_line(row)) == Ok::<Row, ParseFailure>(row),
{
    law_statement_is_one_line(row);
    lemma_sql_line_split(row);
    law_statement_reads_back(row);
    lemma_trimmed_line(row);
}

proof fn lemma_trimmed_line(row: Row)
    ensures
        trim(sql_line(row)).len() > 0,
{
    lemma_sql_line_split(row);
    let f = sql_line(row);
    assert(!crate::text::is_white_space(f[0]));
    assert(!crate::text::is_white_space(f.last()));
    assert(crate::text::trim_start(f) == f);
    assert(crate::text::trim_end(f) == f);
}

/// An archived item restores from its script: where the script held, before
/// the line that archiving appended, only statements and blank lines, and
/// after it only statements of other identifiers and blank lines, restoring
/// the receipt gives the item back. This asks of the item a non-empty data
/// type, texts without line feeds, and metadata whose keys hold neither
/// separator and whose values hold no pair separator.
pub proof fn law_archived_item_restores(
    root: Seq<char>,
    item: ItemView,
    archived_at: Seq<char>,
    path: Seq<char>,
    before: Seq<char>,
    after: Seq<char>,
)
    requires
        item.data_type.len() > 0,
        !item.data_type.contains('\n'),
        !item.identifier.contains('\n'),
        !archived_at.contains('\n'),
        encodable(item.metadata),
        forall|i: int|
            0 <= i < item.metadata.len() ==> !(#[trigger] item.metadata[i]).0.contains('\n')
                && !item.metadata[i].1.contains('\n'),
        before.len() == 0 || before.last() == '\n',
        scan(lines(before), item.identifier) is Ok,
        scan(lines(after), item.identifier) == Ok::<Option<Row>, (int, ParseFailure)>(None),
    ensures
        restored(
            root,
            location_of(root, item),
            Some(hex_encode(sha256_digest(item.bytes))),
            path,
            before + sql_line(row_of(item, archived_at)) + seq!['\n'] + after,
        ) == Ok::<ItemView, Seq<char>>(item),
{
    let row = row_of(item, archived_at);
    let line = sql_line(row);
    lemma_encode_free(item.metadata, '\n');
    lemma_line_readable(row);
    lemma_script_lines(before, line, after);
    lemma_scan_finds(lines(before), line, lines(after), item.identifier, row);
    law_receipt_names_script(root, item);
    law_metadata_roundtrip(item.metadata);
    assert(item_of(row) == item);
}


/// White space around a line makes no difference to what it reads as.
pub proof fn law_white_space_ignored(lead: Seq<char>, line: Seq<char>, trail: Seq<char>)
    requires
        all_white_space(lead),
        all_white_space(trail),
    ensures
        parse_line(lead + line + trail) == parse_line(line),
{
    lemma_trim_around(lead, line, trail);
}

/// Text after the closing `);` of a statement is refused, and the refusal
/// names that text, up to its trailing white space.
pub proof fn law_text_after_statement_refused(row: Row, extra: Seq<char>)
    requires
        trim_end(extra).len() > 0,
    ensures
        parse_line(sql_line(row) + extra) == Err::<Row, ParseFailure>(
            ParseFailure::TextAfter { rest: trim_end(extra) },
        ),
{
    let f = sql_line(row);
    let te = trim_end(extra);
    lemma_sql_line_split(row);
    assert((f + extra)[0] == f[0]);
    assert(!crate::text::is_white_space(f[0]));
    assert(trim_start(f + extra) == f + extra);
    lemma_trim_end_concat(f, extra);
    let t = f + te;
    assert(trim(f + extra) == t);
    let h = head().len() as int;
    assert(t.take(h) =~= head());
    assert(t.skip(h) =~= values_text(row) + te);
    lemma_parse_values_written(row);
    lemma_parse_values_text_after(values_text(row), te);
}


/// Sanitising keeps every ASCII letter, every ASCII digit and `-` where it
/// stands, and turns every other character into `_`.
pub proof fn law_sanitise_keeps_plain_characters(segment: Seq<char>)
    ensures
        sanitised(segment).len() == segment.len(),
        forall|k: int|
            0 <= k < segment.len() ==> {
                let c = #[trigger] segment[k];
                if ('a' <= c <= 'z') || ('A' <= c <= 'Z') || ('0' <= c <= '9') || c == '-' {
                    sanitised(segment)[k] == c
                } else {
                    sanitised(segment)[k] == '_'
                }
            },
{
}

/// A text without quotes stands between two quotes as it is.
pub proof fn law_quote_plain_text(s: Seq<char>)
    requires
        !s.contains('\''),
    ensures
        quote(s) == seq!['\''] + s + seq!['\''],
{
    lemma_quote_body_plain(s);
}

proof fn lemma_quote_body_plain(s: Seq<char>)
    requires
        !s.contains('\''),
    ensures
        quote_body(s) == s,
    decreases s.len(),
{
    if s.len() > 0 {
        assert(s[0] != '\'');
        assert forall|k: int| 0 <= k < s.drop_first().len() implies s.drop_first()[k] != '\'' by {
            assert(s.drop_first()[k] == s[k + 1]);
        }
        lemma_quote_body_plain(s.drop_first());
        assert(seq![s[0]] + s.drop_first() == s);
    }
}

/// In a literal each quote is written twice and every other character once,
/// as it is, in order.
pub proof fn law_quote_doubles_only_quotes(s: Seq<char>, t: Seq<char>, c: char)
    ensures
        quote_body(s + t) == quote_body(s) + quote_body(t),
        c == '\'' ==> quote_body(seq![c]) == seq!['\'', '\''],
        c != '\'' ==> quote_body(seq![c]) == seq![c],
    decreases s.len(),
{
    let one = seq![c];
    assert(one.drop_first() == Seq::<char>::empty());
    assert(quote_body(one) == crate::literal::escape(c) + quote_body(Seq::<char>::empty()));
    if s.len() > 0 {
        assert((s + t).drop_first() == s.drop_first() + t);
        assert((s + t)[0] == s[0]);
        law_quote_doubles_only_quotes(s.drop_first(), t, c);
    } else {
        assert(s + t == t);
    }
}

/// A text without line feeds that does not end in a carriage return is one
/// line, whether or not a line feed follows it; and such a text read last in
/// a script is its last line.
pub proof fn law_last_line_without_feed(x: Seq<char>, s: Seq<char>)
    requires
        s.len() > 0,
        !s.contains('\n'),
        s.last() != '\r',
        x.len() == 0 || x.last() == '\n',
    ensures
        lines(s) == seq![s],
        lines(x + s) == lines(x) + seq![s],
{
    lemma_line_alone(s, 0);
    assert(s.take(0) == Seq::<char>::empty());
    lemma_lines_concat(x, s);
}

proof fn lemma_line_alone(s: Seq<char>, i: int)
    requires
        !s.contains('\n'),
        s.len() > 0,
        0 <= i <= s.len(),
    ensures
        crate::text::lines_acc(s, i, s.take(i)) == seq![s],
    decreases s.len() - i,
{
    if i < s.len() {
        assert(s[i] != '\n');
        assert(s.take(i).push(s[i]) == s.take(i + 1));
        lemma_line_alone(s, i + 1);
    } else {
        assert(s.take(i) == s);
    }
}

/// The URI path of `path` is `path` with each backslash turned into a slash,
/// with one slash put in front where that does not already open with one.
pub proof fn law_uri_path_slashes(path: Seq<char>)
    ensures
        ({
            let u = uri_path_of(path);
            if path.len() > 0 && (path[0] == '/' || path[0] == '\\') {
                &&& u.len() == path.len()
                &&& forall|k: int|
                    0 <= k < path.len() ==> u[k] == if #[trigger] path[k] == '\\' {
                        '/'
                    } else {
                        path[k]
                    }
            } else {
                &&& u.len() == path.len() + 1
                &&& u[0] == '/'
                &&& forall|k: int|
                    0 <= k < path.len() ==> u[k + 1] == if #[trigger] path[k] == '\\' {
                        '/'
                    } else {
                        path[k]
                    }
            }
        }),
{
}


/// The value of a lowercase hex digit.
pub open spec fn lowercase_digit_value(c: char) -> int {
    if '0' <= c <= '9' {
        c as int - '0' as int
    } else {
        c as int - 'a' as int + 10
    }
}

/// Whether `c` is a decimal digit or one of `a` to `f`.
pub open spec fn is_lowercase_hex_digit(c: char) -> bool {
    ('0' <= c <= '9') || ('a' <= c <= 'f')
}

/// Bytes are written as two lowercase hex digits each, the high half first:
/// the digits of byte `k` stand at `2k` and `2k + 1`, and read as a number in
/// base sixteen they give the byte.
pub proof fn law_hex_digits(bytes: Seq<u8>)
    ensures
        hex_encode(bytes).len() == 2 * bytes.len(),
        forall|k: int|
            0 <= k < bytes.len() ==> {
                let hi = hex_encode(bytes)[2 * k];
                let lo = hex_encode(bytes)[2 * k + 1];
                &&& is_lowercase_hex_digit(hi)
                &&& is_lowercase_hex_digit(lo)
                &&& 16 * lowercase_digit_value(hi) + lowercase_digit_value(lo) == #[trigger] bytes[k]
            },
{
    let h = hex_encode(bytes);
    assert forall|k: int| 0 <= k < bytes.len() implies {
        let hi = h[2 * k];
        let lo = h[2 * k + 1];
        &&& is_lowercase_hex_digit(hi)
        &&& is_lowercase_hex_digit(lo)
        &&& 16 * lowercase_digit_value(hi) + lowercase_digit_value(lo) == #[trigger] bytes[k]
    } by {
        assert((2 * k) % 2 == 0 && (2 * k) / 2 == k);
        assert((2 * k + 1) % 2 == 1 && (2 * k + 1) / 2 == k);
        let b = bytes[k] as int;
        assert(b == 16 * (b / 16) + b % 16);
    }
}

/// The metadata text joins the pairs in order, each as its key, the unit
/// separator U+001F and its value, with the record separator U+001E between
/// two pairs.
pub proof fn law_metadata_text(pairs: Seq<(Seq<char>, Seq<char>)>, key: Seq<char>, value: Seq<char>)
    ensures
        encode(seq![(key, value)]) == key + seq!['\u{1f}'] + value,
        pairs.len() > 0 ==> encode(pairs.push((key, value))) == encode(pairs) + seq!['\u{1e}']
            + key + seq!['\u{1f}'] + value,
        encode(Seq::<(Seq<char>, Seq<char>)>::empty()).len() == 0,
{
    let one = seq![(key, value)];
    assert(one[0] == (key, value));
    if pairs.len() > 0 {
        let more = pairs.push((key, value));
        assert(more.drop_last() == pairs);
        assert(more.last() == (key, value));
    }
}


/// The number that the decimal digits `s` stand for.
pub open spec fn digits_value(s: Seq<char>) -> int
    decreases s.len(),
{
    if s.len() == 0 {
        0
    } else {
        digits_value(s.drop_last()) * 10 + (s.last() as int - '0' as int)
    }
}

/// Whether every character of `s` is a decimal digit.
pub open spec fn all_digits(s: Seq<char>) -> bool {
    forall|k: int| 0 <= k < s.len() ==> '0' <= #[trigger] s[k] <= '9'
}

/// A number is written in decimal digits that stand for it, without leading
/// zeros.
pub proof fn law_decimal(n: nat)
    ensures
        decimal(n).len() > 0,
        all_digits(decimal(n)),
        digits_value(decimal(n)) == n,
        n > 0 ==> decimal(n)[0] != '0',
    decreases n,
{
    lemma_digit_char((n % 10) as nat);
    if n >= 10 {
        law_decimal(n / 10);
        let d = decimal(n / 10);
        assert(decimal(n) == d.push(digit_char(n % 10)));
        assert(decimal(n).drop_last() == d);
        assert(decimal(n)[0] == d[0]);
        assert(digits_value(decimal(n)) == digits_value(d) * 10 + (n % 10));
        assert((n / 10) * 10 + n % 10 == n);
    } else {
        assert(decimal(n).drop_last() =~= Seq::<char>::empty());
        assert(digits_value(Seq::<char>::empty()) == 0);
        assert(digits_value(decimal(n).drop_last()) == 0);
        assert(decimal(n).last() == digit_char(n));
        assert(n % 10 == n);
    }
}

proof fn lemma_digit_char(d: nat)
    requires
        d < 10,
    ensures
        digit_char(d) as int == d + 48,
        '0' as int == 48,
        '9' as int == 57,
{
    let b: u8 = (d + 48) as u8;
    assert(b as int == d + 48);
    assert((b as char) as int == b as int);
}

proof fn lemma_zeros_value(z: Seq<char>, d: Seq<char>)
    requires
        forall|k: int| 0 <= k < z.len() ==> #[trigger] z[k] == '0',
    ensures
        digits_value(z + d) == digits_value(d),
    decreases z.len() + d.len(),
{
    if d.len() > 0 {
        assert((z + d).drop_last() == z + d.drop_last());
        assert((z + d).last() == d.last());
        lemma_zeros_value(z, d.drop_last());
    } else {
        assert(z + d == z);
        if z.len() > 0 {
            assert(z.drop_last() + d == z.drop_last());
            lemma_zeros_value(z.drop_last(), d);
        }
    }
}

/// A number padded to a width is its decimal digits with zeros in front: at
/// least that many digits, standing for the number, and no more digits than
/// either the width or the number needs.
pub proof fn law_padded(n: nat, width: nat)
    ensures
        padded(n, width).len() >= width,
        padded(n, width).len() == width || padded(n, width) == decimal(n),
        all_digits(padded(n, width)),
        digits_value(padded(n, width)) == n,
{
    law_decimal(n);
    let d = decimal(n);
    if d.len() < width {
        let z = Seq::new((width - d.len()) as nat, |i: int| '0');
        lemma_zeros_value(z, d);
        assert forall|k: int| 0 <= k < (z + d).len() implies '0' <= #[trigger] (z + d)[k] <= '9' by {
            if k >= z.len() {
                assert((z + d)[k] == d[k - z.len()]);
            }
        }
    }
}

/// The timestamp is the year to four digits, then the month, day, hour,
/// minute and second to two digits each, with `-`, `T`, `:` and `Z` between
/// them: the fields of the civil date of the day `seconds / 86400` and of the
/// time of day `seconds % 86400`.
pub proof fn law_timestamp_fields(seconds: nat)
    ensures
        ({
            let (year, month, day) = crate::clock::civil_date((seconds / 86400) as int);
            let rest = seconds % 86400;
            timestamp(seconds) == padded(year as nat, 4) + seq!['-'] + padded(month as nat, 2)
                + seq!['-'] + padded(day as nat, 2) + seq!['T'] + padded(rest / 3600, 2) + seq![
                ':',
            ] + padded((rest % 3600) / 60, 2) + seq![':'] + padded(rest % 60, 2) + seq!['Z']
        }),
{
}


/// A script is named by its stem and `.sql`: the script of a data type is
/// the sanitised data type then `.sql`, and a location that names a script
/// names a non-empty stem of ASCII letters, digits, `-` and `_`, then `.sql`.
pub proof fn law_script_names(data_type: Seq<char>, root: Seq<char>, location: Seq<char>)
    ensures
        script_of(data_type) == sanitised(data_type) + seq!['.', 's', 'q', 'l'],
        target(root, location) is Ok ==> {
            let script = target(root, location)->Ok_0.0;
            &&& script.len() > 4
            &&& script.skip(script.len() - 4) == seq!['.', 's', 'q', 'l']
            &&& forall|k: int|
                0 <= k < script.len() - 4 ==> {
                    let c = #[trigger] script[k];
                    ('a' <= c <= 'z') || ('A' <= c <= 'Z') || ('0' <= c <= '9') || c == '-' || c
                        == '_'
                }
        },
{
    reveal_strlit(".sql");
    assert(".sql"@ =~= seq!['.', 's', 'q', 'l']);
    if target(root, location) is Ok {
        let script = target(root, location)->Ok_0.0;
        let n = script.len() - 4;
        let stem = script.take(n);
        assert forall|k: int| 0 <= k < n implies {
            let c = #[trigger] script[k];
            ('a' <= c <= 'z') || ('A' <= c <= 'Z') || ('0' <= c <= '9') || c == '-' || c == '_'
        } by {
            assert(stem[k] == script[k]);
            assert(sanitised(stem)[k] == stem[k]);
        }
    }
}


/// Every receipt of the archive at `root` opens with `sql://`, the root as a
/// URI path, and `/`.
pub proof fn law_prefix_text(root: Seq<char>)
    ensures
        prefix_of(root) == seq!['s', 'q', 'l', ':', '/', '/'] + uri_path_of(root) + seq!['/'],
{
    reveal_strlit("sql://");
    assert("sql://"@ =~= seq!['s', 'q', 'l', ':', '/', '/']);
}

/// A line that ends in a carriage return and a line feed is the line
/// without both.
pub proof fn law_crlf_line(s: Seq<char>)
    requires
        !s.contains('\n'),
    ensures
        lines(s + seq!['\r', '\n']) == seq![s],
{
    let t = s + seq!['\r'];
    assert(s + seq!['\r', '\n'] == t + seq!['\n']);
    assert forall|k: int| 0 <= k < t.len() implies t[k] != '\n' by {
        if k < s.len() {
            assert(t[k] == s[k]);
        }
    }
    lemma_line_with_feed(t, 0);
    assert(t.take(0) == Seq::<char>::empty());
    assert(t.drop_last() == s);
}

proof fn lemma_line_with_feed(t: Seq<char>, i: int)
    requires
        !t.contains('\n'),
        0 <= i <= t.len(),
    ensures
        crate::text::lines_acc(t + seq!['\n'], i, t.take(i)) == seq![crate::text::strip_cr(t)],
    decreases t.len() - i,
{
    let z = t + seq!['\n'];
    if i < t.len() {
        assert(z[i] == t[i]);
        assert(t[i] != '\n');
        assert(t.take(i).push(t[i]) == t.take(i + 1));
        lemma_line_with_feed(t, i + 1);
    } else {
        assert(z[i] == '\n');
        assert(t.take(i) == t);
        assert(crate::text::lines_acc(z, i + 1, seq![]) == Seq::<Seq<char>>::empty());
        assert(seq![crate::text::strip_cr(t)] + Seq::<Seq<char>>::empty() == seq![
            crate::text::strip_cr(t),
        ]);
    }
}

/// A blank line in a script changes nothing of what the lines before it
/// give.
pub proof fn law_blank_line_changes_nothing(ls: Seq<Seq<char>>, blank: Seq<char>, identifier: Seq<char>)
    requires
        all_white_space(blank),
    ensures
        scan(ls.push(blank), identifier) == scan(ls, identifier),
{
    lemma_trim_around(blank, Seq::<char>::empty(), Seq::<char>::empty());
    assert(blank + Seq::<char>::empty() + Seq::<char>::empty() == blank);
    assert(trim(Seq::<char>::empty()) == Seq::<char>::empty());
    assert(ls.push(blank).drop_last() == ls);
    assert(ls.push(blank).last() == blank);
}

/// A receipt whose checksum differs from that of the bytes found is refused;
/// one whose checksum matches, or that carries none, gives the item found.
pub proof fn law_checksum_decides(location: Seq<char>, expected: Option<Seq<char>>, row: Row, actual: Seq<char>)
    ensures
        (expected matches Some(x) && x != actual) ==> settled(location, expected, row, actual) is Err,
        (expected == Some(actual) || expected is None) ==> settled(location, expected, row, actual)
            == Ok::<ItemView, Seq<char>>(item_of(row)),
{
}

/// Decoding leaves out a piece that holds no unit separator U+001F, and the
/// empty text holds no pairs.
pub proof fn law_metadata_skips_pieces_without_separator(pieces: Seq<Seq<char>>, piece: Seq<char>)
    requires
        !piece.contains('\u{1f}'),
    ensures
        decode_pieces(pieces.push(piece)) == decode_pieces(pieces),
        decode(Seq::<char>::empty()).len() == 0,
{
    assert(pieces.push(piece).drop_last() == pieces);
    assert(pieces.push(piece).last() == piece);
    lemma_index_from_bound(piece, '\u{1f}', 0);
}

proof fn lemma_index_from_bound(s: Seq<char>, c: char, i: int)
    requires
        0 <= i <= s.len(),
    ensures
        i <= index_from(s, c, i) <= s.len(),
        index_from(s, c, i) < s.len() ==> s[index_from(s, c, i)] == c,
    decreases s.len() - i,
{
    if i < s.len() && s[i] != c {
        lemma_index_from_bound(s, c, i + 1);
    }
}

} // verus!
