//! The archive: one script per data type under a root, one `INSERT` line per
//! archived item, and a receipt that names the script and the identifier.
//! What touches the disk is left to the caller: this module says what line
//! to append where, and what a script's text restores.

use vstd::prelude::*;

use crate::digest::{sha256, sha256_digest};
use crate::hex::hex_encode;
use crate::metadata::{decode, decode_metadata, encode, encode_metadata, index_from, split_once};
use crate::statement::{failure_message, parse_line, sql_line, ParseFailure, Row, Statement};
use crate::text::{
    chars_between, chars_of, decimal, lines, push_all, push_decimal, same_chars, split_lines,
    string_of, trim, trim_chars,
};

verus! {

/// An item to archive, or one restored.
#[derive(Clone, Debug, PartialEq, Eq)]
pub struct ArchiveItem {
    pub data_type: String,
    pub identifier: String,
    pub bytes: Vec<u8>,
    pub metadata: Vec<(String, String)>,
}

/// An archived item as mathematical values.
pub struct ItemView {
    pub data_type: Seq<char>,
    pub identifier: Seq<char>,
    pub bytes: Seq<u8>,
    pub metadata: Seq<(Seq<char>, Seq<char>)>,
}

impl View for ArchiveItem {
    type V = ItemView;

    open spec fn view(&self) -> ItemView {
        ItemView {
            data_type: self.data_type@,
            identifier: self.identifier@,
            bytes: self.bytes@,
            metadata: self.metadata.deep_view(),
        }
    }
}

/// Where an item was archived, and the checksum of its bytes.
#[derive(Clone, Debug, PartialEq, Eq)]
pub struct ArchiveReceipt {
    pub location: String,
    pub checksum: Option<String>,
}

/// Why an item could not be archived or restored.
#[derive(Clone, Debug, PartialEq, Eq)]
pub struct ArchiveError {
    pub message: String,
}

/// An archive that keeps items as `INSERT` statements in scripts rooted at a
/// directory, one script per data type.
pub struct SqlScriptArchive {
    root: String,
}

impl View for SqlScriptArchive {
    type V = Seq<char>;

    /// The root directory's path.
    closed spec fn view(&self) -> Seq<char> {
        self.root@
    }
}

/// Whether `c` stays as it is in a script name: an ASCII letter or digit, or `-`.
pub open spec fn keeps(c: char) -> bool {
    ||| '0' <= c <= '9'
    ||| 'a' <= c <= 'z'
    ||| 'A' <= c <= 'Z'
    ||| c == '-'
}

/// What `c` becomes in a script name.
pub open spec fn sanitise_char(c: char) -> char {
    if keeps(c) {
        c
    } else {
        '_'
    }
}

/// `segment` made safe as one path segment: every character that is no ASCII
/// letter or digit and no `-` becomes `_`.
pub open spec fn sanitised(segment: Seq<char>) -> Seq<char> {
    segment.map_values(|c: char| sanitise_char(c))
}

fn sanitise_one(c: char) -> (d: char)
    ensures
        d == sanitise_char(c),
{
    if ('0' <= c && c <= '9') || ('a' <= c && c <= 'z') || ('A' <= c && c <= 'Z') || c == '-' {
        c
    } else {
        '_'
    }
}

fn sanitised_chars(segment: &[char]) -> (out: Vec<char>)
    ensures
        out@ == sanitised(segment@),
{
    let mut out: Vec<char> = Vec::new();
    let mut i: usize = 0;
    while i < segment.len()
        invariant
            i <= segment.len(),
            out@ == sanitised(segment@.take(i as int)),
        decreases segment.len() - i,
    {
        out.push(sanitise_one(segment[i]));
        assert(sanitised(segment@.take(i + 1)) == sanitised(segment@.take(i as int)).push(
            sanitise_char(segment@[i as int]),
        ));
        i = i + 1;
    }
    assert(segment@.take(segment.len() as int) == segment@);
    out
}

/// Make one path segment safe: anything but a plain filename character
/// becomes an underscore, so a data type like `hl7/v2` is a valid script name.
pub fn sanitise(segment: &str) -> (safe: String)
    ensures
        safe@ == sanitised(segment@),
{
    let chars = chars_of(segment);
    string_of(sanitised_chars(chars.as_slice()).as_slice())
}

/// `path` with each backslash turned into a slash.
pub open spec fn forward_slashes(path: Seq<char>) -> Seq<char> {
    path.map_values(|c: char| if c == '\\' { '/' } else { c })
}

/// `path` as the path part of a URI: forward slashes, and a leading slash.
pub open spec fn uri_path_of(path: Seq<char>) -> Seq<char> {
    let t = forward_slashes(path);
    if t.len() > 0 && t[0] == '/' {
        t
    } else {
        seq!['/'] + t
    }
}

/// `path` as the path part of a URI: forward slashes, and a leading slash so
/// a Windows drive reads `/C:/...` after the `sql://` authority.
pub fn uri_path(path: &str) -> (uri: String)
    ensures
        uri@ == uri_path_of(path@),
{
    let p = chars_of(path);
    let mut t: Vec<char> = Vec::new();
    let mut i: usize = 0;
    while i < p.len()
        invariant
            i <= p.len(),
            t@ == forward_slashes(p@.take(i as int)),
        decreases p.len() - i,
    {
        let c = p[i];
        t.push(if c == '\\' { '/' } else { c });
        assert(forward_slashes(p@.take(i + 1)) == forward_slashes(p@.take(i as int)).push(
            if c == '\\' { '/' } else { c },
        ));
        i = i + 1;
    }
    assert(p@.take(p.len() as int) == p@);
    if t.len() > 0 && t[0] == '/' {
        string_of(t.as_slice())
    } else {
        let mut u: Vec<char> = Vec::new();
        u.push('/');
        push_all(&mut u, t.as_slice());
        string_of(u.as_slice())
    }
}

/// What every receipt of the archive at `root` opens with: `sql://` and the
/// root as a URI path, then `/`.
pub open spec fn prefix_of(root: Seq<char>) -> Seq<char> {
    "sql://"@ + uri_path_of(root) + seq!['/']
}

/// Whether `script` names a script: a non-empty stem that sanitising leaves
/// as it is, then `.sql`.
pub open spec fn names_script(script: Seq<char>) -> bool {
    &&& script.len() > 4
    &&& script.skip(script.len() - 4) == ".sql"@
    &&& sanitised(script.take(script.len() - 4)) == script.take(script.len() - 4)
}

/// The script name and identifier that `location` names in the archive at
/// `root`, or the message that refuses it. The script is the file of that
/// name in the root directory.
pub open spec fn target(root: Seq<char>, location: Seq<char>) -> Result<
    (Seq<char>, Seq<char>),
    Seq<char>,
> {
    let pre = prefix_of(root);
    if !(pre.len() <= location.len() && location.take(pre.len() as int) == pre) {
        Err(location + " is not a receipt of the archive at "@ + root)
    } else {
        match split_once(location.skip(pre.len() as int), '#') {
            Some((script, identifier)) => if names_script(script) {
                Ok((script, identifier))
            } else {
                Err(location + " does not name a script and an identifier"@)
            },
            None => Err(location + " does not name a script and an identifier"@),
        }
    }
}

impl SqlScriptArchive {
    /// An archive writing under `root`; the directory is created on demand and
    /// each script the first time its data type is archived.
    pub fn new(root: &str) -> (archive: Self)
        ensures
            archive@ == root@,
    {
        SqlScriptArchive { root: string_of(chars_of(root).as_slice()) }
    }

    /// The root directory's path.
    pub fn root(&self) -> (root: &str)
        ensures
            root@ == self@,
    {
        self.root.as_str()
    }

    fn prefix_chars(&self) -> (pre: Vec<char>)
        ensures
            pre@ == prefix_of(self@),
    {
        let mut pre = chars_of("sql://");
        let uri = uri_path(self.root.as_str());
        push_all(&mut pre, chars_of(uri.as_str()).as_slice());
        pre.push('/');
        pre
    }

    /// What every receipt of this root shares: `sql:///<root>/`.
    pub fn prefix(&self) -> (pre: String)
        ensures
            pre@ == prefix_of(self@),
    {
        string_of(self.prefix_chars().as_slice())
    }

    /// The script name and identifier a receipt's location names, refusing a
    /// location from under another root. The script is the file of that name
    /// in the root directory; its name is a sanitised segment, so nothing
    /// outside the root is ever read.
    pub fn target_of(&self, location: &str) -> (target_pair: Result<(String, String), ArchiveError>)
        ensures
            match target_pair {
                Ok((script, identifier)) => target(self@, location@) == Ok::<
                    (Seq<char>, Seq<char>),
                    Seq<char>,
                >((script@, identifier@)),
                Err(e) => target(self@, location@) == Err::<(Seq<char>, Seq<char>), Seq<char>>(
                    e.message@,
                ),
            },
    {
        let loc = chars_of(location);
        let pre = self.prefix_chars();
        let root = chars_of(self.root.as_str());
        let opens = pre.len() <= loc.len() && same_chars(
            chars_between(loc.as_slice(), 0, pre.len()).as_slice(),
            pre.as_slice(),
        );
        if !opens {
            let mut m = loc.clone();
            push_all(&mut m, chars_of(" is not a receipt of the archive at ").as_slice());
            push_all(&mut m, root.as_slice());
            proof {
                if pre@.len() <= loc@.len() {
                    assert(loc@.subrange(0, pre@.len() as int) == loc@.take(pre@.len() as int));
                }
            }
            return Err(ArchiveError { message: string_of(m.as_slice()) });
        }
        assert(loc@.subrange(0, pre@.len() as int) == loc@.take(pre@.len() as int));
        let rest = chars_between(loc.as_slice(), pre.len(), loc.len());
        assert(rest@ == loc@.skip(pre@.len() as int));
        let n = rest.len();
        let mut k: usize = 0;
        while k < n && rest[k] != '#'
            invariant
                k <= n,
                n == rest@.len(),
                index_from(rest@, '#', 0) == index_from(rest@, '#', k as int),
            decreases n - k,
        {
            k = k + 1;
        }
        let script = chars_between(rest.as_slice(), 0, if k < n { k } else { n });
        let fits = k < n && script.len() > 4 && {
            let len = script.len();
            let suffix = chars_between(script.as_slice(), len - 4, len);
            let stem = chars_between(script.as_slice(), 0, len - 4);
            same_chars(suffix.as_slice(), chars_of(".sql").as_slice()) && same_chars(
                sanitised_chars(stem.as_slice()).as_slice(),
                stem.as_slice(),
            )
        };
        if !fits {
            let mut m = loc.clone();
            push_all(&mut m, chars_of(" does not name a script and an identifier").as_slice());
            proof {
                if k < n {
                    assert(script@ == rest@.take(k as int));
                    assert(script@.subrange(script@.len() - 4, script@.len() as int) == script@.skip(
                        script@.len() - 4,
                    ));
                    assert(script@.subrange(0, script@.len() - 4) == script@.take(script@.len() - 4));
                }
            }
            return Err(ArchiveError { message: string_of(m.as_slice()) });
        }
        let identifier = chars_between(rest.as_slice(), k + 1, n);
        proof {
            assert(script@ == rest@.take(k as int));
            assert(identifier@ == rest@.skip(k + 1));
            assert(script@.subrange(script@.len() - 4, script@.len() as int) == script@.skip(
                script@.len() - 4,
            ));
            assert(script@.subrange(0, script@.len() - 4) == script@.take(script@.len() - 4));
        }
        Ok((string_of(script.as_slice()), string_of(identifier.as_slice())))
    }
}


/// The item that the row `row` of a statement holds, its metadata decoded.
pub open spec fn item_of(row: Row) -> ItemView {
    ItemView {
        data_type: row.data_type,
        identifier: row.identifier,
        bytes: row.bytes,
        metadata: decode(row.metadata),
    }
}

/// The checksum a receipt carries, as text.
pub open spec fn checksum_of(receipt: &ArchiveReceipt) -> Option<Seq<char>> {
    match receipt.checksum {
        Some(c) => Some(c@),
        None => None,
    }
}

/// The item found in a script, once held against the receipt's checksum:
/// refused where the receipt carries a checksum other than `actual`, the
/// checksum of the found bytes.
pub open spec fn settled(
    location: Seq<char>,
    expected: Option<Seq<char>>,
    row: Row,
    actual: Seq<char>,
) -> Result<ItemView, Seq<char>> {
    match expected {
        Some(x) => if x != actual {
            Err("checksum mismatch at "@ + location + ": the receipt says "@ + x
                + ", the script "@ + actual)
        } else {
            Ok(item_of(row))
        },
        None => Ok(item_of(row)),
    }
}

/// One line of a script read in its turn: a blank line changes nothing, a
/// statement for `identifier` replaces what was found, any other statement
/// changes nothing, and a line that is no statement stops the reading with
/// its index and why.
pub open spec fn scan_step(line: Seq<char>, index: int, identifier: Seq<char>, found: Option<Row>) -> Result<
    Option<Row>,
    (int, ParseFailure),
> {
    if trim(line).len() == 0 {
        Ok(found)
    } else {
        match parse_line(line) {
            Err(f) => Err((index, f)),
            Ok(row) => if row.identifier == identifier {
                Ok(Some(row))
            } else {
                Ok(found)
            },
        }
    }
}

/// The lines `ls`, numbered from `offset`, read in turn from `init`.
pub open spec fn scan_from(ls: Seq<Seq<char>>, identifier: Seq<char>, offset: int, init: Option<Row>) -> Result<
    Option<Row>,
    (int, ParseFailure),
>
    decreases ls.len(),
{
    if ls.len() == 0 {
        Ok(init)
    } else {
        match scan_from(ls.drop_last(), identifier, offset, init) {
            Err(e) => Err(e),
            Ok(found) => scan_step(ls.last(), offset + ls.len() - 1, identifier, found),
        }
    }
}

/// The last statement for `identifier` in the lines `ls`, or the first line
/// that is no statement.
pub open spec fn scan(ls: Seq<Seq<char>>, identifier: Seq<char>) -> Result<
    Option<Row>,
    (int, ParseFailure),
> {
    scan_from(ls, identifier, 0, None)
}

/// What restoring the receipt at `location` with `checksum` gives, from the
/// text `script` of the script it names in the archive at `root`, where
/// `path` is how that script's path is shown.
pub open spec fn restored(
    root: Seq<char>,
    location: Seq<char>,
    checksum: Option<Seq<char>>,
    path: Seq<char>,
    script: Seq<char>,
) -> Result<ItemView, Seq<char>> {
    match target(root, location) {
        Err(m) => Err(m),
        Ok((_, identifier)) => match scan(lines(script), identifier) {
            Err((i, f)) => Err(path + seq![':'] + decimal((i + 1) as nat) + ": "@ + failure_message(f)),
            Ok(None) => Err("no statement for "@ + identifier + " in "@ + location),
            Ok(Some(row)) => settled(location, checksum, row, hex_encode(sha256_digest(row.bytes))),
        },
    }
}

/// The name of the script for items of `data_type`.
pub open spec fn script_of(data_type: Seq<char>) -> Seq<char> {
    sanitised(data_type) + ".sql"@
}

/// The row of the statement that archives `item` at the moment `archived_at`.
pub open spec fn row_of(item: ItemView, archived_at: Seq<char>) -> Row {
    Row {
        data_type: item.data_type,
        identifier: item.identifier,
        bytes: item.bytes,
        metadata: encode(item.metadata),
        archived_at,
    }
}

/// The location of the receipt for `item` archived at `root`.
pub open spec fn location_of(root: Seq<char>, item: ItemView) -> Seq<char> {
    prefix_of(root) + script_of(item.data_type) + seq!['#'] + item.identifier
}

/// What archiving an item does: the line to append to the script of the
/// name `script` in the root directory, and the receipt to hand back.
pub struct ArchivePlan {
    pub script: String,
    pub line: String,
    pub receipt: ArchiveReceipt,
}

fn copy_bytes(b: &[u8]) -> (c: Vec<u8>)
    ensures
        c@ == b@,
{
    let mut c: Vec<u8> = Vec::new();
    let mut i: usize = 0;
    while i < b.len()
        invariant
            i <= b.len(),
            c@ == b@.take(i as int),
        decreases b.len() - i,
    {
        c.push(b[i]);
        assert(b@.take(i + 1) == b@.take(i as int).push(b@[i as int]));
        i = i + 1;
    }
    assert(b@.take(b.len() as int) == b@);
    c
}

fn copy_string(s: &str) -> (c: String)
    ensures
        c@ == s@,
{
    string_of(chars_of(s).as_slice())
}

/// The item that a statement holds, once held against the receipt's
/// checksum: `actual` is the checksum of the statement's bytes.
pub fn settle(receipt: &ArchiveReceipt, statement: Statement, actual: &str) -> (item: Result<
    ArchiveItem,
    ArchiveError,
>)
    ensures
        match item {
            Ok(it) => settled(receipt.location@, checksum_of(receipt), statement@, actual@) == Ok::<
                ItemView,
                Seq<char>,
            >(it@),
            Err(e) => settled(receipt.location@, checksum_of(receipt), statement@, actual@) == Err::<
                ItemView,
                Seq<char>,
            >(e.message@),
        },
{
    match &receipt.checksum {
        Some(expected) => {
            let a = chars_of(actual);
            let x = chars_of(expected.as_str());
            if !same_chars(x.as_slice(), a.as_slice()) {
                let mut m = chars_of("checksum mismatch at ");
                push_all(&mut m, chars_of(receipt.location.as_str()).as_slice());
                push_all(&mut m, chars_of(": the receipt says ").as_slice());
                push_all(&mut m, x.as_slice());
                push_all(&mut m, chars_of(", the script ").as_slice());
                push_all(&mut m, a.as_slice());
                return Err(ArchiveError { message: string_of(m.as_slice()) });
            }
        },
        None => {},
    }
    let metadata = decode_metadata(statement.metadata.as_str());
    Ok(ArchiveItem {
        data_type: statement.data_type,
        identifier: statement.identifier,
        bytes: statement.bytes,
        metadata,
    })
}

impl SqlScriptArchive {
    /// What archiving `item` at the moment `archived_at` does: the name of the
    /// script for its data type, the statement line to append there, and the
    /// receipt.
    pub fn plan_archive(&self, item: &ArchiveItem, archived_at: &str) -> (plan: ArchivePlan)
        ensures
            plan.script@ == script_of(item@.data_type),
            plan.line@ == sql_line(row_of(item@, archived_at@)),
            plan.receipt.location@ == location_of(self@, item@),
            checksum_of(&plan.receipt) == Some(hex_encode(sha256_digest(item@.bytes))),
    {
        let mut script = sanitised_chars(chars_of(item.data_type.as_str()).as_slice());
        push_all(&mut script, chars_of(".sql").as_slice());
        let statement = Statement {
            data_type: copy_string(item.data_type.as_str()),
            identifier: copy_string(item.identifier.as_str()),
            bytes: copy_bytes(item.bytes.as_slice()),
            metadata: {
                let md = item.metadata.as_slice();
                assert(md.deep_view() == item.metadata.deep_view());
                encode_metadata(md)
            },
            archived_at: copy_string(archived_at),
        };
        let line = statement.to_sql();
        let mut location = self.prefix_chars();
        push_all(&mut location, script.as_slice());
        location.push('#');
        push_all(&mut location, chars_of(item.identifier.as_str()).as_slice());
        let checksum = sha256(item.bytes.as_slice());
        ArchivePlan {
            script: string_of(script.as_slice()),
            line,
            receipt: ArchiveReceipt { location: string_of(location.as_slice()), checksum: Some(checksum) },
        }
    }

    /// The item that `receipt` names, restored from `script`, the text of
    /// the script that `target_of` names for it, whose path shows as `path`:
    /// the last statement for its identifier wins, a line that is no
    /// statement is refused with the path and its line number, and a checksum
    /// on the receipt must match the bytes.
    pub fn restore_from_script(&self, receipt: &ArchiveReceipt, path: &str, script: &str) -> (item: Result<
        ArchiveItem,
        ArchiveError,
    >)
        ensures
            match item {
                Ok(it) => restored(self@, receipt.location@, checksum_of(receipt), path@, script@) == Ok::<
                    ItemView,
                    Seq<char>,
                >(it@),
                Err(e) => restored(self@, receipt.location@, checksum_of(receipt), path@, script@)
                    == Err::<ItemView, Seq<char>>(e.message@),
            },
    {
        let (name, identifier) = self.target_of(receipt.location.as_str())?;
        let id = chars_of(identifier.as_str());
        let text = chars_of(script);
        let ls = split_lines(text.as_slice());
        let ghost all = lines(script@);
        let mut found: Option<Statement> = None;
        let mut i: usize = 0;
        while i < ls.len()
            invariant
                i <= ls.len(),
                ls@.len() == all.len(),
                all == lines(script@),
                id@ == identifier@,
                target(self@, receipt.location@) == Ok::<(Seq<char>, Seq<char>), Seq<char>>(
                    (name@, identifier@),
                ),
                forall|k: int| 0 <= k < ls@.len() ==> #[trigger] ls@[k]@ == all[k],
                scan_from(all.take(i as int), identifier@, 0, None) == Ok::<
                    Option<Row>,
                    (int, ParseFailure),
                >(
                    match found {
                        Some(st) => Some(st@),
                        None => None,
                    },
                ),
            decreases ls.len() - i,
        {
            let line = &ls[i];
            proof {
                assert(all.take(i + 1).drop_last() == all.take(i as int));
                assert(all.take(i + 1).last() == all[i as int]);
                assert(line@ == all[i as int]);
            }
            let t = trim_chars(line.as_slice());
            if t.len() > 0 {
                match Statement::parse(string_of(line.as_slice()).as_str()) {
                    Err(reason) => {
                        let mut m = chars_of(path);
                        m.push(':');
                        assert(m@ == path@ + seq![':']);
                        push_decimal(&mut m, i as u128 + 1);
                        push_all(&mut m, chars_of(": ").as_slice());
                        push_all(&mut m, chars_of(reason.as_str()).as_slice());
                        let ghost f = parse_line(line@)->Err_0;
                        proof {
                            assert(scan_from(all.take(i + 1), identifier@, 0, None) == Err::<
                                Option<Row>,
                                (int, ParseFailure),
                            >((i as int, f)));
                            lemma_scan_stops(all, identifier@, i as int);
                            assert(m@ == path@ + seq![':'] + decimal((i + 1) as nat) + ": "@
                                + failure_message(f));
                        }
                        return Err(ArchiveError { message: string_of(m.as_slice()) });
                    },
                    Ok(st) => {
                        if same_chars(chars_of(st.identifier.as_str()).as_slice(), id.as_slice()) {
                            found = Some(st);
                        }
                    },
                }
            }
            i = i + 1;
        }
        proof {
            assert(all.take(ls@.len() as int) == all);
        }
        match found {
            None => {
                let mut m = chars_of("no statement for ");
                push_all(&mut m, id.as_slice());
                push_all(&mut m, chars_of(" in ").as_slice());
                push_all(&mut m, chars_of(receipt.location.as_str()).as_slice());
                Err(ArchiveError { message: string_of(m.as_slice()) })
            },
            Some(st) => {
                let actual = sha256(st.bytes.as_slice());
                settle(receipt, st, actual.as_str())
            },
        }
    }
}

/// Where the reading of the first `i` lines goes on, and line `i` is no
/// statement, the reading of all lines stops there.
proof fn lemma_scan_stops(all: Seq<Seq<char>>, identifier: Seq<char>, i: int)
    requires
        0 <= i < all.len(),
        scan_from(all.take(i), identifier, 0, None) is Ok,
        scan_from(all.take(i + 1), identifier, 0, None) is Err,
    ensures
        scan(all, identifier) == scan_from(all.take(i + 1), identifier, 0, None),
    decreases all.len() - i,
{
    if i + 1 < all.len() {
        lemma_scan_err_stays(all, identifier, i + 1);
    } else {
        assert(all.take(i + 1) == all);
    }
}

proof fn lemma_scan_err_stays(all: Seq<Seq<char>>, identifier: Seq<char>, j: int)
    requires
        0 < j <= all.len(),
        scan_from(all.take(j), identifier, 0, None) is Err,
    ensures
        scan(all, identifier) == scan_from(all.take(j), identifier, 0, None),
    decreases all.len() - j,
{
    if j < all.len() {
        assert(all.take(j + 1).drop_last() == all.take(j));
        lemma_scan_err_stays(all, identifier, j + 1);
    } else {
        assert(all.take(j) == all);
    }
}

} // verus!
