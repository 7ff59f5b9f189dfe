//! The metadata file of a backup: one line per backed up file, telling its path, size, data
//! digest, a fingerprint of the file it was read from, and whether its data is stored in this
//! backup ("unique") or in an earlier one of the same group ("extern").

use vstd::prelude::*;

use crate::hash::{from_hex, to_hex};
use crate::text::{
    chars_of, debug_quoted, debug_str, decimal, lacks, lemma_decimal_lacks, lemma_parse_decimal,
    lemma_parse_signed_decimal, lemma_signed_decimal_lacks, lemma_split_after, lemma_split_whole,
    lemma_splitn_after, lemma_splitn_len, parse_i128, parse_i128_spec, parse_u64, parse_u64_spec, push_decimal,
    push_signed_decimal, signed_decimal, split, split_spec, splitn, splitn_spec, string_of, utf8_text, views,
    copy_string,
};

verus! {

/// What identifies a file version on the local file system: its device, inode and
/// modification time.
#[derive(Clone, Copy, Debug, PartialEq, Eq, Structural)]
pub struct Fingerprint {
    pub device: u64,
    pub inode: u64,
    pub mtime_nsec: i128,
}

/// The text form of a fingerprint: `device:inode:mtime`.
pub open spec fn fingerprint_text(f: Fingerprint) -> Seq<char> {
    decimal(f.device as nat) + seq![':'] + decimal(f.inode as nat) + seq![':'] + signed_decimal(
        f.mtime_nsec as int,
    )
}

/// The fingerprint that a text stands for: exactly three `:`-separated numbers.
pub open spec fn decode_fingerprint_spec(s: Seq<char>) -> Option<Fingerprint> {
    let parts = split_spec(s, ':');
    if parts.len() == 3 && parse_u64_spec(parts[0]) is Some && parse_u64_spec(parts[1]) is Some
        && parse_i128_spec(parts[2]) is Some {
        Some(
            Fingerprint {
                device: parse_u64_spec(parts[0])->0,
                inode: parse_u64_spec(parts[1])->0,
                mtime_nsec: parse_i128_spec(parts[2])->0,
            },
        )
    } else {
        None
    }
}

/// Reading the text form of a fingerprint gives the same fingerprint.
pub proof fn lemma_fingerprint_roundtrip(f: Fingerprint)
    ensures
        decode_fingerprint_spec(fingerprint_text(f)) == Some(f),
        lacks(fingerprint_text(f), ' '),
{
    let d = decimal(f.device as nat);
    let i = decimal(f.inode as nat);
    let m = signed_decimal(f.mtime_nsec as int);
    lemma_decimal_lacks(f.device as nat);
    lemma_decimal_lacks(f.inode as nat);
    lemma_signed_decimal_lacks(f.mtime_nsec as int);
    lemma_parse_decimal(f.device as nat);
    lemma_parse_decimal(f.inode as nat);
    lemma_parse_signed_decimal(f.mtime_nsec);
    let s = fingerprint_text(f);
    assert(s =~= d + seq![':'] + (i + seq![':'] + m));
    lemma_split_after(d, ':', i + seq![':'] + m);
    lemma_split_after(i, ':', m);
    lemma_split_whole(m, ':', 0);
    assert(split_spec(s, ':') =~= seq![d, i, m]);
    assert forall|k: int| 0 <= k < s.len() implies s[k] != ' ' by {
        if k < d.len() {
            assert(s[k] == d[k]);
        } else if k == d.len() {
        } else if k < d.len() + 1 + i.len() {
            assert(s[k] == i[k - d.len() - 1]);
        } else if k == d.len() + 1 + i.len() {
        } else {
            assert(s[k] == m[k - d.len() - i.len() - 2]);
        }
    }
}

impl Fingerprint {
    /// The fingerprint of a file with the given device, inode and modification time (seconds
    /// and nanoseconds).
    pub fn new(device: u64, inode: u64, mtime: i64, mtime_nsec: i64) -> (r: Fingerprint)
        ensures
            r.device == device,
            r.inode == inode,
            r.mtime_nsec == mtime as int * 1_000_000_000 + mtime_nsec as int,
    {
        assert(-0x8000_0000_0000_0000int * 1_000_000_000 <= mtime as int * 1_000_000_000
            <= 0x7fff_ffff_ffff_ffffint * 1_000_000_000) by (nonlinear_arith);
        Fingerprint { device, inode, mtime_nsec: mtime as i128 * 1_000_000_000 + mtime_nsec as i128 }
    }

    /// The text form of the fingerprint, appended to `out`.
    pub fn encode_into(&self, out: &mut Vec<char>)
        ensures
            final(out)@ == old(out)@ + fingerprint_text(*self),
    {
        push_decimal(self.device as u128, out);
        out.push(':');
        push_decimal(self.inode as u128, out);
        out.push(':');
        push_signed_decimal(self.mtime_nsec, out);
        assert(final(out)@ =~= old(out)@ + fingerprint_text(*self));
    }

    /// The text form of the fingerprint.
    pub fn encode(&self) -> (r: String)
        ensures
            r@ == fingerprint_text(*self),
    {
        let mut out: Vec<char> = Vec::new();
        self.encode_into(&mut out);
        assert(out@ =~= fingerprint_text(*self));
        string_of(out.as_slice())
    }

    /// Reads the text form of a fingerprint.
    pub fn decode(s: &[char]) -> (r: Option<Fingerprint>)
        ensures
            r == decode_fingerprint_spec(s@),
    {
        let parts = split(s, ':');
        let ghost pv = split_spec(s@, ':');
        if parts.len() != 3 {
            return None;
        }
        proof {
            assert(pv[0] == parts@[0]@);
            assert(pv[1] == parts@[1]@);
            assert(pv[2] == parts@[2]@);
        }
        let device = parse_u64(parts[0].as_slice());
        let inode = parse_u64(parts[1].as_slice());
        let mtime_nsec = parse_i128(parts[2].as_slice());
        match (device, inode, mtime_nsec) {
            (Some(device), Some(inode), Some(mtime_nsec)) => Some(Fingerprint { device, inode, mtime_nsec }),
            _ => None,
        }
    }
}

/// What a metadata item stands for.
pub struct MetadataItemView {
    pub path: Seq<char>,
    pub size: u64,
    pub hash: Seq<u8>,
    pub unique: bool,
    pub fingerprint: Fingerprint,
}

/// One line of a backup's metadata: a backed up file.
pub struct MetadataItem {
    pub path: String,
    pub size: u64,
    pub hash: crate::hash::Hash,
    pub unique: bool,
    pub fingerprint: Fingerprint,
}

impl View for MetadataItem {
    type V = MetadataItemView;

    open spec fn view(&self) -> MetadataItemView {
        MetadataItemView {
            path: self.path@,
            size: self.size,
            hash: self.hash@,
            unique: self.unique,
            fingerprint: self.fingerprint,
        }
    }
}

/// Whether a path can be written to the metadata file: it must not hold a line break.
pub open spec fn valid_metadata_path(path: Seq<char>) -> bool {
    lacks(path, '\r') && lacks(path, '\n')
}

/// The characters of "unique".
pub open spec fn unique_word() -> Seq<char> {
    seq!['u', 'n', 'i', 'q', 'u', 'e']
}

/// The characters of "extern".
pub open spec fn extern_word() -> Seq<char> {
    seq!['e', 'x', 't', 'e', 'r', 'n']
}

/// The status word of an item: whether its data is in its own backup.
pub open spec fn status_word(unique: bool) -> Seq<char> {
    if unique { unique_word() } else { extern_word() }
}

/// The status that a word stands for.
pub open spec fn decode_status_spec(s: Seq<char>) -> Option<bool> {
    if s == unique_word() {
        Some(true)
    } else if s == extern_word() {
        Some(false)
    } else {
        None
    }
}

/// The metadata line of an item, without its line feed:
/// `status hash device:inode:mtime size path`.
pub open spec fn item_text(v: MetadataItemView) -> Seq<char> {
    status_word(v.unique) + seq![' '] + to_hex(v.hash) + seq![' '] + fingerprint_text(v.fingerprint)
        + seq![' '] + decimal(v.size as nat) + seq![' '] + v.path
}

/// The item that a metadata line (without its line feed) stands for.
pub open spec fn decode_item_spec(line: Seq<char>) -> Option<MetadataItemView> {
    let parts = splitn_spec(line, ' ', 5);
    if parts.len() == 5 && decode_status_spec(parts[0]) is Some && from_hex(parts[1]) is Some
        && decode_fingerprint_spec(parts[2]) is Some && parse_u64_spec(parts[3]) is Some {
        Some(
            MetadataItemView {
                path: parts[4],
                size: parse_u64_spec(parts[3])->0,
                hash: from_hex(parts[1])->0,
                unique: decode_status_spec(parts[0])->0,
                fingerprint: decode_fingerprint_spec(parts[2])->0,
            },
        )
    } else {
        None
    }
}

/// Whether the failure to read a line comes from its hash.
pub open spec fn hash_is_the_problem(line: Seq<char>) -> bool {
    let parts = splitn_spec(line, ' ', 5);
    parts.len() >= 2 && decode_status_spec(parts[0]) is Some && from_hex(parts[1]) is None
}

proof fn lemma_hex_lacks_space(bytes: Seq<u8>)
    ensures
        lacks(to_hex(bytes), ' '),
        lacks(to_hex(bytes), '\n'),
    decreases bytes.len(),
{
    if bytes.len() > 0 {
        lemma_hex_lacks_space(bytes.drop_last());
        let h = to_hex(bytes);
        let p = to_hex(bytes.drop_last());
        assert forall|i: int| 0 <= i < h.len() implies h[i] != ' ' && h[i] != '\n' by {
            if i < p.len() {
                assert(h[i] == p[i]);
            }
        }
    }
}

/// Reading the metadata line of an item gives the same item, whatever its path.
pub proof fn lemma_item_roundtrip(v: MetadataItemView)
    ensures
        decode_item_spec(item_text(v)) == Some(v),
{
    let st = status_word(v.unique);
    let h = to_hex(v.hash);
    let f = fingerprint_text(v.fingerprint);
    let d = decimal(v.size as nat);
    lemma_hex_lacks_space(v.hash);
    crate::hash::lemma_hex_roundtrip(v.hash);
    lemma_fingerprint_roundtrip(v.fingerprint);
    lemma_decimal_lacks(v.size as nat);
    lemma_parse_decimal(v.size as nat);
    assert(lacks(st, ' '));
    let s = item_text(v);
    assert(s =~= st + seq![' '] + (h + seq![' '] + (f + seq![' '] + (d + seq![' '] + v.path))));
    lemma_splitn_after(st, ' ', h + seq![' '] + (f + seq![' '] + (d + seq![' '] + v.path)), 5);
    lemma_splitn_after(h, ' ', f + seq![' '] + (d + seq![' '] + v.path), 4);
    lemma_splitn_after(f, ' ', d + seq![' '] + v.path, 3);
    lemma_splitn_after(d, ' ', v.path, 2);
    assert(splitn_spec(v.path, ' ', 1) == seq![v.path]);
    assert(splitn_spec(s, ' ', 5) =~= seq![st, h, f, d, v.path]);
    assert(unique_word() != extern_word()) by {
        assert(unique_word()[0] != extern_word()[0]);
    }
}

/// Checks that a path can be written to the metadata file.
pub fn validate_path(path: &str) -> (r: Result<&str, String>)
    ensures
        r is Ok <==> valid_metadata_path(path@),
        r matches Ok(p) ==> p@ == path@,
        r matches Err(e) ==> e@ == "invalid path"@,
{
    let chars = chars_of(path);
    let mut i: usize = 0;
    while i < chars.len()
        invariant
            chars@ == path@,
            i <= chars@.len(),
            forall|j: int| 0 <= j < i ==> chars@[j] != '\r' && chars@[j] != '\n',
        decreases chars@.len() - i,
    {
        if chars[i] == '\r' || chars[i] == '\n' {
            return Err(String::from_str("invalid path"));
        }
        i += 1;
    }
    Ok(path)
}

fn push_str_chars(out: &mut Vec<char>, s: &[char])
    ensures
        final(out)@ == old(out)@ + s@,
{
    let mut i: usize = 0;
    while i < s.len()
        invariant
            i <= s@.len(),
            out@ == old(out)@ + s@.take(i as int),
        decreases s@.len() - i,
    {
        out.push(s[i]);
        i += 1;
        assert(out@ =~= old(out)@ + s@.take(i as int));
    }
    assert(s@.take(i as int) =~= s@);
}

fn decode_status(s: &[char]) -> (r: Option<bool>)
    ensures
        r == decode_status_spec(s@),
{
    if s.len() != 6 {
        assert(s@ != unique_word());
        assert(s@ != extern_word());
        return None;
    }
    if s[0] == 'u' && s[1] == 'n' && s[2] == 'i' && s[3] == 'q' && s[4] == 'u' && s[5] == 'e' {
        assert(s@ =~= unique_word());
        Some(true)
    } else if s[0] == 'e' && s[1] == 'x' && s[2] == 't' && s[3] == 'e' && s[4] == 'r' && s[5] == 'n' {
        assert(s@ =~= extern_word());
        assert(s@ != unique_word()) by {
            assert(s@[0] != unique_word()[0]);
        }
        Some(false)
    } else {
        assert(s@ != unique_word()) by {
            if s@ == unique_word() {
                assert(s@[0] == 'u' && s@[1] == 'n' && s@[2] == 'i' && s@[3] == 'q' && s@[4] == 'u' && s@[5] == 'e');
            }
        }
        assert(s@ != extern_word()) by {
            if s@ == extern_word() {
                assert(s@[0] == 'e' && s@[1] == 'x' && s@[2] == 't' && s@[3] == 'e' && s@[4] == 'r' && s@[5] == 'n');
            }
        }
        None
    }
}

impl MetadataItem {
    /// A metadata item for a file; fails if its path can not be written to metadata.
    pub fn new(path: &str, size: u64, hash: crate::hash::Hash, fingerprint: Fingerprint, unique: bool) -> (r: Result<MetadataItem, String>)
        ensures
            r is Ok <==> valid_metadata_path(path@),
            r matches Ok(item) ==> item@ == (MetadataItemView {
                path: path@,
                size,
                hash: hash@,
                unique,
                fingerprint,
            }),
            r matches Err(e) ==> e@ == "invalid path"@,
    {
        let path = match validate_path(path) {
            Ok(p) => p,
            Err(e) => return Err(e),
        };
        Ok(MetadataItem { path: String::from_str(path), size, hash, unique, fingerprint })
    }

    /// The metadata line of the item, with its line feed.
    pub fn encode(&self) -> (r: String)
        ensures
            r@ == item_text(self@).push('\n'),
    {
        let mut out: Vec<char> = Vec::new();
        if self.unique {
            out.push('u'); out.push('n'); out.push('i'); out.push('q'); out.push('u'); out.push('e');
        } else {
            out.push('e'); out.push('x'); out.push('t'); out.push('e'); out.push('r'); out.push('n');
        }
        assert(out@ =~= status_word(self.unique));
        out.push(' ');
        let hex = self.hash.to_hex_chars();
        push_str_chars(&mut out, hex.as_slice());
        out.push(' ');
        self.fingerprint.encode_into(&mut out);
        out.push(' ');
        push_decimal(self.size as u128, &mut out);
        out.push(' ');
        let path = chars_of(self.path.as_str());
        push_str_chars(&mut out, path.as_slice());
        out.push('\n');
        assert(out@ =~= item_text(self@).push('\n'));
        string_of(out.as_slice())
    }

    /// Reads a metadata line (without its line feed).
    pub fn decode(line: &str) -> (r: Result<MetadataItem, String>)
        ensures
            r is Ok <==> decode_item_spec(line@) is Some,
            r matches Ok(item) ==> decode_item_spec(line@) == Some(item@),
            r matches Err(e) ==> !hash_is_the_problem(line@) ==> e@ == seq![
                'U', 'n', 'e', 'x', 'p', 'e', 'c', 't', 'e', 'd', ' ', 'f', 'o', 'r', 'm', 'a', 't', ':', ' ',
            ] + debug_quoted(line@),
    {
        let chars = chars_of(line);
        let parts = splitn(chars.as_slice(), ' ', 5);
        let ghost pv = splitn_spec(line@, ' ', 5);
        proof {
            lemma_splitn_len(line@, ' ', 5);
            assert forall|k: int| 0 <= k < parts@.len() implies pv[k] == #[trigger] parts@[k]@ by {
                assert(views(parts@)[k] == parts@[k]@);
            }
        }
        let unique = if parts.len() >= 1 { decode_status(parts[0].as_slice()) } else { None };
        let unique = match unique {
            Some(unique) => unique,
            None => return Err(unexpected_format(line)),
        };
        if parts.len() < 2 {
            return Err(unexpected_format(line));
        }
        let hash = crate::hash::Hash::from_hex_chars(parts[1].as_slice())?;
        if parts.len() < 5 {
            return Err(unexpected_format(line));
        }
        let fingerprint = match Fingerprint::decode(parts[2].as_slice()) {
            Some(fingerprint) => fingerprint,
            None => return Err(unexpected_format(line)),
        };
        let size = match parse_u64(parts[3].as_slice()) {
            Some(size) => size,
            None => return Err(unexpected_format(line)),
        };
        let path = string_of(parts[4].as_slice());
        Ok(MetadataItem { path, size, hash, unique, fingerprint })
    }
}

fn unexpected_format(line: &str) -> (r: String)
    ensures
        r@ == seq![
            'U', 'n', 'e', 'x', 'p', 'e', 'c', 't', 'e', 'd', ' ', 'f', 'o', 'r', 'm', 'a', 't', ':', ' ',
        ] + debug_quoted(line@),
{
    let mut out: Vec<char> = Vec::new();
    out.push('U'); out.push('n'); out.push('e'); out.push('x'); out.push('p'); out.push('e');
    out.push('c'); out.push('t'); out.push('e'); out.push('d'); out.push(' '); out.push('f');
    out.push('o'); out.push('r'); out.push('m'); out.push('a'); out.push('t'); out.push(':');
    out.push(' ');
    let quoted = debug_str(line);
    let quoted = chars_of(quoted.as_str());
    push_str_chars(&mut out, quoted.as_slice());
    string_of(out.as_slice())
}

/// What a `bzip2` decoder hands out when it is read to the end: the bytes that it gives (up
/// to the end of the first stream, or up to the read that failed), and whether a read failed.
pub uninterp spec fn bzip2_decoded(data: Seq<u8>) -> (Seq<u8>, bool);

/// `bzip2::read::BzDecoder` read to the end with `Read::read_to_end`, which keeps the bytes
/// read before an error: those bytes, and the error's message where a read failed.
#[verifier::external_body]
fn bzip2_decode(data: &[u8]) -> (r: (Vec<u8>, Option<String>))
    ensures
        bzip2_decoded(data@) == (r.0@, r.1 is Some),
{
    let mut out: Vec<u8> = Vec::new();
    match std::io::Read::read_to_end(&mut bzip2::read::BzDecoder::new(data), &mut out) {
        Ok(_) => (out, None),
        Err(e) => (out, Some(e.to_string())),
    }
}

/// The views of some metadata items.
pub open spec fn items_view(items: Seq<MetadataItem>) -> Seq<MetadataItemView> {
    items.map_values(|f: MetadataItem| f@)
}

/// What a read metadata line gives.
pub open spec fn result_view(r: Result<MetadataItem, String>) -> Result<MetadataItemView, ()> {
    match r {
        Ok(item) => Ok(item@),
        Err(_) => Err(()),
    }
}

/// What a line of a metadata file gives.
pub open spec fn line_result(line: Seq<char>) -> Result<MetadataItemView, ()> {
    match decode_item_spec(line) {
        Some(v) => Ok(v),
        None => Err(()),
    }
}

/// The position of the first line feed in some bytes, or their length where there is none.
pub open spec fn newline_index(b: Seq<u8>) -> int
    decreases b.len(),
{
    if b.len() == 0 {
        0
    } else if b[0] == 10u8 {
        0
    } else {
        1 + newline_index(b.drop_first())
    }
}

/// `newline_index` is the position of the first line feed, or the length.
pub proof fn lemma_newline_index(b: Seq<u8>)
    ensures
        0 <= newline_index(b) <= b.len(),
        newline_index(b) < b.len() ==> b[newline_index(b)] == 10u8,
        forall|k: int| 0 <= k < newline_index(b) ==> b[k] != 10u8,
    decreases b.len(),
{
    if b.len() > 0 && b[0] != 10u8 {
        lemma_newline_index(b.drop_first());
        assert forall|k: int| 0 <= k < newline_index(b) implies b[k] != 10u8 by {
            if k > 0 {
                assert(b[k] == b.drop_first()[k - 1]);
            }
        }
    }
}

/// A position with no line feed before it, and a line feed or the end at it, is
/// `newline_index`.
pub proof fn lemma_newline_at(b: Seq<u8>, n: int)
    requires
        0 <= n <= b.len(),
        forall|k: int| 0 <= k < n ==> b[k] != 10u8,
        n < b.len() ==> b[n] == 10u8,
    ensures
        newline_index(b) == n,
    decreases b.len(),
{
    if n > 0 {
        assert forall|k: int| 0 <= k < n - 1 implies b.drop_first()[k] != 10u8 by {
            assert(b.drop_first()[k] == b[k + 1]);
        }
        if n - 1 < b.len() - 1 {
            assert(b.drop_first()[n - 1] == b[n]);
        }
        lemma_newline_at(b.drop_first(), n - 1);
    }
}

/// A line's bytes without a carriage return at their end.
pub open spec fn strip_cr_byte(b: Seq<u8>) -> Seq<u8> {
    if b.len() > 0 && b.last() == 13u8 {
        b.drop_last()
    } else {
        b
    }
}

/// The lines of some bytes that end with a line feed, without it and without a carriage
/// return before it.
pub open spec fn complete_lines(b: Seq<u8>) -> Seq<Seq<u8>>
    decreases b.len(),
{
    let i = newline_index(b);
    if i >= b.len() {
        seq![]
    } else {
        proof {
            lemma_newline_index(b);
        }
        seq![strip_cr_byte(b.take(i))] + complete_lines(b.skip(i + 1))
    }
}

/// The bytes after the last line feed.
pub open spec fn last_piece(b: Seq<u8>) -> Seq<u8>
    decreases b.len(),
{
    let i = newline_index(b);
    if i >= b.len() {
        b
    } else {
        proof {
            lemma_newline_index(b);
        }
        last_piece(b.skip(i + 1))
    }
}

/// What a line of a metadata file gives, from its bytes: an error where they are not UTF-8.
pub open spec fn byte_line_result(l: Seq<u8>) -> Result<MetadataItemView, ()> {
    if vstd::utf8::valid_utf8(l) {
        line_result(vstd::utf8::decode_utf8(l))
    } else {
        Err(())
    }
}

/// What a metadata file gives, line by line as its data decompresses: one result per line
/// that ends with a line feed; then an error where decompressing failed (the incomplete
/// line before it is lost), else the last line if it has no line feed.
pub open spec fn metadata_results(data: Seq<u8>) -> Seq<Result<MetadataItemView, ()>> {
    let (bytes, failed) = bzip2_decoded(data);
    let body = complete_lines(bytes).map_values(|l: Seq<u8>| byte_line_result(l));
    if failed {
        body.push(Err(()))
    } else if last_piece(bytes).len() > 0 {
        body.push(byte_line_result(last_piece(bytes)))
    } else {
        body
    }
}

/// The items of a metadata file.
pub struct MetadataReader {
    items: Vec<Result<MetadataItem, String>>,
    position: usize,
}

impl MetadataReader {
    #[verifier::type_invariant]
    spec fn well_formed(&self) -> bool {
        self.position <= self.items.len()
    }

    /// What the reader has not handed out yet.
    pub closed spec fn remaining(&self) -> Seq<Result<MetadataItemView, ()>> {
        self.items@.skip(self.position as int).map_values(|r: Result<MetadataItem, String>| result_view(r))
    }

    /// A reader of a (compressed) metadata file.
    pub fn new(data: &[u8]) -> (r: MetadataReader)
        ensures
            r.remaining() == metadata_results(data@),
    {
        let items = read_metadata(data);
        let r = MetadataReader { items, position: 0 };
        assert(r.items@.skip(0) =~= r.items@);
        r
    }

    /// The number of items the reader has not handed out yet.
    pub fn len_remaining(&self) -> (r: usize)
        ensures
            r == self.remaining().len(),
    {
        proof {
            use_type_invariant(self);
        }
        self.items.len() - self.position
    }

    /// The next item, or `None` at the end.
    pub fn next_item(&mut self) -> (r: Option<Result<MetadataItem, String>>)
        ensures
            old(self).remaining().len() == 0 ==> r is None && final(self).remaining() == old(self).remaining(),
            old(self).remaining().len() > 0 ==> (r matches Some(item) && result_view(item) == old(self).remaining()[0]
                && final(self).remaining() == old(self).remaining().drop_first()),
    {
        proof {
            use_type_invariant(&*self);
        }
        if self.position >= self.items.len() {
            return None;
        }
        let item = match &self.items[self.position] {
            Ok(item) => Ok(MetadataItem {
                path: copy_string(item.path.as_str()),
                size: item.size,
                hash: item.hash.copy(),
                unique: item.unique,
                fingerprint: item.fingerprint,
            }),
            Err(e) => Err(copy_string(e.as_str())),
        };
        proof {
            let rest = self.items@.skip(self.position as int);
            assert(rest[0] == self.items@[self.position as int]);
            assert(rest.drop_first() =~= self.items@.skip(self.position + 1));
        }
        self.position += 1;
        proof {
            let rest = old(self).items@.skip(old(self).position as int);
            assert(rest.map_values(|r: Result<MetadataItem, String>| result_view(r)).drop_first()
                =~= rest.drop_first().map_values(|r: Result<MetadataItem, String>| result_view(r)));
        }
        Some(item)
    }
}

/// Decodes a line of a metadata file from its bytes.
fn decode_line(line: Vec<u8>) -> (r: Result<MetadataItem, String>)
    ensures
        result_view(r) == byte_line_result(line@),
{
    match utf8_text(line) {
        Some(text) => MetadataItem::decode(text.as_str()),
        None => Err(String::from_str("stream did not contain valid UTF-8")),
    }
}

/// The bytes `from..to` of some bytes, without a carriage return at their end where `strip`.
fn line_bytes(bytes: &Vec<u8>, from: usize, to: usize, strip: bool) -> (r: Vec<u8>)
    requires
        from <= to <= bytes.len(),
    ensures
        strip ==> r@ == strip_cr_byte(bytes@.subrange(from as int, to as int)),
        !strip ==> r@ == bytes@.subrange(from as int, to as int),
{
    let end = if strip && to > from && bytes[to - 1] == 13u8 { to - 1 } else { to };
    let mut r: Vec<u8> = Vec::new();
    let mut k: usize = from;
    while k < end
        invariant
            from <= k <= end <= to <= bytes.len(),
            r@ == bytes@.subrange(from as int, k as int),
        decreases end - k,
    {
        r.push(bytes[k]);
        k += 1;
        assert(r@ =~= bytes@.subrange(from as int, k as int));
    }
    if to > from {
        assert(bytes@.subrange(from as int, to as int).drop_last() =~= bytes@.subrange(from as int, to - 1));
    }
    r
}

/// Reads all items of a (compressed) metadata file, line by line as its data decompresses.
pub fn read_metadata(data: &[u8]) -> (r: Vec<Result<MetadataItem, String>>)
    ensures
        r@.map_values(|r: Result<MetadataItem, String>| result_view(r)) == metadata_results(data@),
{
    let (bytes, failure) = bzip2_decode(data);
    let ghost all = bytes@;
    let mut r: Vec<Result<MetadataItem, String>> = Vec::new();
    let ghost mut done: Seq<Seq<u8>> = seq![];
    let mut start: usize = 0;
    assert(all.skip(0) =~= all);
    loop
        invariant_except_break
            start <= bytes@.len(),
            all == bytes@,
            complete_lines(all) == done + complete_lines(all.skip(start as int)),
            last_piece(all) == last_piece(all.skip(start as int)),
            r@.map_values(|r: Result<MetadataItem, String>| result_view(r)) == done.map_values(|l: Seq<u8>| byte_line_result(l)),
        ensures
            start <= bytes@.len(),
            all == bytes@,
            complete_lines(all) == done,
            last_piece(all) == all.skip(start as int),
            r@.map_values(|r: Result<MetadataItem, String>| result_view(r)) == done.map_values(|l: Seq<u8>| byte_line_result(l)),
        decreases bytes@.len() - start,
    {
        let mut j: usize = start;
        while j < bytes.len() && bytes[j] != 10u8
            invariant
                start <= j <= bytes@.len(),
                forall|k: int| start <= k < j ==> bytes@[k] != 10u8,
            decreases bytes@.len() - j,
        {
            j += 1;
        }
        let ghost rest = all.skip(start as int);
        proof {
            assert forall|k: int| 0 <= k < j - start implies rest[k] != 10u8 by {
                assert(rest[k] == all[start + k]);
            }
            if j < bytes.len() {
                assert(rest[j - start] == all[j as int]);
            }
            lemma_newline_at(rest, j - start);
        }
        if j >= bytes.len() {
            proof {
                assert(complete_lines(rest) =~= seq![]);
                assert(done + complete_lines(rest) =~= done);
            }
            break;
        }
        let line = line_bytes(&bytes, start, j, true);
        let item = decode_line(line);
        let ghost before = r@;
        r.push(item);
        proof {
            assert(rest.take(j - start) =~= all.subrange(start as int, j as int));
            assert(rest.skip(j - start + 1) =~= all.skip(j + 1));
            let l = strip_cr_byte(all.subrange(start as int, j as int));
            assert(complete_lines(rest) == seq![l] + complete_lines(all.skip(j + 1)));
            assert(done + complete_lines(rest) =~= done.push(l) + complete_lines(all.skip(j + 1)));
            assert(r@.map_values(|r: Result<MetadataItem, String>| result_view(r)) =~= before.map_values(|r: Result<MetadataItem, String>| result_view(r)).push(result_view(item)));
            assert(done.push(l).map_values(|l: Seq<u8>| byte_line_result(l)) =~= done.map_values(|l: Seq<u8>| byte_line_result(l)).push(byte_line_result(l)));
            done = done.push(l);
        }
        start = j + 1;
    }
    let ghost body = done.map_values(|l: Seq<u8>| byte_line_result(l));
    match failure {
        Some(e) => {
            r.push(Err(e));
            assert(r@.map_values(|r: Result<MetadataItem, String>| result_view(r)) =~= body.push(Err(())));
        },
        None => {
            if start < bytes.len() {
                let line = line_bytes(&bytes, start, bytes.len(), false);
                assert(line@ =~= all.skip(start as int));
                let item = decode_line(line);
                r.push(item);
                assert(r@.map_values(|r: Result<MetadataItem, String>| result_view(r)) =~= body.push(byte_line_result(last_piece(all))));
            }
        },
    }
    r
}


/// The text that a metadata writer writes for some items: their lines in order, each with
/// its line feed.
pub open spec fn items_text(items: Seq<MetadataItemView>) -> Seq<char>
    decreases items.len(),
{
    if items.len() == 0 {
        seq![]
    } else {
        items_text(items.drop_last()) + item_text(items.last()).push('\n')
    }
}

proof fn lemma_lacks_add(a: Seq<char>, b: Seq<char>, c: char)
    requires
        lacks(a, c),
        lacks(b, c),
    ensures
        lacks(a + b, c),
{
    assert forall|i: int| 0 <= i < (a + b).len() implies (a + b)[i] != c by {
        if i >= a.len() {
            assert((a + b)[i] == b[i - a.len()]);
        }
    }
}

/// The line of an item with a writable path holds no line feed, and does not end with a
/// carriage return.
proof fn lemma_item_text_one_line(v: MetadataItemView)
    requires
        valid_metadata_path(v.path),
    ensures
        lacks(item_text(v), '\n'),
        item_text(v).len() > 0,
        item_text(v).last() != '\r',
{
    let sp = seq![' '];
    let st = status_word(v.unique);
    lemma_hex_lacks_space(v.hash);
    lemma_decimal_lacks(v.fingerprint.device as nat);
    lemma_decimal_lacks(v.fingerprint.inode as nat);
    lemma_signed_decimal_lacks(v.fingerprint.mtime_nsec as int);
    lemma_decimal_lacks(v.size as nat);
    assert(lacks(st, '\n'));
    assert(lacks(sp, '\n'));
    assert(lacks(seq![':'], '\n'));
    let d1 = decimal(v.fingerprint.device as nat);
    let d2 = decimal(v.fingerprint.inode as nat);
    let d3 = signed_decimal(v.fingerprint.mtime_nsec as int);
    lemma_lacks_add(d1, seq![':'], '\n');
    lemma_lacks_add(d1 + seq![':'], d2, '\n');
    lemma_lacks_add(d1 + seq![':'] + d2, seq![':'], '\n');
    lemma_lacks_add(d1 + seq![':'] + d2 + seq![':'], d3, '\n');
    let f = fingerprint_text(v.fingerprint);
    let h = to_hex(v.hash);
    let d = decimal(v.size as nat);
    lemma_lacks_add(st, sp, '\n');
    lemma_lacks_add(st + sp, h, '\n');
    lemma_lacks_add(st + sp + h, sp, '\n');
    lemma_lacks_add(st + sp + h + sp, f, '\n');
    lemma_lacks_add(st + sp + h + sp + f, sp, '\n');
    lemma_lacks_add(st + sp + h + sp + f + sp, d, '\n');
    lemma_lacks_add(st + sp + h + sp + f + sp + d, sp, '\n');
    lemma_lacks_add(st + sp + h + sp + f + sp + d + sp, v.path, '\n');
    let t = item_text(v);
    if v.path.len() > 0 {
        assert(t.last() == v.path.last());
    } else {
        assert(t.last() == ' ');
    }
}

/// The UTF-8 encoding of two texts one after the other is that of each, one after the other.
proof fn lemma_encode_add(a: Seq<char>, b: Seq<char>)
    ensures
        vstd::utf8::encode_utf8(a + b) == vstd::utf8::encode_utf8(a) + vstd::utf8::encode_utf8(b),
    decreases a.len(),
{
    if a.len() > 0 {
        lemma_encode_add(a.drop_first(), b);
        assert((a + b).drop_first() =~= a.drop_first() + b);
        assert((a + b)[0] == a[0]);
    } else {
        assert(a + b =~= b);
    }
}

/// A byte of the encoding of a character is a line feed, or a carriage return, only where
/// the character is one.
proof fn lemma_scalar_bytes(c: char)
    ensures
        forall|i: int| 0 <= i < vstd::utf8::encode_scalar(c as u32).len()
            ==> (#[trigger] vstd::utf8::encode_scalar(c as u32)[i] == 10u8 ==> c == '\n')
                && (vstd::utf8::encode_scalar(c as u32)[i] == 13u8 ==> c == '\r'),
{
    let s = c as u32;
    vstd::utf8::char_is_scalar(c);
    vstd::utf8::char_u32_cast(c, s);
    assert(s <= 0x7F ==> ((s & 0x7F) as u8 == 10u8 ==> s == 10u32)) by (bit_vector);
    assert(s <= 0x7F ==> ((s & 0x7F) as u8 == 13u8 ==> s == 13u32)) by (bit_vector);
    assert((0xC0u8 | ((s >> 6u32) & 0x1Fu32) as u8) >= 0x80u8) by (bit_vector);
    assert((0xE0u8 | ((s >> 12u32) & 0x0Fu32) as u8) >= 0x80u8) by (bit_vector);
    assert((0xF0u8 | ((s >> 18u32) & 0x7u32) as u8) >= 0x80u8) by (bit_vector);
    assert((0x80u8 | (s & 0x3Fu32) as u8) >= 0x80u8) by (bit_vector);
    assert((0x80u8 | ((s >> 6u32) & 0x3Fu32) as u8) >= 0x80u8) by (bit_vector);
    assert((0x80u8 | ((s >> 12u32) & 0x3Fu32) as u8) >= 0x80u8) by (bit_vector);
    assert(10u32 as char == '\n');
    assert(13u32 as char == '\r');
}

/// The encoding of a text without line feeds holds no line feed byte.
proof fn lemma_encode_lacks_newline(chars: Seq<char>)
    requires
        lacks(chars, '\n'),
    ensures
        forall|i: int| 0 <= i < vstd::utf8::encode_utf8(chars).len() ==> #[trigger] vstd::utf8::encode_utf8(chars)[i] != 10u8,
    decreases chars.len(),
{
    if chars.len() > 0 {
        let rest = chars.drop_first();
        assert(lacks(rest, '\n')) by {
            assert forall|i: int| 0 <= i < rest.len() implies rest[i] != '\n' by {
                assert(rest[i] == chars[i + 1]);
            }
        }
        lemma_encode_lacks_newline(rest);
        lemma_scalar_bytes(chars[0]);
        let e = vstd::utf8::encode_utf8(chars);
        let h = vstd::utf8::encode_scalar(chars[0] as u32);
        assert forall|i: int| 0 <= i < e.len() implies #[trigger] e[i] != 10u8 by {
            if i < h.len() {
                assert(e[i] == h[i]);
            } else {
                assert(e[i] == vstd::utf8::encode_utf8(rest)[i - h.len()]);
            }
        }
    }
}

/// The encoding of a text that does not end with a carriage return does not end with its
/// byte.
proof fn lemma_encode_last(chars: Seq<char>)
    requires
        chars.len() > 0,
        chars.last() != '\r',
    ensures
        vstd::utf8::encode_utf8(chars).len() > 0,
        vstd::utf8::encode_utf8(chars).last() != 13u8,
{
    let init = chars.drop_last();
    let last = chars.last();
    assert(chars =~= init + seq![last]);
    lemma_encode_add(init, seq![last]);
    assert(seq![last].drop_first() =~= Seq::<char>::empty());
    let h = vstd::utf8::encode_scalar(last as u32);
    assert(vstd::utf8::encode_utf8(seq![last]) =~= h + vstd::utf8::encode_utf8(Seq::<char>::empty()));
    vstd::utf8::char_is_scalar(last);
    lemma_scalar_bytes(last);
    assert(h.len() > 0);
    assert(vstd::utf8::encode_utf8(chars).last() == h[h.len() - 1]);
}

/// Some bytes that end with a line feed (or are empty), followed by a line and a line feed:
/// their lines, then that line.
proof fn lemma_complete_lines_snoc(a: Seq<u8>, l: Seq<u8>)
    requires
        last_piece(a).len() == 0,
        forall|i: int| 0 <= i < l.len() ==> #[trigger] l[i] != 10u8,
    ensures
        complete_lines(a + l + seq![10u8]) == complete_lines(a).push(strip_cr_byte(l)),
        last_piece(a + l + seq![10u8]).len() == 0,
    decreases a.len(),
{
    let b = a + l + seq![10u8];
    lemma_newline_index(a);
    let i = newline_index(a);
    if a.len() == 0 {
        assert(b =~= l + seq![10u8]);
        lemma_newline_at(b, l.len() as int);
        assert(b.take(l.len() as int) =~= l);
        assert(b.skip(l.len() as int + 1) =~= Seq::<u8>::empty());
        assert(complete_lines(Seq::<u8>::empty()) == Seq::<Seq<u8>>::empty());
        assert(last_piece(Seq::<u8>::empty()) == Seq::<u8>::empty());
        assert(last_piece(b) == last_piece(b.skip(l.len() as int + 1)));
        assert(complete_lines(a) == Seq::<Seq<u8>>::empty());
        assert(seq![strip_cr_byte(l)] =~= Seq::<Seq<u8>>::empty().push(strip_cr_byte(l)));
    } else {
        assert(i < a.len());
        lemma_newline_at(b, i);
        let rest = a.skip(i + 1);
        assert(b.take(i) =~= a.take(i));
        assert(b.skip(i + 1) =~= rest + l + seq![10u8]);
        assert(last_piece(a) == last_piece(rest));
        lemma_complete_lines_snoc(rest, l);
        assert(last_piece(b) == last_piece(b.skip(i + 1)));
        assert(seq![strip_cr_byte(a.take(i))] + complete_lines(rest).push(strip_cr_byte(l))
            =~= (seq![strip_cr_byte(a.take(i))] + complete_lines(rest)).push(strip_cr_byte(l)));
    }
}

/// The encoded text of some items: one line per item, with nothing after the last.
proof fn lemma_items_lines(items: Seq<MetadataItemView>)
    requires
        forall|k: int| 0 <= k < items.len() ==> valid_metadata_path(#[trigger] items[k].path),
    ensures
        complete_lines(vstd::utf8::encode_utf8(items_text(items)))
            == items.map_values(|v: MetadataItemView| vstd::utf8::encode_utf8(item_text(v))),
        last_piece(vstd::utf8::encode_utf8(items_text(items))).len() == 0,
    decreases items.len(),
{
    if items.len() == 0 {
        assert(vstd::utf8::encode_utf8(Seq::<char>::empty()) =~= Seq::<u8>::empty());
        assert(items.map_values(|v: MetadataItemView| vstd::utf8::encode_utf8(item_text(v))) =~= Seq::<Seq<u8>>::empty());
    } else {
        let init = items.drop_last();
        let v = items.last();
        assert forall|k: int| 0 <= k < init.len() implies valid_metadata_path(#[trigger] init[k].path) by {
            assert(init[k] == items[k]);
        }
        lemma_items_lines(init);
        lemma_item_text_one_line(v);
        let t = item_text(v);
        let a = vstd::utf8::encode_utf8(items_text(init));
        let l = vstd::utf8::encode_utf8(t);
        lemma_encode_add(items_text(init), t.push('\n'));
        assert(t.push('\n') =~= t + seq!['\n']);
        lemma_encode_add(t, seq!['\n']);
        assert(vstd::utf8::encode_utf8(seq!['\n']) =~= seq![10u8]) by {
            let nl = seq!['\n'];
            assert(nl.drop_first() =~= Seq::<char>::empty());
            let c = nl[0] as u32;
            assert(c == 10u32);
            assert((10u32 & 0x7Fu32) as u8 == 10u8) by (bit_vector);
            assert(vstd::utf8::encode_scalar(c) =~= seq![10u8]);
            assert(vstd::utf8::encode_utf8(nl) == vstd::utf8::encode_scalar(c) + vstd::utf8::encode_utf8(nl.drop_first()));
        }
        assert(vstd::utf8::encode_utf8(items_text(items)) =~= a + l + seq![10u8]);
        lemma_encode_lacks_newline(t);
        lemma_encode_last(t);
        assert(strip_cr_byte(l) == l);
        lemma_complete_lines_snoc(a, l);
        assert(items.map_values(|v: MetadataItemView| vstd::utf8::encode_utf8(item_text(v)))
            =~= init.map_values(|v: MetadataItemView| vstd::utf8::encode_utf8(item_text(v))).push(l));
    }
}

/// What a metadata reader gives back of what a metadata writer wrote: where a metadata
/// file decompresses, without error, to the text written for some items with writable
/// paths, reading it gives exactly those items, in order, and then ends.
pub proof fn lemma_metadata_roundtrip(data: Seq<u8>, items: Seq<MetadataItemView>)
    requires
        forall|k: int| 0 <= k < items.len() ==> valid_metadata_path(#[trigger] items[k].path),
        bzip2_decoded(data) == (vstd::utf8::encode_utf8(items_text(items)), false),
    ensures
        metadata_results(data) == items.map_values(|v: MetadataItemView| Ok::<MetadataItemView, ()>(v)),
{
    lemma_items_lines(items);
    let lines = items.map_values(|v: MetadataItemView| vstd::utf8::encode_utf8(item_text(v)));
    assert forall|k: int| 0 <= k < items.len()
        implies byte_line_result(#[trigger] lines[k]) == Ok::<MetadataItemView, ()>(items[k]) by {
        vstd::utf8::encode_utf8_valid_utf8(item_text(items[k]));
        vstd::utf8::encode_utf8_decode_utf8(item_text(items[k]));
        lemma_item_roundtrip(items[k]);
    }
    assert(lines.map_values(|l: Seq<u8>| byte_line_result(l))
        =~= items.map_values(|v: MetadataItemView| Ok::<MetadataItemView, ()>(v)));
}

} // verus!
