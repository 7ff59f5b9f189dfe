//! Streaming digests: MD5 (which Yandex Disk and Google Drive check uploads with) and
//! SHA-512 (of backed up files), fed piece by piece.

use vstd::prelude::*;

use md5::Digest;

use crate::hash::sha512_digest;

verus! {

/// The MD5 digest of `data`, as the `md-5` crate computes it.
pub uninterp spec fn md5_digest(data: Seq<u8>) -> Seq<u8>;

/// The `md-5` crate's hasher.
#[verifier::external_type_specification]
#[verifier::external_body]
pub struct ExMd5(md5::Md5);

/// The `sha2` crate's SHA-512 hasher.
#[verifier::external_type_specification]
#[verifier::external_body]
pub struct ExSha512(sha2::Sha512);

/// The data that an MD5 hasher has been fed.
pub uninterp spec fn md5_fed(h: md5::Md5) -> Seq<u8>;

/// The data that a SHA-512 hasher has been fed.
pub uninterp spec fn sha512_fed(h: sha2::Sha512) -> Seq<u8>;

/// `md5::Md5::new`: a hasher fed nothing.
#[verifier::external_body]
fn md5_new() -> (r: md5::Md5)
    ensures
        md5_fed(r) == Seq::<u8>::empty(),
{
    md5::Md5::new()
}

/// `Digest::update` of `md5::Md5`: feeds data to the hasher.
#[verifier::external_body]
fn md5_update(h: &mut md5::Md5, data: &[u8])
    ensures
        md5_fed(*final(h)) == md5_fed(*old(h)) + data@,
{
    h.update(data)
}

/// `Digest::finalize` of `md5::Md5`: the digest of what the hasher was fed (16 bytes).
#[verifier::external_body]
fn md5_finalize(h: md5::Md5) -> (r: Vec<u8>)
    ensures
        r@ == md5_digest(md5_fed(h)),
        r@.len() == 16,
{
    h.finalize().to_vec()
}

/// `sha2::Sha512::new`: a hasher fed nothing.
#[verifier::external_body]
fn sha512_new() -> (r: sha2::Sha512)
    ensures
        sha512_fed(r) == Seq::<u8>::empty(),
{
    sha2::Sha512::new()
}

/// `Digest::update` of `sha2::Sha512`: feeds data to the hasher.
#[verifier::external_body]
fn sha512_update(h: &mut sha2::Sha512, data: &[u8])
    ensures
        sha512_fed(*final(h)) == sha512_fed(*old(h)) + data@,
{
    h.update(data)
}

/// `Digest::finalize` of `sha2::Sha512`: the digest of what the hasher was fed (64 bytes).
#[verifier::external_body]
fn sha512_finalize(h: sha2::Sha512) -> (r: Vec<u8>)
    ensures
        r@ == sha512_digest(sha512_fed(h)),
        r@.len() == 64,
{
    h.finalize().to_vec()
}

/// A hasher of uploads: data is written to it, and it gives the hash of all of it.
pub trait Hasher {
    /// Whether the hasher is in a good state (as made and kept by its methods).
    spec fn inv(&self) -> bool;

    /// Writes data; returns how much of it was taken.
    fn write(&mut self, buf: &[u8]) -> (r: usize)
        requires
            old(self).inv(),
        ensures
            final(self).inv(),
            r <= buf@.len(),
    ;

    /// The hash of all the data written.
    fn finish(self) -> crate::hash::Hash
        requires
            self.inv(),
    ;
}

/// The MD5 hasher of uploads.
pub struct Md5Hasher {
    hasher: md5::Md5,
}

impl Md5Hasher {
    /// A hasher with nothing written.
    pub fn new() -> (r: Md5Hasher)
        ensures
            r.data() == Seq::<u8>::empty(),
    {
        Md5Hasher { hasher: md5_new() }
    }

    /// All data written so far.
    pub closed spec fn data(&self) -> Seq<u8> {
        md5_fed(self.hasher)
    }
}

impl Hasher for Md5Hasher {
    open spec fn inv(&self) -> bool {
        true
    }

    fn write(&mut self, buf: &[u8]) -> (r: usize)
        ensures
            r == buf@.len(),
            final(self).data() == old(self).data() + buf@,
    {
        md5_update(&mut self.hasher, buf);
        buf.len()
    }

    fn finish(self) -> (r: crate::hash::Hash)
        ensures
            r@ == md5_digest(self.data()),
    {
        let bytes = md5_finalize(self.hasher);
        crate::hash::Hash::from_bytes(bytes.as_slice())
    }
}

impl Hasher for crate::hash::ChunkedSha256 {
    open spec fn inv(&self) -> bool {
        self.wf()
    }

    fn write(&mut self, buf: &[u8]) -> (r: usize)
        ensures
            final(self).data() == old(self).data() + buf@.take(r as int),
            final(self).block_size() == old(self).block_size(),
            r == (if buf@.len() == 0 || old(self).block_size() == 0 {
                0
            } else {
                crate::hash::min_nat(buf@.len(), (old(self).block_size() - old(self).data().len() as int
                    % (old(self).block_size() as int)) as nat)
            }),
    {
        crate::hash::ChunkedSha256::write(self, buf)
    }

    fn finish(self) -> (r: crate::hash::Hash)
        ensures
            self.block_size() > 0 ==> r@ == crate::hash::chunked_sha256(self.data(), self.block_size()),
            self.block_size() == 0 ==> r@ == crate::hash::sha256_digest(crate::hash::empty_block_digests(self.empty_blocks())),
    {
        crate::hash::ChunkedSha256::finish(self)
    }
}

/// What a file reader does next.
#[derive(Clone, Copy, Debug, PartialEq, Eq, Structural)]
pub enum ReadPlan {
    /// The file is read to its size: nothing more.
    End,
    /// Read up to this many bytes from the file.
    FromFile(usize),
    /// The file was truncated while read: this many zero bytes stand for the missing data.
    Zeros(usize),
}

/// A reader of a file of a known size for an archive: it gives exactly that many bytes,
/// zeros where the file turns out shorter, and hashes what it read from the file.
pub struct FileReader {
    digest: sha2::Sha512,
    bytes_read: u64,
    bytes_left: u64,
    truncated: bool,
}

/// Where a file reader is, as values.
pub struct FileReaderView {
    pub bytes_read: u64,
    pub bytes_left: u64,
    pub truncated: bool,
    /// The data read from the file so far.
    pub read_data: Seq<u8>,
}

impl View for FileReader {
    type V = FileReaderView;

    closed spec fn view(&self) -> FileReaderView {
        FileReaderView {
            bytes_read: self.bytes_read,
            bytes_left: self.bytes_left,
            truncated: self.truncated,
            read_data: sha512_fed(self.digest),
        }
    }
}

impl FileReader {
    /// A reader of a file of the given size.
    pub fn new(size: u64) -> (r: FileReader)
        ensures
            r@ == (FileReaderView { bytes_read: 0, bytes_left: size, truncated: false, read_data: Seq::empty() }),
    {
        FileReader { digest: sha512_new(), bytes_read: 0, bytes_left: size, truncated: false }
    }

    /// What to do with a buffer of the given size: nothing at the end; zeros once the file
    /// was found truncated; else read from the file, at most what is left of its size.
    pub fn plan(&self, buf_len: usize) -> (r: ReadPlan)
        ensures
            ({
                let n = if self@.bytes_left < buf_len { self@.bytes_left as int } else { buf_len as int };
                if n == 0 {
                    r == ReadPlan::End
                } else if self@.truncated {
                    r == ReadPlan::Zeros(n as usize)
                } else {
                    r == ReadPlan::FromFile(n as usize)
                }
            }),
    {
        let n: usize = if self.bytes_left < buf_len as u64 { self.bytes_left as usize } else { buf_len };
        if n == 0 {
            ReadPlan::End
        } else if self.truncated {
            ReadPlan::Zeros(n)
        } else {
            ReadPlan::FromFile(n)
        }
    }

    /// Takes zeros given out for a truncated file.
    pub fn on_zeros(&mut self, n: usize)
        requires
            n <= old(self)@.bytes_left,
        ensures
            final(self)@ == (FileReaderView { bytes_left: (old(self)@.bytes_left - n) as u64, ..old(self)@ }),
    {
        self.bytes_left = self.bytes_left - n as u64;
    }

    /// Takes what was read from the file (at most what is left of its size): nothing read
    /// means the file is shorter than its size, and zeros stand for the rest; data read is
    /// counted and hashed.
    pub fn on_file_data(&mut self, data: &[u8])
        requires
            data@.len() <= old(self)@.bytes_left,
            old(self)@.bytes_read + old(self)@.bytes_left <= u64::MAX,
        ensures
            data@.len() == 0 ==> final(self)@ == (FileReaderView { truncated: true, ..old(self)@ }),
            data@.len() > 0 ==> final(self)@ == (FileReaderView {
                bytes_left: (old(self)@.bytes_left - data@.len()) as u64,
                bytes_read: (old(self)@.bytes_read + data@.len()) as u64,
                read_data: old(self)@.read_data + data@,
                ..old(self)@
            }),
    {
        if data.len() == 0 {
            self.truncated = true;
            return;
        }
        self.bytes_read = self.bytes_read + data.len() as u64;
        self.bytes_left = self.bytes_left - data.len() as u64;
        sha512_update(&mut self.digest, data);
    }

    /// How many bytes were read from the file, and their hash.
    pub fn consume(self) -> (r: (u64, crate::hash::Hash))
        ensures
            r.0 == self@.bytes_read,
            r.1@ == sha512_digest(self@.read_data),
    {
        let bytes = sha512_finalize(self.digest);
        (self.bytes_read, crate::hash::Hash::from_bytes(bytes.as_slice()))
    }
}


/// `n` zero bytes.
pub open spec fn zeros(n: nat) -> Seq<u8> {
    Seq::new(n, |i: int| 0u8)
}

/// Where a copy of a file of `size` bytes, whose data is `data`, stands after a file reader
/// in state `v` gave out `out`: what it read is the start of the data and is counted, what it
/// gave out is that and zeros after it (zeros only once the data ran out), and what it gave
/// out and what is left make the size.
pub open spec fn copied_as(v: FileReaderView, size: u64, data: Seq<u8>, out: Seq<u8>) -> bool {
    &&& v.read_data.len() <= data.len()
    &&& v.read_data == data.take(v.read_data.len() as int)
    &&& v.bytes_read == v.read_data.len()
    &&& out.len() + v.bytes_left == size
    &&& v.read_data.len() <= out.len()
    &&& out == v.read_data + zeros((out.len() - v.read_data.len()) as nat)
    &&& !v.truncated ==> out.len() == v.read_data.len()
    &&& v.truncated ==> v.read_data.len() == data.len()
}

/// A copy starts with a new reader and nothing given out.
pub proof fn lemma_copy_start(size: u64, data: Seq<u8>)
    ensures
        copied_as(FileReaderView { bytes_read: 0, bytes_left: size, truncated: false, read_data: Seq::empty() }, size, data, seq![]),
{
    assert(data.take(0) =~= Seq::<u8>::empty());
    assert(Seq::<u8>::empty() + zeros(0) =~= Seq::<u8>::empty());
}

/// Data read from the file (the next bytes of its data, see `FileReader::on_file_data`) is
/// given out and hashed.
pub proof fn lemma_copy_file_data(v: FileReaderView, size: u64, data: Seq<u8>, out: Seq<u8>, chunk: Seq<u8>)
    requires
        copied_as(v, size, data, out),
        !v.truncated,
        0 < chunk.len() <= v.bytes_left,
        v.read_data.len() + chunk.len() <= data.len(),
        chunk == data.subrange(v.read_data.len() as int, (v.read_data.len() + chunk.len()) as int),
    ensures
        v.bytes_read + v.bytes_left <= u64::MAX,
        copied_as(FileReaderView {
            bytes_left: (v.bytes_left - chunk.len()) as u64,
            bytes_read: (v.bytes_read + chunk.len()) as u64,
            read_data: v.read_data + chunk,
            ..v
        }, size, data, out + chunk),
{
    let k = v.read_data.len() as int;
    assert(v.read_data + chunk =~= data.take(k + chunk.len()));
    assert(zeros(0) =~= Seq::<u8>::empty());
    assert(out =~= v.read_data);
    assert(out + chunk =~= v.read_data + chunk + zeros(0));
}

/// The file giving nothing once all its data was read marks it truncated, and gives out
/// nothing.
pub proof fn lemma_copy_end_of_file(v: FileReaderView, size: u64, data: Seq<u8>, out: Seq<u8>)
    requires
        copied_as(v, size, data, out),
        !v.truncated,
        v.read_data.len() == data.len(),
    ensures
        copied_as(FileReaderView { truncated: true, ..v }, size, data, out),
{
}

/// Zeros given out for a truncated file (see `FileReader::on_zeros`).
pub proof fn lemma_copy_zeros(v: FileReaderView, size: u64, data: Seq<u8>, out: Seq<u8>, n: nat)
    requires
        copied_as(v, size, data, out),
        v.truncated,
        n <= v.bytes_left,
    ensures
        copied_as(FileReaderView { bytes_left: (v.bytes_left - n) as u64, ..v }, size, data, out + zeros(n)),
{
    let z = (out.len() - v.read_data.len()) as nat;
    assert(out + zeros(n) =~= v.read_data + zeros(z + n));
}

/// A copy with nothing left gave out exactly `size` bytes: the first `m` bytes of the data,
/// `m` being the smaller of its length and the size, then zeros; and the reader read and
/// hashed exactly those `m` bytes (see `FileReader::consume`).
pub proof fn lemma_copy_done(v: FileReaderView, size: u64, data: Seq<u8>, out: Seq<u8>)
    requires
        copied_as(v, size, data, out),
        v.bytes_left == 0,
    ensures
        ({
            let m = crate::hash::min_nat(data.len(), size as nat);
            &&& out == data.take(m as int) + zeros((size - m) as nat)
            &&& v.read_data == data.take(m as int)
            &&& v.bytes_read == m
        }),
{
}

} // verus!
