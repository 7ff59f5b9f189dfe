//! File and upload digests: the `Hash` value type, its hex form, and the chunked SHA-256
//! scheme that cloud storage uses to check uploads.

use vstd::prelude::*;

use sha2::Digest;

verus! {

/// The SHA-256 digest of `data`, as the `sha2` crate computes it.
pub uninterp spec fn sha256_digest(data: Seq<u8>) -> Seq<u8>;

/// The SHA-512 digest of `data`, as the `sha2` crate computes it.
pub uninterp spec fn sha512_digest(data: Seq<u8>) -> Seq<u8>;

/// `sha2::Sha256::digest`: the SHA-256 digest of `data`, which is 32 bytes long.
#[verifier::external_body]
fn sha256(data: &[u8]) -> (r: Vec<u8>)
    ensures
        r@ == sha256_digest(data@),
        r@.len() == 32,
{
    sha2::Sha256::digest(data).to_vec()
}

/// `sha2::Sha512::digest`: the SHA-512 digest of `data`, which is 64 bytes long.
#[verifier::external_body]
fn sha512(data: &[u8]) -> (r: Vec<u8>)
    ensures
        r@ == sha512_digest(data@),
        r@.len() == 64,
{
    sha2::Sha512::digest(data).to_vec()
}

/// A digest of some data.
#[derive(Clone, Debug, PartialEq, Eq, Hash)]
pub struct Hash {
    bytes: Vec<u8>,
}

impl View for Hash {
    type V = Seq<u8>;

    closed spec fn view(&self) -> Seq<u8> {
        self.bytes@
    }
}

/// The lower-case hex digit of a number below 16.
pub open spec fn hex_char(n: nat) -> char {
    if n < 10 {
        crate::text::digit_char(n)
    } else if n == 10 { 'a' } else if n == 11 { 'b' } else if n == 12 { 'c' }
    else if n == 13 { 'd' } else if n == 14 { 'e' } else { 'f' }
}

/// The lower-case hex form of some bytes: two digits per byte, the high half first.
pub open spec fn to_hex(bytes: Seq<u8>) -> Seq<char>
    decreases bytes.len(),
{
    if bytes.len() == 0 {
        Seq::empty()
    } else {
        to_hex(bytes.drop_last()) + seq![hex_char(bytes.last() as nat / 16), hex_char(bytes.last() as nat % 16)]
    }
}

/// The value of a hex digit of either case.
pub open spec fn hex_value(c: char) -> Option<nat> {
    if '0' <= c && c <= '9' {
        Some((c as int - '0' as int) as nat)
    } else if 'a' <= c && c <= 'f' {
        Some((c as int - 'a' as int + 10) as nat)
    } else if 'A' <= c && c <= 'F' {
        Some((c as int - 'A' as int + 10) as nat)
    } else {
        None
    }
}

/// The bytes that a hex string of even length stands for, or `None` if it is not one.
pub open spec fn from_hex(s: Seq<char>) -> Option<Seq<u8>>
    decreases s.len(),
{
    if s.len() == 0 {
        Some(Seq::empty())
    } else if s.len() == 1 {
        None
    } else {
        match (from_hex(s.take(s.len() - 2)), hex_value(s[s.len() - 2]), hex_value(s[s.len() - 1])) {
            (Some(prefix), Some(high), Some(low)) => Some(prefix.push((high * 16 + low) as u8)),
            _ => None,
        }
    }
}

proof fn lemma_hex_char(n: nat)
    requires
        n < 16,
    ensures
        hex_value(hex_char(n)) == Some(n),
{
}

/// Reading the hex form of some bytes gives the same bytes back.
pub proof fn lemma_hex_roundtrip(bytes: Seq<u8>)
    ensures
        from_hex(to_hex(bytes)) == Some(bytes),
        to_hex(bytes).len() == 2 * bytes.len(),
    decreases bytes.len(),
{
    if bytes.len() > 0 {
        let prefix = bytes.drop_last();
        let b = bytes.last();
        lemma_hex_roundtrip(prefix);
        lemma_hex_char(b as nat / 16);
        lemma_hex_char(b as nat % 16);
        let h = to_hex(bytes);
        assert(h.take(h.len() - 2) =~= to_hex(prefix));
        assert(prefix.push(b) =~= bytes);
    }
}

fn hex_digit(n: u8) -> (c: char)
    requires
        n < 16,
    ensures
        c == hex_char(n as nat),
{
    if n == 0 { '0' } else if n == 1 { '1' } else if n == 2 { '2' } else if n == 3 { '3' }
    else if n == 4 { '4' } else if n == 5 { '5' } else if n == 6 { '6' } else if n == 7 { '7' }
    else if n == 8 { '8' } else if n == 9 { '9' } else if n == 10 { 'a' } else if n == 11 { 'b' }
    else if n == 12 { 'c' } else if n == 13 { 'd' } else if n == 14 { 'e' } else { 'f' }
}

fn hex_digit_value(c: char) -> (r: Option<u8>)
    ensures
        r matches Some(v) ==> hex_value(c) == Some(v as nat) && v < 16,
        r is None ==> hex_value(c) is None,
{
    if '0' <= c && c <= '9' {
        Some(((c as u32) - ('0' as u32)) as u8)
    } else if 'a' <= c && c <= 'f' {
        Some(((c as u32) - ('a' as u32) + 10) as u8)
    } else if 'A' <= c && c <= 'F' {
        Some(((c as u32) - ('A' as u32) + 10) as u8)
    } else {
        None
    }
}

impl Hash {
    /// The hash with the given bytes.
    pub fn from_bytes(bytes: &[u8]) -> (r: Hash)
        ensures
            r@ == bytes@,
    {
        Hash { bytes: vstd::slice::slice_to_vec(bytes) }
    }

    /// A copy of the hash.
    pub fn copy(&self) -> (r: Hash)
        ensures
            r@ == self@,
    {
        Hash::from_bytes(self.bytes.as_slice())
    }

    /// The bytes of the hash.
    pub fn as_bytes(&self) -> (r: &[u8])
        ensures
            r@ == self@,
    {
        self.bytes.as_slice()
    }

    /// Whether two hashes are equal.
    pub fn equals(&self, other: &Hash) -> (r: bool)
        ensures
            r == (self@ == other@),
    {
        if self.bytes.len() != other.bytes.len() {
            return false;
        }
        let mut i: usize = 0;
        while i < self.bytes.len()
            invariant
                i <= self@.len(),
                self@.len() == other@.len(),
                forall|j: int| 0 <= j < i ==> self@[j] == other@[j],
            decreases self@.len() - i,
        {
            if self.bytes[i] != other.bytes[i] {
                return false;
            }
            i += 1;
        }
        assert(self@ =~= other@);
        true
    }

    /// The lower-case hex form of the hash (how it is displayed and stored).
    pub fn to_hex_chars(&self) -> (r: Vec<char>)
        ensures
            r@ == to_hex(self@),
    {
        let mut r: Vec<char> = Vec::new();
        let mut i: usize = 0;
        while i < self.bytes.len()
            invariant
                i <= self@.len(),
                r@ == to_hex(self@.take(i as int)),
            decreases self@.len() - i,
        {
            let b = self.bytes[i];
            r.push(hex_digit(b / 16));
            r.push(hex_digit(b % 16));
            proof {
                let t = self@.take(i + 1);
                assert(t.drop_last() =~= self@.take(i as int));
                assert(t.last() == b);
            }
            i += 1;
            assert(r@ =~= to_hex(self@.take(i as int)));
        }
        assert(self@.take(i as int) =~= self@);
        r
    }

    /// The lower-case hex form of the hash as a string.
    pub fn to_string(&self) -> (r: String)
        ensures
            r@ == to_hex(self@),
    {
        let chars = self.to_hex_chars();
        crate::text::string_of(chars.as_slice())
    }

    /// Parses the hex form of a hash.
    pub fn from_hex_chars(s: &[char]) -> (r: Result<Hash, String>)
        ensures
            r is Ok <==> from_hex(s@) is Some,
            r matches Ok(h) ==> from_hex(s@) == Some(h@),
    {
        if s.len() % 2 != 0 {
            proof {
                lemma_from_hex_odd(s@);
            }
            return Err(String::from_str("invalid hash"));
        }
        let mut bytes: Vec<u8> = Vec::new();
        let mut i: usize = 0;
        while i < s.len()
            invariant
                i <= s@.len(),
                i % 2 == 0,
                s@.len() % 2 == 0,
                from_hex(s@.take(i as int)) == Some(bytes@),
            decreases s@.len() - i,
        {
            let high = hex_digit_value(s[i]);
            let low = hex_digit_value(s[i + 1]);
            let ghost t = s@.take(i + 2);
            assert(t.take(t.len() - 2) =~= s@.take(i as int));
            assert(t[t.len() - 2] == s@[i as int]);
            assert(t[t.len() - 1] == s@[i + 1]);
            match (high, low) {
                (Some(h), Some(l)) => {
                    bytes.push(h * 16 + l);
                    i += 2;
                },
                _ => {
                    proof {
                        lemma_from_hex_prefix_none(s@, i + 2);
                    }
                    return Err(String::from_str("invalid hash"));
                },
            }
        }
        assert(s@.take(i as int) =~= s@);
        Ok(Hash { bytes })
    }
}

proof fn lemma_from_hex_odd(s: Seq<char>)
    requires
        s.len() % 2 == 1,
    ensures
        from_hex(s) is None,
    decreases s.len(),
{
    if s.len() > 1 {
        lemma_from_hex_odd(s.take(s.len() - 2));
    }
}

proof fn lemma_from_hex_prefix_none(s: Seq<char>, i: int)
    requires
        0 <= i <= s.len(),
        i % 2 == 0,
        s.len() % 2 == 0,
        from_hex(s.take(i)) is None,
    ensures
        from_hex(s) is None,
    decreases s.len() - i,
{
    if i < s.len() {
        let t = s.take(i + 2);
        assert(t.take(t.len() - 2) =~= s.take(i));
        lemma_from_hex_prefix_none(s, i + 2);
    } else {
        assert(s.take(i) =~= s);
    }
}

/// The hash of an empty file.
pub fn empty_file_hash() -> (r: Hash)
    ensures
        r@ == sha512_digest(Seq::empty()),
{
    let empty: Vec<u8> = Vec::new();
    Hash { bytes: sha512(empty.as_slice()) }
}

/// The digest of an upload in the chunked scheme: the digests of the consecutive blocks of
/// `block_size` bytes, the last one possibly shorter, one after another.
pub open spec fn block_digests(data: Seq<u8>, block_size: nat) -> Seq<u8>
    decreases data.len(),
{
    if data.len() == 0 || block_size == 0 {
        Seq::empty()
    } else if data.len() <= block_size {
        sha256_digest(data)
    } else {
        sha256_digest(data.take(block_size as int)) + block_digests(data.skip(block_size as int), block_size)
    }
}

/// The chunked SHA-256 of some data: the SHA-256 of its block digests.
pub open spec fn chunked_sha256(data: Seq<u8>, block_size: nat) -> Seq<u8> {
    sha256_digest(block_digests(data, block_size))
}

/// The digests of whole blocks followed by more data are the digests of the blocks followed by
/// the digests of the rest.
pub proof fn lemma_block_digests_append(a: Seq<u8>, b: Seq<u8>, block_size: nat)
    requires
        block_size > 0,
        a.len() as int % (block_size as int) == 0,
    ensures
        block_digests(a + b, block_size) == block_digests(a, block_size) + block_digests(b, block_size),
    decreases a.len(),
{
    if a.len() == 0 {
        assert(a + b =~= b);
        assert(block_digests(a, block_size) =~= Seq::<u8>::empty());
        assert(Seq::<u8>::empty() + block_digests(b, block_size) =~= block_digests(b, block_size));
    } else {
        assert(a.len() >= block_size) by (nonlinear_arith)
            requires
                a.len() as int % (block_size as int) == 0,
                a.len() > 0,
                block_size > 0,
        {
        }
        let rest = a.skip(block_size as int);
        assert(rest.len() as int % (block_size as int) == 0) by (nonlinear_arith)
            requires
                a.len() as int % (block_size as int) == 0,
                rest.len() == a.len() - block_size,
                block_size > 0,
        {
        }
        lemma_block_digests_append(rest, b, block_size);
        if b.len() == 0 {
            assert(a + b =~= a);
            assert(block_digests(b, block_size) =~= Seq::<u8>::empty());
            assert(block_digests(a, block_size) + Seq::<u8>::empty() =~= block_digests(a, block_size));
        } else {
            assert((a + b).take(block_size as int) =~= a.take(block_size as int));
            assert((a + b).skip(block_size as int) =~= rest + b);
            if a.len() == block_size {
                assert(a.take(block_size as int) =~= a);
                assert(rest.len() == 0);
                assert(rest + b =~= b);
                assert(block_digests(rest, block_size) =~= Seq::<u8>::empty());
            }
            assert(block_digests(a, block_size) + block_digests(b, block_size) =~= sha256_digest(a.take(block_size as int)) + (block_digests(rest, block_size) + block_digests(b, block_size)));
        }
    }
}

/// The chunked SHA-256 hasher that Dropbox uses to check uploads: every block of
/// `block_size` bytes is hashed on its own, and the result is the hash of those hashes.
pub struct ChunkedSha256 {
    block_size: usize,
    block: Vec<u8>,
    digests: Vec<u8>,
    hashed: Ghost<Seq<u8>>,
    empty_blocks: Ghost<nat>,
}

/// The digests of `n` empty blocks.
pub open spec fn empty_block_digests(n: nat) -> Seq<u8>
    decreases n,
{
    if n == 0 { Seq::empty() } else { empty_block_digests((n - 1) as nat) + sha256_digest(Seq::empty()) }
}

impl ChunkedSha256 {
    /// All the bytes written so far.
    pub closed spec fn data(&self) -> Seq<u8> {
        self.hashed@ + self.block@
    }

    /// The size of the blocks.
    pub closed spec fn block_size(&self) -> nat {
        self.block_size as nat
    }

    /// With blocks of no bytes, how many (empty) blocks the writes of data have made: each
    /// write of some data takes none of it, and hashes an empty block.
    pub closed spec fn empty_blocks(&self) -> nat {
        self.empty_blocks@
    }

    /// The hasher's invariant.
    pub closed spec fn wf(&self) -> bool {
        if self.block_size > 0 {
            &&& self.hashed@.len() as int % (self.block_size as int) == 0
            &&& self.block@.len() < self.block_size
            &&& self.digests@ == block_digests(self.hashed@, self.block_size as nat)
            &&& self.empty_blocks@ == 0
        } else {
            &&& self.hashed@.len() == 0
            &&& self.block@.len() == 0
            &&& self.digests@ == empty_block_digests(self.empty_blocks@)
        }
    }

    /// A hasher with nothing written to it yet.
    pub fn new(block_size: usize) -> (r: ChunkedSha256)
        ensures
            r.wf(),
            r.data() == Seq::<u8>::empty(),
            r.block_size() == block_size,
            r.empty_blocks() == 0,
    {
        let r = ChunkedSha256 {
            block_size,
            block: Vec::new(),
            digests: Vec::new(),
            hashed: Ghost(Seq::empty()),
            empty_blocks: Ghost(0),
        };
        assert(r.hashed@ + r.block@ =~= Seq::<u8>::empty());
        r
    }

    fn consume_block(&mut self)
        requires
            old(self).block_size > 0,
            old(self).hashed@.len() as int % (old(self).block_size as int) == 0,
            old(self).block@.len() == old(self).block_size,
            old(self).digests@ == block_digests(old(self).hashed@, old(self).block_size as nat),
            old(self).empty_blocks@ == 0,
        ensures
            final(self).wf(),
            final(self).empty_blocks@ == 0,
            final(self).data() == old(self).data(),
            final(self).block_size == old(self).block_size,
            final(self).block@.len() == 0,
    {
        let digest = sha256(self.block.as_slice());
        proof {
            let bs = self.block_size as nat;
            lemma_block_digests_append(self.hashed@, self.block@, bs);
            assert(self.block@.take(bs as int) =~= self.block@);
            assert(block_digests(self.block@, bs) == sha256_digest(self.block@));
            assert((self.hashed@ + self.block@).len() as int % (bs as int) == 0) by (nonlinear_arith)
                requires
                    self.hashed@.len() as int % (bs as int) == 0,
                    self.block@.len() == bs,
                    bs > 0,
            {
            }
        }
        let mut i: usize = 0;
        while i < digest.len()
            invariant
                i <= digest@.len(),
                self.digests@ == old(self).digests@ + digest@.take(i as int),
                self.block_size == old(self).block_size,
                self.block == old(self).block,
                self.hashed == old(self).hashed,
                self.empty_blocks == old(self).empty_blocks,
            decreases digest@.len() - i,
        {
            self.digests.push(digest[i]);
            i += 1;
            assert(self.digests@ =~= old(self).digests@ + digest@.take(i as int));
        }
        assert(digest@.take(i as int) =~= digest@);
        self.hashed = Ghost(self.hashed@ + self.block@);
        self.block = Vec::new();
        assert(self.data() =~= old(self).data());
    }

    /// Hashes a part of `buf`: at most up to the end of the current block. Returns how many
    /// bytes were taken.
    pub fn write(&mut self, buf: &[u8]) -> (r: usize)
        requires
            old(self).wf(),
        ensures
            final(self).wf(),
            final(self).block_size() == old(self).block_size(),
            r == (if buf@.len() == 0 || old(self).block_size() == 0 {
                0
            } else {
                crate::hash::min_nat(buf@.len(), (old(self).block_size() - old(self).data().len() as int
                    % (old(self).block_size() as int)) as nat)
            }),
            final(self).data() == old(self).data() + buf@.take(r as int),
            final(self).empty_blocks() == old(self).empty_blocks()
                + if buf@.len() > 0 && old(self).block_size() == 0 { 1nat } else { 0nat },
    {
        let data_size = buf.len();
        if data_size == 0 {
            assert(self.data() + buf@.take(0) =~= self.data());
            return 0;
        }
        if self.block_size == 0 {
            let empty: Vec<u8> = Vec::new();
            let digest = sha256(empty.as_slice());
            assert(empty@ =~= Seq::<u8>::empty());
            let mut i: usize = 0;
            let ghost d0 = self.digests@;
            while i < digest.len()
                invariant
                    i <= digest@.len(),
                    self.digests@ == d0 + digest@.take(i as int),
                    self.block_size == old(self).block_size,
                    self.block == old(self).block,
                    self.hashed == old(self).hashed,
                    self.empty_blocks == old(self).empty_blocks,
                decreases digest@.len() - i,
            {
                self.digests.push(digest[i]);
                i += 1;
                assert(self.digests@ =~= d0 + digest@.take(i as int));
            }
            assert(digest@.take(i as int) =~= digest@);
            self.empty_blocks = Ghost(self.empty_blocks@ + 1);
            assert(self.data() + buf@.take(0) =~= self.data());
            return 0;
        }
        proof {
            let bs = self.block_size as int;
            assert((self.hashed@ + self.block@).len() as int % bs == self.block@.len() as int) by (nonlinear_arith)
                requires
                    self.hashed@.len() as int % bs == 0,
                    0 <= self.block@.len() < bs,
                    bs > 0,
            {
            }
        }
        let available_size = self.block_size - self.block.len();
        let consumed_size = if data_size < available_size { data_size } else { available_size };
        let mut i: usize = 0;
        while i < consumed_size
            invariant
                i <= consumed_size <= buf@.len(),
                self.block@ == old(self).block@ + buf@.take(i as int),
                self.block_size == old(self).block_size,
                self.digests == old(self).digests,
                self.hashed == old(self).hashed,
                self.empty_blocks == old(self).empty_blocks,
                old(self).block@.len() + consumed_size <= self.block_size,
            decreases consumed_size - i,
        {
            self.block.push(buf[i]);
            i += 1;
            assert(self.block@ =~= old(self).block@ + buf@.take(i as int));
        }
        assert(self.data() =~= old(self).data() + buf@.take(consumed_size as int));
        if self.block.len() == self.block_size {
            self.consume_block();
        }
        consumed_size
    }

    /// The chunked digest of everything written.
    pub fn finish(self) -> (r: Hash)
        requires
            self.wf(),
        ensures
            self.block_size() > 0 ==> r@ == chunked_sha256(self.data(), self.block_size()),
            self.block_size() == 0 ==> r@ == sha256_digest(empty_block_digests(self.empty_blocks())),
    {
        assert(self.data() == self.hashed@ + self.block@);
        let ghost data = self.data();
        let mut this = self;
        let bs = this.block_size;
        if this.block.len() > 0 {
            let digest = sha256(this.block.as_slice());
            proof {
                lemma_block_digests_append(this.hashed@, this.block@, bs as nat);
                assert(block_digests(this.block@, bs as nat) == sha256_digest(this.block@));
            }
            let mut i: usize = 0;
            while i < digest.len()
                invariant
                    i <= digest@.len(),
                    this.digests@ == block_digests(this.hashed@, bs as nat) + digest@.take(i as int),
                    this.hashed@ + this.block@ == data,
                    digest@ == sha256_digest(this.block@),
                    block_digests(this.hashed@ + this.block@, bs as nat) == block_digests(this.hashed@, bs as nat) + block_digests(this.block@, bs as nat),
                    block_digests(this.block@, bs as nat) == sha256_digest(this.block@),
                decreases digest@.len() - i,
            {
                this.digests.push(digest[i]);
                i += 1;
                assert(this.digests@ =~= block_digests(this.hashed@, bs as nat) + digest@.take(i as int));
            }
            assert(digest@.take(i as int) =~= digest@);
            assert(this.digests@ == block_digests(this.data(), bs as nat));
        } else if bs > 0 {
            assert(this.data() =~= this.hashed@);
            assert(this.digests@ == block_digests(this.data(), bs as nat));
        }
        Hash { bytes: sha256(this.digests.as_slice()) }
    }
}

/// The smaller of two numbers.
pub open spec fn min_nat(a: nat, b: nat) -> nat {
    if a <= b { a } else { b }
}

} // verus!
