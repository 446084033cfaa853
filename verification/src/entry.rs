use vstd::prelude::*;

use crate::crypt::dec_seq;
use crate::crypt::lemma_dec_seq_len;
use crate::crypt::decrypt_in_place;
use crate::crypt::PakKey;
use crate::err::Error;
use crate::rd::le32;
use crate::rd::le64;
use crate::rd::Rd;
use crate::rd::ReadExt;
use crate::version::Version;

verus! {

/// The closed set of per-entry compression strategies: none at all, the
/// identity codec, and the named codecs this build recognizes but does not
/// provide.
#[derive(Debug, Clone, Copy, PartialEq, Eq, Structural)]
pub enum Codec {
    Uncompressed,
    Store,
    Zlib,
    Gzip,
    Oodle,
}

/// One independently decompressible slice of a compressed payload:
/// `start` is its offset in `[0, compressed_size)`, `size` its length.
#[derive(Debug, Clone, Copy, PartialEq, Eq, Structural)]
pub struct Block {
    pub start: u64,
    pub size: u64,
}

/// One stored file's metadata, identical whichever wire form carried it.
#[derive(Debug, Clone)]
pub struct Entry {
    pub offset: u64,
    pub compressed: u64,
    pub uncompressed: u64,
    pub method_index: u32,
    pub codec: Codec,
    pub encrypted: bool,
    pub blocks: Vec<Block>,
    pub hash: Vec<u8>,
}

/// Mathematical image of an entry's raw wire fields.
pub ghost struct EntryV {
    pub offset: u64,
    pub compressed: u64,
    pub uncompressed: u64,
    pub method_index: u32,
    pub encrypted: bool,
    pub blocks: Seq<Block>,
    pub hash: Seq<u8>,
}

/// The block list partitions `[0, compressed)` contiguously in ascending
/// order with no gaps.
pub open spec fn blocks_contiguous(blocks: Seq<Block>, compressed: u64) -> bool {
    &&& (blocks.len() > 0 ==> blocks[0].start == 0)
    &&& (forall|i: int|
        0 < i < blocks.len() ==> #[trigger] blocks[i].start == blocks[i - 1].start + blocks[i
            - 1].size)
    &&& (blocks.len() > 0 ==> blocks.last().start + blocks.last().size == compressed)
}

impl Entry {
    /// The raw wire image of this entry.
    pub open spec fn ev(self) -> EntryV {
        EntryV {
            offset: self.offset,
            compressed: self.compressed,
            uncompressed: self.uncompressed,
            method_index: self.method_index,
            encrypted: self.encrypted,
            blocks: self.blocks@,
            hash: self.hash@,
        }
    }

    /// Every decoded entry satisfies this shape invariant.
    pub open spec fn wf(self) -> bool {
        &&& blocks_contiguous(self.blocks@, self.compressed)
        &&& (self.method_index == 0 <==> self.codec is Uncompressed)
        &&& (self.method_index == 0 ==> self.blocks@.len() == 0 && self.compressed
            == self.uncompressed)
        &&& (self.method_index != 0 && self.blocks@.len() == 0 ==> self.compressed == 0)
        &&& (self.codec is Store ==> self.compressed == self.uncompressed)
        &&& (self.hash@.len() == 20 || self.hash@.len() == 0)
    }
}

/// The method-name bytes that select each named codec, as stored
/// zero-padded in the trailer's 32-byte name slots.
pub open spec fn spec_name_is(n: Seq<u8>, w: Seq<u8>) -> bool {
    n.len() == 32 && w.len() < 32 && n.subrange(0, w.len() as int) == w && n[w.len() as int] == 0
}

pub open spec fn store_name() -> Seq<u8> {
    seq![83u8, 116u8, 111u8, 114u8, 101u8]
}

pub open spec fn zlib_name() -> Seq<u8> {
    seq![90u8, 108u8, 105u8, 98u8]
}

pub open spec fn gzip_name() -> Seq<u8> {
    seq![71u8, 122u8, 105u8, 112u8]
}

pub open spec fn oodle_name() -> Seq<u8> {
    seq![79u8, 111u8, 100u8, 108u8, 101u8]
}

/// Which codec a method index selects: index 0 is "no compression"; newer
/// dialects look the index up in the trailer's name table, older ones use
/// the fixed legacy numbering.
pub open spec fn spec_resolve(methods: Seq<Seq<u8>>, v: Version, mi: u32) -> Option<Codec> {
    if mi == 0 {
        Some(Codec::Uncompressed)
    } else if v.spec_num() >= 8 {
        if 1 <= mi <= methods.len() {
            let n = methods[mi - 1];
            if spec_name_is(n, store_name()) {
                Some(Codec::Store)
            } else if spec_name_is(n, zlib_name()) {
                Some(Codec::Zlib)
            } else if spec_name_is(n, gzip_name()) {
                Some(Codec::Gzip)
            } else if spec_name_is(n, oodle_name()) {
                Some(Codec::Oodle)
            } else {
                None
            }
        } else {
            None
        }
    } else {
        if mi == 1 {
            Some(Codec::Zlib)
        } else if mi == 2 {
            Some(Codec::Gzip)
        } else {
            None
        }
    }
}

/// The name table of a trailer, as a sequence of byte sequences.
pub open spec fn method_seq(m: Seq<Vec<u8>>) -> Seq<Seq<u8>> {
    Seq::new(m.len(), |k: int| m[k]@)
}

/// What decoding a verbose entry record at position `p` of `d` yields:
/// location and sizes, the method index, an obsolete inline flag and the
/// encrypted flag, then, for a non-trivial method, the block count, a
/// block-size hint (discarded), the content hash and the block list; for
/// method 0 only the hint and the hash. A block list that does not
/// partition `[0, compressed)` is rejected outright.
pub open spec fn spec_verbose_at(d: Seq<u8>, p: int) -> Result<(EntryV, int), Error> {
    if p < 0 || p + 30 > d.len() {
        Err(Error::Io)
    } else {
        let offset = le64(d, p) as u64;
        let comp = le64(d, p + 8) as u64;
        let unc = le64(d, p + 16) as u64;
        let mi = le32(d, p + 24) as u32;
        if d[p + 28] != 0 && d[p + 28] != 1 {
            Err(Error::InvalidBoolean(d[p + 28]))
        } else if d[p + 29] != 0 && d[p + 29] != 1 {
            Err(Error::InvalidBoolean(d[p + 29]))
        } else {
            let enc = d[p + 29] == 1;
            if mi == 0 {
                if p + 54 > d.len() {
                    Err(Error::Io)
                } else if comp != unc {
                    Err(Error::Parse)
                } else {
                    Ok(
                        (
                            EntryV {
                                offset,
                                compressed: comp,
                                uncompressed: unc,
                                method_index: 0,
                                encrypted: enc,
                                blocks: Seq::empty(),
                                hash: d.subrange(p + 34, p + 54),
                            },
                            p + 54,
                        ),
                    )
                }
            } else {
                if p + 34 > d.len() {
                    Err(Error::Io)
                } else {
                    let bc = le32(d, p + 30);
                    if p + 58 + 16 * bc > d.len() {
                        Err(Error::Io)
                    } else {
                        let blocks = Seq::new(
                            bc as nat,
                            |i: int|
                                Block {
                                    start: le64(d, p + 58 + 16 * i) as u64,
                                    size: le64(d, p + 58 + 16 * i + 8) as u64,
                                },
                        );
                        if !blocks_contiguous(blocks, comp) || (bc == 0 && comp != 0) {
                            Err(Error::Parse)
                        } else {
                            Ok(
                                (
                                    EntryV {
                                        offset,
                                        compressed: comp,
                                        uncompressed: unc,
                                        method_index: mi,
                                        encrypted: enc,
                                        blocks,
                                        hash: d.subrange(p + 38, p + 58),
                                    },
                                    p + 58 + 16 * bc,
                                ),
                            )
                        }
                    }
                }
            }
        }
    }
}

/// What decoding a compact entry record at position `p` of `d` yields.
/// A bit-packed flags word selects reduced widths for the offset and the
/// sizes and carries the encrypted flag and the method index; for a
/// non-trivial method the block list is reconstructed from the compressed
/// size and one uniform block size.
pub open spec fn spec_compact_at(d: Seq<u8>, p: int) -> Result<(EntryV, int), Error> {
    if p < 0 || p + 4 > d.len() {
        Err(Error::Io)
    } else {
        let flags = le32(d, p);
        let enc = flags % 2 == 1;
        let off32 = (flags / 2) % 2 == 1;
        let unc32 = (flags / 4) % 2 == 1;
        let comp32 = (flags / 8) % 2 == 1;
        let mi = ((flags / 256) % 64) as u32;
        let po = p + 4;
        let so: int = if off32 {
            4
        } else {
            8
        };
        let su: int = if unc32 {
            4
        } else {
            8
        };
        if po + so + su > d.len() {
            Err(Error::Io)
        } else {
            let offset = (if off32 {
                le32(d, po)
            } else {
                le64(d, po)
            }) as u64;
            let pu = po + so;
            let unc = (if unc32 {
                le32(d, pu)
            } else {
                le64(d, pu)
            }) as u64;
            let pc = pu + su;
            if mi == 0 {
                Ok(
                    (
                        EntryV {
                            offset,
                            compressed: unc,
                            uncompressed: unc,
                            method_index: 0,
                            encrypted: enc,
                            blocks: Seq::empty(),
                            hash: Seq::empty(),
                        },
                        pc,
                    ),
                )
            } else {
                let sc: int = if comp32 {
                    4
                } else {
                    8
                };
                if pc + sc + 8 > d.len() {
                    Err(Error::Io)
                } else {
                    let comp = (if comp32 {
                        le32(d, pc)
                    } else {
                        le64(d, pc)
                    }) as u64;
                    let pb = pc + sc;
                    let bc = le32(d, pb) as u32;
                    let bs = le32(d, pb + 4) as u64;
                    let qe = pb + 8;
                    if bc == 0 {
                        if comp == 0 {
                            Ok(
                                (
                                    EntryV {
                                        offset,
                                        compressed: comp,
                                        uncompressed: unc,
                                        method_index: mi,
                                        encrypted: enc,
                                        blocks: Seq::empty(),
                                        hash: Seq::empty(),
                                    },
                                    qe,
                                ),
                            )
                        } else {
                            Err(Error::Parse)
                        }
                    } else {
                        if comp > bc * bs || comp <= (bc - 1) * bs {
                            Err(Error::Parse)
                        } else {
                            Ok(
                                (
                                    EntryV {
                                        offset,
                                        compressed: comp,
                                        uncompressed: unc,
                                        method_index: mi,
                                        encrypted: enc,
                                        blocks: spec_uniform_blocks(comp, bc, bs),
                                        hash: Seq::empty(),
                                    },
                                    qe,
                                ),
                            )
                        }
                    }
                }
            }
        }
    }
}

/// The block list a compact record stands for: every block `bs` bytes,
/// the last holding the remainder.
pub open spec fn spec_uniform_blocks(comp: u64, bc: u32, bs: u64) -> Seq<Block> {
    Seq::new(
        bc as nat,
        |i: int|
            Block {
                start: (i * bs) as u64,
                size: (if i == bc - 1 {
                    comp - (bc - 1) * bs
                } else {
                    bs as int
                }) as u64,
            },
    )
}

/// A reconstructed uniform block list always satisfies the contiguity
/// invariant.
proof fn lemma_uniform_contiguous(comp: u64, bc: u32, bs: u64)
    requires
        bc >= 1,
        comp <= bc * bs,
        comp > (bc - 1) * bs,
    ensures
        blocks_contiguous(spec_uniform_blocks(comp, bc, bs), comp),
{
    let blocks = spec_uniform_blocks(comp, bc, bs);
    assert forall|i: int| 0 <= i < bc implies 0 <= #[trigger] (i * bs) <= (bc - 1) * bs by {
        vstd::arithmetic::mul::lemma_mul_inequality(i, bc - 1, bs as int);
        vstd::arithmetic::mul::lemma_mul_nonnegative(i, bs as int);
    }
    assert(blocks[0].start == 0);
    assert forall|i: int| 0 < i < bc implies #[trigger] blocks[i].start == blocks[i - 1].start
        + blocks[i - 1].size by {
        assert((i - 1) * bs + bs == i * bs) by (nonlinear_arith);
        if i - 1 == bc - 1 {
        } else {
            assert(blocks[i - 1].size == bs);
        }
    }
    assert(blocks.last().start + blocks.last().size == comp);
}

/// How many stored bytes one block occupies: its size, rounded up to the
/// cipher block when the payload is encrypted.
pub open spec fn spec_stride(sz: u64, enc: bool) -> int {
    if enc && sz % 16 != 0 {
        sz + (16 - sz % 16)
    } else {
        sz as int
    }
}

/// The original bytes one block yields: the stored bytes, decrypted and
/// with the cipher padding discarded when the payload is encrypted.
pub open spec fn spec_block_out(d: Seq<u8>, pos: int, sz: u64, enc: bool, kb: Seq<u8>) -> Seq<u8> {
    if enc {
        dec_seq(kb, d.subrange(pos, pos + spec_stride(sz, true))).take(sz as int)
    } else {
        d.subrange(pos, pos + sz)
    }
}

/// The bytes that blocks `i..` of `bl`, stored back to back from `pos`,
/// yield in order.
pub open spec fn spec_cat(
    d: Seq<u8>,
    bl: Seq<Block>,
    i: int,
    pos: int,
    enc: bool,
    kb: Seq<u8>,
) -> Seq<u8>
    decreases bl.len() - i,
{
    if i < 0 || i >= bl.len() {
        Seq::empty()
    } else {
        spec_block_out(d, pos, bl[i].size, enc, kb) + spec_cat(
            d,
            bl,
            i + 1,
            pos + spec_stride(bl[i].size, enc),
            enc,
            kb,
        )
    }
}

/// Whether blocks `i..` of `bl`, stored back to back from `pos`, lie
/// inside `d`.
pub open spec fn spec_fits(d: Seq<u8>, bl: Seq<Block>, i: int, pos: int, enc: bool) -> bool
    decreases bl.len() - i,
{
    if i < 0 || i >= bl.len() {
        true
    } else {
        pos + spec_stride(bl[i].size, enc) <= d.len() && spec_fits(
            d,
            bl,
            i + 1,
            pos + spec_stride(bl[i].size, enc),
            enc,
        )
    }
}

/// The blocks extraction walks: the stored list, or one implicit block
/// covering the whole payload when the entry is not compressed.
pub open spec fn eff_blocks(e: Entry) -> Seq<Block> {
    if e.method_index == 0 {
        seq![Block { start: 0, size: e.compressed }]
    } else {
        e.blocks@
    }
}

/// The key bytes extraction decrypts with, empty when none were given.
pub open spec fn spec_okey(key: Option<&PakKey>) -> Seq<u8> {
    match key {
        Some(k) => k.key_bytes(),
        None => Seq::empty(),
    }
}

/// The in-file entry record agrees with the catalog record on everything
/// extraction depends on.
pub open spec fn inner_matches(iv: EntryV, e: Entry) -> bool {
    &&& iv.compressed == e.compressed
    &&& iv.uncompressed == e.uncompressed
    &&& iv.method_index == e.method_index
    &&& iv.encrypted == e.encrypted
    &&& iv.blocks == e.blocks@
}

/// Whether two block lists are equal.
fn blocks_eq(a: &Vec<Block>, b: &Vec<Block>) -> (r: bool)
    ensures
        r == (a@ == b@),
{
    if a.len() != b.len() {
        proof {
            assert(a@ != b@);
        }
        return false;
    }
    let n = a.len();
    let mut k: usize = 0;
    while k < n
        invariant
            n == a@.len() == b@.len(),
            k <= n,
            forall|t: int| 0 <= t < k ==> a@[t] == b@[t],
        decreases n - k,
    {
        if a[k] != b[k] {
            return false;
        }
        k = k + 1;
    }
    proof {
        assert(a@ =~= b@);
    }
    true
}

/// Reads, decrypts and concatenates a list of payload blocks stored back
/// to back from `start`; the sink receives the blocks in order.
#[verifier::rlimit(60)]
fn read_payload(
    data: &[u8],
    blocks: &Vec<Block>,
    enc: bool,
    key: Option<&PakKey>,
    start: usize,
    out: &mut Vec<u8>,
) -> (r: Result<(), Error>)
    requires
        enc ==> key is Some,
        start <= data@.len(),
    ensures
        match r {
            Ok(()) => spec_fits(data@, blocks@, 0, start as int, enc) && final(out)@ == old(out)@
                + spec_cat(data@, blocks@, 0, start as int, enc, spec_okey(key)),
            Err(e) => e == Error::Io && !spec_fits(data@, blocks@, 0, start as int, enc),
        },
        final(out)@.len() >= old(out)@.len(),
        final(out)@.take(old(out)@.len() as int) == old(out)@,
{
    let ghost d = data@;
    let ghost eff = blocks@;
    let ghost kb = spec_okey(key);
    let ghost pstart = start as int;
    let ghost baselen = out@.len() as int;
    let dl = data.len();
    let mut pos: usize = start;
    let n: usize = blocks.len();
    let mut i: usize = 0;
    while i < n
        invariant
            d == data@,
            eff == blocks@,
            kb == spec_okey(key),
            enc ==> key is Some,
            key matches Some(k) ==> kb == k.key_bytes(),
            n == eff.len(),
            i <= n,
            0 <= baselen <= out@.len(),
            dl == d.len(),
            pos <= dl,
            pstart == start as int,
            out@.take(baselen) == old(out)@,
            spec_cat(d, eff, 0, pstart, enc, kb) == out@.skip(baselen) + spec_cat(
                d,
                eff,
                i as int,
                pos as int,
                enc,
                kb,
            ),
            spec_fits(d, eff, 0, pstart, enc) <==> spec_fits(d, eff, i as int, pos as int, enc),
        decreases n - i,
    {
        let b: Block = blocks[i];
        let rem64: u64 = (dl - pos) as u64;
        if b.size > rem64 {
            proof {
                assert(!spec_fits(d, eff, i as int, pos as int, enc));
            }
            return Err(Error::Io);
        }
        let pad: u64 = if enc && b.size % 16 != 0 {
            16 - b.size % 16
        } else {
            0
        };
        if pad > rem64 - b.size {
            proof {
                assert(!spec_fits(d, eff, i as int, pos as int, enc));
            }
            return Err(Error::Io);
        }
        let sz: usize = b.size as usize;
        let stride: usize = sz + pad as usize;
        let mut rd2 = Rd::new(data);
        match rd2.seek_to(pos as u64) {
            Ok(()) => (),
            Err(_) => {
                proof {
                    assert(false);
                }
                return Err(Error::Io);
            },
        }
        let mut buf = match rd2.read_len(stride) {
            Ok(x) => x,
            Err(_) => {
                proof {
                    assert(false);
                }
                return Err(Error::Io);
            },
        };
        if enc {
            match key {
                Some(k) => {
                    decrypt_in_place(k, &mut buf);
                    proof {
                        lemma_dec_seq_len(kb, d.subrange(pos as int, pos + stride));
                    }
                    buf.truncate(sz);
                },
                None => {
                    proof {
                        assert(false);
                    }
                    return Err(Error::Io);
                },
            }
        }
        proof {
            assert(buf@ == spec_block_out(d, pos as int, b.size, enc, kb));
        }
        let ghost out_before = out@;
        let ghost bb = buf@;
        out.append(&mut buf);
        proof {
            assert(out@.take(baselen) =~= out_before.take(baselen));
            assert(out@.skip(baselen) =~= out_before.skip(baselen) + bb);
            assert(eff[i as int] == b);
            assert(spec_cat(d, eff, i as int, pos as int, enc, kb) == spec_block_out(
                d,
                pos as int,
                eff[i as int].size,
                enc,
                kb,
            ) + spec_cat(d, eff, i + 1, pos + spec_stride(eff[i as int].size, enc), enc, kb));
            assert(out@.skip(baselen) + spec_cat(
                d,
                eff,
                i + 1,
                pos + spec_stride(eff[i as int].size, enc),
                enc,
                kb,
            ) =~= (out_before.skip(baselen) + spec_cat(d, eff, i as int, pos as int, enc, kb)));
        }
        proof {
            assert(pos + spec_stride(eff[i as int].size, enc) <= dl);
            assert(spec_fits(d, eff, i as int, pos as int, enc) == spec_fits(
                d,
                eff,
                i + 1,
                pos + spec_stride(eff[i as int].size, enc),
                enc,
            ));
        }
        pos = pos + stride;
        i = i + 1;
    }
    proof {
        assert(spec_cat(d, eff, n as int, pos as int, enc, kb) =~= Seq::<u8>::empty());
        assert(out@ =~= out@.take(baselen) + out@.skip(baselen));
        assert(out@ =~= old(out)@ + spec_cat(d, eff, 0, pstart, enc, kb));
        assert(spec_fits(d, eff, n as int, pos as int, enc));
    }
    Ok(())
}

impl Entry {
    /// Reproduces this entry's original file bytes from the archive and
    /// appends them to `out`: the in-file copy of the record is decoded
    /// and held against the catalog record, then every block is read,
    /// decrypted if the entry is encrypted, passed through the identity
    /// codec, and appended in order. Entries naming a codec this build
    /// does not provide are refused; on failure `out` may already hold a
    /// correct prefix.
    #[verifier::rlimit(100)]
    pub fn read(
        &self,
        data: &[u8],
        v: Version,
        methods: &Vec<Vec<u8>>,
        key: Option<&PakKey>,
        out: &mut Vec<u8>,
    ) -> (r: Result<(), Error>)
        requires
            self.wf(),
        ensures
            match r {
                Ok(()) => {
                    &&& (self.encrypted ==> key is Some)
                    &&& (self.codec == Codec::Uncompressed || self.codec == Codec::Store)
                    &&& spec_verbose_at(data@, self.offset as int) matches Ok(pair)
                        && inner_matches(pair.0, *self) && spec_fits(
                        data@,
                        eff_blocks(*self),
                        0,
                        pair.1,
                        self.encrypted,
                    ) && final(out)@ == old(out)@ + spec_cat(
                        data@,
                        eff_blocks(*self),
                        0,
                        pair.1,
                        self.encrypted,
                        spec_okey(key),
                    )
                    &&& spec_resolve(method_seq(methods@), v, self.method_index) is Some
                },
                Err(e) => {
                    &&& (e is Io || e is Parse || e is EncryptedWithoutKey
                        || e is UnsupportedCompression)
                    &&& (self.encrypted && key is None ==> e == Error::EncryptedWithoutKey)
                    &&& (!(self.encrypted && key is None) && !(self.codec == Codec::Uncompressed
                        || self.codec == Codec::Store) ==> e == Error::UnsupportedCompression)
                    &&& !(self.encrypted && key is None) && (self.codec == Codec::Uncompressed
                        || self.codec == Codec::Store) ==> !(spec_verbose_at(
                        data@,
                        self.offset as int,
                    ) matches Ok(pair) && inner_matches(pair.0, *self) && spec_fits(
                        data@,
                        eff_blocks(*self),
                        0,
                        pair.1,
                        self.encrypted,
                    ) && spec_resolve(method_seq(methods@), v, self.method_index) is Some)
                },
            },
        final(out)@.len() >= old(out)@.len(),
        final(out)@.take(old(out)@.len() as int) == old(out)@,
    {
        if self.encrypted && key.is_none() {
            return Err(Error::EncryptedWithoutKey);
        }
        let store = self.codec == Codec::Store;
        if !(self.codec == Codec::Uncompressed || store) {
            return Err(Error::UnsupportedCompression);
        }
        let mut rd = Rd::new(data);
        match rd.seek_to(self.offset) {
            Ok(()) => (),
            Err(_) => {
                return Err(Error::Io);
            },
        }
        let inner = match decode_verbose(&mut rd, methods, v) {
            Ok(e) => e,
            Err(_) => {
                return Err(Error::Parse);
            },
        };
        if !(inner.compressed == self.compressed && inner.uncompressed == self.uncompressed
            && inner.method_index == self.method_index && inner.encrypted == self.encrypted
            && blocks_eq(&inner.blocks, &self.blocks)) {
            return Err(Error::Parse);
        }
        let ghost d = data@;
        let mut effv: Vec<Block> = Vec::new();
        if self.method_index == 0 {
            effv.push(Block { start: 0, size: self.compressed });
        } else {
            let nb = self.blocks.len();
            let mut t: usize = 0;
            while t < nb
                invariant
                    nb == self.blocks@.len(),
                    t <= nb,
                    effv@ =~= self.blocks@.subrange(0, t as int),
                decreases nb - t,
            {
                let b = self.blocks[t];
                effv.push(b);
                proof {
                    assert(effv@ =~= self.blocks@.subrange(0, t + 1));
                }
                t = t + 1;
            }
        }
        proof {
            assert(effv@ =~= eff_blocks(*self));
        }
        let start = rd.pos;
        match read_payload(data, &effv, self.encrypted, key, start, out) {
            Ok(()) => Ok(()),
            Err(e) => Err(e),
        }
    }
}

/// Whether the 32-byte name slot `n` holds exactly the word `w`.
fn name_is(n: &Vec<u8>, w: &[u8]) -> (r: bool)
    requires
        w@.len() < 32,
    ensures
        r == spec_name_is(n@, w@),
{
    let wl = w.len();
    if n.len() != 32 {
        return false;
    }
    if n[wl] != 0 {
        return false;
    }
    let mut k: usize = 0;
    while k < wl
        invariant
            n@.len() == 32,
            wl == w@.len() < 32,
            k <= wl,
            forall|t: int| 0 <= t < k ==> n@[t] == w@[t],
        decreases wl - k,
    {
        if n[k] != w[k] {
            proof {
                assert(n@.subrange(0, wl as int)[k as int] != w@[k as int]);
            }
            return false;
        }
        k = k + 1;
    }
    proof {
        assert(n@.subrange(0, wl as int) =~= w@);
    }
    true
}

/// Whether `blocks` partitions `[0, comp)` contiguously.
pub fn check_blocks(blocks: &Vec<Block>, comp: u64) -> (r: bool)
    ensures
        r == blocks_contiguous(blocks@, comp),
{
    let n = blocks.len();
    if n == 0 {
        return true;
    }
    let mut run: u64 = 0;
    let mut k: usize = 0;
    while k < n
        invariant
            n == blocks@.len(),
            0 < n,
            k <= n,
            run == (if k == 0 {
                0int
            } else {
                blocks@[k - 1].start + blocks@[k - 1].size
            }),
            k > 0 ==> blocks@[0].start == 0,
            forall|i: int|
                0 < i < k ==> #[trigger] blocks@[i].start == blocks@[i - 1].start + blocks@[i
                    - 1].size,
        decreases n - k,
    {
        let b = blocks[k];
        if b.start != run {
            proof {
                if blocks_contiguous(blocks@, comp) {
                    if k == 0 {
                        assert(blocks@[0].start == 0);
                    } else {
                        assert(blocks@[k as int].start == blocks@[k - 1].start + blocks@[k
                            - 1].size);
                    }
                }
            }
            return false;
        }
        if b.size > u64::MAX - run {
            proof {
                if blocks_contiguous(blocks@, comp) {
                    if k + 1 < n {
                        assert(blocks@[k + 1].start == blocks@[k as int].start + blocks@[
                            k as int].size);
                    } else {
                        assert(blocks@.last().start + blocks@.last().size == comp);
                    }
                }
            }
            return false;
        }
        run = run + b.size;
        k = k + 1;
    }
    if run != comp {
        proof {
            assert(blocks@.last().start + blocks@.last().size == run);
        }
        return false;
    }
    proof {
        assert(blocks@.last().start + blocks@.last().size == comp);
    }
    true
}

/// Reads `bc` stored blocks, each an offset-size pair.
fn read_block_list(rd: &mut Rd, bc: u32) -> (r: Vec<Block>)
    requires
        old(rd).wf(),
        old(rd).at() + 16 * bc <= old(rd).bytes().len(),
    ensures
        final(rd).bytes() == old(rd).bytes(),
        final(rd).wf(),
        final(rd).at() == old(rd).at() + 16 * bc,
        r@ == Seq::new(
            bc as nat,
            |i: int|
                Block {
                    start: le64(old(rd).bytes(), old(rd).at() + 16 * i) as u64,
                    size: le64(old(rd).bytes(), old(rd).at() + 16 * i + 8) as u64,
                },
        ),
{
    let ghost d = rd.bytes();
    let ghost p0 = rd.at();
    let bcu = bc as usize;
    let mut blocks: Vec<Block> = Vec::new();
    let mut k: usize = 0;
    while k < bcu
        invariant
            rd.wf(),
            rd.bytes() == d,
            bcu == bc,
            k <= bcu,
            p0 + 16 * bc <= d.len(),
            0 <= p0,
            rd.at() == p0 + 16 * k,
            blocks@.len() == k,
            forall|t: int|
                0 <= t < k ==> blocks@[t] == (Block {
                    start: le64(d, p0 + 16 * t) as u64,
                    size: le64(d, p0 + 16 * t + 8) as u64,
                }),
        decreases bcu - k,
    {
        let st = match rd.read_u64() {
            Ok(x) => x,
            Err(_) => {
                proof {
                    assert(false);
                }
                0
            },
        };
        let sz = match rd.read_u64() {
            Ok(x) => x,
            Err(_) => {
                proof {
                    assert(false);
                }
                0
            },
        };
        blocks.push(Block { start: st, size: sz });
        k = k + 1;
    }
    proof {
        assert(blocks@ =~= Seq::new(
            bc as nat,
            |i: int|
                Block {
                    start: le64(d, p0 + 16 * i) as u64,
                    size: le64(d, p0 + 16 * i + 8) as u64,
                },
        ));
    }
    blocks
}

/// A wire decode followed by codec resolution, as one function: the codec
/// must be named by the dialect, and the identity codec demands equal
/// sizes.
pub open spec fn spec_resolve_decoded(
    dec: Result<(EntryV, int), Error>,
    ms: Seq<Seq<u8>>,
    v: Version,
) -> Result<(EntryV, Codec, int), Error> {
    match dec {
        Err(e) => Err(e),
        Ok(pair) => match spec_resolve(ms, v, pair.0.method_index) {
            None => Err(Error::UnsupportedCompression),
            Some(c) => if c == Codec::Store && pair.0.compressed != pair.0.uncompressed {
                Err(Error::Parse)
            } else {
                Ok((pair.0, c, pair.1))
            },
        },
    }
}

/// `spec_resolve_decoded` over the verbose wire form.
pub open spec fn spec_verbose_full(d: Seq<u8>, p: int, ms: Seq<Seq<u8>>, v: Version) -> Result<
    (EntryV, Codec, int),
    Error,
> {
    spec_resolve_decoded(spec_verbose_at(d, p), ms, v)
}

/// `spec_resolve_decoded` over the compact wire form.
pub open spec fn spec_compact_full(d: Seq<u8>, p: int, ms: Seq<Seq<u8>>, v: Version) -> Result<
    (EntryV, Codec, int),
    Error,
> {
    spec_resolve_decoded(spec_compact_at(d, p), ms, v)
}

/// What a successful verbose decode (with its codec resolved) promises.
pub open spec fn dv_ok(
    d: Seq<u8>,
    p0: int,
    ms: Seq<Seq<u8>>,
    v: Version,
    e: Entry,
    endpos: int,
) -> bool {
    &&& spec_verbose_at(d, p0) matches Ok(pair) && e.ev() == pair.0 && endpos == pair.1
    &&& spec_resolve(ms, v, e.method_index) == Some(e.codec)
    &&& e.wf()
}

/// What a failed verbose decode promises: the wire error itself, or a
/// codec the dialect does not name, or an identity codec whose sizes
/// disagree.
pub open spec fn dv_err(d: Seq<u8>, p0: int, ms: Seq<Seq<u8>>, v: Version, e2: Error) -> bool {
    match spec_verbose_at(d, p0) {
        Err(e3) => e2 == e3,
        Ok(pair) => (spec_resolve(ms, v, pair.0.method_index) is None && e2
            == Error::UnsupportedCompression) || (spec_resolve(ms, v, pair.0.method_index) == Some(
            Codec::Store,
        ) && pair.0.compressed != pair.0.uncompressed && e2 == Error::Parse),
    }
}

/// The facts the fixed 30-byte head of a verbose record establishes.
pub open spec fn dv_head_facts(
    d: Seq<u8>,
    p0: int,
    offset: u64,
    comp: u64,
    unc: u64,
    mi: u32,
    enc: bool,
) -> bool {
    &&& 0 <= p0 && p0 + 30 <= d.len()
    &&& offset == le64(d, p0)
    &&& comp == le64(d, p0 + 8)
    &&& unc == le64(d, p0 + 16)
    &&& mi == le32(d, p0 + 24)
    &&& (d[p0 + 28] == 0 || d[p0 + 28] == 1)
    &&& (d[p0 + 29] == 0 || d[p0 + 29] == 1)
    &&& (enc <==> d[p0 + 29] == 1)
}

/// The tail of a verbose record whose method is trivial: the block-size
/// hint and the hash.
#[verifier::rlimit(100)]
#[verifier::spinoff_prover]
fn dv_plain(
    rd: &mut Rd,
    Ghost(p0): Ghost<int>,
    offset: u64,
    comp: u64,
    unc: u64,
    enc: bool,
) -> (r: Result<Entry, Error>)
    requires
        old(rd).wf(),
        old(rd).at() == p0 + 30,
        dv_head_facts(old(rd).bytes(), p0, offset, comp, unc, 0, enc),
    ensures
        final(rd).bytes() == old(rd).bytes(),
        final(rd).wf(),
        match r {
            Ok(e) => spec_verbose_at(old(rd).bytes(), p0) matches Ok(pair) && e.ev() == pair.0
                && final(rd).at() == pair.1 && e.method_index == 0 && e.codec
                == Codec::Uncompressed && e.wf(),
            Err(e2) => spec_verbose_at(old(rd).bytes(), p0) == Err::<(EntryV, int), Error>(e2),
        },
{
    let ghost d = rd.bytes();
    if rd.remaining() < 24 {
        return Err(Error::Io);
    }
    if comp != unc {
        return Err(Error::Parse);
    }
    match rd.read_u32() {
        Ok(_) => (),
        Err(_) => {
            proof {
                assert(false);
            }
            return Err(Error::Io);
        },
    }
    let hash = match rd.read_guid() {
        Ok(h) => h,
        Err(_) => {
            proof {
                assert(false);
            }
            return Err(Error::Io);
        },
    };
    let e = Entry {
        offset,
        compressed: comp,
        uncompressed: unc,
        method_index: 0,
        codec: Codec::Uncompressed,
        encrypted: enc,
        blocks: Vec::new(),
        hash,
    };
    proof {
        let pair = spec_verbose_at(d, p0)->Ok_0;
        assert(e.ev().blocks =~= pair.0.blocks);
        assert(e.ev().hash =~= pair.0.hash);
    }
    Ok(e)
}

/// The tail of a verbose record whose method is non-trivial: block count,
/// hint, hash and the block list, then codec resolution.
#[verifier::rlimit(100)]
#[verifier::spinoff_prover]
fn dv_rich(
    rd: &mut Rd,
    Ghost(p0): Ghost<int>,
    offset: u64,
    comp: u64,
    unc: u64,
    mi: u32,
    enc: bool,
    methods: &Vec<Vec<u8>>,
    v: Version,
) -> (r: Result<Entry, Error>)
    requires
        old(rd).wf(),
        old(rd).at() == p0 + 30,
        mi != 0,
        dv_head_facts(old(rd).bytes(), p0, offset, comp, unc, mi, enc),
    ensures
        final(rd).bytes() == old(rd).bytes(),
        final(rd).wf(),
        match r {
            Ok(e) => dv_ok(old(rd).bytes(), p0, method_seq(methods@), v, e, final(rd).at()),
            Err(e2) => dv_err(old(rd).bytes(), p0, method_seq(methods@), v, e2),
        },
{
    let ghost d = rd.bytes();
    if rd.remaining() < 4 {
        return Err(Error::Io);
    }
    let bc = match rd.read_u32() {
        Ok(x) => x,
        Err(_) => {
            proof {
                assert(false);
            }
            return Err(Error::Io);
        },
    };
    let need: u64 = 24u64 + 16u64 * (bc as u64);
    if (rd.remaining() as u64) < need {
        return Err(Error::Io);
    }
    match rd.read_u32() {
        Ok(_) => (),
        Err(_) => {
            proof {
                assert(false);
            }
            return Err(Error::Io);
        },
    }
    let hash = match rd.read_guid() {
        Ok(h) => h,
        Err(_) => {
            proof {
                assert(false);
            }
            return Err(Error::Io);
        },
    };
    let blocks = read_block_list(rd, bc);
    if !check_blocks(&blocks, comp) {
        return Err(Error::Parse);
    }
    if bc == 0 && comp != 0 {
        return Err(Error::Parse);
    }
    let codec = match resolve_codec(methods, v, mi) {
        Some(c) => c,
        None => {
            return Err(Error::UnsupportedCompression);
        },
    };
    if codec == Codec::Store && comp != unc {
        return Err(Error::Parse);
    }
    let e = Entry {
        offset,
        compressed: comp,
        uncompressed: unc,
        method_index: mi,
        codec,
        encrypted: enc,
        blocks,
        hash,
    };
    proof {
        let pair = spec_verbose_at(d, p0)->Ok_0;
        assert(e.ev().hash =~= pair.0.hash);
        assert(e.ev().blocks == pair.0.blocks);
    }
    Ok(e)
}

/// Decodes one entry in its verbose wire form and resolves its codec.
#[verifier::rlimit(100)]
#[verifier::spinoff_prover]
pub fn decode_verbose(rd: &mut Rd, methods: &Vec<Vec<u8>>, v: Version) -> (r: Result<Entry, Error>)
    requires
        old(rd).wf(),
    ensures
        final(rd).bytes() == old(rd).bytes(),
        final(rd).wf(),
        match r {
            Ok(e) => dv_ok(old(rd).bytes(), old(rd).at(), method_seq(methods@), v, e, final(rd).at()),
            Err(e2) => dv_err(old(rd).bytes(), old(rd).at(), method_seq(methods@), v, e2),
        },
{
    let ghost d = rd.bytes();
    let ghost p0 = rd.at();
    if rd.remaining() < 30 {
        return Err(Error::Io);
    }
    let offset = match rd.read_u64() {
        Ok(x) => x,
        Err(_) => {
            proof {
                assert(false);
            }
            return Err(Error::Io);
        },
    };
    let comp = match rd.read_u64() {
        Ok(x) => x,
        Err(_) => {
            proof {
                assert(false);
            }
            return Err(Error::Io);
        },
    };
    let unc = match rd.read_u64() {
        Ok(x) => x,
        Err(_) => {
            proof {
                assert(false);
            }
            return Err(Error::Io);
        },
    };
    let mi = match rd.read_u32() {
        Ok(x) => x,
        Err(_) => {
            proof {
                assert(false);
            }
            return Err(Error::Io);
        },
    };
    match rd.read_bool() {
        Ok(_) => (),
        Err(e) => {
            return Err(e);
        },
    }
    let enc = match rd.read_bool() {
        Ok(b) => b,
        Err(e) => {
            return Err(e);
        },
    };
    if mi == 0 {
        dv_plain(rd, Ghost(p0), offset, comp, unc, enc)
    } else {
        dv_rich(rd, Ghost(p0), offset, comp, unc, mi, enc, methods, v)
    }
}

/// Decodes one entry in its compact wire form and resolves its codec.
#[verifier::rlimit(100)]
#[verifier::spinoff_prover]
pub fn decode_compact(rd: &mut Rd, methods: &Vec<Vec<u8>>, v: Version) -> (r: Result<Entry, Error>)
    requires
        old(rd).wf(),
    ensures
        final(rd).bytes() == old(rd).bytes(),
        final(rd).wf(),
        match r {
            Ok(e) => spec_compact_at(old(rd).bytes(), old(rd).at()) matches Ok(pair) && e.ev()
                == pair.0 && final(rd).at() == pair.1 && spec_resolve(
                method_seq(methods@),
                v,
                e.method_index,
            ) == Some(e.codec) && e.wf(),
            Err(e2) => match spec_compact_at(old(rd).bytes(), old(rd).at()) {
                Err(e3) => e2 == e3,
                Ok(pair) => (spec_resolve(method_seq(methods@), v, pair.0.method_index) is None
                    && e2 == Error::UnsupportedCompression) || (spec_resolve(
                    method_seq(methods@),
                    v,
                    pair.0.method_index,
                ) == Some(Codec::Store) && pair.0.compressed != pair.0.uncompressed && e2
                    == Error::Parse),
            },
        },
{
    let ghost d = rd.bytes();
    let ghost p0 = rd.at();
    if rd.remaining() < 4 {
        return Err(Error::Io);
    }
    let flags = match rd.read_u32() {
        Ok(x) => x,
        Err(_) => {
            proof {
                assert(false);
            }
            return Err(Error::Io);
        },
    };
    let enc = flags % 2 == 1;
    let off32 = (flags / 2) % 2 == 1;
    let unc32 = (flags / 4) % 2 == 1;
    let comp32 = (flags / 8) % 2 == 1;
    let mi: u32 = (flags / 256) % 64;
    let so: usize = if off32 {
        4
    } else {
        8
    };
    let su: usize = if unc32 {
        4
    } else {
        8
    };
    if rd.remaining() < so + su {
        return Err(Error::Io);
    }
    let offset: u64 = if off32 {
        match rd.read_u32() {
            Ok(x) => x as u64,
            Err(_) => {
                proof {
                    assert(false);
                }
                return Err(Error::Io);
            },
        }
    } else {
        match rd.read_u64() {
            Ok(x) => x,
            Err(_) => {
                proof {
                    assert(false);
                }
                return Err(Error::Io);
            },
        }
    };
    let unc: u64 = if unc32 {
        match rd.read_u32() {
            Ok(x) => x as u64,
            Err(_) => {
                proof {
                    assert(false);
                }
                return Err(Error::Io);
            },
        }
    } else {
        match rd.read_u64() {
            Ok(x) => x,
            Err(_) => {
                proof {
                    assert(false);
                }
                return Err(Error::Io);
            },
        }
    };
    if mi == 0 {
        let e = Entry {
            offset,
            compressed: unc,
            uncompressed: unc,
            method_index: 0,
            codec: Codec::Uncompressed,
            encrypted: enc,
            blocks: Vec::new(),
            hash: Vec::new(),
        };
        proof {
            let pair = spec_compact_at(d, p0)->Ok_0;
            assert(e.ev().blocks =~= pair.0.blocks);
            assert(e.ev().hash =~= pair.0.hash);
        }
        return Ok(e);
    }
    let sc: usize = if comp32 {
        4
    } else {
        8
    };
    if rd.remaining() < sc + 8 {
        return Err(Error::Io);
    }
    let comp: u64 = if comp32 {
        match rd.read_u32() {
            Ok(x) => x as u64,
            Err(_) => {
                proof {
                    assert(false);
                }
                return Err(Error::Io);
            },
        }
    } else {
        match rd.read_u64() {
            Ok(x) => x,
            Err(_) => {
                proof {
                    assert(false);
                }
                return Err(Error::Io);
            },
        }
    };
    let bc = match rd.read_u32() {
        Ok(x) => x,
        Err(_) => {
            proof {
                assert(false);
            }
            return Err(Error::Io);
        },
    };
    let bs32 = match rd.read_u32() {
        Ok(x) => x,
        Err(_) => {
            proof {
                assert(false);
            }
            return Err(Error::Io);
        },
    };
    let bs: u64 = bs32 as u64;
    let mut blocks: Vec<Block> = Vec::new();
    if bc == 0 {
        if comp != 0 {
            return Err(Error::Parse);
        }
    } else {
        proof {
            assert(0 <= (bc - 1) * (bs as int) <= (bc as int) * (bs as int) < 0x1_0000_0000
                * 0x1_0000_0000) by (nonlinear_arith)
                requires
                    1 <= bc < 0x1_0000_0000 && bs < 0x1_0000_0000,
            ;
        }
        if comp > (bc as u64) * bs || comp <= ((bc - 1) as u64) * bs {
            return Err(Error::Parse);
        }
        let bcu = bc as usize;
        let mut i: usize = 0;
        while i < bcu
            invariant
                bcu == bc,
                1 <= bc,
                comp <= (bc as int) * (bs as int),
                comp > (bc - 1) * (bs as int),
                i <= bcu,
                blocks@.len() == i,
                forall|t: int| 0 <= t < i ==> blocks@[t] == spec_uniform_blocks(comp, bc, bs)[t],
            decreases bcu - i,
        {
            proof {
                vstd::arithmetic::mul::lemma_mul_inequality(i as int, bc - 1, bs as int);
                vstd::arithmetic::mul::lemma_mul_nonnegative(i as int, bs as int);
            }
            let start: u64 = (i as u64) * bs;
            let size: u64 = if i == bcu - 1 {
                comp - ((bc - 1) as u64) * bs
            } else {
                bs
            };
            blocks.push(Block { start, size });
            i = i + 1;
        }
        proof {
            assert(blocks@ =~= spec_uniform_blocks(comp, bc, bs));
            lemma_uniform_contiguous(comp, bc, bs);
        }
    }
    let codec = match resolve_codec(methods, v, mi) {
        Some(c) => c,
        None => {
            return Err(Error::UnsupportedCompression);
        },
    };
    if codec == Codec::Store && comp != unc {
        return Err(Error::Parse);
    }
    let e = Entry {
        offset,
        compressed: comp,
        uncompressed: unc,
        method_index: mi,
        codec,
        encrypted: enc,
        blocks,
        hash: Vec::new(),
    };
    proof {
        let pair = spec_compact_at(d, p0)->Ok_0;
        assert(e.ev().blocks =~= pair.0.blocks);
        assert(e.ev().hash =~= pair.0.hash);
    }
    Ok(e)
}

/// Exec mirror of `spec_resolve`.
pub fn resolve_codec(methods: &Vec<Vec<u8>>, v: Version, mi: u32) -> (r: Option<Codec>)
    ensures
        r == spec_resolve(Seq::new(methods@.len(), |k: int| methods@[k]@), v, mi),
{
    let ghost ms = Seq::new(methods@.len(), |k: int| methods@[k]@);
    if mi == 0 {
        Some(Codec::Uncompressed)
    } else if v.num() >= 8 {
        if 1 <= mi && (mi as usize) <= methods.len() {
            let n = &methods[(mi - 1) as usize];
            proof {
                assert(ms[mi - 1] == n@);
            }
            if name_is(n, &[83u8, 116u8, 111u8, 114u8, 101u8]) {
                Some(Codec::Store)
            } else if name_is(n, &[90u8, 108u8, 105u8, 98u8]) {
                Some(Codec::Zlib)
            } else if name_is(n, &[71u8, 122u8, 105u8, 112u8]) {
                Some(Codec::Gzip)
            } else if name_is(n, &[79u8, 111u8, 100u8, 108u8, 101u8]) {
                Some(Codec::Oodle)
            } else {
                None
            }
        } else {
            None
        }
    } else {
        if mi == 1 {
            Some(Codec::Zlib)
        } else if mi == 2 {
            Some(Codec::Gzip)
        } else {
            None
        }
    }
}

} // verus!
