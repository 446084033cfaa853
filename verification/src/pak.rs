use vstd::prelude::*;

use crate::crypt::b64_bytes;
use crate::crypt::base64_decode;
use crate::crypt::dec_seq;
use crate::crypt::decrypt_in_place;
use crate::crypt::PakKey;
use crate::entry::decode_compact;
use crate::entry::spec_compact_full;
use crate::entry::spec_fits;
use crate::entry::spec_verbose_full;
use crate::entry::spec_resolve;
use crate::entry::method_seq;
use crate::entry::Codec;
use crate::entry::EntryV;
use crate::norm::normalize_spec;
use crate::entry::decode_verbose;
use crate::entry::eff_blocks;
use crate::entry::inner_matches;
use crate::entry::spec_cat;
use crate::entry::spec_okey;
use crate::entry::spec_verbose_at;
use crate::entry::Block;
use crate::entry::Entry;
use crate::err::Error;
use crate::footer::spec_footer;
use crate::footer::Footer;
use crate::rd::le32;
use crate::rd::le64;
use crate::rd::spec_string_at;
use crate::rd::Rd;
use crate::rd::ReadExt;
use crate::version::Version;
use vstd::string::StrSliceExecFns;
use vstd::string::StringExecFns;

verus! {

/// Whether two string slices hold the same characters.
pub fn str_eq(a: &str, b: &str) -> (r: bool)
    ensures
        r == (a@ == b@),
{
    let na = a.unicode_len();
    let nb = b.unicode_len();
    if na != nb {
        proof {
            assert(a@ != b@);
        }
        return false;
    }
    let mut k: usize = 0;
    while k < na
        invariant
            na == a@.len() == b@.len(),
            k <= na,
            forall|t: int| 0 <= t < k ==> a@[t] == b@[t],
        decreases na - k,
    {
        if a.get_char(k) != b.get_char(k) {
            return false;
        }
        k = k + 1;
    }
    proof {
        assert(a@ =~= b@);
    }
    true
}

/// The first entry stored under `n`, if any.
pub open spec fn spec_lookup(s: Seq<(String, Entry)>, n: Seq<char>) -> Option<Entry>
    decreases s.len(),
{
    if s.len() == 0 {
        None
    } else if s[0].0@ == n {
        Some(s[0].1)
    } else {
        spec_lookup(s.skip(1), n)
    }
}

/// No two catalog rows share a name.
pub open spec fn distinct_names(s: Seq<(String, Entry)>) -> bool {
    forall|i: int, j: int| 0 <= i < j < s.len() ==> s[i].0@ != s[j].0@
}

/// Every catalog row holds a well-formed entry.
pub open spec fn all_wf(s: Seq<(String, Entry)>) -> bool {
    forall|i: int| 0 <= i < s.len() ==> (#[trigger] s[i].1).wf()
}

/// A name's presence somewhere in the catalog.
pub open spec fn has_name(s: Seq<(String, Entry)>, n: Seq<char>) -> bool {
    exists|i: int| 0 <= i < s.len() && (#[trigger] s[i].0)@ == n
}

proof fn lemma_lookup_some(s: Seq<(String, Entry)>, n: Seq<char>)
    ensures
        has_name(s, n) <==> spec_lookup(s, n) is Some,
    decreases s.len(),
{
    if s.len() > 0 {
        lemma_lookup_some(s.skip(1), n);
        if s[0].0@ == n {
            assert(has_name(s, n));
        } else {
            if has_name(s, n) {
                let i = choose|i: int| 0 <= i < s.len() && (#[trigger] s[i].0)@ == n;
                assert(s.skip(1)[i - 1].0@ == n);
                assert(has_name(s.skip(1), n));
            }
            if has_name(s.skip(1), n) {
                let i = choose|i: int| 0 <= i < s.skip(1).len() && (#[trigger] s.skip(1)[i].0)@
                    == n;
                assert(s[i + 1].0@ == n);
            }
        }
    }
}

proof fn lemma_lookup_update(s: Seq<(String, Entry)>, i: int, x: (String, Entry), n: Seq<char>)
    requires
        0 <= i < s.len(),
        s[i].0@ == x.0@,
        forall|j: int| 0 <= j < i ==> s[j].0@ != x.0@,
    ensures
        spec_lookup(s.update(i, x), n) == (if n == x.0@ {
            Some(x.1)
        } else {
            spec_lookup(s, n)
        }),
    decreases s.len(),
{
    if s.len() > 0 {
        if i == 0 {
            assert(s.update(0, x)[0] == x);
            assert(s.update(0, x).skip(1) =~= s.skip(1));
            if n != x.0@ {
                assert(s[0].0@ == x.0@);
            }
        } else {
            assert(s.update(i, x)[0] == s[0]);
            assert(s.update(i, x).skip(1) =~= s.skip(1).update(i - 1, x));
            assert(s[0].0@ != x.0@);
            lemma_lookup_update(s.skip(1), i - 1, x, n);
        }
    }
}

proof fn lemma_lookup_push(s: Seq<(String, Entry)>, x: (String, Entry), n: Seq<char>)
    requires
        !has_name(s, x.0@),
    ensures
        spec_lookup(s.push(x), n) == (if n == x.0@ {
            Some(x.1)
        } else {
            spec_lookup(s, n)
        }),
    decreases s.len(),
{
    if s.len() == 0 {
        assert(s.push(x)[0] == x);
        assert(s.push(x).skip(1) =~= Seq::<(String, Entry)>::empty());
        if n == x.0@ {
            assert(spec_lookup(s.push(x), n) == Some(x.1));
        } else {
            assert(s.push(x)[0].0@ == x.0@);
            assert(spec_lookup(s.push(x), n) == spec_lookup(s.push(x).skip(1), n));
            assert(spec_lookup(s.push(x), n) == None::<Entry>);
        }
    } else {
        assert(s.push(x)[0] == s[0]);
        assert(s.push(x).skip(1) =~= s.skip(1).push(x));
        assert(s[0].0@ != x.0@);
        assert(!has_name(s.skip(1), x.0@)) by {
            if has_name(s.skip(1), x.0@) {
                let i = choose|i: int|
                    0 <= i < s.skip(1).len() && (#[trigger] s.skip(1)[i].0)@ == x.0@;
                assert(s[i + 1].0@ == x.0@);
            }
        }
        lemma_lookup_push(s.skip(1), x, n);
        assert(spec_lookup(s.push(x).skip(1), n) == spec_lookup(s.skip(1).push(x), n));
        if s[0].0@ == n {
            assert(n != x.0@);
            assert(spec_lookup(s.push(x), n) == Some(s[0].1));
            assert(spec_lookup(s, n) == Some(s[0].1));
        }
    }
}

/// Inserts a row, replacing the row of the same name if one exists, so
/// that names stay unique.
fn insert_entry(
    entries: &mut Vec<(String, Entry)>,
    name: String,
    e: Entry,
    Ghost(ms): Ghost<Seq<Seq<u8>>>,
    Ghost(v): Ghost<Version>,
)
    requires
        distinct_names(old(entries)@),
        all_wf(old(entries)@),
        rows_resolved(old(entries)@, ms, v),
        e.wf(),
        spec_resolve(ms, v, e.method_index) == Some(e.codec),
    ensures
        distinct_names(final(entries)@),
        all_wf(final(entries)@),
        rows_resolved(final(entries)@, ms, v),
        spec_lookup(final(entries)@, name@) == Some(e),
        forall|n: Seq<char>| n != name@ ==> spec_lookup(final(entries)@, n) == spec_lookup(
            old(entries)@,
            n,
        ),
        has_name(final(entries)@, name@),
        forall|n: Seq<char>| has_name(old(entries)@, n) ==> has_name(final(entries)@, n),
    {
    let n = entries.len();
    let mut k: usize = 0;
    while k < n
        invariant
            n == entries@.len(),
            k <= n,
            entries@ == old(entries)@,
            e.wf(),
            spec_resolve(ms, v, e.method_index) == Some(e.codec),
            distinct_names(entries@),
            all_wf(entries@),
            rows_resolved(entries@, ms, v),
            forall|j: int| 0 <= j < k ==> (#[trigger] entries@[j].0)@ != name@,
        decreases n - k,
    {
        if str_eq(entries[k].0.as_str(), name.as_str()) {
            let ghost before = entries@;
            let ghost x = (name, e);
            entries[k] = (name, e);
            proof {
                assert(entries@ =~= before.update(k as int, x));
                lemma_lookup_update(before, k as int, x, name@);
                assert(spec_lookup(entries@, name@) == Some(e));
                assert forall|m: Seq<char>| m != name@ implies spec_lookup(entries@, m)
                    == spec_lookup(before, m) by {
                    lemma_lookup_update(before, k as int, x, m);
                }
                assert forall|m: Seq<char>| has_name(before, m) implies has_name(entries@, m) by {
                    let i = choose|i: int| 0 <= i < before.len() && (#[trigger] before[i].0)@ == m;
                    if i == k {
                        assert(entries@[k as int].0@ == m);
                    } else {
                        assert(entries@[i].0@ == m);
                    }
                }
                assert(entries@[k as int].0@ == name@);
                assert(before[k as int].0@ == name@);
                assert forall|i: int| 0 <= i < entries@.len() implies (
                #[trigger] entries@[i].1).wf() by {
                    if i != k {
                        assert(entries@[i] == before[i]);
                    }
                }
                assert forall|i: int| 0 <= i < entries@.len() implies spec_resolve(
                    ms,
                    v,
                    (#[trigger] entries@[i].1).method_index,
                ) == Some(entries@[i].1.codec) by {
                    if i != k {
                        assert(entries@[i] == before[i]);
                        assert(spec_resolve(ms, v, before[i].1.method_index) == Some(
                            before[i].1.codec,
                        ));
                    }
                }
                assert forall|i: int, j: int| 0 <= i < j < entries@.len() implies entries@[i].0@
                    != entries@[j].0@ by {
                    if i != k && j != k {
                        assert(entries@[i] == before[i] && entries@[j] == before[j]);
                    } else if i == k {
                        assert(entries@[j] == before[j]);
                        assert(before[j].0@ != before[k as int].0@);
                    } else {
                        assert(entries@[i] == before[i]);
                        assert(before[i].0@ != name@);
                    }
                }
            }
            return ;
        }
        k = k + 1;
    }
    let ghost before = entries@;
    let ghost x = (name, e);
    proof {
        assert(!has_name(before, name@));
    }
    entries.push((name, e));
    proof {
        assert(entries@ =~= before.push(x));
        lemma_lookup_push(before, x, name@);
        assert forall|m: Seq<char>| m != name@ implies spec_lookup(entries@, m) == spec_lookup(
            before,
            m,
        ) by {
            lemma_lookup_push(before, x, m);
        }
        assert(entries@[before.len() as int].0@ == name@);
        assert forall|m: Seq<char>| has_name(before, m) implies has_name(entries@, m) by {
            let i = choose|i: int| 0 <= i < before.len() && (#[trigger] before[i].0)@ == m;
            assert(entries@[i].0@ == m);
        }
        assert forall|i: int| 0 <= i < entries@.len() implies (#[trigger] entries@[i].1).wf() by {
            if i < before.len() {
                assert(entries@[i] == before[i]);
            } else {
                assert(entries@[i] == x);
            }
        }
        assert forall|i: int| 0 <= i < entries@.len() implies spec_resolve(
            ms,
            v,
            (#[trigger] entries@[i].1).method_index,
        ) == Some(entries@[i].1.codec) by {
            if i < before.len() {
                assert(entries@[i] == before[i]);
                assert(spec_resolve(ms, v, before[i].1.method_index) == Some(before[i].1.codec));
            } else {
                assert(entries@[i] == x);
            }
        }
        assert forall|i: int, j: int| 0 <= i < j < entries@.len() implies entries@[i].0@
            != entries@[j].0@ by {
            if j < before.len() {
                assert(entries@[i] == before[i] && entries@[j] == before[j]);
            } else {
                assert(entries@[i] == before[i]);
                assert(entries@[j] == x);
                assert(before[i].0@ != name@);
            }
        }
    }
}


/// One decoded catalog row: a normalized path with its entry image and
/// resolved codec.
pub ghost struct CatRow {
    pub name: Seq<char>,
    pub ev: EntryV,
    pub codec: Codec,
}

/// The decoded form of a whole successful load attempt.
pub ghost struct LoadV {
    pub footer: crate::footer::FooterV,
    pub kb: Seq<u8>,
    pub mount: Seq<char>,
    pub rows: Seq<CatRow>,
}

/// The last row stored under `n`: later rows replace earlier ones of the
/// same name, as map insertion does.
pub open spec fn assoc_last(l: Seq<CatRow>, n: Seq<char>) -> Option<CatRow>
    decreases l.len(),
{
    if l.len() == 0 {
        None
    } else if l.last().name == n {
        Some(l.last())
    } else {
        assoc_last(l.drop_last(), n)
    }
}

/// The exec catalog realizes the decoded rows as a map: lookup agrees with
/// last-wins association on every name.
pub open spec fn catalog_matches(rows: Seq<(String, Entry)>, l: Seq<CatRow>) -> bool {
    forall|n: Seq<char>|
        match #[trigger] assoc_last(l, n) {
            Some(cr) => spec_lookup(rows, n) matches Some(e) && e.ev() == cr.ev && e.codec
                == cr.codec,
            None => spec_lookup(rows, n) is None,
        }
}

/// Every row's codec is what the dialect's method table resolves its
/// method index to.
pub open spec fn rows_resolved(s: Seq<(String, Entry)>, ms: Seq<Seq<u8>>, v: Version) -> bool {
    forall|i: int|
        0 <= i < s.len() ==> spec_resolve(ms, v, (#[trigger] s[i].1).method_index) == Some(
            s[i].1.codec,
        )
}

/// The rows the legacy flat list yields: `count` normalized names, each
/// followed by a verbose entry record.
pub open spec fn spec_legacy_rows(
    idx: Seq<u8>,
    p: int,
    count: int,
    ms: Seq<Seq<u8>>,
    v: Version,
) -> Result<Seq<CatRow>, Error>
    decreases count,
{
    if count <= 0 {
        Ok(Seq::empty())
    } else {
        match spec_string_at(idx, p) {
            Err(e) => Err(e),
            Ok(pr) => match spec_verbose_full(idx, pr.1, ms, v) {
                Err(e) => Err(e),
                Ok(t) => match spec_legacy_rows(idx, t.2, count - 1, ms, v) {
                    Err(e) => Err(e),
                    Ok(rest) => Ok(
                        seq![CatRow { name: normalize_spec(pr.0), ev: t.0, codec: t.1 }] + rest,
                    ),
                },
            },
        }
    }
}

/// The legacy catalog section: a count, then that many rows.
pub open spec fn spec_legacy_section(idx: Seq<u8>, p: int, ms: Seq<Seq<u8>>, v: Version) -> Result<
    Seq<CatRow>,
    Error,
> {
    if p + 4 > idx.len() {
        Err(Error::Io)
    } else {
        spec_legacy_rows(idx, p + 4, le32(idx, p), ms, v)
    }
}

/// The `(full path, encoded offset)` pairs of one directory of the
/// full-directory index: `fcount` suffix strings, each with an offset.
pub open spec fn spec_dir_files(fdi: Seq<u8>, p: int, fcount: int, dn: Seq<char>) -> Result<
    (Seq<(Seq<char>, u32)>, int),
    Error,
>
    decreases fcount,
{
    if fcount <= 0 {
        Ok((Seq::empty(), p))
    } else {
        match spec_string_at(fdi, p) {
            Err(e) => Err(e),
            Ok(pr) => if pr.1 + 4 > fdi.len() {
                Err(Error::Io)
            } else {
                match spec_dir_files(fdi, pr.1 + 4, fcount - 1, dn) {
                    Err(e) => Err(e),
                    Ok(rest) => Ok(
                        (seq![(dn + pr.0, le32(fdi, pr.1) as u32)] + rest.0, rest.1),
                    ),
                }
            },
        }
    }
}

/// The pairs of `dcount` directories: each a normalized prefix and its
/// file list.
pub open spec fn spec_dirs(fdi: Seq<u8>, p: int, dcount: int) -> Result<
    (Seq<(Seq<char>, u32)>, int),
    Error,
>
    decreases dcount,
{
    if dcount <= 0 {
        Ok((Seq::empty(), p))
    } else {
        match spec_string_at(fdi, p) {
            Err(e) => Err(e),
            Ok(pr) => if pr.1 + 4 > fdi.len() {
                Err(Error::Io)
            } else {
                match spec_dir_files(fdi, pr.1 + 4, le32(fdi, pr.1), normalize_spec(pr.0)) {
                    Err(e) => Err(e),
                    Ok(fl) => match spec_dirs(fdi, fl.1, dcount - 1) {
                        Err(e) => Err(e),
                        Ok(rest) => Ok((fl.0 + rest.0, rest.1)),
                    },
                }
            },
        }
    }
}

/// The whole full-directory blob: a directory count, then the directories.
pub open spec fn spec_fdi_files(fdi: Seq<u8>) -> Result<Seq<(Seq<char>, u32)>, Error> {
    if 4 > fdi.len() {
        Err(Error::Io)
    } else {
        match spec_dirs(fdi, 4, le32(fdi, 0)) {
            Err(e) => Err(e),
            Ok(fl) => Ok(fl.0),
        }
    }
}

/// The rows the compact encoded-entries blob yields for the given files,
/// each decoded at its stored offset.
pub open spec fn spec_encoded_rows(
    encoded: Seq<u8>,
    files: Seq<(Seq<char>, u32)>,
    i: int,
    ms: Seq<Seq<u8>>,
    v: Version,
) -> Result<Seq<CatRow>, Error>
    decreases files.len() - i,
{
    if i < 0 || i >= files.len() {
        Ok(Seq::empty())
    } else if files[i].1 > encoded.len() {
        Err(Error::Io)
    } else {
        match spec_compact_full(encoded, files[i].1 as int, ms, v) {
            Err(e) => Err(e),
            Ok(t) => match spec_encoded_rows(encoded, files, i + 1, ms, v) {
                Err(e) => Err(e),
                Ok(rest) => Ok(seq![CatRow { name: files[i].0, ev: t.0, codec: t.1 }] + rest),
            },
        }
    }
}

/// The encoded-entries section of the index: a byte size, the blob, and
/// one compact record per file.
pub open spec fn spec_enc_section(
    idx: Seq<u8>,
    p: int,
    files: Seq<(Seq<char>, u32)>,
    ms: Seq<Seq<u8>>,
    v: Version,
) -> Result<Seq<CatRow>, Error> {
    if p + 4 > idx.len() {
        Err(Error::Io)
    } else {
        let esz = le32(idx, p);
        if p + 4 + esz > idx.len() {
            Err(Error::Io)
        } else {
            spec_encoded_rows(idx.subrange(p + 4, p + 4 + esz), files, 0, ms, v)
        }
    }
}

/// The rows of the path-hash dialects: entry count, seed and path-hash
/// triple (all discarded), the full-directory index fetched from the
/// archive and decrypted like the index, then the encoded entries.
pub open spec fn spec_phi_rows(
    d: Seq<u8>,
    idx: Seq<u8>,
    p: int,
    ms: Seq<Seq<u8>>,
    v: Version,
    enc: bool,
    kb: Seq<u8>,
) -> Result<Seq<CatRow>, Error> {
    if p + 16 > idx.len() {
        Err(Error::Io)
    } else {
        let hphi = le32(idx, p + 12) != 0;
        let q = p + 16 + if hphi {
            36int
        } else {
            0int
        };
        if hphi && p + 52 > idx.len() {
            Err(Error::Io)
        } else if q + 4 > idx.len() {
            Err(Error::Io)
        } else if le32(idx, q) != 0 {
            if q + 40 > idx.len() {
                Err(Error::Io)
            } else {
                let off = le64(idx, q + 4);
                let size = le64(idx, q + 12);
                if off + size > d.len() {
                    Err(Error::Io)
                } else {
                    let raw = d.subrange(off, off + size);
                    let fdib = if enc {
                        dec_seq(kb, raw)
                    } else {
                        raw
                    };
                    match spec_fdi_files(fdib) {
                        Err(e) => Err(e),
                        Ok(files) => spec_enc_section(idx, q + 40, files, ms, v),
                    }
                }
            }
        } else {
            spec_enc_section(idx, q + 4, Seq::empty(), ms, v)
        }
    }
}

/// What one whole load attempt under dialect `v` decodes to: the trailer,
/// the key gate, the (decrypted) index, its mount point and its rows.
pub open spec fn spec_pak(d: Seq<u8>, v: Version, kh: Option<Seq<u8>>) -> Result<LoadV, Error> {
    match spec_footer(d, v) {
        Err(e) => Err(e),
        Ok(f) => if f.index_offset + f.index_size > d.len() {
            Err(Error::Io)
        } else {
            match key_gate(f.encrypted, kh) {
                Err(e) => Err(e),
                Ok(okb) => {
                    let kb = match okb {
                        Some(k) => k,
                        None => Seq::empty(),
                    };
                    let raw = d.subrange(f.index_offset, f.index_offset + f.index_size);
                    let idx = if f.encrypted {
                        dec_seq(kb, raw)
                    } else {
                        raw
                    };
                    match spec_string_at(idx, 0) {
                        Err(e) => Err(e),
                        Ok(mp) => {
                            let rows = if v.spec_has_path_hash_index() {
                                spec_phi_rows(d, idx, mp.1, f.methods, v, f.encrypted, kb)
                            } else {
                                spec_legacy_section(idx, mp.1, f.methods, v)
                            };
                            match rows {
                                Err(e) => Err(e),
                                Ok(rs) => Ok(
                                    LoadV { footer: f, kb, mount: mp.0, rows: rs },
                                ),
                            }
                        },
                    }
                },
            }
        },
    }
}

/// The view of a caller-supplied key hash.
pub open spec fn kh_view(key_hash: Option<&[u8]>) -> Option<Seq<u8>> {
    match key_hash {
        Some(kh) => Some(kh@),
        None => None,
    }
}

/// How a load attempt turns the encrypted flag and the supplied key hash
/// into a retained key: an encrypted archive demands a hash, the hash must
/// be valid base64, and the decoded bytes must be a 256-bit key.
pub open spec fn key_gate(f_enc: bool, key_hash: Option<Seq<u8>>) -> Result<Option<Seq<u8>>, Error> {
    if !f_enc {
        Ok(None)
    } else {
        match key_hash {
            None => Err(Error::EncryptedWithoutKey),
            Some(kh) => match b64_bytes(kh) {
                None => Err(Error::MalformedKey),
                Some(kb) => if kb.len() == 32 {
                    Ok(Some(kb))
                } else {
                    Err(Error::MalformedKey)
                },
            },
        }
    }
}

/// The index bytes a load attempt parses: the stored index slice,
/// decrypted blockwise when the trailer marks it encrypted.
pub open spec fn spec_index_bytes(
    d: Seq<u8>,
    enc: bool,
    io: int,
    is: int,
    kb: Seq<u8>,
) -> Seq<u8> {
    if enc {
        dec_seq(kb, d.subrange(io, io + is))
    } else {
        d.subrange(io, io + is)
    }
}

/// The decoded archive: its dialect, mount point, retained key, method
/// table and name-to-entry catalog. Immutable once built; every query is
/// read-only.
pub struct Pak {
    version: Version,
    mount_point: String,
    key: Option<PakKey>,
    methods: Vec<Vec<u8>>,
    entries: Vec<(String, Entry)>,
}

impl Pak {
    pub closed spec fn spec_version(self) -> Version {
        self.version
    }

    pub closed spec fn spec_mount(self) -> Seq<char> {
        self.mount_point@
    }

    /// The catalog rows, in insertion order.
    pub closed spec fn rows(self) -> Seq<(String, Entry)> {
        self.entries@
    }

    /// The catalog's paths, in insertion order.
    pub open spec fn names(self) -> Seq<Seq<char>> {
        Seq::new(self.rows().len(), |i: int| self.rows()[i].0@)
    }

    pub closed spec fn has_key(self) -> bool {
        self.key is Some
    }

    pub closed spec fn spec_key_bytes(self) -> Seq<u8> {
        match self.key {
            Some(k) => k.key_bytes(),
            None => Seq::empty(),
        }
    }

    /// The retained compression-method name table.
    pub closed spec fn spec_methods(self) -> Seq<Seq<u8>> {
        method_seq(self.methods@)
    }

    /// Names are unique, every entry is well-formed, every codec is what
    /// the retained method table resolves its index to, and any retained
    /// key is a whole 256-bit key.
    pub open spec fn wf(self) -> bool {
        &&& distinct_names(self.rows())
        &&& all_wf(self.rows())
        &&& rows_resolved(self.rows(), self.spec_methods(), self.spec_version())
        &&& (self.has_key() ==> self.spec_key_bytes().len() == 32)
    }

}

/// The view of an exec file list as name-and-offset pairs.
pub open spec fn files_view(s: Seq<(String, u32)>) -> Seq<(Seq<char>, u32)> {
    Seq::new(s.len(), |i: int| (s[i].0@, s[i].1))
}

/// The key bytes a retained key holds, empty when there is none.
pub open spec fn key_bytes_of(key: Option<PakKey>) -> Seq<u8> {
    match key {
        Some(k) => k.key_bytes(),
        None => Seq::empty(),
    }
}

/// Everything `Pak::new` promises of a successful load under dialect `v`.
pub open spec fn new_post(p: Pak, d: Seq<u8>, v: Version, kh: Option<Seq<u8>>) -> bool {
    &&& spec_pak(d, v, kh) matches Ok(lv) && {
        &&& p.spec_version() == v
        &&& p.spec_methods() == lv.footer.methods
        &&& (p.has_key() <==> lv.footer.encrypted)
        &&& (lv.footer.encrypted ==> p.spec_key_bytes() == lv.kb)
        &&& p.spec_mount() == lv.mount
        &&& catalog_matches(p.rows(), lv.rows)
    }
    &&& p.wf()
}

/// `assoc_last` after appending one row: the new row answers for its own
/// name and nothing else changes.
proof fn lemma_assoc_push(l: Seq<CatRow>, row: CatRow, n: Seq<char>)
    ensures
        assoc_last(l.push(row), n) == (if n == row.name {
            Some(row)
        } else {
            assoc_last(l, n)
        }),
{
    assert(l.push(row).last() == row);
    assert(l.push(row).drop_last() =~= l);
}

/// Reads the legacy flat list (count, then name-and-record pairs) into the
/// catalog.
#[verifier::rlimit(100)]
fn run_legacy(
    ird: &mut Rd,
    methods: &Vec<Vec<u8>>,
    v: Version,
    entries: &mut Vec<(String, Entry)>,
) -> (r: Result<(), Error>)
    requires
        old(ird).wf(),
        old(entries)@.len() == 0,
    ensures
        distinct_names(final(entries)@),
        all_wf(final(entries)@),
        rows_resolved(final(entries)@, method_seq(methods@), v),
        match spec_legacy_section(old(ird).bytes(), old(ird).at(), method_seq(methods@), v) {
            Ok(rs) => r == Ok::<(), Error>(()) && catalog_matches(final(entries)@, rs),
            Err(e) => r == Err::<(), Error>(e),
        },
{
    let ghost idx = ird.bytes();
    let ghost ms = method_seq(methods@);
    let count = match ird.read_u32() {
        Ok(x) => x,
        Err(e) => {
            return Err(e);
        },
    };
    let ghost p0 = ird.at();
    let ghost mut done: Seq<CatRow> = Seq::empty();
    let mut t: u32 = 0;
    while t < count
        invariant
            ird.wf(),
            ird.bytes() == idx,
            idx == old(ird).bytes(),
            ms == method_seq(methods@),
            t <= count,
            distinct_names(entries@),
            all_wf(entries@),
            rows_resolved(entries@, ms, v),
            catalog_matches(entries@, done),
            spec_legacy_section(idx, old(ird).at(), ms, v) == spec_legacy_rows(
                idx,
                p0,
                count as int,
                ms,
                v,
            ),
            spec_legacy_rows(idx, p0, count as int, ms, v) == (match spec_legacy_rows(
                idx,
                ird.at(),
                count - t,
                ms,
                v,
            ) {
                Ok(rest) => Ok::<Seq<CatRow>, Error>(done + rest),
                Err(e) => Err::<Seq<CatRow>, Error>(e),
            }),
        decreases count - t,
    {
        let nm = match ird.read_name() {
            Ok(s) => s,
            Err(e) => {
                return Err(e);
            },
        };
        let e = match decode_verbose(ird, methods, v) {
            Ok(e) => e,
            Err(e2) => {
                return Err(e2);
            },
        };
        let ghost row = CatRow { name: nm@, ev: e.ev(), codec: e.codec };
        let ghost before_rows = done;
        insert_entry(entries, nm, e, Ghost(ms), Ghost(v));
        proof {
            done = before_rows.push(row);
            assert forall|n: Seq<char>|
                match #[trigger] assoc_last(done, n) {
                    Some(cr) => spec_lookup(entries@, n) matches Some(e1) && e1.ev() == cr.ev
                        && e1.codec == cr.codec,
                    None => spec_lookup(entries@, n) is None,
                } by {
                lemma_assoc_push(before_rows, row, n);
            }
            assert(before_rows + (seq![row] + spec_legacy_rows(idx, ird.at(), count - t - 1, ms, v)->Ok_0) =~= done + spec_legacy_rows(idx, ird.at(), count - t - 1, ms, v)->Ok_0);
        }
        t = t + 1;
    }
    proof {
        assert(spec_legacy_rows(idx, ird.at(), 0, ms, v) == Ok::<Seq<CatRow>, Error>(Seq::empty()));
        assert(done + Seq::<CatRow>::empty() =~= done);
    }
    Ok(())
}

/// Reads one directory's file suffixes and encoded offsets, appending the
/// full paths to `files`.
#[verifier::rlimit(100)]
fn read_one_dir(frd: &mut Rd, dn: &String, fcount: u32, files: &mut Vec<(String, u32)>) -> (r:
    Result<(), Error>)
    requires
        old(frd).wf(),
    ensures
        final(frd).bytes() == old(frd).bytes(),
        final(frd).wf(),
        match spec_dir_files(old(frd).bytes(), old(frd).at(), fcount as int, dn@) {
            Ok(fl) => r == Ok::<(), Error>(()) && files_view(final(files)@) == files_view(
                old(files)@,
            ) + fl.0 && final(frd).at() == fl.1,
            Err(e) => r == Err::<(), Error>(e),
        },
{
    let ghost fdib = frd.bytes();
    let ghost p0 = frd.at();
    let ghost base = old(files)@.len() as int;
    let mut t: u32 = 0;
    while t < fcount
        invariant
            frd.wf(),
            frd.bytes() == fdib,
            fdib == old(frd).bytes(),
            p0 == old(frd).at(),
            base == old(files)@.len(),
            t <= fcount,
            files@.len() >= base,
            0 <= base,
            files@.take(base) == old(files)@,
            spec_dir_files(fdib, p0, fcount as int, dn@) == (match spec_dir_files(
                fdib,
                frd.at(),
                fcount - t,
                dn@,
            ) {
                Ok(fl) => Ok::<(Seq<(Seq<char>, u32)>, int), Error>(
                    (files_view(files@.skip(base)) + fl.0, fl.1),
                ),
                Err(e) => Err::<(Seq<(Seq<char>, u32)>, int), Error>(e),
            }),
        decreases fcount - t,
    {
        let fname = match frd.read_string() {
            Ok(s) => s,
            Err(e) => {
                return Err(e);
            },
        };
        let eoff = match frd.read_u32() {
            Ok(x) => x,
            Err(_) => {
                return Err(Error::Io);
            },
        };
        let full = dn.clone().concat(fname.as_str());
        let ghost before_files = files@;
        files.push((full, eoff));
        proof {
            assert(files@.take(base) =~= before_files.take(base));
            assert(files@.skip(base) =~= before_files.skip(base).push(files@.last()));
            assert(files_view(files@.skip(base)) =~= files_view(before_files.skip(base)).push(
                (files@.last().0@, files@.last().1),
            ));
            let fl1 = spec_dir_files(fdib, frd.at(), fcount - t - 1, dn@);
            if fl1 is Ok {
                assert(files_view(before_files.skip(base)) + (seq![
                    (files@.last().0@, files@.last().1),
                ] + fl1->Ok_0.0) =~= files_view(files@.skip(base)) + fl1->Ok_0.0);
            }
        }
        t = t + 1;
    }
    proof {
        assert(spec_dir_files(fdib, frd.at(), 0, dn@) == Ok::<(Seq<(Seq<char>, u32)>, int), Error>(
            (Seq::empty(), frd.at()),
        ));
        assert(files_view(files@.skip(base)) + Seq::<(Seq<char>, u32)>::empty() =~= files_view(
            files@.skip(base),
        ));
        assert(files@ =~= files@.take(base) + files@.skip(base));
        assert(files_view(files@) =~= files_view(old(files)@) + files_view(files@.skip(base)));
    }
    Ok(())
}

/// Parses the whole full-directory blob into full-path and offset pairs.
#[verifier::rlimit(100)]
fn read_fdi_files(fdi: &Vec<u8>) -> (r: Result<Vec<(String, u32)>, Error>)
    ensures
        match spec_fdi_files(fdi@) {
            Ok(fl) => r matches Ok(files) && files_view(files@) == fl,
            Err(e) => r == Err::<Vec<(String, u32)>, Error>(e),
        },
{
    let mut frd = Rd::new(fdi.as_slice());
    let dcount = match frd.read_u32() {
        Ok(x) => x,
        Err(_) => {
            return Err(Error::Io);
        },
    };
    let mut files: Vec<(String, u32)> = Vec::new();
    let mut t: u32 = 0;
    while t < dcount
        invariant
            frd.wf(),
            frd.bytes() == fdi@,
            t <= dcount,
            4 <= fdi@.len(),
            dcount == le32(fdi@, 0),
            spec_dirs(fdi@, 4, dcount as int) == (match spec_dirs(fdi@, frd.at(), dcount - t) {
                Ok(fl) => Ok::<(Seq<(Seq<char>, u32)>, int), Error>(
                    (files_view(files@) + fl.0, fl.1),
                ),
                Err(e) => Err::<(Seq<(Seq<char>, u32)>, int), Error>(e),
            }),
        decreases dcount - t,
    {
        let ghost at_t = frd.at();
        let dn = match frd.read_name() {
            Ok(s) => s,
            Err(e) => {
                return Err(e);
            },
        };
        let fcount = match frd.read_u32() {
            Ok(x) => x,
            Err(_) => {
                return Err(Error::Io);
            },
        };
        let ghost before_view = files_view(files@);
        match read_one_dir(&mut frd, &dn, fcount, &mut files) {
            Ok(()) => (),
            Err(e) => {
                return Err(e);
            },
        }
        proof {
            let pr = spec_string_at(fdi@, at_t)->Ok_0;
            let fl = spec_dir_files(fdi@, pr.1 + 4, fcount as int, dn@);
            assert(fl is Ok);
            let flo = fl->Ok_0;
            assert(files_view(files@) == before_view + flo.0);
            assert(frd.at() == flo.1);
            let rest = spec_dirs(fdi@, frd.at(), dcount - t - 1);
            assert(spec_dirs(fdi@, at_t, dcount - t) == (match rest {
                Ok(r2) => Ok::<(Seq<(Seq<char>, u32)>, int), Error>((flo.0 + r2.0, r2.1)),
                Err(e2) => Err::<(Seq<(Seq<char>, u32)>, int), Error>(e2),
            }));
            if rest is Ok {
                assert(before_view + (flo.0 + rest->Ok_0.0) =~= (before_view + flo.0)
                    + rest->Ok_0.0);
            }
        }
        t = t + 1;
    }
    proof {
        assert(spec_dirs(fdi@, frd.at(), 0) == Ok::<(Seq<(Seq<char>, u32)>, int), Error>(
            (Seq::empty(), frd.at()),
        ));
        assert(files_view(files@) + Seq::<(Seq<char>, u32)>::empty() =~= files_view(files@));
    }
    Ok(files)
}

/// Decodes one compact record per file from the encoded blob into the
/// catalog.
#[verifier::rlimit(100)]
fn run_encoded(
    encoded: &Vec<u8>,
    files: &Vec<(String, u32)>,
    methods: &Vec<Vec<u8>>,
    v: Version,
    entries: &mut Vec<(String, Entry)>,
) -> (r: Result<(), Error>)
    requires
        old(entries)@.len() == 0,
    ensures
        distinct_names(final(entries)@),
        all_wf(final(entries)@),
        rows_resolved(final(entries)@, method_seq(methods@), v),
        match spec_encoded_rows(encoded@, files_view(files@), 0, method_seq(methods@), v) {
            Ok(rs) => r == Ok::<(), Error>(()) && catalog_matches(final(entries)@, rs),
            Err(e) => r == Err::<(), Error>(e),
        },
{
    let ghost ms = method_seq(methods@);
    let ghost fv = files_view(files@);
    let nf = files.len();
    let ghost mut done: Seq<CatRow> = Seq::empty();
    let mut t: usize = 0;
    while t < nf
        invariant
            nf == files@.len(),
            ms == method_seq(methods@),
            fv == files_view(files@),
            t <= nf,
            distinct_names(entries@),
            all_wf(entries@),
            rows_resolved(entries@, ms, v),
            catalog_matches(entries@, done),
            spec_encoded_rows(encoded@, fv, 0, ms, v) == (match spec_encoded_rows(
                encoded@,
                fv,
                t as int,
                ms,
                v,
            ) {
                Ok(rest) => Ok::<Seq<CatRow>, Error>(done + rest),
                Err(e) => Err::<Seq<CatRow>, Error>(e),
            }),
        decreases nf - t,
    {
        let nm = files[t].0.clone();
        let eo = files[t].1;
        let mut erd = Rd::new(encoded.as_slice());
        match erd.seek_to(eo as u64) {
            Ok(()) => (),
            Err(_) => {
                return Err(Error::Io);
            },
        }
        let e = match decode_compact(&mut erd, methods, v) {
            Ok(e) => e,
            Err(e2) => {
                return Err(e2);
            },
        };
        let ghost row = CatRow { name: fv[t as int].0, ev: e.ev(), codec: e.codec };
        let ghost before_rows = done;
        proof {
            assert(nm@ == fv[t as int].0);
        }
        insert_entry(entries, nm, e, Ghost(ms), Ghost(v));
        proof {
            done = before_rows.push(row);
            assert forall|n: Seq<char>|
                match #[trigger] assoc_last(done, n) {
                    Some(cr) => spec_lookup(entries@, n) matches Some(e1) && e1.ev() == cr.ev
                        && e1.codec == cr.codec,
                    None => spec_lookup(entries@, n) is None,
                } by {
                lemma_assoc_push(before_rows, row, n);
            }
            assert(before_rows + (seq![row] + spec_encoded_rows(encoded@, fv, t + 1, ms, v)->Ok_0)
                =~= done + spec_encoded_rows(encoded@, fv, t + 1, ms, v)->Ok_0);
        }
        t = t + 1;
    }
    proof {
        assert(spec_encoded_rows(encoded@, fv, nf as int, ms, v) == Ok::<Seq<CatRow>, Error>(
            Seq::empty(),
        ));
        assert(done + Seq::<CatRow>::empty() =~= done);
    }
    Ok(())
}

/// Reads the path-hash dialects' sub-indexes (path-hash triple discarded,
/// full-directory index fetched and decrypted, compact entries decoded)
/// into the catalog.
#[verifier::rlimit(100)]
fn run_phi(
    data: &[u8],
    ird: &mut Rd,
    methods: &Vec<Vec<u8>>,
    v: Version,
    enc: bool,
    key: &Option<PakKey>,
    entries: &mut Vec<(String, Entry)>,
) -> (r: Result<(), Error>)
    requires
        old(ird).wf(),
        old(entries)@.len() == 0,
        enc ==> key is Some,
    ensures
        distinct_names(final(entries)@),
        all_wf(final(entries)@),
        rows_resolved(final(entries)@, method_seq(methods@), v),
        match spec_phi_rows(
            data@,
            old(ird).bytes(),
            old(ird).at(),
            method_seq(methods@),
            v,
            enc,
            key_bytes_of(*key),
        ) {
            Ok(rs) => r == Ok::<(), Error>(()) && catalog_matches(final(entries)@, rs),
            Err(e) => r == Err::<(), Error>(e),
        },
{
    let ghost idx = ird.bytes();
    let ghost p0 = ird.at();
    let ghost ms = method_seq(methods@);
    let ghost kb = key_bytes_of(*key);
    if ird.remaining() < 16 {
        return Err(Error::Io);
    }
    match ird.read_u32() {
        Ok(_) => (),
        Err(_) => {
            proof {
                assert(false);
            }
            return Err(Error::Io);
        },
    }
    match ird.read_u64() {
        Ok(_) => (),
        Err(_) => {
            proof {
                assert(false);
            }
            return Err(Error::Io);
        },
    }
    let ph = match ird.read_u32() {
        Ok(x) => x,
        Err(_) => {
            proof {
                assert(false);
            }
            return Err(Error::Io);
        },
    };
    if ph != 0 {
        if ird.remaining() < 36 {
            return Err(Error::Io);
        }
        match ird.skip(36) {
            Ok(()) => (),
            Err(_) => {
                proof {
                    assert(false);
                }
                return Err(Error::Io);
            },
        }
    }
    let fd = match ird.read_u32() {
        Ok(x) => x,
        Err(_) => {
            return Err(Error::Io);
        },
    };
    let mut files: Vec<(String, u32)> = Vec::new();
    if fd != 0 {
        if ird.remaining() < 36 {
            return Err(Error::Io);
        }
        let off = match ird.read_u64() {
            Ok(x) => x,
            Err(_) => {
                proof {
                    assert(false);
                }
                return Err(Error::Io);
            },
        };
        let size = match ird.read_u64() {
            Ok(x) => x,
            Err(_) => {
                proof {
                    assert(false);
                }
                return Err(Error::Io);
            },
        };
        match ird.skip(20) {
            Ok(()) => (),
            Err(_) => {
                proof {
                    assert(false);
                }
                return Err(Error::Io);
            },
        }
        let dl: u64 = data.len() as u64;
        if off > dl || size > dl - off {
            return Err(Error::Io);
        }
        let mut ard = Rd::new(data);
        match ard.seek_to(off) {
            Ok(()) => (),
            Err(_) => {
                proof {
                    assert(false);
                }
                return Err(Error::Io);
            },
        }
        let mut fdi = match ard.read_len(size as usize) {
            Ok(b) => b,
            Err(_) => {
                proof {
                    assert(false);
                }
                return Err(Error::Io);
            },
        };
        if enc {
            match key {
                Some(k) => decrypt_in_place(k, &mut fdi),
                None => {
                    proof {
                        assert(false);
                    }
                },
            }
        }
        files = match read_fdi_files(&fdi) {
            Ok(fs) => fs,
            Err(e) => {
                return Err(e);
            },
        };
    }
    let esize = match ird.read_u32() {
        Ok(x) => x,
        Err(_) => {
            return Err(Error::Io);
        },
    };
    let encoded = match ird.read_len(esize as usize) {
        Ok(b) => b,
        Err(_) => {
            return Err(Error::Io);
        },
    };
    run_encoded(&encoded, &files, methods, v, entries)
}

impl Pak {
    /// Attempts one exact dialect: decodes the trailer, loads and (if
    /// flagged) decrypts the index, reads the mount point, and builds the
    /// catalog from either the full-directory sub-index with compact
    /// entries or the legacy flat list, all-or-nothing: it succeeds
    /// exactly when the whole decode does, and then realizes the decoded
    /// rows.
    #[verifier::rlimit(100)]
    pub fn new(data: &[u8], version: Version, key_hash: Option<&[u8]>) -> (r: Result<Pak, Error>)
        ensures
            match r {
                Ok(p) => new_post(p, data@, version, kh_view(key_hash)),
                Err(e) => spec_pak(data@, version, kh_view(key_hash)) == Err::<LoadV, Error>(e),
            },
    {
        let footer = match Footer::decode(data, version) {
            Ok(f) => f,
            Err(e) => {
                return Err(e);
            },
        };
        let dl: u64 = data.len() as u64;
        if footer.index_offset > dl || footer.index_size > dl - footer.index_offset {
            return Err(Error::Io);
        }
        let mut key: Option<PakKey> = None;
        if footer.encrypted {
            let kh = match key_hash {
                Some(kh) => kh,
                None => {
                    return Err(Error::EncryptedWithoutKey);
                },
            };
            let kb = match base64_decode(kh) {
                Some(kb) => kb,
                None => {
                    return Err(Error::MalformedKey);
                },
            };
            let k = match PakKey::new(kb) {
                Some(k) => k,
                None => {
                    return Err(Error::MalformedKey);
                },
            };
            key = Some(k);
        }
        let mut ard = Rd::new(data);
        match ard.seek_to(footer.index_offset) {
            Ok(()) => (),
            Err(_) => {
                proof {
                    assert(false);
                }
                return Err(Error::Io);
            },
        }
        let mut index = match ard.read_len(footer.index_size as usize) {
            Ok(v1) => v1,
            Err(_) => {
                proof {
                    assert(false);
                }
                return Err(Error::Io);
            },
        };
        if footer.encrypted {
            match &key {
                Some(k) => decrypt_in_place(k, &mut index),
                None => {
                    proof {
                        assert(false);
                    }
                },
            }
        }
        let ghost idx0 = index@;
        proof {
            let f = spec_footer(data@, version)->Ok_0;
            assert(idx0 == (if f.encrypted {
                dec_seq(key_bytes_of(key), data@.subrange(
                    f.index_offset,
                    f.index_offset + f.index_size,
                ))
            } else {
                data@.subrange(f.index_offset, f.index_offset + f.index_size)
            }));
        }
        let mut ird = Rd::new(index.as_slice());
        let mount_point = match ird.read_string() {
            Ok(s) => s,
            Err(e) => {
                return Err(e);
            },
        };
        let mut entries: Vec<(String, Entry)> = Vec::new();
        if version.has_path_hash_index() {
            match run_phi(data, &mut ird, &footer.methods, version, footer.encrypted, &key,
                &mut entries) {
                Ok(()) => (),
                Err(e) => {
                    return Err(e);
                },
            }
        } else {
            match run_legacy(&mut ird, &footer.methods, version, &mut entries) {
                Ok(()) => (),
                Err(e) => {
                    return Err(e);
                },
            }
        }
        Ok(Pak { version, mount_point, key, methods: footer.methods, entries })
    }

    /// Probes every dialect newest to oldest and returns the first that
    /// loads, so the newest dialect the bytes parse under wins; a file
    /// matching no dialect fails with the exhausted-list error, never a
    /// per-profile one.
    pub fn load(data: &[u8], key_hash: Option<&[u8]>) -> (r: Result<Pak, Error>)
        ensures
            match r {
                Ok(p) => exists|i: int|
                    {
                        &&& 0 <= i < Version::spec_all().len()
                        &&& new_post(p, data@, #[trigger] Version::spec_all()[i], kh_view(
                            key_hash,
                        ))
                        &&& forall|j: int|
                            i < j < Version::spec_all().len() ==> spec_pak(
                                data@,
                                #[trigger] Version::spec_all()[j],
                                kh_view(key_hash),
                            ) is Err
                    },
                Err(e) => e == Error::Parse && forall|j: int|
                    0 <= j < Version::spec_all().len() ==> spec_pak(
                        data@,
                        #[trigger] Version::spec_all()[j],
                        kh_view(key_hash),
                    ) is Err,
            },
    {
        let versions = Version::all();
        let n = versions.len();
        let mut i: usize = n;
        while i > 0
            invariant
                i <= n,
                n == versions@.len(),
                versions@ == Version::spec_all(),
                forall|j: int|
                    i <= j < versions@.len() ==> spec_pak(
                        data@,
                        #[trigger] versions@[j],
                        kh_view(key_hash),
                    ) is Err,
            decreases i,
        {
            i = i - 1;
            match Pak::new(data, versions[i], key_hash) {
                Ok(p) => {
                    return Ok(p);
                },
                Err(_) => (),
            }
        }
        Err(Error::Parse)
    }

    /// The dialect this archive was loaded as.
    pub fn version(&self) -> (r: Version)
        ensures
            r == self.spec_version(),
    {
        self.version
    }

    /// The path prefix the archive's contents are rooted under.
    pub fn mount_point(&self) -> (r: &str)
        ensures
            r@ == self.spec_mount(),
    {
        self.mount_point.as_str()
    }

    /// Every stored path, one copy each, in catalog order.
    pub fn entries(&self) -> (r: Vec<String>)
        ensures
            r@.len() == self.names().len(),
            forall|i: int| 0 <= i < r@.len() ==> (#[trigger] r@[i])@ == self.names()[i],
    {
        let n = self.entries.len();
        let mut r: Vec<String> = Vec::new();
        let mut k: usize = 0;
        while k < n
            invariant
                n == self.entries@.len(),
                k <= n,
                r@.len() == k,
                forall|i: int| 0 <= i < k ==> (#[trigger] r@[i])@ == self.entries@[i].0@,
            decreases n - k,
        {
            r.push(self.entries[k].0.clone());
            k = k + 1;
        }
        r
    }

    /// Streams one stored file's original bytes into `out` (appending);
    /// `MissingEntry` exactly when the path is not in the catalog, and
    /// success owed whenever the stored record checks out and its blocks
    /// lie inside the archive.
    pub fn read(&self, path: &str, data: &[u8], out: &mut Vec<u8>) -> (r: Result<(), Error>)
        requires
            self.wf(),
        ensures
            match spec_lookup(self.rows(), path@) {
                None => r matches Err(e) && (e matches Error::MissingEntry(s) && s@ == path@)
                    && final(out)@ == old(out)@,
                Some(e) => match r {
                    Ok(()) => {
                        &&& (e.encrypted ==> self.has_key())
                        &&& (e.codec == Codec::Uncompressed || e.codec == Codec::Store)
                        &&& spec_verbose_at(data@, e.offset as int) matches Ok(pair)
                            && inner_matches(pair.0, e) && spec_fits(
                            data@,
                            eff_blocks(e),
                            0,
                            pair.1,
                            e.encrypted,
                        ) && final(out)@ == old(out)@ + spec_cat(
                            data@,
                            eff_blocks(e),
                            0,
                            pair.1,
                            e.encrypted,
                            self.spec_key_bytes(),
                        )
                    },
                    Err(er) => {
                        &&& !(er is MissingEntry)
                        &&& (e.encrypted && !self.has_key() ==> er == Error::EncryptedWithoutKey)
                        &&& (!(e.encrypted && !self.has_key()) && !(e.codec == Codec::Uncompressed
                            || e.codec == Codec::Store) ==> er == Error::UnsupportedCompression)
                        &&& !(e.encrypted && !self.has_key()) && (e.codec == Codec::Uncompressed
                            || e.codec == Codec::Store) ==> !(spec_verbose_at(
                            data@,
                            e.offset as int,
                        ) matches Ok(pair) && inner_matches(pair.0, e) && spec_fits(
                            data@,
                            eff_blocks(e),
                            0,
                            pair.1,
                            e.encrypted,
                        ))
                    },
                },
            },
            final(out)@.len() >= old(out)@.len(),
            final(out)@.take(old(out)@.len() as int) == old(out)@,
    {
        let n = self.entries.len();
        let mut k: usize = 0;
        while k < n
            invariant
                self.wf(),
                n == self.entries@.len(),
                k <= n,
                out@ == old(out)@,
                forall|j: int| 0 <= j < k ==> (#[trigger] self.entries@[j].0)@ != path@,
            decreases n - k,
        {
            if str_eq(self.entries[k].0.as_str(), path) {
                proof {
                    lemma_lookup_at(self.entries@, k as int, path@);
                }
                let e = &self.entries[k].1;
                let kr = match &self.key {
                    Some(kk) => Some(kk),
                    None => None,
                };
                proof {
                    assert(spec_okey(kr) == self.spec_key_bytes());
                    assert((kr is Some) == self.has_key());
                    assert(spec_resolve(self.spec_methods(), self.spec_version(),
                        self.entries@[k as int].1.method_index) == Some(
                        self.entries@[k as int].1.codec,
                    ));
                }
                let res = e.read(data, self.version, &self.methods, kr, out);
                return res;
            }
            k = k + 1;
        }
        proof {
            assert(!has_name(self.entries@, path@));
            lemma_lookup_some(self.entries@, path@);
        }
        Err(Error::MissingEntry(String::from_str(path)))
    }

    /// Materializes one stored file whole; the error cases are exactly
    /// `read`'s.
    pub fn get(&self, path: &str, data: &[u8]) -> (r: Result<Vec<u8>, Error>)
        requires
            self.wf(),
        ensures
            match spec_lookup(self.rows(), path@) {
                None => r matches Err(e) && (e matches Error::MissingEntry(s) && s@ == path@),
                Some(e) => match r {
                    Ok(v) => {
                        &&& (e.encrypted ==> self.has_key())
                        &&& (e.codec == Codec::Uncompressed || e.codec == Codec::Store)
                        &&& spec_verbose_at(data@, e.offset as int) matches Ok(pair)
                            && inner_matches(pair.0, e) && spec_fits(
                            data@,
                            eff_blocks(e),
                            0,
                            pair.1,
                            e.encrypted,
                        ) && v@ == spec_cat(
                            data@,
                            eff_blocks(e),
                            0,
                            pair.1,
                            e.encrypted,
                            self.spec_key_bytes(),
                        )
                    },
                    Err(er) => {
                        &&& !(er is MissingEntry)
                        &&& (e.encrypted && !self.has_key() ==> er == Error::EncryptedWithoutKey)
                        &&& (!(e.encrypted && !self.has_key()) && !(e.codec == Codec::Uncompressed
                            || e.codec == Codec::Store) ==> er == Error::UnsupportedCompression)
                        &&& !(e.encrypted && !self.has_key()) && (e.codec == Codec::Uncompressed
                            || e.codec == Codec::Store) ==> !(spec_verbose_at(
                            data@,
                            e.offset as int,
                        ) matches Ok(pair) && inner_matches(pair.0, e) && spec_fits(
                            data@,
                            eff_blocks(e),
                            0,
                            pair.1,
                            e.encrypted,
                        ))
                    },
                },
            },
    {
        let mut v: Vec<u8> = Vec::new();
        match self.read(path, data, &mut v) {
            Ok(()) => Ok(v),
            Err(e) => Err(e),
        }
    }
}

proof fn lemma_lookup_at(s: Seq<(String, Entry)>, k: int, n: Seq<char>)
    requires
        0 <= k < s.len(),
        s[k].0@ == n,
        forall|j: int| 0 <= j < k ==> s[j].0@ != n,
    ensures
        spec_lookup(s, n) == Some(s[k].1),
    decreases k,
{
    if k == 0 {
    } else {
        assert(s.skip(1)[k - 1] == s[k]);
        assert forall|j: int| 0 <= j < k - 1 implies s.skip(1)[j].0@ != n by {
            assert(s.skip(1)[j] == s[j + 1]);
        }
        lemma_lookup_at(s.skip(1), k - 1, n);
    }
}

/// Enumeration is idempotent: two enumerations of one archive yield the
/// same paths, and a well-formed catalog's paths hold no duplicates.
pub proof fn lemma_entries_idempotent(p: Pak, a: Seq<Seq<char>>, b: Seq<Seq<char>>)
    requires
        p.wf(),
        a == p.names(),
        b == p.names(),
    ensures
        a == b,
        forall|i: int, j: int| 0 <= i < j < a.len() ==> a[i] != a[j],
{
    assert forall|i: int, j: int| 0 <= i < j < a.len() implies a[i] != a[j] by {
        assert(p.rows()[i].0@ != p.rows()[j].0@);
    }
}

/// The sizes of a block list, summed in order.
pub open spec fn sum_sizes(s: Seq<Block>) -> int
    decreases s.len(),
{
    if s.len() == 0 {
        0
    } else {
        sum_sizes(s.drop_last()) + s.last().size
    }
}

/// A well-formed entry's non-empty block list partitions the compressed
/// payload: it starts at zero, each block begins where the previous one
/// ends, and the sizes sum to the compressed size.
pub proof fn lemma_blocks_partition(e: Entry)
    requires
        e.wf(),
        e.blocks@.len() > 0,
    ensures
        e.blocks@[0].start == 0,
        forall|i: int|
            0 < i < e.blocks@.len() ==> #[trigger] e.blocks@[i].start == e.blocks@[i - 1].start
                + e.blocks@[i - 1].size,
        sum_sizes(e.blocks@) == e.compressed,
{
    lemma_sum_contiguous(e.blocks@);
}

proof fn lemma_sum_contiguous(s: Seq<Block>)
    requires
        s.len() > 0,
        s[0].start == 0,
        forall|i: int|
            0 < i < s.len() ==> #[trigger] s[i].start == s[i - 1].start + s[i - 1].size,
    ensures
        sum_sizes(s) == s.last().start + s.last().size,
    decreases s.len(),
{
    if s.len() == 1 {
        assert(s.drop_last() =~= Seq::<Block>::empty());
        assert(sum_sizes(s) == sum_sizes(s.drop_last()) + s.last().size);
        assert(s.last() == s[0]);
    } else {
        let t = s.drop_last();
        assert(t[0].start == 0);
        assert forall|i: int| 0 < i < t.len() implies #[trigger] t[i].start == t[i - 1].start + t[i
            - 1].size by {
            assert(t[i] == s[i] && t[i - 1] == s[i - 1]);
        }
        lemma_sum_contiguous(t);
        assert(s[s.len() - 1].start == s[s.len() - 2].start + s[s.len() - 2].size);
        assert(t.last() == s[s.len() - 2]);
        assert(s.last().start == t.last().start + t.last().size);
        assert(sum_sizes(s) == sum_sizes(t) + s.last().size);
    }
}

/// Front decomposition of the block-size sum.
proof fn lemma_sum_skip(s: Seq<Block>)
    requires
        s.len() > 0,
    ensures
        sum_sizes(s) == s[0].size + sum_sizes(s.skip(1)),
    decreases s.len(),
{
    if s.len() == 1 {
        assert(s.skip(1) =~= Seq::<Block>::empty());
        assert(s.drop_last() =~= Seq::<Block>::empty());
    } else {
        lemma_sum_skip(s.drop_last());
        assert(s.drop_last()[0] == s[0]);
        assert(s.skip(1).drop_last() =~= s.drop_last().skip(1));
        assert(s.skip(1).last() == s.last());
    }
}

/// When the blocks fit, extraction emits exactly the sum of the block
/// sizes.
pub proof fn lemma_cat_len(d: Seq<u8>, bl: Seq<Block>, i: int, pos: int, enc: bool, kb: Seq<u8>)
    requires
        0 <= i <= bl.len(),
        0 <= pos,
        spec_fits(d, bl, i, pos, enc),
    ensures
        crate::entry::spec_cat(d, bl, i, pos, enc, kb).len() == sum_sizes(bl.skip(i)),
    decreases bl.len() - i,
{
    if i == bl.len() {
        assert(bl.skip(i) =~= Seq::<Block>::empty());
    } else {
        let sz = bl[i].size;
        let stride = crate::entry::spec_stride(sz, enc);
        lemma_cat_len(d, bl, i + 1, pos + stride, enc, kb);
        assert(bl.skip(i).len() > 0);
        lemma_sum_skip(bl.skip(i));
        assert(bl.skip(i)[0] == bl[i]);
        assert(bl.skip(i).skip(1) =~= bl.skip(i + 1));
        if enc {
            crate::crypt::lemma_dec_seq_len(kb, d.subrange(pos, pos + stride));
            assert(d.subrange(pos, pos + stride).len() == stride);
            assert(sz <= stride);
            assert(crate::entry::spec_block_out(d, pos, sz, enc, kb).len() == sz);
        } else {
            assert(crate::entry::spec_block_out(d, pos, sz, enc, kb).len() == sz);
        }
        assert(crate::entry::spec_cat(d, bl, i, pos, enc, kb) == crate::entry::spec_block_out(
            d,
            pos,
            sz,
            enc,
            kb,
        ) + crate::entry::spec_cat(d, bl, i + 1, pos + stride, enc, kb));
    }
}

/// A well-formed entry under the identity codec extracts to exactly its
/// uncompressed size.
pub proof fn lemma_extract_len(e: Entry, d: Seq<u8>, pos: int, kb: Seq<u8>)
    requires
        e.wf(),
        e.codec is Uncompressed || e.codec is Store,
        0 <= pos,
        spec_fits(d, eff_blocks(e), 0, pos, e.encrypted),
    ensures
        crate::entry::spec_cat(d, eff_blocks(e), 0, pos, e.encrypted, kb).len() == e.uncompressed,
{
    let eff = eff_blocks(e);
    lemma_cat_len(d, eff, 0, pos, e.encrypted, kb);
    assert(eff.skip(0) =~= eff);
    assert(crate::entry::spec_cat(d, eff, 0, pos, e.encrypted, kb).len() == sum_sizes(eff));
    if e.method_index == 0 {
        assert(eff =~= seq![Block { start: 0, size: e.compressed }]);
        assert(eff.drop_last() =~= Seq::<Block>::empty());
        assert(eff.last() == Block { start: 0, size: e.compressed });
        assert(sum_sizes(eff) == sum_sizes(eff.drop_last()) + e.compressed);
        assert(sum_sizes(eff) == e.compressed);
    } else {
        assert(e.codec is Store);
        assert(e.compressed == e.uncompressed);
        if eff.len() == 0 {
            assert(e.compressed == 0);
            assert(sum_sizes(eff) == 0);
        } else {
            lemma_sum_contiguous(eff);
            assert(eff.last().start + eff.last().size == e.compressed);
            assert(sum_sizes(eff) == e.compressed);
        }
    }
    assert(e.compressed == e.uncompressed);
}

} // verus!
