use vstd::prelude::*;

use crate::err::Error;
use crate::rd::le32;
use crate::rd::le64;
use crate::rd::Rd;
use crate::rd::ReadExt;
use crate::version::Version;

verus! {

/// The trailer's magic marker.
pub open spec fn spec_magic() -> int {
    0x5A6F12E1
}

/// Mathematical image of a decoded trailer.
pub ghost struct FooterV {
    pub index_offset: int,
    pub index_size: int,
    pub encrypted: bool,
    pub methods: Seq<Seq<u8>>,
}

/// What decoding the trailer of `d` under dialect `v` yields. The trailer
/// is the final `footer_size` bytes: an optional key guid (skipped), an
/// optional encrypted flag, the magic and version markers, the index
/// location, a skipped index hash, an optional frozen flag that must be
/// unset, and the dialect's compression-method name table.
pub open spec fn spec_footer(d: Seq<u8>, v: Version) -> Result<FooterV, Error> {
    let fs = v.spec_footer_size() as int;
    if d.len() < fs {
        Err(Error::Io)
    } else {
        let f0 = d.len() - fs;
        let p1 = f0 + if v.spec_num() >= 7 {
            16int
        } else {
            0int
        };
        let p2 = p1 + if v.spec_num() >= 4 {
            1int
        } else {
            0int
        };
        if v.spec_num() >= 4 && d[p1] != 0 && d[p1] != 1 {
            Err(Error::InvalidBoolean(d[p1]))
        } else if le32(d, p2) != spec_magic() {
            Err(Error::Parse)
        } else if le32(d, p2 + 4) != v.spec_num() {
            Err(Error::Parse)
        } else {
            let p3 = p2 + 44;
            if v.spec_num() == 9 && d[p3] != 0 && d[p3] != 1 {
                Err(Error::InvalidBoolean(d[p3]))
            } else if v.spec_num() == 9 && d[p3] == 1 {
                Err(Error::Parse)
            } else {
                let mb = p3 + if v.spec_num() == 9 {
                    1int
                } else {
                    0int
                };
                Ok(
                    FooterV {
                        index_offset: le64(d, p2 + 8),
                        index_size: le64(d, p2 + 16),
                        encrypted: v.spec_num() >= 4 && d[p1] == 1,
                        methods: Seq::new(
                            v.spec_method_count() as nat,
                            |k: int| d.subrange(mb + 32 * k, mb + 32 * (k + 1)),
                        ),
                    },
                )
            }
        }
    }
}

/// A decoded trailer; consumed right after decode.
pub struct Footer {
    pub index_offset: u64,
    pub index_size: u64,
    pub encrypted: bool,
    pub methods: Vec<Vec<u8>>,
}

impl Footer {
    /// The mathematical image of this trailer.
    pub open spec fn fv(self) -> FooterV {
        FooterV {
            index_offset: self.index_offset as int,
            index_size: self.index_size as int,
            encrypted: self.encrypted,
            methods: Seq::new(self.methods@.len(), |k: int| self.methods@[k]@),
        }
    }

    /// Decodes the trailer at the end of `data` under dialect `v`,
    /// all-or-nothing.
    pub fn decode(data: &[u8], v: Version) -> (r: Result<Footer, Error>)
        ensures
            match r {
                Ok(f) => spec_footer(data@, v) == Ok::<FooterV, Error>(f.fv()) && f.fv().encrypted
                    == f.encrypted,
                Err(e) => spec_footer(data@, v) == Err::<FooterV, Error>(e),
            },
    {
        let fs = v.footer_size();
        let dl = data.len();
        if (dl as u64) < fs {
            return Err(Error::Io);
        }
        let f0: u64 = dl as u64 - fs;
        let mut rd = Rd::new(data);
        match rd.seek_to(f0) {
            Ok(()) => (),
            Err(_) => {
                proof {
                    assert(false);
                }
                return Err(Error::Io);
            },
        }
        if v.num() >= 7 {
            match rd.skip(16) {
                Ok(()) => (),
                Err(_) => {
                    proof {
                        assert(false);
                    }
                    return Err(Error::Io);
                },
            }
        }
        let mut encrypted = false;
        if v.num() >= 4 {
            match rd.read_bool() {
                Ok(b) => {
                    encrypted = b;
                },
                Err(e) => {
                    return Err(e);
                },
            }
        }
        let magic = match rd.read_u32() {
            Ok(m) => m,
            Err(e) => {
                proof {
                    assert(false);
                }
                return Err(e);
            },
        };
        if magic != 0x5A6F12E1 {
            return Err(Error::Parse);
        }
        let vn = match rd.read_u32() {
            Ok(m) => m,
            Err(e) => {
                proof {
                    assert(false);
                }
                return Err(e);
            },
        };
        if vn != v.num() {
            return Err(Error::Parse);
        }
        let index_offset = match rd.read_u64() {
            Ok(m) => m,
            Err(e) => {
                proof {
                    assert(false);
                }
                return Err(e);
            },
        };
        let index_size = match rd.read_u64() {
            Ok(m) => m,
            Err(e) => {
                proof {
                    assert(false);
                }
                return Err(e);
            },
        };
        match rd.skip(20) {
            Ok(()) => (),
            Err(_) => {
                proof {
                    assert(false);
                }
                return Err(Error::Io);
            },
        }
        if v.num() == 9 {
            match rd.read_bool() {
                Ok(true) => {
                    return Err(Error::Parse);
                },
                Ok(false) => (),
                Err(e) => {
                    return Err(e);
                },
            }
        }
        let mc = v.method_count();
        let mut methods: Vec<Vec<u8>> = Vec::new();
        let ghost mb = rd.at();
        let mut k: u64 = 0;
        while k < mc
            invariant
                rd.wf(),
                rd.bytes() == data@,
                k <= mc,
                mc == v.spec_method_count(),
                mb + 32 * mc <= data@.len(),
                rd.at() == mb + 32 * k,
                methods@.len() == k,
                forall|t: int|
                    0 <= t < k ==> methods@[t]@ == data@.subrange(mb + 32 * t, mb + 32 * (t + 1)),
            decreases mc - k,
        {
            let name = match rd.read_len(32) {
                Ok(nm) => nm,
                Err(_) => {
                    proof {
                        assert(false);
                    }
                    return Err(Error::Io);
                },
            };
            methods.push(name);
            k = k + 1;
        }
        let f = Footer { index_offset, index_size, encrypted, methods };
        proof {
            assert(f.fv().methods =~= Seq::new(
                v.spec_method_count() as nat,
                |t: int| data@.subrange(mb + 32 * t, mb + 32 * (t + 1)),
            ));
        }
        Ok(f)
    }
}

} // verus!
