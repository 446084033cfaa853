use vstd::prelude::*;

use crate::err::Error;
use crate::norm::normalize_spec;
use crate::strs::utf16_chars;
use crate::strs::utf16_to_string;
use crate::strs::utf8_to_string;
use vstd::utf8::decode_utf8;
use vstd::utf8::valid_utf8;

verus! {

/// Little-endian value of the two bytes of `d` starting at `p`.
pub open spec fn le16(d: Seq<u8>, p: int) -> int {
    d[p] + 0x100 * d[p + 1]
}

/// Little-endian value of the four bytes of `d` starting at `p`.
pub open spec fn le32(d: Seq<u8>, p: int) -> int {
    d[p] + 0x100 * d[p + 1] + 0x1_0000 * d[p + 2] + 0x100_0000 * d[p + 3]
}

/// Little-endian value of the eight bytes of `d` starting at `p`.
pub open spec fn le64(d: Seq<u8>, p: int) -> int {
    le32(d, p) + 0x1_0000_0000 * le32(d, p + 4)
}

/// A stored string's payload with its trailing null byte stripped.
pub open spec fn strip_nul8(b: Seq<u8>) -> Seq<u8> {
    if b.len() > 0 && b[b.len() - 1] == 0 {
        b.drop_last()
    } else {
        b
    }
}

/// A stored UTF-16 string's payload with its trailing null unit stripped.
pub open spec fn strip_nul16(u: Seq<u16>) -> Seq<u16> {
    if u.len() > 0 && u[u.len() - 1] == 0 {
        u.drop_last()
    } else {
        u
    }
}

/// What decoding the length-prefixed, null-terminated string at position
/// `p` of `d` yields: the characters and the position just past the string.
/// A length prefix that is negative as a signed 32-bit value announces that
/// many UTF-16 code units; a non-negative one that many UTF-8 bytes.
pub open spec fn spec_string_at(d: Seq<u8>, p: int) -> Result<(Seq<char>, int), Error> {
    if p + 4 > d.len() {
        Err(Error::Io)
    } else {
        let n = le32(d, p);
        if n >= 0x8000_0000 {
            let m = 0x1_0000_0000 - n;
            if p + 4 + 2 * m > d.len() {
                Err(Error::Io)
            } else {
                let units = Seq::new(m as nat, |i: int| le16(d, p + 4 + 2 * i) as u16);
                match utf16_chars(strip_nul16(units)) {
                    Some(cs) => Ok((cs, p + 4 + 2 * m)),
                    None => Err(Error::StringDecode),
                }
            }
        } else {
            if p + 4 + n > d.len() {
                Err(Error::Io)
            } else {
                let bs = strip_nul8(d.subrange(p + 4, p + 4 + n));
                if valid_utf8(bs) {
                    Ok((decode_utf8(bs), p + 4 + n))
                } else {
                    Err(Error::StringDecode)
                }
            }
        }
    }
}

/// A cursor over a borrowed byte buffer; every decode step in the crate
/// reads through one of these.
pub struct Rd<'a> {
    pub data: &'a [u8],
    pub pos: usize,
}

impl<'a> Rd<'a> {
    /// The whole underlying buffer.
    pub open spec fn bytes(self) -> Seq<u8> {
        self.data@
    }

    /// The cursor, as an offset into `bytes()`.
    pub open spec fn at(self) -> int {
        self.pos as int
    }

    /// The cursor never stands past the end of the buffer.
    pub open spec fn wf(self) -> bool {
        self.pos <= self.data@.len()
    }

    pub fn new(data: &'a [u8]) -> (r: Rd<'a>)
        ensures
            r.bytes() == data@,
            r.at() == 0,
            r.wf(),
    {
        Rd { data, pos: 0 }
    }

    /// Repositions the cursor; `Io` if the target lies past the end.
    pub fn seek_to(&mut self, p: u64) -> (r: Result<(), Error>)
        ensures
            final(self).bytes() == old(self).bytes(),
            match r {
                Ok(()) => p <= old(self).bytes().len() && final(self).at() == p && final(self).wf(),
                Err(e) => e == Error::Io && p > old(self).bytes().len() && *final(self) == *old(self),
            },
    {
        if p <= self.data.len() as u64 {
            self.pos = p as usize;
            Ok(())
        } else {
            Err(Error::Io)
        }
    }

    /// How many bytes remain in front of the cursor.
    pub fn remaining(&self) -> (r: usize)
        requires
            self.wf(),
        ensures
            r == self.bytes().len() - self.at(),
    {
        self.data.len() - self.pos
    }

    pub fn read_u8(&mut self) -> (r: Result<u8, Error>)
        requires
            old(self).wf(),
        ensures
            final(self).bytes() == old(self).bytes(),
            final(self).wf(),
            match r {
                Ok(v) => old(self).at() + 1 <= old(self).bytes().len() && final(self).at() == old(self).at() + 1 && v == old(self).bytes()[old(self).at()],
                Err(e) => e == Error::Io && old(self).at() + 1 > old(self).bytes().len() && *final(self) == *old(self),
            },
    {
        if self.data.len() - self.pos >= 1 {
            let v = self.data[self.pos];
            self.pos = self.pos + 1;
            Ok(v)
        } else {
            Err(Error::Io)
        }
    }

    pub fn read_u16(&mut self) -> (r: Result<u16, Error>)
        requires
            old(self).wf(),
        ensures
            final(self).bytes() == old(self).bytes(),
            final(self).wf(),
            match r {
                Ok(v) => old(self).at() + 2 <= old(self).bytes().len() && final(self).at() == old(self).at() + 2 && v == le16(old(self).bytes(), old(self).at()),
                Err(e) => e == Error::Io && old(self).at() + 2 > old(self).bytes().len() && *final(self) == *old(self),
            },
    {
        if self.data.len() - self.pos >= 2 {
            let b0 = self.data[self.pos] as u16;
            let b1 = self.data[self.pos + 1] as u16;
            self.pos = self.pos + 2;
            Ok(b0 + 0x100 * b1)
        } else {
            Err(Error::Io)
        }
    }

    pub fn read_u32(&mut self) -> (r: Result<u32, Error>)
        requires
            old(self).wf(),
        ensures
            final(self).bytes() == old(self).bytes(),
            final(self).wf(),
            match r {
                Ok(v) => old(self).at() + 4 <= old(self).bytes().len() && final(self).at() == old(self).at() + 4 && v == le32(old(self).bytes(), old(self).at()),
                Err(e) => e == Error::Io && old(self).at() + 4 > old(self).bytes().len() && *final(self) == *old(self),
            },
    {
        if self.data.len() - self.pos >= 4 {
            let b0 = self.data[self.pos] as u32;
            let b1 = self.data[self.pos + 1] as u32;
            let b2 = self.data[self.pos + 2] as u32;
            let b3 = self.data[self.pos + 3] as u32;
            self.pos = self.pos + 4;
            Ok(b0 + 0x100 * b1 + 0x1_0000 * b2 + 0x100_0000 * b3)
        } else {
            Err(Error::Io)
        }
    }

    pub fn read_u64(&mut self) -> (r: Result<u64, Error>)
        requires
            old(self).wf(),
        ensures
            final(self).bytes() == old(self).bytes(),
            final(self).wf(),
            match r {
                Ok(v) => old(self).at() + 8 <= old(self).bytes().len() && final(self).at() == old(self).at() + 8 && v == le64(old(self).bytes(), old(self).at()),
                Err(e) => e == Error::Io && old(self).at() + 8 > old(self).bytes().len() && *final(self) == *old(self),
            },
    {
        if self.data.len() - self.pos >= 8 {
            let lo = match self.read_u32() {
                Ok(v) => v,
                Err(e) => {
                    return Err(e);
                },
            };
            let hi = match self.read_u32() {
                Ok(v) => v,
                Err(e) => {
                    return Err(e);
                },
            };
            Ok(lo as u64 + 0x1_0000_0000u64 * hi as u64)
        } else {
            Err(Error::Io)
        }
    }

    /// Skips `n` bytes (read and discarded); `Io` if fewer remain.
    pub fn skip(&mut self, n: usize) -> (r: Result<(), Error>)
        requires
            old(self).wf(),
        ensures
            final(self).bytes() == old(self).bytes(),
            final(self).wf(),
            match r {
                Ok(()) => old(self).at() + n <= old(self).bytes().len() && final(self).at() == old(self).at() + n,
                Err(e) => e == Error::Io && old(self).at() + n > old(self).bytes().len() && *final(self) == *old(self),
            },
    {
        if self.data.len() - self.pos >= n {
            self.pos = self.pos + n;
            Ok(())
        } else {
            Err(Error::Io)
        }
    }
}

/// The archive's composite decode steps, over any cursor that exposes its
/// buffer and position.
pub trait ReadExt: Sized {
    /// The whole underlying buffer.
    spec fn buf(&self) -> Seq<u8>;

    /// The cursor, as an offset into `buf()`.
    spec fn cur(&self) -> int;

    /// The cursor stands inside the buffer.
    spec fn valid(&self) -> bool;

    /// Reads one byte that must be 0 or 1.
    fn read_bool(&mut self) -> (r: Result<bool, Error>)
        requires
            old(self).valid(),
        ensures
            final(self).buf() == old(self).buf(),
            final(self).valid(),
            match r {
                Ok(v) => old(self).cur() + 1 <= old(self).buf().len() && final(self).cur() == old(
                    self).cur() + 1 && (old(self).buf()[old(self).cur()] == 0 || old(self).buf()[old(
                    self).cur()] == 1) && (v <==> old(self).buf()[old(self).cur()] == 1),
                Err(e) => match e {
                    Error::Io => old(self).cur() + 1 > old(self).buf().len() && final(self).cur()
                        == old(self).cur(),
                    Error::InvalidBoolean(b) => old(self).cur() + 1 <= old(self).buf().len() && b
                        == old(self).buf()[old(self).cur()] && b != 0 && b != 1 && final(self).cur() == old(self).cur() + 1,
                    _ => false,
                },
            },
    ;

    /// Reads a 20-byte hash field.
    fn read_guid(&mut self) -> (r: Result<Vec<u8>, Error>)
        requires
            old(self).valid(),
        ensures
            final(self).buf() == old(self).buf(),
            final(self).valid(),
            match r {
                Ok(v) => old(self).cur() + 20 <= old(self).buf().len() && final(self).cur() == old(
                    self).cur() + 20 && v@ == old(self).buf().subrange(
                    old(self).cur(),
                    old(self).cur() + 20,
                ),
                Err(e) => e == Error::Io && old(self).cur() + 20 > old(self).buf().len() && final(
                    self).cur() == old(self).cur(),
            },
    ;

    /// Reads exactly `n` bytes into a fresh buffer.
    fn read_len(&mut self, n: usize) -> (r: Result<Vec<u8>, Error>)
        requires
            old(self).valid(),
        ensures
            final(self).buf() == old(self).buf(),
            final(self).valid(),
            match r {
                Ok(v) => old(self).cur() + n <= old(self).buf().len() && final(self).cur() == old(
                    self).cur() + n && v@ == old(self).buf().subrange(
                    old(self).cur(),
                    old(self).cur() + n,
                ),
                Err(e) => e == Error::Io && old(self).cur() + n > old(self).buf().len() && final(
                    self).cur() == old(self).cur(),
            },
    ;

    /// Reads a length-prefixed, null-terminated UTF-8 or UTF-16 string.
    fn read_string(&mut self) -> (r: Result<String, Error>)
        requires
            old(self).valid(),
        ensures
            final(self).buf() == old(self).buf(),
            final(self).valid(),
            match r {
                Ok(s) => spec_string_at(old(self).buf(), old(self).cur()) matches Ok(pair) && s@
                    == pair.0 && final(self).cur() == pair.1,
                Err(e) => spec_string_at(old(self).buf(), old(self).cur()) == Err::<
                    (Seq<char>, int),
                    Error,
                >(e),
            },
    ;

    /// Reads a string as `read_string` and applies asset-path normalization.
    fn read_name(&mut self) -> (r: Result<String, Error>)
        requires
            old(self).valid(),
        ensures
            final(self).buf() == old(self).buf(),
            final(self).valid(),
            match r {
                Ok(s) => spec_string_at(old(self).buf(), old(self).cur()) matches Ok(pair) && s@
                    == normalize_spec(pair.0) && final(self).cur() == pair.1,
                Err(e) => spec_string_at(old(self).buf(), old(self).cur()) == Err::<
                    (Seq<char>, int),
                    Error,
                >(e),
            },
    ;
}

impl<'a> ReadExt for Rd<'a> {
    open spec fn buf(&self) -> Seq<u8> {
        self.bytes()
    }

    open spec fn cur(&self) -> int {
        self.at()
    }

    open spec fn valid(&self) -> bool {
        self.wf()
    }

    fn read_bool(&mut self) -> (r: Result<bool, Error>) {
        match self.read_u8() {
            Ok(1u8) => Ok(true),
            Ok(0u8) => Ok(false),
            Ok(b) => Err(Error::InvalidBoolean(b)),
            Err(e) => Err(e),
        }
    }

    fn read_guid(&mut self) -> (r: Result<Vec<u8>, Error>) {
        self.read_len(20)
    }

    fn read_len(&mut self, n: usize) -> (r: Result<Vec<u8>, Error>) {
        let dl: usize = self.data.len();
        if dl - self.pos < n {
            return Err(Error::Io);
        }
        let mut v: Vec<u8> = Vec::new();
        let mut k: usize = 0;
        while k < n
            invariant
                self.wf(),
                self.bytes() == old(self).bytes(),
                self.at() == old(self).at(),
                old(self).bytes().len() == dl,
                old(self).at() + n <= old(self).bytes().len(),
                k <= n,
                v@.len() == k,
                forall|t: int| 0 <= t < k ==> v@[t] == old(self).bytes()[old(self).at() + t],
            decreases n - k,
        {
            v.push(self.data[self.pos + k]);
            k = k + 1;
        }
        self.pos = self.pos + n;
        proof {
            assert(v@ =~= old(self).bytes().subrange(old(self).at(), old(self).at() + n));
        }
        Ok(v)
    }

    fn read_string(&mut self) -> (r: Result<String, Error>) {
        let n = match self.read_u32() {
            Ok(v) => v,
            Err(e) => {
                return Err(e);
            },
        };
        if n >= 0x8000_0000 {
            let m64: u64 = 0x1_0000_0000u64 - n as u64;
            let m: usize = m64 as usize;
            let rem64: u64 = (self.data.len() - self.pos) as u64;
            if rem64 < 2 * m64 {
                self.pos = self.pos - 4;
                return Err(Error::Io);
            }
            let ghost d = self.bytes();
            let ghost p0 = self.at();
            let mut units: Vec<u16> = Vec::new();
            let mut k: usize = 0;
            while k < m
                invariant
                    self.wf(),
                    self.bytes() == d,
                    k <= m,
                    self.at() == p0 + 2 * k,
                    p0 + 2 * m <= d.len(),
                    units@.len() == k,
                    forall|t: int| 0 <= t < k ==> units@[t] == le16(d, p0 + 2 * t) as u16,
                decreases m - k,
            {
                let u = match self.read_u16() {
                    Ok(u) => u,
                    Err(_) => {
                        proof {
                            assert(false);
                        }
                        return Err(Error::Io);
                    },
                };
                units.push(u);
                k = k + 1;
            }
            proof {
                assert(units@ =~= Seq::new(m as nat, |i: int| le16(d, p0 + 2 * i) as u16));
            }
            if units.len() > 0 && units[units.len() - 1] == 0 {
                units.pop();
            }
            proof {
                assert(units@ =~= strip_nul16(
                    Seq::new(m as nat, |i: int| le16(d, p0 + 2 * i) as u16),
                ));
            }
            match utf16_to_string(&units) {
                Some(s) => Ok(s),
                None => {
                    self.pos = self.pos - 2 * m - 4;
                    Err(Error::StringDecode)
                },
            }
        } else {
            let n = n as usize;
            if self.data.len() - self.pos < n {
                self.pos = self.pos - 4;
                return Err(Error::Io);
            }
            let mut bs = match self.read_len(n) {
                Ok(v) => v,
                Err(_) => {
                    proof {
                        assert(false);
                    }
                    return Err(Error::Io);
                },
            };
            if bs.len() > 0 && bs[bs.len() - 1] == 0 {
                bs.pop();
            }
            match utf8_to_string(bs) {
                Some(s) => Ok(s),
                None => {
                    self.pos = self.pos - n - 4;
                    Err(Error::StringDecode)
                },
            }
        }
    }

    fn read_name(&mut self) -> (r: Result<String, Error>) {
        let s = match self.read_string() {
            Ok(s) => s,
            Err(e) => {
                return Err(e);
            },
        };
        Ok(crate::norm::normalize_name(s.as_str()))
    }
}

} // verus!
