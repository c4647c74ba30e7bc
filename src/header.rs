//! The 512-byte header record: its model, its encoding and its decoding.
use bincode::Options;
use vstd::prelude::*;
use vstd::utf8::{decode_utf8, encode_utf8, valid_utf8};

use crate::field::{
    cstr_field, cstr_of, fits_cstr, is_octal_digit, lemma_cstr_field, lemma_octal_digits,
    lemma_octal_field, octal_field,
    octal_field_value, octal_text_of, pow8, read_cstr, zeros, parse_octal, Field, TarError,
};
use crate::REGTYPE;

verus! {

/// Largest value of a `u32` field.
pub const U32_MAX: u64 = 0xffff_ffff;

/// Largest value of a `u64` field.
pub const U64_MAX: u64 = 0xffff_ffff_ffff_ffff;

/// The abstract content of a header.
pub struct HeaderModel {
    pub name: Seq<u8>,
    pub mode: u32,
    pub uid: u32,
    pub gid: u32,
    pub size: u64,
    pub mtime: u64,
    pub typeflag: u8,
    pub linkname: Option<Seq<u8>>,
    pub magic: Seq<u8>,
    pub version: Seq<u8>,
    pub uname: Seq<char>,
    pub gname: Seq<char>,
    pub devmajor: u64,
    pub devminor: u64,
    pub prefix: Seq<char>,
}

/// One entry descriptor of an archive.
pub struct Header {
    /// Path of the entry, as raw bytes.
    pub name: Vec<u8>,
    /// Permission bits.
    pub mode: u32,
    /// Numeric id of the owner.
    pub uid: u32,
    /// Numeric id of the group.
    pub gid: u32,
    /// Length of the content in bytes.
    pub size: u64,
    /// Modification time in seconds since the Unix epoch.
    pub mtime: u64,
    /// Type of the entry; `REGTYPE` for a regular file.
    pub typeflag: u8,
    /// Target of a link; absent for regular files.
    pub linkname: Option<Vec<u8>>,
    pub magic: [u8; 6],
    pub version: [u8; 2],
    /// Name of the owner.
    pub uname: String,
    /// Name of the group.
    pub gname: String,
    /// Major device number.
    pub devmajor: u64,
    /// Minor device number.
    pub devminor: u64,
    /// Reserved for long names.
    pub prefix: String,
}

impl View for Header {
    type V = HeaderModel;

    open spec fn view(&self) -> HeaderModel {
        HeaderModel {
            name: self.name@,
            mode: self.mode,
            uid: self.uid,
            gid: self.gid,
            size: self.size,
            mtime: self.mtime,
            typeflag: self.typeflag,
            linkname: match self.linkname {
                Some(l) => Some(l@),
                None => None,
            },
            magic: self.magic@,
            version: self.version@,
            uname: self.uname@,
            gname: self.gname@,
            devmajor: self.devmajor,
            devminor: self.devminor,
            prefix: self.prefix@,
        }
    }
}

/// The eight bytes of `n`, least significant first.
pub open spec fn le_bytes(n: u64) -> Seq<u8> {
    seq![
        n as u8,
        (n >> 8u64) as u8,
        (n >> 16u64) as u8,
        (n >> 24u64) as u8,
        (n >> 32u64) as u8,
        (n >> 40u64) as u8,
        (n >> 48u64) as u8,
        (n >> 56u64) as u8,
    ]
}

/// The number that eight little-endian bytes denote.
pub open spec fn le_value(b: Seq<u8>) -> u64 {
    (b[0] as u64) | ((b[1] as u64) << 8u64) | ((b[2] as u64) << 16u64) | ((b[3] as u64) << 24u64)
        | ((b[4] as u64) << 32u64) | ((b[5] as u64) << 40u64) | ((b[6] as u64) << 48u64) | ((
    b[7] as u64) << 56u64)
}

pub proof fn lemma_le_round_trip(n: u64)
    ensures
        le_bytes(n).len() == 8,
        le_value(le_bytes(n)) == n,
{
    let b = le_bytes(n);
    assert(((n as u8) as u64) | ((((n >> 8u64) as u8) as u64) << 8u64) | ((((n >> 16u64) as u8) as u64) << 16u64)
        | ((((n >> 24u64) as u8) as u64) << 24u64) | ((((n >> 32u64) as u8) as u64) << 32u64)
        | ((((n >> 40u64) as u8) as u64) << 40u64) | ((((n >> 48u64) as u8) as u64) << 48u64)
        | ((((n >> 56u64) as u8) as u64) << 56u64) == n) by (bit_vector);
}

/// The eight ASCII spaces that stand for the checksum while it is computed.
pub open spec fn spaces8() -> Seq<u8> {
    Seq::new(8, |i: int| 32u8)
}

/// Sum of the bytes of `s`.
pub open spec fn byte_sum(s: Seq<u8>) -> nat
    decreases s.len(),
{
    if s.len() == 0 {
        0
    } else {
        byte_sum(s.drop_last()) + s.last() as nat
    }
}

pub open spec fn link_bytes(h: HeaderModel) -> Seq<u8> {
    match h.linkname {
        Some(l) => l,
        None => Seq::empty(),
    }
}

/// The fields before the checksum: name, mode, uid, gid, size, mtime.
pub open spec fn record_head(h: HeaderModel) -> Seq<u8> {
    cstr_field(h.name, 100) + octal_field(h.mode as nat, 8) + octal_field(h.uid as nat, 8)
        + octal_field(h.gid as nat, 8) + octal_field(h.size as nat, 12) + octal_field(
        h.mtime as nat,
        12,
    )
}

/// The fields after the checksum, up to the end of the record.
pub open spec fn record_tail(h: HeaderModel) -> Seq<u8> {
    seq![h.typeflag] + cstr_field(link_bytes(h), 100) + h.magic + h.version + cstr_field(
        encode_utf8(h.uname),
        32,
    ) + cstr_field(encode_utf8(h.gname), 32) + le_bytes(h.devmajor) + le_bytes(h.devminor)
        + cstr_field(encode_utf8(h.prefix), 155) + zeros(12)
}

/// The record of `h` with `chk` in the checksum field.
pub open spec fn record(h: HeaderModel, chk: Seq<u8>) -> Seq<u8> {
    record_head(h) + chk + record_tail(h)
}

/// The checksum of `h`: the sum of its record with spaces for the checksum.
pub open spec fn header_checksum(h: HeaderModel) -> nat {
    byte_sum(record(h, spaces8()))
}

/// The encoding of `h`.
#[verifier::opaque]
pub open spec fn encode(h: HeaderModel) -> Seq<u8> {
    record(h, octal_field(header_checksum(h), 8))
}

/// The first field, in record order, that `h` cannot be encoded with.
pub open spec fn encode_error(h: HeaderModel) -> Option<TarError> {
    if !fits_cstr(h.name, 100) {
        Some(TarError::Unencodable(Field::Name))
    } else if h.mode >= pow8(7) {
        Some(TarError::Unencodable(Field::Mode))
    } else if h.uid >= pow8(7) {
        Some(TarError::Unencodable(Field::Uid))
    } else if h.gid >= pow8(7) {
        Some(TarError::Unencodable(Field::Gid))
    } else if h.size >= pow8(11) {
        Some(TarError::Unencodable(Field::Size))
    } else if h.mtime >= pow8(11) {
        Some(TarError::Unencodable(Field::Mtime))
    } else if !fits_cstr(link_bytes(h), 100) {
        Some(TarError::Unencodable(Field::Linkname))
    } else if !fits_cstr(encode_utf8(h.uname), 32) {
        Some(TarError::Unencodable(Field::Uname))
    } else if !fits_cstr(encode_utf8(h.gname), 32) {
        Some(TarError::Unencodable(Field::Gname))
    } else if !fits_cstr(encode_utf8(h.prefix), 155) {
        Some(TarError::Unencodable(Field::Prefix))
    } else {
        None
    }
}

/// Every field of `h` fits its width.
pub open spec fn encodable(h: HeaderModel) -> bool {
    encode_error(h) is None
}

/// `b` with spaces in place of the checksum field, up to the end of the record.
pub open spec fn spaced(b: Seq<u8>) -> Seq<u8> {
    b.subrange(0, 148) + spaces8() + b.subrange(156, 512)
}

/// The checksum that a stored record should carry.
pub open spec fn record_checksum(b: Seq<u8>) -> nat {
    byte_sum(spaced(b))
}

pub open spec fn slot(b: Seq<u8>, off: int, w: int) -> Seq<u8> {
    b.subrange(off, off + w)
}

/// A path field: its bytes up to the first null byte.
pub open spec fn path_field(s: Seq<u8>, f: Field) -> Result<Seq<u8>, TarError> {
    match cstr_of(s) {
        None => Err(TarError::Unterminated(f)),
        Some(t) => Ok(t),
    }
}

/// A text field: the UTF-8 text before the first null byte.
pub open spec fn string_field(s: Seq<u8>, f: Field) -> Result<Seq<char>, TarError> {
    match cstr_of(s) {
        None => Err(TarError::Unterminated(f)),
        Some(t) => if valid_utf8(t) {
            Ok(decode_utf8(t))
        } else {
            Err(TarError::InvalidUtf8(f))
        },
    }
}

/// An empty link field stands for no link.
pub open spec fn link_of(t: Seq<u8>) -> Option<Seq<u8>> {
    if t.len() == 0 {
        None
    } else {
        Some(t)
    }
}

/// The header that a non-zero record holds, or the first field that fails,
/// or a checksum mismatch.
pub open spec fn decode_record(b: Seq<u8>) -> Result<HeaderModel, TarError> {
    let name = path_field(slot(b, 0, 100), Field::Name);
    let mode = octal_field_value(slot(b, 100, 8), U32_MAX as nat, Field::Mode);
    let uid = octal_field_value(slot(b, 108, 8), U32_MAX as nat, Field::Uid);
    let gid = octal_field_value(slot(b, 116, 8), U32_MAX as nat, Field::Gid);
    let size = octal_field_value(slot(b, 124, 12), U64_MAX as nat, Field::Size);
    let mtime = octal_field_value(slot(b, 136, 12), U64_MAX as nat, Field::Mtime);
    let chk = octal_field_value(slot(b, 148, 8), U32_MAX as nat, Field::Checksum);
    let link = path_field(slot(b, 157, 100), Field::Linkname);
    let uname = string_field(slot(b, 265, 32), Field::Uname);
    let gname = string_field(slot(b, 297, 32), Field::Gname);
    let prefix = string_field(slot(b, 345, 155), Field::Prefix);
    if b.len() < 512 {
        Err(TarError::Truncated)
    } else if name is Err {
        Err(name->Err_0)
    } else if mode is Err {
        Err(mode->Err_0)
    } else if uid is Err {
        Err(uid->Err_0)
    } else if gid is Err {
        Err(gid->Err_0)
    } else if size is Err {
        Err(size->Err_0)
    } else if mtime is Err {
        Err(mtime->Err_0)
    } else if chk is Err {
        Err(chk->Err_0)
    } else if link is Err {
        Err(link->Err_0)
    } else if uname is Err {
        Err(uname->Err_0)
    } else if gname is Err {
        Err(gname->Err_0)
    } else if prefix is Err {
        Err(prefix->Err_0)
    } else if record_checksum(b) != chk->Ok_0 {
        Err(
            TarError::ChecksumMismatch {
                expected: record_checksum(b) as u32,
                recorded: chk->Ok_0 as u32,
            },
        )
    } else {
        Ok(
            HeaderModel {
                name: name->Ok_0,
                mode: mode->Ok_0 as u32,
                uid: uid->Ok_0 as u32,
                gid: gid->Ok_0 as u32,
                size: size->Ok_0 as u64,
                mtime: mtime->Ok_0 as u64,
                typeflag: b[156],
                linkname: link_of(link->Ok_0),
                magic: slot(b, 257, 6),
                version: slot(b, 263, 2),
                uname: uname->Ok_0,
                gname: gname->Ok_0,
                devmajor: le_value(slot(b, 329, 8)),
                devminor: le_value(slot(b, 337, 8)),
                prefix: prefix->Ok_0,
            },
        )
    }
}

pub open spec fn all_zero(s: Seq<u8>) -> bool {
    forall|i: int| 0 <= i < s.len() ==> #[trigger] s[i] == 0
}

/// What a block read where a header is expected yields: the end of the
/// archive for an all-zero block, else the header it holds.
pub open spec fn decode_block(b: Seq<u8>) -> Result<Option<HeaderModel>, TarError> {
    if b.len() < 512 {
        Err(TarError::Truncated)
    } else if all_zero(b.take(512)) {
        Ok(None)
    } else {
        match decode_record(b) {
            Ok(h) => Ok(Some(h)),
            Err(e) => Err(e),
        }
    }
}

/// The major number of a Linux device id.
pub open spec fn major_of(dev: u64) -> u64 {
    ((dev >> 32u64) & 0xffff_f000u64) | ((dev >> 8u64) & 0xfffu64)
}

/// The minor number of a Linux device id.
pub open spec fn minor_of(dev: u64) -> u64 {
    ((dev >> 12u64) & 0xffff_ff00u64) | (dev & 0xffu64)
}

/// Relies on `nix::sys::stat::major`, which unpacks the major number of a
/// device id as `major_of` states it (the Linux layout).
#[verifier::external_body]
fn dev_major(dev: u64) -> (r: u64)
    ensures
        r == major_of(dev),
{
    nix::sys::stat::major(dev)
}

/// Relies on `nix::sys::stat::minor`, which unpacks the minor number of a
/// device id as `minor_of` states it (the Linux layout).
#[verifier::external_body]
fn dev_minor(dev: u64) -> (r: u64)
    ensures
        r == minor_of(dev),
{
    nix::sys::stat::minor(dev)
}

/// Relies on bincode's `serialize` with fixed-width integers and the default
/// options (little endian, no size limit): a `u64` becomes its eight bytes,
/// least significant first, and writing into a `Vec` does not fail.
#[verifier::external_body]
fn fixint_bytes(n: u64) -> (r: Option<Vec<u8>>)
    ensures
        r is Some,
        r->Some_0@ == le_bytes(n),
{
    bincode::DefaultOptions::new().with_fixint_encoding().serialize(&n).ok()
}

/// Relies on bincode's `deserialize` with fixed-width integers and the default
/// options: exactly eight bytes read as one little-endian `u64`.
#[verifier::external_body]
fn fixint_value(b: &[u8]) -> (r: Option<u64>)
    requires
        b@.len() == 8,
    ensures
        r == Some(le_value(b@)),
{
    bincode::DefaultOptions::new().with_fixint_encoding().deserialize(b).ok()
}

/// Relies on `String::from_utf8`: it succeeds exactly on valid UTF-8, and the
/// string then holds the characters that the bytes encode.
#[verifier::external_body]
fn string_from_utf8(b: Vec<u8>) -> (r: Option<String>)
    ensures
        r is Some <==> valid_utf8(b@),
        r matches Some(s) ==> s@ == decode_utf8(b@),
{
    String::from_utf8(b).ok()
}

/// Lengths of the parts of a record whose fields all fit.
pub proof fn lemma_record_len(h: HeaderModel)
    requires
        encodable(h),
        h.magic.len() == 6,
        h.version.len() == 2,
    ensures
        record_head(h).len() == 148,
        record_tail(h).len() == 356,
{
    lemma_octal_digits(h.mode as nat, 7);
    lemma_octal_digits(h.uid as nat, 7);
    lemma_octal_digits(h.gid as nat, 7);
    lemma_octal_digits(h.size as nat, 11);
    lemma_octal_digits(h.mtime as nat, 11);
}

/// The checksum of a record: the sum of its first 512 bytes, with spaces in
/// place of the checksum field.
fn record_checksum_of(b: &[u8]) -> (r: u32)
    requires
        b@.len() >= 512,
    ensures
        r as nat == record_checksum(b@),
        r <= 130560,
{
    let mut acc: u32 = 0;
    let mut i: usize = 0;
    let ghost sp = spaced(b@);
    while i < 512
        invariant
            i <= 512,
            b@.len() >= 512,
            sp == spaced(b@),
            sp.len() == 512,
            acc as nat == byte_sum(sp.take(i as int)),
            acc <= 255 * i,
        decreases 512 - i,
    {
        let x: u8 = if 148 <= i && i < 156 {
            32
        } else {
            b[i]
        };
        assert(sp[i as int] == x);
        assert(sp.take(i as int + 1).drop_last() =~= sp.take(i as int));
        acc = acc + x as u32;
        i = i + 1;
    }
    assert(sp.take(512) =~= sp);
    acc
}

impl Header {
    /// A header for a regular file, from the file's metadata and the names of
    /// its owner and group; `dev` is the device id of the file system.
    pub fn new(
        name: Vec<u8>,
        mode: u32,
        uid: u32,
        gid: u32,
        size: u64,
        mtime: u64,
        uname: String,
        gname: String,
        dev: u64,
    ) -> (r: Header)
        ensures
            r@ == (HeaderModel {
                name: name@,
                mode,
                uid,
                gid,
                size,
                mtime,
                typeflag: REGTYPE,
                linkname: None,
                magic: seq![117u8, 115, 116, 97, 114, 0],
                version: seq![48u8, 48],
                uname: uname@,
                gname: gname@,
                devmajor: major_of(dev),
                devminor: minor_of(dev),
                prefix: Seq::empty(),
            }),
    {
        let r = Header {
            name,
            mode,
            uid,
            gid,
            size,
            mtime,
            typeflag: REGTYPE,
            linkname: None,
            magic: [117u8, 115, 116, 97, 114, 0],
            version: [48u8, 48],
            uname,
            gname,
            devmajor: dev_major(dev),
            devminor: dev_minor(dev),
            prefix: String::new(),
        };
        assert(r.magic@ =~= seq![117u8, 115, 116, 97, 114, 0]);
        assert(r.version@ =~= seq![48u8, 48]);
        r
    }

    /// Appends the 512-byte record of this header to `out`.
    pub fn write(&self, out: &mut Vec<u8>) -> (r: Result<(), TarError>)
        ensures
            match r {
                Ok(_) => encodable(self@) && final(out)@ == old(out)@ + encode(self@),
                Err(e) => encode_error(self@) == Some(e) && final(out)@ == old(out)@,
            },
    {
        let writer = HeaderWriter::new(self);
        match writer.write(true) {
            Ok(v) => {
                out.extend_from_slice(v.as_slice());
                Ok(())
            },
            Err(e) => Err(e),
        }
    }

    /// The checksum of this header's record.
    pub fn compute_checksum(&self) -> (r: Result<u32, TarError>)
        ensures
            match r {
                Ok(c) => encodable(self@) && c as nat == header_checksum(self@),
                Err(e) => encode_error(self@) == Some(e),
            },
    {
        let writer = HeaderWriter::new(self);
        match writer.write(false) {
            Ok(v) => {
                proof {
                    lemma_record_len(self@);
                    assert(spaced(v@) =~= v@);
                }
                Ok(record_checksum_of(v.as_slice()))
            },
            Err(e) => Err(e),
        }
    }
}

/// Lays out the fields of a header, in record order, into a buffer.
pub struct HeaderWriter<'a> {
    header: &'a Header,
    w: Vec<u8>,
}

impl<'a> HeaderWriter<'a> {
    pub closed spec fn header_view(&self) -> HeaderModel {
        self.header@
    }

    pub closed spec fn written(&self) -> Seq<u8> {
        self.w@
    }

    pub fn new(header: &'a Header) -> (r: Self)
        ensures
            r.header_view() == header@,
            r.written() == Seq::<u8>::empty(),
    {
        HeaderWriter { header, w: Vec::new() }
    }

    /// The record of the header: with its checksum, or with spaces in the
    /// checksum field.
    #[verifier::rlimit(50)]
    pub fn write(self, write_checksum: bool) -> (r: Result<Vec<u8>, TarError>)
        requires
            self.written() == Seq::<u8>::empty(),
        ensures
            match r {
                Ok(v) => encodable(self.header_view()) && v@ == (if write_checksum {
                    encode(self.header_view())
                } else {
                    record(self.header_view(), spaces8())
                }),
                Err(e) => encode_error(self.header_view()) == Some(e),
            },
    {
        let mut this = self;
        let ghost h = this.header@;
        let header = this.header;
        this.write_path(&header.name, 100, Field::Name)?;
        this.write_octal_32(header.mode, 8, Field::Mode)?;
        this.write_octal_32(header.uid, 8, Field::Uid)?;
        this.write_octal_32(header.gid, 8, Field::Gid)?;
        this.write_octal_64(header.size, 12, Field::Size)?;
        this.write_time(header.mtime, 12, Field::Mtime)?;
        assert(this.w@ =~= record_head(h));
        let spaces: Vec<u8> = vec![32u8; 8];
        this.inner_write(spaces.as_slice());
        let typeflag: Vec<u8> = vec![header.typeflag];
        this.inner_write(typeflag.as_slice());
        match &header.linkname {
            Some(l) => this.write_path(l, 100, Field::Linkname)?,
            None => {
                let empty: Vec<u8> = Vec::new();
                assert(empty@ =~= link_bytes(h));
                this.write_cstring(empty.as_slice(), 100, Field::Linkname)?
            },
        }
        this.inner_write(header.magic.as_slice());
        this.inner_write(header.version.as_slice());
        this.write_cstring(header.uname.as_str().as_bytes(), 32, Field::Uname)?;
        this.write_cstring(header.gname.as_str().as_bytes(), 32, Field::Gname)?;
        match fixint_bytes(header.devmajor) {
            Some(v) => this.inner_write(v.as_slice()),
            None => return Err(TarError::Unencodable(Field::Devmajor)),
        }
        match fixint_bytes(header.devminor) {
            Some(v) => this.inner_write(v.as_slice()),
            None => return Err(TarError::Unencodable(Field::Devminor)),
        }
        this.write_cstring(header.prefix.as_str().as_bytes(), 155, Field::Prefix)?;
        let padding: Vec<u8> = vec![0u8; 12];
        this.inner_write(padding.as_slice());
        proof {
            lemma_record_len(h);
            assert(spaces@ =~= spaces8());
            assert(padding@ =~= zeros(12));
            assert(this.w@ =~= record(h, spaces8()));
        }
        if !write_checksum {
            return Ok(this.w);
        }
        let ghost r0 = this.w@;
        let sum = record_checksum_of(this.w.as_slice());
        proof {
            assert(spaced(r0) =~= r0);
            assert(pow8(7) == 2097152) by {
                reveal_with_fuel(pow8, 8);
            }
        }
        let mut f = match octal_text_of(sum as u64, 7) {
            Some(d) => d,
            None => return Err(TarError::Unencodable(Field::Checksum)),
        };
        f.push(0);
        proof {
            lemma_octal_digits(sum as nat, 7);
        }
        assert(f@ =~= octal_field(sum as nat, 8));
        let mut j: usize = 0;
        while j < 8
            invariant
                j <= 8,
                this.w@.len() == 512,
                r0.len() == 512,
                f@.len() == 8,
                forall|k: int|
                    0 <= k < 512 ==> #[trigger] this.w@[k] == (if 148 <= k < 148 + j {
                        f@[k - 148]
                    } else {
                        r0[k]
                    }),
            decreases 8 - j,
        {
            this.w.set(148 + j, f[j]);
            j = j + 1;
        }
        assert(this.w@ =~= record_head(h) + f@ + record_tail(h));
        proof {
            reveal(encode);
        }
        Ok(this.w)
    }

    fn inner_write(&mut self, buf: &[u8])
        ensures
            final(self).header == old(self).header,
            final(self).w@ == old(self).w@ + buf@,
    {
        self.w.extend_from_slice(buf);
    }

    fn write_path(&mut self, path: &Vec<u8>, len: usize, f: Field) -> (r: Result<(), TarError>)
        ensures
            final(self).header == old(self).header,
            match r {
                Ok(_) => fits_cstr(path@, len as nat) && final(self).w@ == old(self).w@ + cstr_field(
                    path@,
                    len as nat,
                ),
                Err(e) => !fits_cstr(path@, len as nat) && e == TarError::Unencodable(f)
                    && final(self).w@ == old(self).w@,
            },
    {
        self.write_cstring(path.as_slice(), len, f)
    }

    fn write_octal_32(&mut self, num: u32, len: usize, f: Field) -> (r: Result<(), TarError>)
        requires
            len >= 2,
        ensures
            final(self).header == old(self).header,
            match r {
                Ok(_) => (num as nat) < pow8((len - 1) as nat) && final(self).w@ == old(self).w@
                    + octal_field(num as nat, len as nat),
                Err(e) => (num as nat) >= pow8((len - 1) as nat) && e == TarError::Unencodable(f)
                    && final(self).w@ == old(self).w@,
            },
    {
        self.write_octal_64(num as u64, len, f)
    }

    fn write_octal_64(&mut self, num: u64, len: usize, f: Field) -> (r: Result<(), TarError>)
        requires
            len >= 2,
        ensures
            final(self).header == old(self).header,
            match r {
                Ok(_) => (num as nat) < pow8((len - 1) as nat) && final(self).w@ == old(self).w@
                    + octal_field(num as nat, len as nat),
                Err(e) => (num as nat) >= pow8((len - 1) as nat) && e == TarError::Unencodable(f)
                    && final(self).w@ == old(self).w@,
            },
    {
        match octal_text_of(num, len - 1) {
            None => Err(TarError::Unencodable(f)),
            Some(d) => {
                proof {
                    lemma_octal_digits(num as nat, (len - 1) as nat);
                    assert forall|i: int| 0 <= i < d@.len() implies #[trigger] d@[i] != 0 by {
                        assert(48 <= d@[i]);
                    }
                }
                self.write_cstring(d.as_slice(), len, f)
            },
        }
    }

    fn write_time(&mut self, time: u64, len: usize, f: Field) -> (r: Result<(), TarError>)
        requires
            len >= 2,
        ensures
            final(self).header == old(self).header,
            match r {
                Ok(_) => (time as nat) < pow8((len - 1) as nat) && final(self).w@ == old(self).w@
                    + octal_field(time as nat, len as nat),
                Err(e) => (time as nat) >= pow8((len - 1) as nat) && e == TarError::Unencodable(f)
                    && final(self).w@ == old(self).w@,
            },
    {
        self.write_octal_64(time, len, f)
    }

    fn write_cstring(&mut self, s: &[u8], len: usize, f: Field) -> (r: Result<(), TarError>)
        ensures
            final(self).header == old(self).header,
            match r {
                Ok(_) => fits_cstr(s@, len as nat) && final(self).w@ == old(self).w@ + cstr_field(
                    s@,
                    len as nat,
                ),
                Err(e) => !fits_cstr(s@, len as nat) && e == TarError::Unencodable(f)
                    && final(self).w@ == old(self).w@,
            },
    {
        if s.len() >= len {
            return Err(TarError::Unencodable(f));
        }
        let mut i: usize = 0;
        while i < s.len()
            invariant
                i <= s@.len(),
                forall|j: int| 0 <= j < i ==> #[trigger] s@[j] != 0,
            decreases s@.len() - i,
        {
            if s[i] == 0 {
                return Err(TarError::Unencodable(f));
            }
            i = i + 1;
        }
        self.inner_write(s);
        let fill: usize = len - s.len();
        let z: Vec<u8> = vec![0u8; fill];
        self.inner_write(z.as_slice());
        assert(z@ =~= zeros((len - s@.len()) as nat));
        assert(self.w@ =~= old(self).w@ + cstr_field(s@, len as nat));
        Ok(())
    }
}

impl Header {
    /// Decodes the record at the start of `bytes`: `None` for an all-zero
    /// block, which ends an archive.
    pub fn read(bytes: &[u8]) -> (r: Result<Option<Header>, TarError>)
        ensures
            match r {
                Ok(Some(h)) => decode_block(bytes@) == Ok::<Option<HeaderModel>, TarError>(Some(h@)),
                Ok(None) => decode_block(bytes@) == Ok::<Option<HeaderModel>, TarError>(None),
                Err(e) => decode_block(bytes@) == Err::<Option<HeaderModel>, TarError>(e),
            },
    {
        if bytes.len() < 512 {
            return Err(TarError::Truncated);
        }
        let mut i: usize = 0;
        while i < 512 && bytes[i] == 0
            invariant
                i <= 512,
                bytes@.len() >= 512,
                forall|j: int| 0 <= j < i ==> bytes@[j] == 0,
            decreases 512 - i,
        {
            i = i + 1;
        }
        if i == 512 {
            assert(all_zero(bytes@.take(512)));
            return Ok(None);
        }
        assert(bytes@.take(512)[i as int] != 0);
        let reader = HeaderReader::new(bytes);
        match reader.read() {
            Ok(h) => Ok(Some(h)),
            Err(e) => Err(e),
        }
    }
}

/// A cursor over the bytes of a record, read field by field.
pub struct HeaderReader<'a> {
    pos: usize,
    bytes: &'a [u8],
}

impl<'a> HeaderReader<'a> {
    pub closed spec fn bytes_view(&self) -> Seq<u8> {
        self.bytes@
    }

    pub closed spec fn position(&self) -> nat {
        self.pos as nat
    }

    pub fn new(buf: &'a [u8]) -> (r: Self)
        ensures
            r.bytes_view() == buf@,
            r.position() == 0,
    {
        HeaderReader { pos: 0, bytes: buf }
    }

    /// The header that the record holds, its checksum verified.
    #[verifier::rlimit(50)]
    pub fn read(self) -> (r: Result<Header, TarError>)
        requires
            self.position() == 0,
        ensures
            match r {
                Ok(h) => decode_record(self.bytes_view()) == Ok::<HeaderModel, TarError>(h@),
                Err(e) => decode_record(self.bytes_view()) == Err::<HeaderModel, TarError>(e),
            },
    {
        let mut this = self;
        if this.bytes.len() < 512 {
            return Err(TarError::Truncated);
        }
        let ghost b = this.bytes@;
        let name = this.read_path(100, Field::Name)?;
        let mode = this.read_octal_32(8, Field::Mode)?;
        let uid = this.read_octal_32(8, Field::Uid)?;
        let gid = this.read_octal_32(8, Field::Gid)?;
        let size = this.read_64(12, Field::Size)?;
        let mtime = this.read_time(12, Field::Mtime)?;
        let recorded = this.read_octal_32(8, Field::Checksum)?;
        let t = this.read_fixed(1)?;
        let typeflag = t[0];
        let link = this.read_path(100, Field::Linkname)?;
        let linkname = if link.len() == 0 {
            None
        } else {
            Some(link)
        };
        let m = this.read_fixed(6)?;
        let magic: [u8; 6] = [m[0], m[1], m[2], m[3], m[4], m[5]];
        let v = this.read_fixed(2)?;
        let version: [u8; 2] = [v[0], v[1]];
        let uname = this.read_string(32, Field::Uname)?;
        let gname = this.read_string(32, Field::Gname)?;
        let dmaj = this.read_fixed(8)?;
        let devmajor = match fixint_value(dmaj) {
            Some(x) => x,
            None => return Err(TarError::Truncated),
        };
        let dmin = this.read_fixed(8)?;
        let devminor = match fixint_value(dmin) {
            Some(x) => x,
            None => return Err(TarError::Truncated),
        };
        let prefix = this.read_string(155, Field::Prefix)?;
        let expected = record_checksum_of(this.bytes);
        if expected != recorded {
            return Err(TarError::ChecksumMismatch { expected, recorded });
        }
        let h = Header {
            name,
            mode,
            uid,
            gid,
            size,
            mtime,
            typeflag,
            linkname,
            magic,
            version,
            uname,
            gname,
            devmajor,
            devminor,
            prefix,
        };
        assert(h.magic@ =~= slot(b, 257, 6));
        assert(h.version@ =~= slot(b, 263, 2));
        Ok(h)
    }

    fn read_time(&mut self, len: usize, f: Field) -> (r: Result<u64, TarError>)
        requires
            old(self).pos + len <= old(self).bytes@.len(),
        ensures
            final(self).bytes == old(self).bytes,
            match r {
                Ok(v) => octal_field_value(
                    old(self).bytes@.subrange(old(self).pos as int, old(self).pos + len),
                    U64_MAX as nat,
                    f,
                ) == Ok::<nat, TarError>(v as nat) && final(self).pos == old(self).pos + len,
                Err(e) => octal_field_value(
                    old(self).bytes@.subrange(old(self).pos as int, old(self).pos + len),
                    U64_MAX as nat,
                    f,
                ) == Err::<nat, TarError>(e),
            },
    {
        self.read_64(len, f)
    }

    fn read_64(&mut self, len: usize, f: Field) -> (r: Result<u64, TarError>)
        requires
            old(self).pos + len <= old(self).bytes@.len(),
        ensures
            final(self).bytes == old(self).bytes,
            match r {
                Ok(v) => octal_field_value(
                    old(self).bytes@.subrange(old(self).pos as int, old(self).pos + len),
                    U64_MAX as nat,
                    f,
                ) == Ok::<nat, TarError>(v as nat) && final(self).pos == old(self).pos + len,
                Err(e) => octal_field_value(
                    old(self).bytes@.subrange(old(self).pos as int, old(self).pos + len),
                    U64_MAX as nat,
                    f,
                ) == Err::<nat, TarError>(e),
            },
    {
        let t = self.read_cstring(len, f)?;
        match parse_octal(t, U64_MAX) {
            Some(v) => Ok(v),
            None => Err(TarError::InvalidOctal(f)),
        }
    }

    fn read_octal_32(&mut self, len: usize, f: Field) -> (r: Result<u32, TarError>)
        requires
            old(self).pos + len <= old(self).bytes@.len(),
        ensures
            final(self).bytes == old(self).bytes,
            match r {
                Ok(v) => octal_field_value(
                    old(self).bytes@.subrange(old(self).pos as int, old(self).pos + len),
                    U32_MAX as nat,
                    f,
                ) == Ok::<nat, TarError>(v as nat) && final(self).pos == old(self).pos + len,
                Err(e) => octal_field_value(
                    old(self).bytes@.subrange(old(self).pos as int, old(self).pos + len),
                    U32_MAX as nat,
                    f,
                ) == Err::<nat, TarError>(e),
            },
    {
        let t = self.read_cstring(len, f)?;
        match parse_octal(t, U32_MAX) {
            Some(v) => Ok(v as u32),
            None => Err(TarError::InvalidOctal(f)),
        }
    }

    fn read_string(&mut self, len: usize, f: Field) -> (r: Result<String, TarError>)
        requires
            old(self).pos + len <= old(self).bytes@.len(),
        ensures
            final(self).bytes == old(self).bytes,
            match r {
                Ok(s) => string_field(
                    old(self).bytes@.subrange(old(self).pos as int, old(self).pos + len),
                    f,
                ) == Ok::<Seq<char>, TarError>(s@) && final(self).pos == old(self).pos + len,
                Err(e) => string_field(
                    old(self).bytes@.subrange(old(self).pos as int, old(self).pos + len),
                    f,
                ) == Err::<Seq<char>, TarError>(e),
            },
    {
        let t = self.read_cstring(len, f)?;
        match string_from_utf8(vstd::slice::slice_to_vec(t)) {
            Some(s) => Ok(s),
            None => Err(TarError::InvalidUtf8(f)),
        }
    }

    fn read_path(&mut self, len: usize, f: Field) -> (r: Result<Vec<u8>, TarError>)
        requires
            old(self).pos + len <= old(self).bytes@.len(),
        ensures
            final(self).bytes == old(self).bytes,
            final(self).pos <= final(self).bytes@.len(),
            match r {
                Ok(v) => path_field(
                    old(self).bytes@.subrange(old(self).pos as int, old(self).pos + len),
                    f,
                ) == Ok::<Seq<u8>, TarError>(v@) && final(self).pos == old(self).pos + len,
                Err(e) => path_field(
                    old(self).bytes@.subrange(old(self).pos as int, old(self).pos + len),
                    f,
                ) == Err::<Seq<u8>, TarError>(e),
            },
    {
        let t = self.read_cstring(len, f)?;
        Ok(vstd::slice::slice_to_vec(t))
    }

    fn read_cstring(&mut self, len: usize, f: Field) -> (r: Result<&'a [u8], TarError>)
        requires
            old(self).pos + len <= old(self).bytes@.len(),
        ensures
            final(self).bytes == old(self).bytes,
            final(self).pos <= final(self).bytes@.len(),
            match r {
                Ok(t) => cstr_of(
                    old(self).bytes@.subrange(old(self).pos as int, old(self).pos + len),
                ) == Some(t@) && final(self).pos == old(self).pos + len,
                Err(e) => cstr_of(
                    old(self).bytes@.subrange(old(self).pos as int, old(self).pos + len),
                ) is None && e == TarError::Unterminated(f) && final(self).pos == old(self).pos + len,
            },
    {
        let s = self.read_fixed(len)?;
        match read_cstr(s) {
            Some(t) => Ok(t),
            None => Err(TarError::Unterminated(f)),
        }
    }

    /// The next `len` bytes, or `Truncated` when fewer remain.
    fn read_fixed(&mut self, len: usize) -> (r: Result<&'a [u8], TarError>)
        requires
            old(self).pos <= old(self).bytes@.len(),
        ensures
            final(self).bytes == old(self).bytes,
            final(self).pos <= final(self).bytes@.len(),
            match r {
                Ok(s) => old(self).pos + len <= old(self).bytes@.len() && final(self).pos == old(
                    self,
                ).pos + len && s@ == old(self).bytes@.subrange(
                    old(self).pos as int,
                    old(self).pos + len,
                ),
                Err(e) => old(self).pos + len > old(self).bytes@.len() && e == TarError::Truncated
                    && final(self).pos == old(self).pos,
            },
    {
        if len > self.bytes.len() - self.pos {
            return Err(TarError::Truncated);
        }
        let start = self.pos;
        self.pos = self.pos + len;
        Ok(vstd::slice::slice_subrange(self.bytes, start, start + len))
    }
}

pub proof fn lemma_byte_sum_bound(s: Seq<u8>)
    ensures
        byte_sum(s) <= 255 * s.len(),
    decreases s.len(),
{
    if s.len() > 0 {
        lemma_byte_sum_bound(s.drop_last());
    }
}

/// Replacing one byte changes the sum by the difference of the two bytes.
pub proof fn lemma_byte_sum_update(s: Seq<u8>, i: int, x: u8)
    requires
        0 <= i < s.len(),
    ensures
        byte_sum(s.update(i, x)) + s[i] == byte_sum(s) + x,
    decreases s.len(),
{
    let t = s.update(i, x);
    if i == s.len() - 1 {
        assert(t.drop_last() =~= s.drop_last());
    } else {
        assert(t.drop_last() =~= s.drop_last().update(i, x));
        lemma_byte_sum_update(s.drop_last(), i, x);
    }
}

/// Facts on the fields of an encoded record that decoding relies on.
#[verifier::rlimit(50)]
proof fn lemma_encode_slots(h: HeaderModel)
    requires
        encodable(h),
        h.magic.len() == 6,
        h.version.len() == 2,
    ensures
        encode(h).len() == 512,
        header_checksum(h) < pow8(7),
        record_checksum(encode(h)) == header_checksum(h),
        slot(encode(h), 0, 100) == cstr_field(h.name, 100),
        slot(encode(h), 100, 8) == octal_field(h.mode as nat, 8),
        slot(encode(h), 108, 8) == octal_field(h.uid as nat, 8),
        slot(encode(h), 116, 8) == octal_field(h.gid as nat, 8),
        slot(encode(h), 124, 12) == octal_field(h.size as nat, 12),
        slot(encode(h), 136, 12) == octal_field(h.mtime as nat, 12),
        slot(encode(h), 148, 8) == octal_field(header_checksum(h), 8),
        encode(h)[156] == h.typeflag,
        slot(encode(h), 157, 100) == cstr_field(link_bytes(h), 100),
        slot(encode(h), 257, 6) == h.magic,
        slot(encode(h), 263, 2) == h.version,
        slot(encode(h), 265, 32) == cstr_field(encode_utf8(h.uname), 32),
        slot(encode(h), 297, 32) == cstr_field(encode_utf8(h.gname), 32),
        slot(encode(h), 329, 8) == le_bytes(h.devmajor),
        slot(encode(h), 337, 8) == le_bytes(h.devminor),
        slot(encode(h), 345, 155) == cstr_field(encode_utf8(h.prefix), 155),
        is_octal_digit(encode(h)[100]),
        is_octal_digit(encode(h)[101]),
{
    reveal(encode);
    lemma_record_len(h);
    let c = header_checksum(h);
    lemma_byte_sum_bound(record(h, spaces8()));
    assert(pow8(7) == 2097152) by {
        reveal_with_fuel(pow8, 8);
    }
    lemma_octal_digits(c, 7);
    lemma_octal_digits(h.mode as nat, 7);
    let e = encode(h);
    let chk = octal_field(c, 8);
    assert(spaced(e) =~= record(h, spaces8()));
    assert(slot(e, 0, 100) =~= cstr_field(h.name, 100));
    assert(slot(e, 100, 8) =~= octal_field(h.mode as nat, 8));
    assert(slot(e, 108, 8) =~= octal_field(h.uid as nat, 8));
    assert(slot(e, 116, 8) =~= octal_field(h.gid as nat, 8));
    assert(slot(e, 124, 12) =~= octal_field(h.size as nat, 12));
    assert(slot(e, 136, 12) =~= octal_field(h.mtime as nat, 12));
    assert(slot(e, 148, 8) =~= chk);
    assert(slot(e, 157, 100) =~= cstr_field(link_bytes(h), 100));
    assert(slot(e, 257, 6) =~= h.magic);
    assert(slot(e, 263, 2) =~= h.version);
    assert(slot(e, 265, 32) =~= cstr_field(encode_utf8(h.uname), 32));
    assert(slot(e, 297, 32) =~= cstr_field(encode_utf8(h.gname), 32));
    assert(slot(e, 329, 8) =~= le_bytes(h.devmajor));
    assert(slot(e, 337, 8) =~= le_bytes(h.devminor));
    assert(slot(e, 345, 155) =~= cstr_field(encode_utf8(h.prefix), 155));
    assert(e[100] == octal_field(h.mode as nat, 8)[0]);
    assert(e[101] == octal_field(h.mode as nat, 8)[1]);
}

proof fn lemma_string_field(s: Seq<char>, w: nat, f: Field)
    requires
        fits_cstr(encode_utf8(s), w),
    ensures
        string_field(cstr_field(encode_utf8(s), w), f) == Ok::<Seq<char>, TarError>(s),
{
    broadcast use vstd::utf8::encode_utf8_valid_utf8, vstd::utf8::encode_utf8_decode_utf8;

    lemma_cstr_field(encode_utf8(s), w);
}

/// The header that decoding gives back for `h`: an empty link reads back as
/// no link, every other field as it is.
pub open spec fn decoded_form(h: HeaderModel) -> HeaderModel {
    HeaderModel { linkname: link_of(link_bytes(h)), ..h }
}

/// Decoding the record of an encodable header gives back the same header;
/// an empty link stands for no link.
#[verifier::rlimit(60)]
pub proof fn lemma_round_trip(h: HeaderModel)
    requires
        encodable(h),
        h.magic.len() == 6,
        h.version.len() == 2,
    ensures
        encode(h).len() == 512,
        decode_block(encode(h)) == Ok::<Option<HeaderModel>, TarError>(Some(decoded_form(h))),
        h.linkname != Some(Seq::<u8>::empty()) ==> decoded_form(h) == h,
{
    let e = encode(h);
    lemma_encode_slots(h);
    let c = header_checksum(h);
    lemma_cstr_field(h.name, 100);
    lemma_octal_field(h.mode as nat, 8, U32_MAX as nat, Field::Mode);
    lemma_octal_field(h.uid as nat, 8, U32_MAX as nat, Field::Uid);
    lemma_octal_field(h.gid as nat, 8, U32_MAX as nat, Field::Gid);
    lemma_octal_field(h.size as nat, 12, U64_MAX as nat, Field::Size);
    lemma_octal_field(h.mtime as nat, 12, U64_MAX as nat, Field::Mtime);
    lemma_byte_sum_bound(record(h, spaces8()));
    lemma_octal_field(c, 8, U32_MAX as nat, Field::Checksum);
    lemma_cstr_field(link_bytes(h), 100);
    lemma_string_field(h.uname, 32, Field::Uname);
    lemma_string_field(h.gname, 32, Field::Gname);
    lemma_string_field(h.prefix, 155, Field::Prefix);
    lemma_le_round_trip(h.devmajor);
    lemma_le_round_trip(h.devminor);
    assert(e.take(512)[100] != 0);
    if h.linkname is Some {
        if h.linkname->Some_0.len() == 0 {
            assert(h.linkname->Some_0 =~= Seq::<u8>::empty());
        }
    }
    assert(h.linkname != Some(Seq::<u8>::empty()) ==> link_of(link_bytes(h)) == h.linkname);
    assert(path_field(slot(e, 0, 100), Field::Name) == Ok::<Seq<u8>, TarError>(h.name));
    assert(path_field(slot(e, 157, 100), Field::Linkname) == Ok::<Seq<u8>, TarError>(
        link_bytes(h),
    ));
    assert(octal_field_value(slot(e, 148, 8), U32_MAX as nat, Field::Checksum) == Ok::<
        nat,
        TarError,
    >(c));
    assert(decode_record(e) == Ok::<HeaderModel, TarError>(decoded_form(h)));
}

/// A block of 512 zero bytes where a header is expected ends the archive.
pub proof fn lemma_zero_block_ends(b: Seq<u8>)
    requires
        b.len() >= 512,
        all_zero(b.take(512)),
    ensures
        decode_block(b) == Ok::<Option<HeaderModel>, TarError>(None),
{
}

/// A change to a byte that no field parse reads leaves every field readable.
#[verifier::rlimit(60)]
proof fn lemma_raw_change_parses(h: HeaderModel, i: int, x: u8)
    requires
        encodable(h),
        h.magic.len() == 6,
        h.version.len() == 2,
        i == 156 || 257 <= i < 265 || 329 <= i < 345 || 500 <= i < 512,
    ensures
        path_field(slot(encode(h).update(i, x), 0, 100), Field::Name) is Ok,
        octal_field_value(slot(encode(h).update(i, x), 100, 8), U32_MAX as nat, Field::Mode) is Ok,
        octal_field_value(slot(encode(h).update(i, x), 108, 8), U32_MAX as nat, Field::Uid) is Ok,
        octal_field_value(slot(encode(h).update(i, x), 116, 8), U32_MAX as nat, Field::Gid) is Ok,
        octal_field_value(slot(encode(h).update(i, x), 124, 12), U64_MAX as nat, Field::Size) is Ok,
        octal_field_value(slot(encode(h).update(i, x), 136, 12), U64_MAX as nat, Field::Mtime) is Ok,
        path_field(slot(encode(h).update(i, x), 157, 100), Field::Linkname) is Ok,
        string_field(slot(encode(h).update(i, x), 265, 32), Field::Uname) is Ok,
        string_field(slot(encode(h).update(i, x), 297, 32), Field::Gname) is Ok,
        string_field(slot(encode(h).update(i, x), 345, 155), Field::Prefix) is Ok,
{
    let e = encode(h);
    let e2 = e.update(i, x);
    lemma_encode_slots(h);
    lemma_cstr_field(h.name, 100);
    lemma_octal_field(h.mode as nat, 8, U32_MAX as nat, Field::Mode);
    lemma_octal_field(h.uid as nat, 8, U32_MAX as nat, Field::Uid);
    lemma_octal_field(h.gid as nat, 8, U32_MAX as nat, Field::Gid);
    lemma_octal_field(h.size as nat, 12, U64_MAX as nat, Field::Size);
    lemma_octal_field(h.mtime as nat, 12, U64_MAX as nat, Field::Mtime);
    lemma_cstr_field(link_bytes(h), 100);
    lemma_string_field(h.uname, 32, Field::Uname);
    lemma_string_field(h.gname, 32, Field::Gname);
    lemma_string_field(h.prefix, 155, Field::Prefix);
    assert(slot(e2, 0, 100) =~= slot(e, 0, 100));
    assert(slot(e2, 100, 8) =~= slot(e, 100, 8));
    assert(slot(e2, 108, 8) =~= slot(e, 108, 8));
    assert(slot(e2, 116, 8) =~= slot(e, 116, 8));
    assert(slot(e2, 124, 12) =~= slot(e, 124, 12));
    assert(slot(e2, 136, 12) =~= slot(e, 136, 12));
    assert(slot(e2, 157, 100) =~= slot(e, 157, 100));
    assert(slot(e2, 265, 32) =~= slot(e, 265, 32));
    assert(slot(e2, 297, 32) =~= slot(e, 297, 32));
    assert(slot(e2, 345, 155) =~= slot(e, 345, 155));
}

/// Changing one byte of an encoded record outside its checksum field makes
/// decoding fail; where the byte lies outside every text and numeric field,
/// the failure is a checksum mismatch.
#[verifier::rlimit(60)]
pub proof fn lemma_checksum_detects_change(h: HeaderModel, i: int, x: u8)
    requires
        encodable(h),
        h.magic.len() == 6,
        h.version.len() == 2,
        0 <= i < 512,
        !(148 <= i < 156),
        x != encode(h)[i],
    ensures
        decode_block(encode(h).update(i, x)) is Err,
        (i == 156 || 257 <= i < 265 || 329 <= i < 345 || 500 <= i < 512) ==> decode_block(
            encode(h).update(i, x),
        ) matches Err(TarError::ChecksumMismatch { .. }),
{
    let e = encode(h);
    let e2 = e.update(i, x);
    lemma_encode_slots(h);
    let c = header_checksum(h);
    lemma_byte_sum_bound(record(h, spaces8()));
    lemma_octal_field(c, 8, U32_MAX as nat, Field::Checksum);
    assert(slot(e2, 148, 8) =~= slot(e, 148, 8));
    assert(spaced(e2) =~= spaced(e).update(i, x));
    lemma_byte_sum_update(spaced(e), i, x);
    assert(record_checksum(e2) != c);
    if i == 100 {
        assert(e2.take(512)[101] != 0);
    } else {
        assert(e2.take(512)[100] != 0);
    }
    if i == 156 || 257 <= i < 265 || 329 <= i < 345 || 500 <= i < 512 {
        lemma_raw_change_parses(h, i, x);
    }
}

} // verus!
