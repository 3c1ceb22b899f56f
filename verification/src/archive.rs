//! The tar layer: a byte-level model of the ustar entries this tool reads and
//! writes, a verified scanner that lists the entries of a tar stream, and a
//! verified builder for the trimmed single-entry fragment that gets spliced
//! ahead of an index.
//!
//! Format decisions, stated once: headers are ustar, name at most 100 bytes
//! with no prefix field, numeric fields written as zero-padded octal
//! (mode/uid/gid seven digits plus NUL, size/mtime eleven digits plus space,
//! checksum six digits plus NUL and space), owner and group 0, type flag `0`.
//! The scanner stops at a zero block or at a clean end of the stream, so a
//! trimmed fragment (no trailer blocks) scans the same as a full archive; it
//! verifies each header's checksum and refuses a mismatch, and reads names,
//! sizes and times but not modes. The builder emits no trailer blocks at
//! all: that is the trimming transform, applied by never writing the padding
//! rather than by cutting it off.

use vstd::prelude::*;
use crate::bytes::{
    zeros, sum_bytes, lemma_sum_bytes_bounds, lemma_sum_bytes_add, lemma_sum_bytes_spaces,
    push_zeros, copy_range, sum_vec, sum_range,
};
use crate::errors::{Error, Op};
use crate::octal::{
    pow8, octal_seq, parse_octal_field, lemma_pow8_values, push_octal, parse_octal_at,
    lemma_parse_octal_filled,
};
use vstd::arithmetic::div_mod::lemma_fundamental_div_mod;

verus! {

/// One tar entry, as specification data.
#[verifier::ext_equal]
pub ghost struct EntryModel {
    pub name: Seq<u8>,
    pub data: Seq<u8>,
    pub mtime: int,
}

/// One tar entry, as carried at run time.
#[derive(Debug, PartialEq, Eq)]
pub struct TarEntry {
    pub name: Vec<u8>,
    pub data: Vec<u8>,
    pub mtime: u64,
}

impl TarEntry {
    pub open spec fn model(self) -> EntryModel {
        EntryModel { name: self.name@, data: self.data@, mtime: self.mtime as int }
    }
}

pub open spec fn models_of(v: Seq<TarEntry>) -> Seq<EntryModel> {
    v.map_values(|e: TarEntry| e.model())
}

/// Index of the first NUL of `f`, or `f.len()`.
pub open spec fn until_nul(f: Seq<u8>) -> int
    decreases f.len(),
{
    if f.len() == 0 || f[0] == 0u8 {
        0
    } else {
        1 + until_nul(f.skip(1))
    }
}

pub proof fn lemma_until_nul_props(f: Seq<u8>)
    ensures
        0 <= until_nul(f) <= f.len(),
        forall|i: int| 0 <= i < until_nul(f) ==> #[trigger] f[i] != 0u8,
        until_nul(f) < f.len() ==> f[until_nul(f)] == 0u8,
    decreases f.len(),
{
    if f.len() != 0 && f[0] != 0u8 {
        lemma_until_nul_props(f.skip(1));
        let u = until_nul(f);
        assert forall|i: int| 0 <= i < u implies #[trigger] f[i] != 0u8 by {
            if i > 0 {
                assert(f.skip(1)[i - 1] == f[i]);
            }
        }
        if u < f.len() {
            assert(f.skip(1)[u - 1] == f[u]);
        }
    }
}

pub open spec fn round_up_512(n: int) -> int {
    ((n + 511) / 512) * 512
}

pub open spec fn block_is_zero(b: Seq<u8>) -> bool {
    forall|i: int| 0 <= i < b.len() ==> b[i] == 0u8
}

/// A name that fits a single ustar header: between 1 and 100 bytes, no NUL.
pub open spec fn valid_entry_name(name: Seq<u8>) -> bool {
    1 <= name.len() <= 100 && forall|i: int| 0 <= i < name.len() ==> #[trigger] name[i] != 0u8
}

/// A value that fits an eleven-digit octal field.
pub open spec fn fits_octal11(v: int) -> bool {
    0 <= v < pow8(11)
}

/// `s` padded with zero bytes to length `n`.
pub open spec fn pad_to(s: Seq<u8>, n: int) -> Seq<u8> {
    s + zeros(n - s.len())
}

/// The 512-byte header with the checksum field still holding the eight
/// spaces over which the checksum is summed.
pub open spec fn header_pre(name: Seq<u8>, size: int, mtime: int) -> Seq<u8> {
    pad_to(name, 100)                                       // name
    + octal_seq(0o644, 7) + seq![0u8]                       // mode
    + octal_seq(0, 7) + seq![0u8]                           // uid
    + octal_seq(0, 7) + seq![0u8]                           // gid
    + octal_seq(size, 11) + seq![32u8]                      // size
    + octal_seq(mtime, 11) + seq![32u8]                     // mtime
    + seq![32u8, 32u8, 32u8, 32u8, 32u8, 32u8, 32u8, 32u8]  // checksum slot
    + seq![48u8]                                            // type flag '0'
    + zeros(100)                                            // link name
    + seq![117u8, 115u8, 116u8, 97u8, 114u8, 0u8]           // "ustar" magic
    + seq![48u8, 48u8]                                      // version "00"
    + zeros(247)                                            // owner names, device, prefix
}

/// The finished 512-byte header: the checksum of `header_pre` spliced in as
/// six octal digits, a NUL and a space.
pub open spec fn header_bytes(name: Seq<u8>, size: int, mtime: int) -> Seq<u8> {
    let pre = header_pre(name, size, mtime);
    pre.take(148) + octal_seq(sum_bytes(pre), 6) + seq![0u8, 32u8] + pre.skip(156)
}

/// The trimmed single-entry fragment: header, then the content padded to a
/// block boundary, and no trailer blocks.
pub open spec fn fragment_bytes(name: Seq<u8>, data: Seq<u8>, mtime: int) -> Seq<u8> {
    header_bytes(name, data.len() as int, mtime) + data + zeros(
        round_up_512(data.len() as int) - data.len(),
    )
}

/// The checksum a reader computes for a 512-byte header: the sum of its
/// bytes with the checksum field read as eight spaces.
pub open spec fn checksum_of(h: Seq<u8>) -> int {
    sum_bytes(h.take(148)) + 256 + sum_bytes(h.skip(156))
}

/// The stored checksum field holds the computed sum.
pub open spec fn checksum_ok(h: Seq<u8>) -> bool {
    parse_octal_field(h.subrange(148, 156)) == Some(checksum_of(h))
}

/// The entries of a tar stream, in order; `None` where the stream is not a
/// tar stream: short or checksum-less headers and truncated content are
/// refused. A zero block or a clean end of the stream ends the scan.
pub open spec fn parse_entries(s: Seq<u8>) -> Option<Seq<EntryModel>>
    decreases s.len(),
{
    if s.len() == 0 {
        Some(Seq::<EntryModel>::empty())
    } else if s.len() < 512 {
        None
    } else if block_is_zero(s.take(512)) {
        Some(Seq::<EntryModel>::empty())
    } else if !checksum_ok(s.take(512)) {
        None
    } else {
        let h = s.take(512);
        match parse_octal_field(h.subrange(124, 136)) {
            None => None,
            Some(size) => match parse_octal_field(h.subrange(136, 148)) {
                None => None,
                Some(mtime) => {
                    if size >= 0 && s.len() >= 512 + round_up_512(size) {
                        let e = EntryModel {
                            name: h.subrange(0, until_nul(h.take(100))),
                            data: s.subrange(512, 512 + size),
                            mtime: mtime,
                        };
                        match parse_entries(s.skip(512 + round_up_512(size))) {
                            None => None,
                            Some(es) => Some(seq![e] + es),
                        }
                    } else {
                        None
                    }
                },
            },
        }
    }
}

fn round_up_512_exec(size: u64) -> (r: u64)
    requires
        size < 0x1000000000,
    ensures
        r == round_up_512(size as int),
        size <= r < size + 512,
{
    proof {
        lemma_fundamental_div_mod(size + 511, 512);
    }
    ((size + 511) / 512) * 512
}

fn is_zero_block_at(s: &Vec<u8>, off: usize) -> (r: bool)
    requires
        off + 512 <= s@.len(),
    ensures
        r == block_is_zero(s@.subrange(off as int, off as int + 512)),
{
    let n = s.len();
    let mut i: usize = 0;
    while i < 512
        invariant
            off + 512 <= n,
            n == s@.len(),
            i <= 512,
            forall|j: int|
                0 <= j < i ==> #[trigger] s@.subrange(off as int, off as int + 512)[j] == 0u8,
        decreases 512 - i,
    {
        let b = s[off + i];
        assert(s@.subrange(off as int, off as int + 512)[i as int] == s@[off + i]);
        if b != 0 {
            return false;
        }
        i = i + 1;
    }
    true
}

fn name_len_at(s: &Vec<u8>, off: usize) -> (r: usize)
    requires
        off + 100 <= s@.len(),
    ensures
        r == until_nul(s@.subrange(off as int, off as int + 100)),
        r <= 100,
{
    let ghost g = s@.subrange(off as int, off as int + 100);
    proof {
        lemma_until_nul_props(g);
    }
    let n = s.len();
    let mut q: usize = 0;
    while q < 100 && s[off + q] != 0
        invariant
            q <= 100,
            off + 100 <= n,
            n == s@.len(),
            g == s@.subrange(off as int, off as int + 100),
            forall|i: int| 0 <= i < q ==> #[trigger] g[i] != 0u8,
        decreases 100 - q,
    {
        assert(g[q as int] == s@[off + q]);
        q = q + 1;
    }
    proof {
        if q < 100 {
            assert(g[q as int] == s@[off + q]);
        }
        assert(until_nul(g) == q);
    }
    q
}

/// List the entries of the tar stream `data`, names and contents copied
/// out, header checksums verified; a failure is reported against `op`.
pub fn tar_entries(data: &Vec<u8>, op: Op) -> (r: Result<Vec<TarEntry>, Error>)
    ensures
        match parse_entries(data@) {
            Some(es) => r matches Ok(v) && models_of(v@) == es,
            None => r == Err::<Vec<TarEntry>, Error>(Error::Format(op)),
        },
{
    let n = data.len();
    let mut out: Vec<TarEntry> = Vec::new();
    let mut off: usize = 0;
    proof {
        assert(data@.skip(0) =~= data@);
        match parse_entries(data@) {
            Some(es) => {
                assert(models_of(out@) + es =~= es);
            },
            None => {},
        }
    }
    loop
        invariant
            off <= n,
            n == data@.len(),
            ({
                match parse_entries(data@.skip(off as int)) {
                    Some(es) => parse_entries(data@) == Some(models_of(out@) + es),
                    None => parse_entries(data@) is None,
                }
            }),
        decreases n - off,
    {
        let ghost s = data@.skip(off as int);
        if n - off == 0 {
            proof {
                assert(s.len() == 0);
                assert(models_of(out@) + Seq::<EntryModel>::empty() =~= models_of(out@));
            }
            return Ok(out);
        }
        if n - off < 512 {
            proof {
                assert(parse_entries(s) is None);
            }
            return Err(Error::Format(op));
        }
        proof {
            assert(s.take(512) =~= data@.subrange(off as int, off as int + 512));
        }
        if is_zero_block_at(data, off) {
            proof {
                assert(parse_entries(s) == Some(Seq::<EntryModel>::empty()));
                assert(models_of(out@) + Seq::<EntryModel>::empty() =~= models_of(out@));
            }
            return Ok(out);
        }
        let ghost h = s.take(512);
        proof {
            assert(h.subrange(124, 136) =~= data@.subrange(off as int + 124, off as int + 136));
            assert(h.subrange(136, 148) =~= data@.subrange(off as int + 136, off as int + 148));
            assert(h.subrange(148, 156) =~= data@.subrange(off as int + 148, off as int + 156));
            assert(h.take(148) =~= data@.subrange(off as int, off as int + 148));
            assert(h.skip(156) =~= data@.subrange(off as int + 156, off as int + 512));
            lemma_sum_bytes_bounds(h.take(148));
            lemma_sum_bytes_bounds(h.skip(156));
        }
        let ck_stored = parse_octal_at(data, off + 148, 8);
        let ck_lo = sum_range(data, off, off + 148);
        let ck_hi = sum_range(data, off + 156, off + 512);
        let ck: u64 = ck_lo + 256 + ck_hi;
        let ck_match = match ck_stored {
            Some(c) => c == ck,
            None => false,
        };
        if !ck_match {
            proof {
                assert(!checksum_ok(h));
                assert(parse_entries(s) is None);
            }
            return Err(Error::Format(op));
        }
        proof {
            assert(checksum_ok(h));
        }
        let size_o = parse_octal_at(data, off + 124, 12);
        let mtime_o = parse_octal_at(data, off + 136, 12);
        let (size, mtime_v) = match (size_o, mtime_o) {
            (Some(a), Some(b)) => (a, b),
            _ => {
                return Err(Error::Format(op));
            },
        };
        let pad = round_up_512_exec(size);
        if ((n - off - 512) as u64) < pad {
            proof {
                assert(parse_entries(s) is None);
            }
            return Err(Error::Format(op));
        }
        let size_us = size as usize;
        let nl = name_len_at(data, off);
        proof {
            assert(h.take(100) =~= data@.subrange(off as int, off as int + 100));
            lemma_until_nul_props(h.take(100));
        }
        let name = copy_range(data, off, off + nl);
        let content = copy_range(data, off + 512, off + 512 + size_us);
        let te = TarEntry { name, data: content, mtime: mtime_v };
        let ghost k: int = 512 + round_up_512(size as int);
        let ghost e = EntryModel {
            name: h.subrange(0, until_nul(h.take(100))),
            data: s.subrange(512, 512 + size as int),
            mtime: mtime_v as int,
        };
        proof {
            assert(te.model().name =~= e.name);
            assert(te.model().data =~= e.data);
            assert(te.model() =~= e);
            assert(s.skip(k) =~= data@.skip(off as int + k));
            match parse_entries(s.skip(k)) {
                None => {
                    assert(parse_entries(s) is None);
                },
                Some(es2) => {
                    assert(parse_entries(s) == Some(seq![e] + es2));
                    assert(models_of(out@.push(te)) =~= models_of(out@) + seq![e]);
                    assert((models_of(out@) + (seq![e] + es2)) =~= (models_of(out@) + seq![e])
                        + es2);
                },
            }
        }
        out.push(te);
        off = off + 512 + (pad as usize);
    }
}

fn check_name(name: &Vec<u8>) -> (r: bool)
    ensures
        r == valid_entry_name(name@),
{
    if name.len() == 0 || name.len() > 100 {
        return false;
    }
    let mut i: usize = 0;
    while i < name.len()
        invariant
            i <= name@.len(),
            forall|j: int| 0 <= j < i ==> #[trigger] name@[j] != 0u8,
        decreases name@.len() - i,
    {
        if name[i] == 0 {
            return false;
        }
        i = i + 1;
    }
    true
}

#[verifier::rlimit(50)]
fn build_header(name: &Vec<u8>, size: u64, mtime: u64) -> (r: Vec<u8>)
    requires
        valid_entry_name(name@),
        size < 0x200000000,
        mtime < 0x200000000,
    ensures
        r@ == header_bytes(name@, size as int, mtime as int),
{
    let mut pre: Vec<u8> = Vec::new();
    let mut i: usize = 0;
    while i < name.len()
        invariant
            i <= name@.len(),
            pre@ == name@.take(i as int),
        decreases name@.len() - i,
    {
        pre.push(name[i]);
        i = i + 1;
        assert(pre@ =~= name@.take(i as int));
    }
    assert(pre@ =~= name@);
    push_zeros(&mut pre, 100 - name.len());
    push_octal(&mut pre, 0o644, 7);
    pre.push(0u8);
    push_octal(&mut pre, 0, 7);
    pre.push(0u8);
    push_octal(&mut pre, 0, 7);
    pre.push(0u8);
    push_octal(&mut pre, size, 11);
    pre.push(32u8);
    push_octal(&mut pre, mtime, 11);
    pre.push(32u8);
    pre.push(32u8);
    pre.push(32u8);
    pre.push(32u8);
    pre.push(32u8);
    pre.push(32u8);
    pre.push(32u8);
    pre.push(32u8);
    pre.push(32u8);
    pre.push(48u8);
    push_zeros(&mut pre, 100);
    pre.push(117u8);
    pre.push(115u8);
    pre.push(116u8);
    pre.push(97u8);
    pre.push(114u8);
    pre.push(0u8);
    pre.push(48u8);
    pre.push(48u8);
    push_zeros(&mut pre, 247);
    assert(pre@ =~= header_pre(name@, size as int, mtime as int));
    let ck = sum_vec(&pre);
    proof {
        lemma_sum_bytes_bounds(pre@);
        lemma_pow8_values();
    }
    let mut hdr = copy_range(&pre, 0, 148);
    push_octal(&mut hdr, ck, 6);
    hdr.push(0u8);
    hdr.push(32u8);
    let mut tail = copy_range(&pre, 156, 512);
    hdr.append(&mut tail);
    assert(hdr@ =~= header_bytes(name@, size as int, mtime as int));
    hdr
}

/// Build the trimmed single-entry tar fragment holding `data` under `name`,
/// its modification time pinned to `mtime`.
pub fn build_fragment(name: &Vec<u8>, data: &Vec<u8>, mtime: u64) -> (r: Result<Vec<u8>, Error>)
    ensures
        r is Ok <==> valid_entry_name(name@) && fits_octal11(data@.len() as int) && fits_octal11(
            mtime as int,
        ),
        r matches Ok(f) ==> f@ == fragment_bytes(name@, data@, mtime as int),
        !valid_entry_name(name@) ==> r == Err::<Vec<u8>, Error>(Error::Path(Op::EntryName)),
        valid_entry_name(name@) && !fits_octal11(data@.len() as int) ==> r == Err::<
            Vec<u8>,
            Error,
        >(Error::Format(Op::Signature)),
        valid_entry_name(name@) && fits_octal11(data@.len() as int) && !fits_octal11(mtime as int)
            ==> r == Err::<Vec<u8>, Error>(Error::Format(Op::Timestamp)),
{
    proof {
        lemma_pow8_values();
    }
    if !check_name(name) {
        return Err(Error::Path(Op::EntryName));
    }
    if data.len() as u64 >= 0x200000000u64 {
        return Err(Error::Format(Op::Signature));
    }
    if mtime >= 0x200000000u64 {
        return Err(Error::Format(Op::Timestamp));
    }
    let size = data.len() as u64;
    let mut f = build_header(name, size, mtime);
    let mut content = copy_range(data, 0, data.len());
    f.append(&mut content);
    let pad = round_up_512_exec(size);
    push_zeros(&mut f, (pad - size) as usize);
    assert(data@.subrange(0, data@.len() as int) =~= data@);
    assert(f@ =~= fragment_bytes(name@, data@, mtime as int));
    Ok(f)
}

/// Scanning the trimmed fragment built for one signature yields exactly that
/// signature back: name, content and pinned modification time.
#[verifier::rlimit(100)]
pub proof fn lemma_parse_fragment(name: Seq<u8>, data: Seq<u8>, mtime: int)
    requires
        valid_entry_name(name),
        fits_octal11(data.len() as int),
        fits_octal11(mtime),
    ensures
        parse_entries(fragment_bytes(name, data, mtime)) == Some(
            seq![EntryModel { name, data, mtime }],
        ),
{
    let size = data.len() as int;
    let pre = header_pre(name, size, mtime);
    let hd = header_bytes(name, size, mtime);
    let f = fragment_bytes(name, data, mtime);
    lemma_pow8_values();
    assert(pre.len() == 512);
    assert(hd.len() == 512);
    lemma_fundamental_div_mod(size + 511, 512);
    let padlen = round_up_512(size) - size;
    assert(0 <= padlen < 512);
    assert(f.len() == 512 + round_up_512(size));
    assert(f.take(512) =~= hd);
    // not a zero block: the magic byte is set
    assert(pre[257] == 117u8);
    assert(hd[257] == pre[257]);
    assert(!block_is_zero(f.take(512))) by {
        assert(f.take(512)[257] == 117u8);
    }
    // size and mtime fields parse back to their values
    assert(hd.subrange(124, 136) =~= octal_seq(size, 11) + seq![32u8]);
    assert(hd.subrange(136, 148) =~= octal_seq(mtime, 11) + seq![32u8]);
    lemma_parse_octal_filled(size, 11, seq![32u8]);
    lemma_parse_octal_filled(mtime, 11, seq![32u8]);
    assert(parse_octal_field(hd.subrange(124, 136)) == Some(size));
    assert(parse_octal_field(hd.subrange(136, 148)) == Some(mtime));
    // the stored checksum matches the one a reader computes
    let ck = sum_bytes(pre);
    lemma_sum_bytes_bounds(pre);
    assert(hd.subrange(148, 156) =~= octal_seq(ck, 6) + seq![0u8, 32u8]);
    lemma_parse_octal_filled(ck, 6, seq![0u8, 32u8]);
    assert(parse_octal_field(hd.subrange(148, 156)) == Some(ck));
    assert(hd.take(148) =~= pre.take(148));
    assert(hd.skip(156) =~= pre.skip(156));
    assert(pre =~= pre.take(148) + pre.subrange(148, 156) + pre.skip(156));
    lemma_sum_bytes_add(pre.take(148) + pre.subrange(148, 156), pre.skip(156));
    lemma_sum_bytes_add(pre.take(148), pre.subrange(148, 156));
    assert(pre.subrange(148, 156) =~= Seq::new(8, |i: int| 32u8));
    lemma_sum_bytes_spaces(8);
    assert(checksum_of(hd) == ck);
    assert(checksum_ok(hd));
    assert(checksum_ok(f.take(512)));
    // the name comes back out of the name field
    let nm = hd.take(100);
    lemma_until_nul_props(nm);
    assert forall|i: int| 0 <= i < name.len() implies #[trigger] nm[i] != 0u8 by {
        assert(nm[i] == name[i]);
    }
    if name.len() < 100 {
        assert(nm[name.len() as int] == 0u8);
    }
    assert(until_nul(nm) == name.len());
    assert(hd.subrange(0, name.len() as int) =~= name);
    // the content comes back out of the data blocks
    assert(f.subrange(512, 512 + size) =~= data);
    // nothing follows the padded content
    assert(f.skip(512 + round_up_512(size)) =~= Seq::<u8>::empty());
    assert(parse_entries(f.skip(512 + round_up_512(size))) == Some(Seq::<EntryModel>::empty()));
    let e = EntryModel { name: hd.subrange(0, until_nul(hd.take(100))), data: f.subrange(512, 512 + size), mtime: mtime };
    assert(parse_entries(f) == Some(seq![e] + Seq::<EntryModel>::empty()));
    assert(e =~= EntryModel { name, data, mtime });
    assert(seq![e] + Seq::<EntryModel>::empty() =~= seq![EntryModel { name, data, mtime }]);
}

} // verus!
