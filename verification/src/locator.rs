//! The signature locator: resolves each source kind to the signature's
//! original entry name and raw bytes. All three sources converge on the same
//! shape so the signer is source-agnostic.

use vstd::prelude::*;
use crate::archive::{EntryModel, models_of, parse_entries, tar_entries};
use crate::args::SubCommand;
use crate::bytes::{starts_with, copy_range, bytes_eq};
use crate::errors::{Error, Op};
use crate::gzip::{gunzip_first, gzip_decompress_first};
use crate::utf8::{is_utf8, is_utf8_exec};

verus! {

/// A located signature: its original entry name and its raw bytes.
#[derive(Debug, PartialEq, Eq)]
pub struct SignatureEntry {
    pub name: Vec<u8>,
    pub content: Vec<u8>,
}

/// The marker prefix that names a signature entry inside an index.
pub open spec fn sign_marker() -> Seq<u8> {
    seq![46u8, 83u8, 73u8, 71u8, 78u8, 46u8]  // ".SIGN."
}

/// "./apks/"
pub open spec fn needle_prefix() -> Seq<u8> {
    seq![46u8, 47u8, 97u8, 112u8, 107u8, 115u8, 47u8]
}

/// "/APKINDEX.tar.gz"
pub open spec fn needle_suffix() -> Seq<u8> {
    seq![
        47u8,
        65u8,
        80u8,
        75u8,
        73u8,
        78u8,
        68u8,
        69u8,
        88u8,
        46u8,
        116u8,
        97u8,
        114u8,
        46u8,
        103u8,
        122u8,
    ]
}

/// The exact entry path of the nested index for `arch`.
pub open spec fn needle(arch: Seq<u8>) -> Seq<u8> {
    needle_prefix() + arch + needle_suffix()
}

/// A name the index scan accepts: the path is matched as text, so it must
/// be valid UTF-8, and it must begin with the signature marker. A name that
/// is not valid UTF-8 matches nothing and is skipped.
pub open spec fn is_sign_entry_name(name: Seq<u8>) -> bool {
    is_utf8(name) && starts_with(name, sign_marker())
}

/// The first entry whose name the index scan accepts.
pub open spec fn find_sign(es: Seq<EntryModel>) -> Option<EntryModel>
    decreases es.len(),
{
    if es.len() == 0 {
        None
    } else if is_sign_entry_name(es[0].name) {
        Some(es[0])
    } else {
        find_sign(es.skip(1))
    }
}

/// The first entry whose name equals `want` exactly.
pub open spec fn find_name(es: Seq<EntryModel>, want: Seq<u8>) -> Option<EntryModel>
    decreases es.len(),
{
    if es.len() == 0 {
        None
    } else if es[0].name == want {
        Some(es[0])
    } else {
        find_name(es.skip(1), want)
    }
}

/// What scanning a signed index comes to: decompress one gzip member, list
/// the tar entries, return the first marker-named one.
pub open spec fn locate_index_outcome(data: Seq<u8>) -> Result<EntryModel, Error> {
    match gunzip_first(data) {
        None => Err(Error::Format(Op::Index)),
        Some(m) => match parse_entries(m) {
            None => Err(Error::Format(Op::Index)),
            Some(es) => match find_sign(es) {
                None => Err(Error::NotFound(Op::Signature)),
                Some(e) => Ok(e),
            },
        },
    }
}

/// What scanning an image comes to: find the entry whose path equals the
/// needle exactly, then scan it as an index.
pub open spec fn locate_image_outcome(data: Seq<u8>, arch: Seq<u8>) -> Result<EntryModel, Error> {
    match gunzip_first(data) {
        None => Err(Error::Format(Op::Image)),
        Some(m) => match parse_entries(m) {
            None => Err(Error::Format(Op::Image)),
            Some(es) => match find_name(es, needle(arch)) {
                None => Err(Error::NotFound(Op::Index)),
                Some(e) => locate_index_outcome(e.data),
            },
        },
    }
}

/// `r` carries exactly the entry of `o`, or its error.
pub open spec fn entry_result_matches(
    r: Result<SignatureEntry, Error>,
    o: Result<EntryModel, Error>,
) -> bool {
    match o {
        Ok(e) => r matches Ok(s) && s.name@ == e.name && s.content@ == e.data,
        Err(er) => r == Err::<SignatureEntry, Error>(er),
    }
}

/// Index of the first accepted entry (`es.len()` where none is accepted).
pub open spec fn first_sign_index(es: Seq<EntryModel>) -> int
    decreases es.len(),
{
    if es.len() == 0 {
        0
    } else if is_sign_entry_name(es[0].name) {
        0
    } else {
        1 + first_sign_index(es.skip(1))
    }
}

/// The entry the index scan picks is the first, in stream order, whose name
/// it accepts (valid UTF-8, marker prefix), even when several qualify;
/// where none qualifies, the scan finds nothing.
pub proof fn lemma_find_sign_first(es: Seq<EntryModel>)
    ensures
        match find_sign(es) {
            Some(e) => {
                &&& 0 <= first_sign_index(es) < es.len()
                &&& es[first_sign_index(es)] == e
                &&& is_sign_entry_name(e.name)
                &&& forall|j: int|
                    0 <= j < first_sign_index(es) ==> !is_sign_entry_name(#[trigger] es[j].name)
            },
            None => forall|i: int|
                0 <= i < es.len() ==> !is_sign_entry_name(#[trigger] es[i].name),
        },
    decreases es.len(),
{
    if es.len() > 0 && !is_sign_entry_name(es[0].name) {
        lemma_find_sign_first(es.skip(1));
        match find_sign(es.skip(1)) {
            Some(e) => {
                let i = first_sign_index(es.skip(1));
                assert(es.skip(1)[i] == es[i + 1]);
                assert forall|j: int| 0 <= j < first_sign_index(es) implies !is_sign_entry_name(
                    #[trigger] es[j].name,
                ) by {
                    if j > 0 {
                        assert(es.skip(1)[j - 1] == es[j]);
                    }
                }
            },
            None => {
                assert forall|i: int| 0 <= i < es.len() implies !is_sign_entry_name(
                    #[trigger] es[i].name,
                ) by {
                    if i > 0 {
                        assert(es.skip(1)[i - 1] == es[i]);
                    }
                }
            },
        }
    }
}

/// The image scan comes up empty exactly when no entry path equals the
/// wanted path.
pub proof fn lemma_find_name_none(es: Seq<EntryModel>, want: Seq<u8>)
    ensures
        find_name(es, want) is None <==> (forall|i: int|
            0 <= i < es.len() ==> #[trigger] es[i].name != want),
    decreases es.len(),
{
    if es.len() == 0 {
    } else if es[0].name == want {
        assert(es[0].name == want);
    } else {
        lemma_find_name_none(es.skip(1), want);
        if find_name(es.skip(1), want) is None {
            assert forall|i: int| 0 <= i < es.len() implies #[trigger] es[i].name != want by {
                if i > 0 {
                    assert(es.skip(1)[i - 1] == es[i]);
                }
            }
        } else {
            let i = choose|i: int|
                0 <= i < es.skip(1).len() && #[trigger] es.skip(1)[i].name == want;
            assert(es[i + 1].name == want);
        }
    }
}

fn is_sign_name(name: &Vec<u8>) -> (r: bool)
    ensures
        r == is_sign_entry_name(name@),
{
    if name.len() < 6 {
        return false;
    }
    let p = name[0] == 46 && name[1] == 83 && name[2] == 73 && name[3] == 71 && name[4] == 78
        && name[5] == 46;
    proof {
        if starts_with(name@, sign_marker()) {
            assert forall|k: int| 0 <= k < 6 implies name@[k] == sign_marker()[k] by {
                assert(name@.take(6)[k] == name@[k]);
            }
        }
        if p {
            assert(name@.take(6) =~= sign_marker());
        }
    }
    if !p {
        return false;
    }
    is_utf8_exec(name)
}

fn build_needle(arch: &Vec<u8>) -> (r: Vec<u8>)
    ensures
        r@ == needle(arch@),
{
    let mut r: Vec<u8> = Vec::new();
    r.push(46u8);
    r.push(47u8);
    r.push(97u8);
    r.push(112u8);
    r.push(107u8);
    r.push(115u8);
    r.push(47u8);
    assert(r@ =~= needle_prefix());
    let mut i: usize = 0;
    while i < arch.len()
        invariant
            i <= arch@.len(),
            r@ == needle_prefix() + arch@.take(i as int),
        decreases arch@.len() - i,
    {
        r.push(arch[i]);
        i = i + 1;
        assert(r@ =~= needle_prefix() + arch@.take(i as int));
    }
    assert(r@ =~= needle_prefix() + arch@);
    r.push(47u8);
    r.push(65u8);
    r.push(80u8);
    r.push(75u8);
    r.push(73u8);
    r.push(78u8);
    r.push(68u8);
    r.push(69u8);
    r.push(88u8);
    r.push(46u8);
    r.push(116u8);
    r.push(97u8);
    r.push(114u8);
    r.push(46u8);
    r.push(103u8);
    r.push(122u8);
    assert(r@ =~= needle(arch@));
    r
}

/// Scan a signed index (gzip bytes) for its first marker-named entry.
#[verifier::loop_isolation(false)]
pub fn locate_in_index(data: &Vec<u8>) -> (r: Result<SignatureEntry, Error>)
    ensures
        entry_result_matches(r, locate_index_outcome(data@)),
{
    let m = match gzip_decompress_first(data) {
        None => {
            return Err(Error::Format(Op::Index));
        },
        Some(m) => m,
    };
    let mut entries = match tar_entries(&m, Op::Index) {
        Err(e) => {
            return Err(e);
        },
        Ok(v) => v,
    };
    let ghost ms = models_of(entries@);
    proof {
        assert(ms.skip(0) =~= ms);
    }
    let mut i: usize = 0;
    while i < entries.len()
        invariant
            i <= entries@.len(),
            ms == models_of(entries@),
            ms.len() == entries@.len(),
            find_sign(ms) == find_sign(ms.skip(i as int)),
        decreases entries@.len() - i,
    {
        proof {
            assert(ms[i as int] == entries@[i as int].model());
            assert(ms.skip(i as int)[0] == ms[i as int]);
        }
        if is_sign_name(&entries[i].name) {
            proof {
                assert(find_sign(ms.skip(i as int)) == Some(ms[i as int]));
            }
            let e = entries.remove(i);
            return Ok(SignatureEntry { name: e.name, content: e.data });
        }
        proof {
            assert(ms.skip(i as int).skip(1) =~= ms.skip(i as int + 1));
        }
        i = i + 1;
    }
    proof {
        assert(ms.skip(entries@.len() as int) =~= Seq::<EntryModel>::empty());
    }
    Err(Error::NotFound(Op::Signature))
}

/// Scan a compressed image for the nested index of `arch`, then scan that
/// index for its signature.
#[verifier::loop_isolation(false)]
pub fn locate_in_image(data: &Vec<u8>, arch: &Vec<u8>) -> (r: Result<SignatureEntry, Error>)
    ensures
        entry_result_matches(r, locate_image_outcome(data@, arch@)),
{
    let m = match gzip_decompress_first(data) {
        None => {
            return Err(Error::Format(Op::Image));
        },
        Some(m) => m,
    };
    let mut entries = match tar_entries(&m, Op::Image) {
        Err(e) => {
            return Err(e);
        },
        Ok(v) => v,
    };
    let want = build_needle(arch);
    let ghost ms = models_of(entries@);
    proof {
        assert(ms.skip(0) =~= ms);
    }
    let mut i: usize = 0;
    while i < entries.len()
        invariant
            i <= entries@.len(),
            ms == models_of(entries@),
            ms.len() == entries@.len(),
            want@ == needle(arch@),
            find_name(ms, needle(arch@)) == find_name(ms.skip(i as int), needle(arch@)),
        decreases entries@.len() - i,
    {
        proof {
            assert(ms[i as int] == entries@[i as int].model());
            assert(ms.skip(i as int)[0] == ms[i as int]);
        }
        if bytes_eq(&entries[i].name, &want) {
            proof {
                assert(find_name(ms.skip(i as int), needle(arch@)) == Some(ms[i as int]));
            }
            let e = entries.remove(i);
            return locate_in_index(&e.data);
        }
        proof {
            assert(ms.skip(i as int).skip(1) =~= ms.skip(i as int + 1));
        }
        i = i + 1;
    }
    proof {
        assert(ms.skip(entries@.len() as int) =~= Seq::<EntryModel>::empty());
    }
    Err(Error::NotFound(Op::Index))
}

/// `s` with its trailing slashes removed.
pub open spec fn strip_trailing_slashes(s: Seq<u8>) -> Seq<u8>
    decreases s.len(),
{
    if s.len() > 0 && s.last() == 47u8 {
        strip_trailing_slashes(s.drop_last())
    } else {
        s
    }
}

/// The bytes of `s` after its last slash.
pub open spec fn tail_after_slash(s: Seq<u8>) -> Seq<u8>
    decreases s.len(),
{
    if s.len() == 0 {
        Seq::<u8>::empty()
    } else if s.last() == 47u8 {
        Seq::<u8>::empty()
    } else {
        tail_after_slash(s.drop_last()) + seq![s.last()]
    }
}

/// The base name of a path: its last segment, trailing slashes ignored;
/// none where the segment is empty, `.` or `..`.
pub open spec fn base_name_spec(s: Seq<u8>) -> Option<Seq<u8>> {
    let seg = tail_after_slash(strip_trailing_slashes(s));
    if seg.len() == 0 || seg == seq![46u8] || seg == seq![46u8, 46u8] {
        None
    } else {
        Some(seg)
    }
}

/// Derive the base name of `path`.
pub fn base_name(path: &Vec<u8>) -> (r: Option<Vec<u8>>)
    ensures
        match base_name_spec(path@) {
            Some(n) => r matches Some(v) && v@ == n,
            None => r is None,
        },
{
    let n = path.len();
    let mut e: usize = n;
    proof {
        assert(path@.take(n as int) =~= path@);
    }
    while e > 0 && path[e - 1] == 47
        invariant
            e <= n,
            n == path@.len(),
            strip_trailing_slashes(path@) == strip_trailing_slashes(path@.take(e as int)),
        decreases e,
    {
        proof {
            assert(path@.take(e as int).last() == path@[e - 1]);
            assert(path@.take(e as int).drop_last() =~= path@.take(e as int - 1));
        }
        e = e - 1;
    }
    proof {
        if e > 0 {
            assert(path@.take(e as int).last() == path@[e - 1]);
        }
        assert(strip_trailing_slashes(path@) == path@.take(e as int));
    }
    let ghost t = path@.take(e as int);
    let mut b: usize = e;
    proof {
        assert(path@.subrange(e as int, e as int) =~= Seq::<u8>::empty());
        assert(tail_after_slash(t) + Seq::<u8>::empty() =~= tail_after_slash(t));
        assert(tail_after_slash(t) == tail_after_slash(path@.take(e as int)) + path@.subrange(
            e as int,
            e as int,
        ));
    }
    while b > 0 && path[b - 1] != 47
        invariant
            b <= e <= n,
            n == path@.len(),
            t == path@.take(e as int),
            tail_after_slash(t) == tail_after_slash(path@.take(b as int)) + path@.subrange(
                b as int,
                e as int,
            ),
        decreases b,
    {
        proof {
            assert(path@.take(b as int).last() == path@[b - 1]);
            assert(path@.take(b as int).drop_last() =~= path@.take(b as int - 1));
            assert(tail_after_slash(path@.take(b as int)) == tail_after_slash(
                path@.take(b as int - 1),
            ) + seq![path@[b - 1]]);
            assert(tail_after_slash(path@.take(b as int - 1)) + path@.subrange(
                b as int - 1,
                e as int,
            ) =~= (tail_after_slash(path@.take(b as int - 1)) + seq![path@[b - 1]])
                + path@.subrange(b as int, e as int));
        }
        b = b - 1;
    }
    proof {
        if b > 0 {
            assert(path@.take(b as int).last() == path@[b - 1]);
            assert(tail_after_slash(path@.take(b as int)) =~= Seq::<u8>::empty());
        } else {
            assert(path@.take(0) =~= Seq::<u8>::empty());
        }
        assert(Seq::<u8>::empty() + path@.subrange(b as int, e as int) =~= path@.subrange(
            b as int,
            e as int,
        ));
        assert(tail_after_slash(t) == path@.subrange(b as int, e as int));
    }
    let ghost seg = path@.subrange(b as int, e as int);
    if e == b {
        return None;
    }
    if e - b == 1 && path[b] == 46 {
        proof {
            assert(seg =~= seq![46u8]);
        }
        return None;
    }
    if e - b == 2 && path[b] == 46 && path[b + 1] == 46 {
        proof {
            assert(seg =~= seq![46u8, 46u8]);
        }
        return None;
    }
    proof {
        assert(seg[0] == path@[b as int]);
        if seg == seq![46u8] {
            assert(seg.len() == 1 && seg[0] == 46u8);
        }
        if seg == seq![46u8, 46u8] {
            assert(seg.len() == 2 && seg[0] == 46u8 && seg[1] == 46u8);
            assert(seg[1] == path@[b as int + 1]);
        }
    }
    Some(copy_range(path, b, e))
}

/// Pair the raw bytes of a signature file with the file's base name.
pub fn signature_from_file(path: &Vec<u8>, content: Vec<u8>) -> (r: Result<SignatureEntry, Error>)
    ensures
        match base_name_spec(path@) {
            None => r == Err::<SignatureEntry, Error>(Error::Path(Op::FileName)),
            Some(nm) => r matches Ok(s) && s.name@ == nm && s.content@ == content@,
        },
{
    match base_name(path) {
        None => Err(Error::Path(Op::FileName)),
        Some(nm) => Ok(SignatureEntry { name: nm, content }),
    }
}

/// Resolve a source descriptor to its signature entry; `data` holds the raw
/// bytes read from the descriptor's path.
pub fn locate_signature(cmd: &SubCommand, data: Vec<u8>) -> (r: Result<SignatureEntry, Error>)
    ensures
        match *cmd {
            SubCommand::FromImage { path: _, arch } => entry_result_matches(
                r,
                locate_image_outcome(data@, arch@),
            ),
            SubCommand::FromIndex { path: _ } => entry_result_matches(
                r,
                locate_index_outcome(data@),
            ),
            SubCommand::FromFile { path } => match base_name_spec(path@) {
                None => r == Err::<SignatureEntry, Error>(Error::Path(Op::FileName)),
                Some(nm) => r matches Ok(s) && s.name@ == nm && s.content@ == data@,
            },
        },
{
    match cmd {
        SubCommand::FromImage { path: _, arch } => locate_in_image(&data, arch),
        SubCommand::FromIndex { path: _ } => locate_in_index(&data),
        SubCommand::FromFile { path } => signature_from_file(path, data),
    }
}

} // verus!
