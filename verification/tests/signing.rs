use abuild_reusesig::args::SubCommand;
use abuild_reusesig::archive::tar_entries;
use abuild_reusesig::errors::{Error, Op};
use abuild_reusesig::locator::{
    locate_in_image, locate_in_index, locate_signature, base_name, signature_from_file,
};
use abuild_reusesig::signer::{build_signed_index, parse_source_date_epoch, resolve_mtime};
use std::io::{Read, Write};

/// gzip-compress with libflate, one member.
fn gz(data: &[u8]) -> Vec<u8> {
    let mut enc = libflate::gzip::Encoder::new(Vec::new()).unwrap();
    enc.write_all(data).unwrap();
    enc.finish().into_result().unwrap()
}

/// Decompress the first gzip member of `data`.
fn gunzip_first_member(data: &[u8]) -> Vec<u8> {
    let mut dec = libflate::gzip::Decoder::new(data).unwrap();
    let mut out = Vec::new();
    dec.read_to_end(&mut out).unwrap();
    out
}

/// A full tar archive (with trailer) holding the given entries, with raw
/// names written verbatim so a leading `./` survives.
fn tar_of(entries: &[(&[u8], &[u8])]) -> Vec<u8> {
    let mut b = tar::Builder::new(Vec::new());
    for (name, data) in entries {
        let mut h = tar::Header::new_ustar();
        h.set_size(data.len() as u64);
        h.set_mode(0o644);
        h.set_mtime(1234);
        h.as_old_mut().name[..name.len()].copy_from_slice(name);
        h.set_cksum();
        b.append(&h, *data).unwrap();
    }
    b.into_inner().unwrap()
}

/// Entries of a possibly trimmed tar stream, read back by the tar crate.
fn tar_crate_entries(stream: &[u8]) -> Vec<(String, Vec<u8>, u64)> {
    let mut padded = stream.to_vec();
    padded.extend_from_slice(&[0u8; 1024]);
    let mut a = tar::Archive::new(&padded[..]);
    let mut out = Vec::new();
    for e in a.entries().unwrap() {
        let mut e = e.unwrap();
        let name = e.path().unwrap().to_string_lossy().into_owned();
        let mtime = e.header().mtime().unwrap();
        let mut buf = Vec::new();
        e.read_to_end(&mut buf).unwrap();
        out.push((name, buf, mtime));
    }
    out
}

#[test]
fn locate_in_index_returns_first_sign_entry() {
    let t = tar_of(&[
        (b".SIGN.RSA.key1.pub", b"FIRST-SIG"),
        (b".SIGN.RSA.key2.pub", b"SECOND-SIG"),
        (b"APKINDEX", b"index body"),
    ]);
    let s = locate_in_index(&gz(&t)).unwrap();
    assert_eq!(s.name, b".SIGN.RSA.key1.pub".to_vec());
    assert_eq!(s.content, b"FIRST-SIG".to_vec());
}

#[test]
fn locate_in_index_skips_unmarked_entries() {
    let t = tar_of(&[
        (b"APKINDEX", b"index body"),
        (b".SIGN.RSA.key.pub", b"THE-SIG"),
    ]);
    let s = locate_in_index(&gz(&t)).unwrap();
    assert_eq!(s.name, b".SIGN.RSA.key.pub".to_vec());
    assert_eq!(s.content, b"THE-SIG".to_vec());
}

#[test]
fn locate_in_index_without_signature_is_not_found() {
    let t = tar_of(&[(b"APKINDEX", b"index body")]);
    assert_eq!(locate_in_index(&gz(&t)), Err(Error::NotFound(Op::Signature)));
}

#[test]
fn locate_in_index_rejects_bad_gzip() {
    assert_eq!(
        locate_in_index(&b"not gzip at all".to_vec()),
        Err(Error::Format(Op::Index))
    );
}

#[test]
fn locate_in_index_rejects_truncated_tar() {
    let bad = gz(&[1u8; 100]);
    assert_eq!(locate_in_index(&bad), Err(Error::Format(Op::Index)));
}

#[test]
fn locate_in_image_finds_nested_index() {
    let inner = gz(&tar_of(&[(b".SIGN.RSA.alpine.pub", b"IMAGE-SIG")]));
    let outer = tar_of(&[
        (b"./etc/motd", b"hello"),
        (b"./apks/x86_64/APKINDEX.tar.gz", &inner),
    ]);
    let s = locate_in_image(&gz(&outer), &b"x86_64".to_vec()).unwrap();
    assert_eq!(s.name, b".SIGN.RSA.alpine.pub".to_vec());
    assert_eq!(s.content, b"IMAGE-SIG".to_vec());
}

#[test]
fn locate_in_image_wrong_arch_is_not_found() {
    let inner = gz(&tar_of(&[(b".SIGN.RSA.alpine.pub", b"IMAGE-SIG")]));
    let outer = tar_of(&[(b"./apks/aarch64/APKINDEX.tar.gz", &inner)]);
    assert_eq!(
        locate_in_image(&gz(&outer), &b"x86_64".to_vec()),
        Err(Error::NotFound(Op::Index))
    );
}

#[test]
fn locate_in_image_needs_exact_path() {
    // no "./" prefix: not the path the locator searches for
    let inner = gz(&tar_of(&[(b".SIGN.RSA.alpine.pub", b"IMAGE-SIG")]));
    let outer = tar_of(&[(b"apks/x86_64/APKINDEX.tar.gz", &inner)]);
    assert_eq!(
        locate_in_image(&gz(&outer), &b"x86_64".to_vec()),
        Err(Error::NotFound(Op::Index))
    );
}

#[test]
fn locate_signature_dispatches_all_three_sources() {
    let inner = gz(&tar_of(&[(b".SIGN.RSA.k.pub", b"SIG-BYTES")]));

    let outer = tar_of(&[(b"./apks/x86_64/APKINDEX.tar.gz", &inner)]);
    let from_image = SubCommand::FromImage {
        path: b"image.tar.gz".to_vec(),
        arch: b"x86_64".to_vec(),
    };
    let s = locate_signature(&from_image, gz(&outer)).unwrap();
    assert_eq!(s.name, b".SIGN.RSA.k.pub".to_vec());
    assert_eq!(s.content, b"SIG-BYTES".to_vec());

    let from_index = SubCommand::FromIndex { path: b"APKINDEX.tar.gz".to_vec() };
    let s = locate_signature(&from_index, inner.clone()).unwrap();
    assert_eq!(s.name, b".SIGN.RSA.k.pub".to_vec());
    assert_eq!(s.content, b"SIG-BYTES".to_vec());

    let from_file = SubCommand::FromFile { path: b"./keys/.SIGN.RSA.k.pub".to_vec() };
    let s = locate_signature(&from_file, b"SIG-BYTES".to_vec()).unwrap();
    assert_eq!(s.name, b".SIGN.RSA.k.pub".to_vec());
    assert_eq!(s.content, b"SIG-BYTES".to_vec());
}

#[test]
fn base_name_takes_the_last_segment() {
    assert_eq!(base_name(&b"./mysig".to_vec()), Some(b"mysig".to_vec()));
    assert_eq!(base_name(&b"a/b/c".to_vec()), Some(b"c".to_vec()));
    assert_eq!(base_name(&b"abc/".to_vec()), Some(b"abc".to_vec()));
    assert_eq!(base_name(&b"plain".to_vec()), Some(b"plain".to_vec()));
    assert_eq!(base_name(&b"".to_vec()), None);
    assert_eq!(base_name(&b"/".to_vec()), None);
    assert_eq!(base_name(&b".".to_vec()), None);
    assert_eq!(base_name(&b"a/..".to_vec()), None);
}

#[test]
fn signature_from_file_without_base_name_is_a_path_error() {
    assert_eq!(
        signature_from_file(&b"/".to_vec(), b"x".to_vec()),
        Err(Error::Path(Op::FileName))
    );
}

#[test]
fn from_file_scenario_builds_the_documented_artifact() {
    // from-file ./mysig with known bytes, spliced onto a known index
    let cmd = SubCommand::FromFile { path: b"./mysig".to_vec() };
    let s = locate_signature(&cmd, b"SIGNATURE-BYTES".to_vec()).unwrap();
    assert_eq!(s.name, b"mysig".to_vec());

    let index = b"INDEXDATA".to_vec();
    let out = build_signed_index(&s.name, &s.content, 1234, &index).unwrap();

    // ... followed immediately by the literal index bytes
    assert!(out.ends_with(b"INDEXDATA"));
    let prefix = &out[..out.len() - index.len()];

    // ... and beginning with a valid gzip member whose sole entry is the
    // signature under its name
    assert_eq!(&prefix[..2], &[0x1f, 0x8b]);
    let frag = gunzip_first_member(prefix);
    let entries = tar_crate_entries(&frag);
    assert_eq!(entries.len(), 1);
    assert_eq!(entries[0].0, "mysig");
    assert_eq!(entries[0].1, b"SIGNATURE-BYTES".to_vec());
}

#[test]
fn signed_index_pins_mtime_from_source_date_epoch() {
    let sde = parse_source_date_epoch(&b"1700000000".to_vec());
    assert_eq!(sde, Some(1700000000));
    let mtime = resolve_mtime(sde, 42).unwrap();
    assert_eq!(mtime, 1700000000);

    let out = build_signed_index(
        &b".SIGN.RSA.k.pub".to_vec(),
        &b"SIG".to_vec(),
        mtime,
        &b"rest".to_vec(),
    )
    .unwrap();
    let frag = gunzip_first_member(&out);
    let entries = tar_crate_entries(&frag);
    assert_eq!(entries.len(), 1);
    assert_eq!(entries[0].2, 1700000000);
}

#[test]
fn unset_epoch_leaves_the_clock_value() {
    assert_eq!(resolve_mtime(None, 987654), Ok(987654));
}

#[test]
fn unrepresentable_epoch_is_an_explicit_error() {
    // the header field cannot hold these: an error, not silent unpinning
    assert_eq!(resolve_mtime(Some(-1), 77), Err(Error::Format(Op::Timestamp)));
    assert_eq!(
        resolve_mtime(Some(0x200000000), 77),
        Err(Error::Format(Op::Timestamp))
    );
}

#[test]
fn extract_then_resign_reproduces_the_prefix() {
    let index_raw = b"the unsigned index bytes".to_vec();
    let name = b".SIGN.RSA.alpine-devel.rsa.pub".to_vec();
    let sig = b"binary signature material".to_vec();
    let first = build_signed_index(&name, &sig, 1700000000, &index_raw).unwrap();

    let found = locate_in_index(&first).unwrap();
    assert_eq!(found.name, name);
    assert_eq!(found.content, sig);

    let second = build_signed_index(&found.name, &found.content, 1700000000, &index_raw).unwrap();
    assert_eq!(first, second);
}

#[test]
fn signer_checks_the_entry_name() {
    let idx = b"idx".to_vec();
    assert_eq!(
        build_signed_index(&b"".to_vec(), &b"s".to_vec(), 0, &idx),
        Err(Error::Path(Op::EntryName))
    );
    assert_eq!(
        build_signed_index(&vec![46u8, 0u8, 65u8], &b"s".to_vec(), 0, &idx),
        Err(Error::Path(Op::EntryName))
    );
    let long = vec![97u8; 101];
    assert_eq!(
        build_signed_index(&long, &b"s".to_vec(), 0, &idx),
        Err(Error::Path(Op::EntryName))
    );
}

#[test]
fn signer_checks_the_field_ranges() {
    let idx = b"idx".to_vec();
    assert_eq!(
        build_signed_index(&b"name".to_vec(), &b"s".to_vec(), 0x200000000, &idx),
        Err(Error::Format(Op::Timestamp))
    );
}

#[test]
fn fragment_scans_back_with_the_library_scanner() {
    let name = b".SIGN.RSA.k.pub".to_vec();
    let sig = b"PAYLOAD".to_vec();
    let out = build_signed_index(&name, &sig, 1234, &b"tail".to_vec()).unwrap();
    let frag = gunzip_first_member(&out);
    // the compressor really compressed: the member is not the fragment itself
    assert_ne!(frag, out[..out.len() - 4].to_vec());
    let entries = tar_entries(&frag, Op::Index).unwrap();
    assert_eq!(entries.len(), 1);
    assert_eq!(entries[0].name, name);
    assert_eq!(entries[0].data, sig);
    assert_eq!(entries[0].mtime, 1234);
}

#[test]
fn library_scanner_reads_tar_crate_output() {
    let t = tar_of(&[(b"hello.txt", b"hello world"), (b"other", b"zz")]);
    let entries = tar_entries(&t, Op::Index).unwrap();
    assert_eq!(entries.len(), 2);
    assert_eq!(entries[0].name, b"hello.txt".to_vec());
    assert_eq!(entries[0].data, b"hello world".to_vec());
    assert_eq!(entries[0].mtime, 1234);
    assert_eq!(entries[1].name, b"other".to_vec());
    assert_eq!(entries[1].data, b"zz".to_vec());
}

#[test]
fn source_date_epoch_parses_like_a_signed_integer() {
    assert_eq!(parse_source_date_epoch(&b"0".to_vec()), Some(0));
    assert_eq!(parse_source_date_epoch(&b"+7".to_vec()), Some(7));
    assert_eq!(parse_source_date_epoch(&b"-5".to_vec()), Some(-5));
    assert_eq!(parse_source_date_epoch(&b"".to_vec()), None);
    assert_eq!(parse_source_date_epoch(&b"-".to_vec()), None);
    assert_eq!(parse_source_date_epoch(&b"12a".to_vec()), None);
    assert_eq!(parse_source_date_epoch(&b" 12".to_vec()), None);
    assert_eq!(
        parse_source_date_epoch(&b"9223372036854775807".to_vec()),
        Some(i64::MAX)
    );
    assert_eq!(
        parse_source_date_epoch(&b"-9223372036854775808".to_vec()),
        Some(i64::MIN)
    );
    assert_eq!(parse_source_date_epoch(&b"9223372036854775808".to_vec()), None);
    assert_eq!(
        parse_source_date_epoch(&b"99999999999999999999999".to_vec()),
        None
    );
}

#[test]
fn non_utf8_sign_names_are_skipped() {
    // the path is matched as text: a name that is not valid UTF-8 matches
    // nothing, so the later well-formed entry wins
    let t = tar_of(&[
        (b".SIGN.\xffbroken", b"BAD"),
        (b".SIGN.RSA.good.pub", b"GOOD"),
    ]);
    let s = locate_in_index(&gz(&t)).unwrap();
    assert_eq!(s.name, b".SIGN.RSA.good.pub".to_vec());
    assert_eq!(s.content, b"GOOD".to_vec());
}

#[test]
fn only_non_utf8_sign_names_is_not_found() {
    let t = tar_of(&[(b".SIGN.\xffbroken", b"BAD"), (b"APKINDEX", b"idx")]);
    assert_eq!(locate_in_index(&gz(&t)), Err(Error::NotFound(Op::Signature)));
}

#[test]
fn corrupted_header_checksum_is_a_format_error() {
    let mut t = tar_of(&[(b".SIGN.RSA.k.pub", b"SIG")]);
    // flip one name byte: the stored checksum no longer matches
    t[1] ^= 1;
    assert_eq!(locate_in_index(&gz(&t)), Err(Error::Format(Op::Index)));
    assert_eq!(tar_entries(&t, Op::Index), Err(Error::Format(Op::Index)));
}
