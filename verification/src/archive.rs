//! Extracting an uploaded file into its images: either a zip archive whose
//! file entries are decoded one by one, or a single image.
//!
//! Extraction is all-or-nothing: an entry that cannot be read, or a file
//! entry that is not a decodable image, fails the whole upload, and nothing
//! of it is imported. Non-file entries (directories and other special
//! entries such as links) are skipped.

use std::io::Read;

use vstd::prelude::*;

use crate::database::clone_bytes;
use crate::errors::StoreError;
use crate::imaging::{decode_image, image_ok};

verus! {

#[verifier::external_type_specification]
#[verifier::external_body]
#[verifier::reject_recursive_types(R)]
pub struct ExZipArchive<R>(zip::ZipArchive<R>);

#[verifier::external_type_specification]
#[verifier::external_body]
#[verifier::reject_recursive_types(T)]
pub struct ExCursor<T>(std::io::Cursor<T>);

/// Whether `zip::ZipArchive::new` accepts these bytes as an archive.
pub uninterp spec fn zip_is_archive(data: Seq<u8>) -> bool;

/// The entries a zip archive holds, as its bytes determine them: one value
/// per entry index; `None` for an entry that cannot be read, `Some(None)`
/// for a non-file entry, `Some(Some(b))` for a file entry with contents `b`.
pub uninterp spec fn zip_entry_list(data: Seq<u8>) -> Seq<Option<Option<Seq<u8>>>>;

/// The bytes an open archive was read from.
pub uninterp spec fn zip_archive_data(a: zip::ZipArchive<std::io::Cursor<Vec<u8>>>) -> Seq<u8>;

/// Relies on `zip::ZipArchive::new`: whether in-memory bytes open as an
/// archive depends on the bytes alone.
#[verifier::external_body]
fn zip_open(data: Vec<u8>) -> (r: Result<zip::ZipArchive<std::io::Cursor<Vec<u8>>>, ()>)
    ensures
        r is Ok <==> zip_is_archive(data@),
        (r matches Ok(a) ==> zip_archive_data(a) == data@),
{
    match zip::ZipArchive::new(std::io::Cursor::new(data)) {
        Ok(a) => Ok(a),
        Err(_) => Err(()),
    }
}

/// Relies on `zip::ZipArchive::len`: the number of entries.
#[verifier::external_body]
fn zip_len(a: &zip::ZipArchive<std::io::Cursor<Vec<u8>>>) -> (r: usize)
    ensures
        r == zip_entry_list(zip_archive_data(*a)).len(),
{
    a.len()
}

/// Relies on `zip::ZipArchive::by_index`, `ZipFile::is_file` and
/// `std::io::Read::read_to_end`: the entry at `i`, in the shape of
/// `zip_entry_list`. Reading entries does not change what the archive holds.
#[verifier::external_body]
fn zip_entry(a: &mut zip::ZipArchive<std::io::Cursor<Vec<u8>>>, i: usize) -> (r: Option<
    Option<Vec<u8>>,
>)
    requires
        i < zip_entry_list(zip_archive_data(*old(a))).len(),
    ensures
        zip_archive_data(*final(a)) == zip_archive_data(*old(a)),
        ({
            let e = zip_entry_list(zip_archive_data(*old(a)))[i as int];
            match r {
                None => e is None,
                Some(None) => (e matches Some(f) && f is None),
                Some(Some(v)) => (e matches Some(f) && f matches Some(b) && v@ == b),
            }
        }),
{
    match a.by_index(i) {
        Err(_) => None,
        Ok(mut f) => {
            if !f.is_file() {
                Some(None)
            } else {
                let mut buf: Vec<u8> = Vec::new();
                match f.read_to_end(&mut buf) {
                    Ok(_) => Some(Some(buf)),
                    Err(_) => None,
                }
            }
        },
    }
}

/// Every entry is readable, and every file entry decodes as an image.
pub open spec fn archive_extract_ok(es: Seq<Option<Option<Seq<u8>>>>) -> bool {
    forall|k: int|
        0 <= k < es.len() ==> (#[trigger] es[k]) is Some && (es[k] matches Some(f) ==> (f
            matches Some(b) ==> image_ok(b)))
}

/// The file entries' bytes, in entry order.
pub open spec fn archive_images(es: Seq<Option<Option<Seq<u8>>>>) -> Seq<Seq<u8>>
    decreases es.len(),
{
    if es.len() == 0 {
        seq![]
    } else {
        let rest = archive_images(es.drop_last());
        match es.last() {
            Some(f) => match f {
                Some(b) => rest.push(b),
                None => rest,
            },
            None => rest,
        }
    }
}

/// What one upload yields: the archive's file entries when the bytes are an
/// archive, otherwise the upload itself as a single image.
pub open spec fn upload_images(data: Seq<u8>) -> Seq<Seq<u8>> {
    if zip_is_archive(data) {
        archive_images(zip_entry_list(data))
    } else {
        seq![data]
    }
}

/// Whether an upload extracts at all: an archive must extract wholly, a
/// single file must be an image.
pub open spec fn upload_extracts(data: Seq<u8>) -> bool {
    if zip_is_archive(data) {
        archive_extract_ok(zip_entry_list(data))
    } else {
        image_ok(data)
    }
}

/// Extracts the images of one upload, all-or-nothing: a zip is extracted
/// entry by entry, with any unreadable entry or non-image file failing the
/// whole upload as `InvalidInput`; bytes that are no archive must be a
/// single image.
pub fn extract_images(data: &Vec<u8>) -> (r: Result<Vec<Vec<u8>>, StoreError>)
    ensures
        r is Ok <==> upload_extracts(data@),
        (r matches Ok(v) ==> v.deep_view() == upload_images(data@) && (forall|k: int|
            0 <= k < v.deep_view().len() ==> image_ok(#[trigger] v.deep_view()[k]))),
        (r matches Err(e) ==> e == StoreError::InvalidInput),
{
    let copy = clone_bytes(data);
    let mut archive = match zip_open(copy) {
        Ok(a) => a,
        Err(()) => {
            // not an archive: treat as a single image
            match decode_image(data) {
                Ok(_) => {
                    let mut v: Vec<Vec<u8>> = Vec::new();
                    v.push(clone_bytes(data));
                    proof {
                        assert(v.deep_view() =~~= seq![data@]);
                    }
                    return Ok(v);
                },
                Err(()) => {
                    return Err(StoreError::InvalidInput);
                },
            }
        },
    };
    let ghost es = zip_entry_list(data@);
    let n = zip_len(&archive);
    let mut out: Vec<Vec<u8>> = Vec::new();
    let mut i: usize = 0;
    proof {
        assert(es.take(0) =~= Seq::<Option<Option<Seq<u8>>>>::empty());
        assert(out.deep_view() =~~= archive_images(es.take(0)));
    }
    while i < n
        invariant
            0 <= i <= n,
            zip_is_archive(data@),
            zip_archive_data(archive) == data@,
            es == zip_entry_list(data@),
            n == es.len(),
            out.deep_view() == archive_images(es.take(i as int)),
            forall|k: int|
                0 <= k < i ==> (#[trigger] es[k]) is Some && (es[k] matches Some(f) ==> (f
                    matches Some(b) ==> image_ok(b))),
            forall|k: int|
                0 <= k < out.deep_view().len() ==> image_ok(#[trigger] out.deep_view()[k]),
        decreases n - i,
    {
        proof {
            assert(es.take(i as int + 1).drop_last() =~= es.take(i as int));
            assert(es.take(i as int + 1).last() == es[i as int]);
        }
        match zip_entry(&mut archive, i) {
            None => {
                proof {
                    assert(!archive_extract_ok(es)) by {
                        assert(es[i as int] is None);
                    }
                }
                return Err(StoreError::InvalidInput);
            },
            Some(None) => {
                proof {
                    assert(out.deep_view() =~~= archive_images(es.take(i as int + 1)));
                }
            },
            Some(Some(bytes)) => {
                let ghost bb: Seq<u8> = bytes@;
                proof {
                    assert(bb == es[i as int]->0->0);
                }
                match decode_image(&bytes) {
                    Ok(_) => {},
                    Err(()) => {
                        proof {
                            assert(!archive_extract_ok(es)) by {
                                assert(es[i as int] matches Some(f) && f matches Some(b)
                                    && !image_ok(b));
                            }
                        }
                        return Err(StoreError::InvalidInput);
                    },
                }
                let ghost pre = out.deep_view();
                out.push(bytes);
                proof {
                    assert(out.deep_view() =~~= pre.push(bb));
                    assert(out.deep_view() =~~= archive_images(es.take(i as int + 1)));
                }
            },
        }
        i = i + 1;
    }
    proof {
        assert(es.take(n as int) =~= es);
    }
    Ok(out)
}

} // verus!
