//! The pure logic of the import pipeline: the exact wording handed to the
//! vision describer, the retry budget, preparing each extracted image, and
//! the ordered recombination of description results into insertions.
//!
//! The network itself — the describer call, its sleeps, and the queue that
//! feeds jobs in — lives outside; everything here is a function of the
//! values handed to it and is verified for every value.

use base64::Engine;

use vstd::prelude::*;
use vstd::string::StringExecFns;

use crate::archive::{extract_images, upload_extracts, upload_images};
use crate::strutil::{join_nl, spec_join_nl};
use crate::database::{
    has_import, import_at, import_index, lemma_import_found, Database, ImportModel, StoreModel,
};
use crate::errors::StoreError;
use crate::imaging::{
    decode_image, downscale_image, image_height, image_ok, image_width, reencode_jpeg,
    reencoded_jpeg_of, reencoded_jpeg_ok, rendition_height, rendition_width, scaled_jpeg_of,
    scaled_jpeg_ok,
};

verus! {

/// How often one image's description is attempted before that image is
/// given up on.
pub const DESCRIBE_RETRY_LIMIT: u32 = 10;

/// The fixed delay between description attempts, in seconds.
pub const DESCRIBE_RETRY_DELAY_SECS: u64 = 10;

/// The long edge of the large stored rendition.
pub const LARGE_EDGE: u32 = 1024;

/// The long edge of the small stored rendition.
pub const SMALL_EDGE: u32 = 512;

/// Whether another description attempt is within the retry budget after
/// `attempts_made` failed attempts.
pub fn should_retry(attempts_made: u32) -> (r: bool)
    ensures
        r == (attempts_made < DESCRIBE_RETRY_LIMIT),
{
    attempts_made < DESCRIBE_RETRY_LIMIT
}

/// What the vision describer answers for one image: a short name and the
/// description, statement by statement.
pub struct ItemInfo {
    pub name: String,
    pub descriptions: Vec<String>,
}

/// One image readied for description and storage: the two downscaled
/// renditions and the full-size JPEG payload sent to the describer.
pub struct PreparedImage {
    pub small: Vec<u8>,
    pub large: Vec<u8>,
    pub payload: Vec<u8>,
}

// ---------------------------------------------------------------------------
// The describer's exact wording
// ---------------------------------------------------------------------------

/// What base64's standard-alphabet engine encodes these bytes to.
pub uninterp spec fn base64_of(b: Seq<u8>) -> Seq<char>;

/// Relies on `base64::engine::general_purpose::STANDARD` and
/// `Engine::encode`: the encoding depends on the bytes alone.
#[verifier::external_body]
fn b64_encode(b: &Vec<u8>) -> (r: String)
    ensures
        r@ == base64_of(b@),
{
    base64::engine::general_purpose::STANDARD.encode(b.as_slice())
}

pub open spec fn spec_system_prompt() -> Seq<char> {
    "You are a helpful item identifier and describer. You always respond in valid JSON."@
}

pub open spec fn spec_name_prompt() -> Seq<char> {
    "Please give a short name for this object."@
}

pub open spec fn spec_description_prompt() -> Seq<char> {
    "Please give a full and detailed description of what you see in this image. Include all text you can read. Give the description as a series of statements. Do not mention the background or any human hands."@
}

pub open spec fn spec_query_prefix() -> Seq<char> {
    "Represent this sentence for searching relevant passages: "@
}

pub open spec fn spec_data_url_prefix() -> Seq<char> {
    "data:image/jpeg;base64,"@
}

/// The system instruction establishing the describer's framing.
pub fn system_prompt() -> (r: String)
    ensures
        r@ == spec_system_prompt(),
{
    String::from_str(
        "You are a helpful item identifier and describer. You always respond in valid JSON.",
    )
}

/// The instruction asking for a short name.
pub fn name_prompt() -> (r: String)
    ensures
        r@ == spec_name_prompt(),
{
    String::from_str("Please give a short name for this object.")
}

/// The instruction asking for a statement-by-statement description.
pub fn description_prompt() -> (r: String)
    ensures
        r@ == spec_description_prompt(),
{
    String::from_str(
        "Please give a full and detailed description of what you see in this image. Include all text you can read. Give the description as a series of statements. Do not mention the background or any human hands.",
    )
}

/// The retrieval-instruction wording put in front of query-time text; it
/// differs from index-time text on purpose, matching asymmetric embedding
/// models.
pub fn query_prompt(text: &str) -> (r: String)
    ensures
        r@ == spec_query_prefix() + text@,
{
    let mut r = String::from_str("Represent this sentence for searching relevant passages: ");
    r.append(text);
    r
}

/// The data URL carrying one JPEG payload to the describer.
pub fn photo_data_url(jpeg: &Vec<u8>) -> (r: String)
    ensures
        r@ == spec_data_url_prefix() + base64_of(jpeg@),
{
    let mut r = String::from_str("data:image/jpeg;base64,");
    let b = b64_encode(jpeg);
    r.append(b.as_str());
    r
}

/// The index-time texts embedded for one item, in facet order: the name,
/// each description statement, and the joined full description — so an item
/// with `n` statements always has `n + 2` embedding facets. Index-time text
/// carries no retrieval prefix; only query-time text does.
pub fn embedding_texts(name: &str, statements: &Vec<String>) -> (r: Vec<String>)
    ensures
        r.deep_view() == seq![name@] + statements.deep_view() + seq![
            spec_join_nl(statements.deep_view()),
        ],
        r@.len() == statements@.len() + 2,
{
    let mut r: Vec<String> = Vec::new();
    r.push(String::from_str(name));
    proof {
        assert(r.deep_view() =~= seq![name@] + statements.deep_view().take(0));
    }
    let mut i: usize = 0;
    while i < statements.len()
        invariant
            0 <= i <= statements@.len(),
            statements.deep_view().len() == statements@.len(),
            r@.len() == i + 1,
            r.deep_view() == seq![name@] + statements.deep_view().take(i as int),
        decreases statements@.len() - i,
    {
        let ghost pre = r.deep_view();
        r.push(statements[i].clone());
        proof {
            assert(r.deep_view() =~= pre.push(statements@[i as int]@));
            assert(statements.deep_view()[i as int] == statements@[i as int]@);
            assert(r.deep_view() =~= seq![name@] + statements.deep_view().take(i as int + 1));
        }
        i = i + 1;
    }
    let ghost pre = r.deep_view();
    let joined = join_nl(statements);
    r.push(joined);
    proof {
        assert(statements.deep_view().take(statements@.len() as int) =~= statements.deep_view());
        assert(r.deep_view() =~= pre.push(spec_join_nl(statements.deep_view())));
        assert(r.deep_view() =~= seq![name@] + statements.deep_view() + seq![
            spec_join_nl(statements.deep_view()),
        ]);
    }
    r
}

// ---------------------------------------------------------------------------
// Preparing images and recombining results
// ---------------------------------------------------------------------------

/// Whether all three renditions of one upload image can be produced: the
/// bytes decode, both downscales succeed, and the full-size re-encode
/// succeeds.
pub open spec fn renditions_ok(data: Seq<u8>) -> bool {
    &&& image_ok(data)
    &&& image_width(data) >= 1
    &&& image_height(data) >= 1
    &&& rendition_width(data, SMALL_EDGE as int) >= 1
    &&& rendition_height(data, SMALL_EDGE as int) >= 1
    &&& rendition_width(data, LARGE_EDGE as int) >= 1
    &&& rendition_height(data, LARGE_EDGE as int) >= 1
    &&& scaled_jpeg_ok(
        data,
        rendition_width(data, SMALL_EDGE as int),
        rendition_height(data, SMALL_EDGE as int),
    )
    &&& scaled_jpeg_ok(
        data,
        rendition_width(data, LARGE_EDGE as int),
        rendition_height(data, LARGE_EDGE as int),
    )
    &&& reencoded_jpeg_ok(data)
}

/// The three renditions of one image, as `prepare_images` fixes them.
pub open spec fn prepared_matches(data: Seq<u8>, p: PreparedImage) -> bool {
    &&& p.small@ == scaled_jpeg_of(
        data,
        rendition_width(data, SMALL_EDGE as int),
        rendition_height(data, SMALL_EDGE as int),
    )
    &&& p.large@ == scaled_jpeg_of(
        data,
        rendition_width(data, LARGE_EDGE as int),
        rendition_height(data, LARGE_EDGE as int),
    )
    &&& p.payload@ == reencoded_jpeg_of(data)
}

/// Prepares every extracted image: decodes it, downscales to the small and
/// large renditions, and re-encodes the full-size describer payload.
///
/// Succeeds exactly when every image's renditions can be produced, and then
/// returns, in order, exactly the three renditions of each image. Fails with
/// `InvalidInput` when an input does not decode or its short edge scales to
/// zero, and with `Storage` when a re-encode fails.
pub fn prepare_images(images: &Vec<Vec<u8>>) -> (r: Result<Vec<PreparedImage>, StoreError>)
    ensures
        (r is Ok <==> (forall|k: int|
            0 <= k < images.deep_view().len() ==> renditions_ok(
                #[trigger] images.deep_view()[k],
            ))),
        (r matches Ok(v) ==> v@.len() == images@.len() && (forall|k: int|
            0 <= k < v@.len() ==> prepared_matches(images.deep_view()[k], #[trigger] v@[k]))),
        (r matches Err(e) ==> (e == StoreError::InvalidInput || e == StoreError::Storage)),
{
    let mut out: Vec<PreparedImage> = Vec::new();
    let mut i: usize = 0;
    while i < images.len()
        invariant
            0 <= i <= images@.len(),
            out@.len() == i,
            images.deep_view().len() == images@.len(),
            forall|k: int| 0 <= k < i ==> renditions_ok(#[trigger] images.deep_view()[k]),
            forall|k: int|
                0 <= k < i ==> prepared_matches(images.deep_view()[k], #[trigger] out@[k]),
        decreases images@.len() - i,
    {
        let ghost d = images.deep_view()[i as int];
        proof {
            assert(d == images@[i as int].deep_view());
            assert(images@[i as int].deep_view() =~= images@[i as int]@);
        }
        let (_, w, h) = match decode_image(&images[i]) {
            Ok(t) => t,
            Err(()) => {
                proof {
                    assert(!renditions_ok(d));
                }
                return Err(StoreError::InvalidInput);
            },
        };
        if w == 0 || h == 0 {
            proof {
                assert(!renditions_ok(d));
            }
            return Err(StoreError::InvalidInput);
        }
        let small = match downscale_image(&images[i], w, h, SMALL_EDGE) {
            Ok(v) => v,
            Err(e) => {
                proof {
                    assert(!renditions_ok(d));
                }
                return Err(e);
            },
        };
        let large = match downscale_image(&images[i], w, h, LARGE_EDGE) {
            Ok(v) => v,
            Err(e) => {
                proof {
                    assert(!renditions_ok(d));
                }
                return Err(e);
            },
        };
        let payload = match reencode_jpeg(&images[i]) {
            Ok(v) => v,
            Err(()) => {
                proof {
                    assert(!renditions_ok(d));
                }
                return Err(StoreError::Storage);
            },
        };
        out.push(PreparedImage { small, large, payload });
        proof {
            assert(renditions_ok(d));
            assert(prepared_matches(d, out@[i as int]));
        }
        i = i + 1;
    }
    Ok(out)
}

/// The indices whose description succeeded, in their original order: the
/// recombination is driven by extraction position, never by completion
/// time, so insertion order is stable.
pub fn plan_insertions(descriptions: &Vec<Option<ItemInfo>>) -> (r: Vec<usize>)
    ensures
        forall|a: int, b: int| 0 <= a < b < r@.len() ==> r@[a] < r@[b],
        forall|k: int|
            0 <= k < r@.len() ==> (#[trigger] r@[k]) < descriptions@.len()
                && descriptions@[r@[k] as int] is Some,
        forall|i: int|
            0 <= i < descriptions@.len() && (#[trigger] descriptions@[i]) is Some ==> exists|k: int|
                0 <= k < r@.len() && (#[trigger] r@[k]) as int == i,
{
    let mut r: Vec<usize> = Vec::new();
    let mut i: usize = 0;
    while i < descriptions.len()
        invariant
            0 <= i <= descriptions@.len(),
            forall|a: int, b: int| 0 <= a < b < r@.len() ==> r@[a] < r@[b],
            forall|k: int|
                0 <= k < r@.len() ==> (#[trigger] r@[k]) < i && descriptions@[r@[k] as int] is Some,
            forall|j: int|
                0 <= j < i && (#[trigger] descriptions@[j]) is Some ==> exists|k: int|
                    0 <= k < r@.len() && (#[trigger] r@[k]) as int == j,
        decreases descriptions@.len() - i,
    {
        if descriptions[i].is_some() {
            let ghost pre = r@;
            r.push(i);
            proof {
                assert forall|j: int|
                    0 <= j < i + 1 && (#[trigger] descriptions@[j]) is Some implies exists|k: int|
                    0 <= k < r@.len() && (#[trigger] r@[k]) as int == j by {
                    if j < i {
                        let k = choose|k: int|
                            0 <= k < pre.len() && (#[trigger] pre[k]) as int == j;
                        assert(r@[k] as int == j);
                    } else {
                        assert(r@[r@.len() - 1] as int == j);
                    }
                }
            }
        }
        i = i + 1;
    }
    r
}

// ---------------------------------------------------------------------------
// The extraction stage of one job
// ---------------------------------------------------------------------------

impl Database {
    /// Runs the extraction stage of one queued job: marks it `Starting`,
    /// extracts the upload's images all-or-nothing, and on an invalid
    /// upload marks the job failed. `NotFound` when the job id does not
    /// exist (nothing is changed then).
    pub fn run_extraction(&mut self, import_id: i64, data: &Vec<u8>) -> (r: Result<
        Vec<Vec<u8>>,
        StoreError,
    >)
        requires
            old(self).wf(),
        ensures
            final(self).wf(),
            match r {
                Ok(v) => {
                    &&& has_import(old(self)@.imports, import_id as int)
                    &&& upload_extracts(data@)
                    &&& v.deep_view() == upload_images(data@)
                    &&& (forall|k: int|
                        0 <= k < v.deep_view().len() ==> image_ok(#[trigger] v.deep_view()[k]))
                    &&& (final(self)@ =~= StoreModel {
                        imports: old(self)@.imports.update(
                            import_index(old(self)@.imports, import_id as int),
                            ImportModel {
                                status: "Starting"@,
                                ..import_at(old(self)@.imports, import_id as int)
                            },
                        ),
                        ..old(self)@
                    })
                },
                Err(e) => {
                    &&& (e == StoreError::NotFound ==> !has_import(
                        old(self)@.imports,
                        import_id as int,
                    ) && final(self)@ == old(self)@)
                    &&& (e == StoreError::InvalidInput ==> has_import(
                        old(self)@.imports,
                        import_id as int,
                    ) && !upload_extracts(data@) && (final(self)@ =~= StoreModel {
                        imports: old(self)@.imports.update(
                            import_index(old(self)@.imports, import_id as int),
                            ImportModel {
                                status: "FAILED"@,
                                ..import_at(old(self)@.imports, import_id as int)
                            },
                        ),
                        ..old(self)@
                    }))
                    &&& (e == StoreError::NotFound || e == StoreError::InvalidInput)
                },
            },
    {
        let ghost m0 = self@;
        match self.update_import(import_id, "Starting") {
            Ok(()) => {},
            Err(e) => {
                return Err(e);
            },
        }
        let ghost m1 = self@;
        match extract_images(data) {
            Ok(v) => Ok(v),
            Err(_) => {
                proof {
                    let idx = import_index(m0.imports, import_id as int);
                    assert(0 <= idx < m0.imports.len() && m0.imports[idx].id == import_id as int)
                        by {
                        assert(has_import(m0.imports, import_id as int));
                    }
                    assert(m1.imports[idx].id == import_id as int);
                    assert(has_import(m1.imports, import_id as int));
                }
                match self.cancel_import(import_id, None) {
                    Ok(()) => {},
                    Err(_) => {
                        proof {
                            assert(false);
                        }
                    },
                }
                proof {
                    let idx = import_index(m0.imports, import_id as int);
                    assert(0 <= idx < m0.imports.len() && m0.imports[idx].id == import_id as int)
                        by {
                        assert(has_import(m0.imports, import_id as int));
                    }
                    assert(m1.imports[idx].id == import_id as int);
                    lemma_import_found(m1.imports, import_id as int, idx);
                    assert(final(self)@.imports =~= m0.imports.update(
                        idx,
                        ImportModel {
                            status: "FAILED"@,
                            ..import_at(m0.imports, import_id as int)
                        },
                    ));
                    assert(final(self)@ =~= StoreModel {
                        imports: m0.imports.update(
                            idx,
                            ImportModel {
                                status: "FAILED"@,
                                ..import_at(m0.imports, import_id as int)
                            },
                        ),
                        ..m0
                    });
                }
                Err(StoreError::InvalidInput)
            },
        }
    }
}

} // verus!
