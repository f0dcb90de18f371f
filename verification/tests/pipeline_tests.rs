//! Exercises the import pipeline's pure logic with real archives and real
//! images: all-or-nothing extraction, the fixed downscale policy, ordered
//! recombination, and the describer wording.

use std::io::Write;

use packrat::database::Database;
use packrat::errors::StoreError;
use packrat::imaging::calculate_new_dimensions;
use packrat::import::{
    photo_data_url, plan_insertions, prepare_images, query_prompt, should_retry, system_prompt,
    ItemInfo, DESCRIBE_RETRY_LIMIT,
};
use packrat::ROOT_CONTAINER_ID;

fn png_bytes(w: u32, h: u32) -> Vec<u8> {
    let img = image::DynamicImage::ImageRgb8(image::RgbImage::new(w, h));
    let mut out = Vec::new();
    img.write_to(&mut std::io::Cursor::new(&mut out), image::ImageFormat::Png).unwrap();
    out
}

fn zip_of(entries: &[(&str, Vec<u8>)]) -> Vec<u8> {
    let mut w = zip::ZipWriter::new(std::io::Cursor::new(Vec::new()));
    let opts = zip::write::SimpleFileOptions::default();
    for (name, data) in entries {
        w.start_file(*name, opts).unwrap();
        w.write_all(data).unwrap();
    }
    w.finish().unwrap().into_inner()
}

fn embeds(n: usize) -> Vec<Vec<u8>> {
    (0..n).map(|k| vec![k as u8; 4]).collect()
}

#[test]
fn extract_single_image() {
    let png = png_bytes(4, 4);
    let images = packrat::archive::extract_images(&png).unwrap();
    assert_eq!(images.len(), 1);
    assert_eq!(images[0], png);
}

#[test]
fn extract_rejects_garbage() {
    let garbage = vec![0u8, 1, 2, 3];
    assert_eq!(
        packrat::archive::extract_images(&garbage).unwrap_err(),
        StoreError::InvalidInput
    );
}

#[test]
fn extract_archive_in_entry_order() {
    let a = png_bytes(2, 2);
    let b = png_bytes(3, 3);
    let data = zip_of(&[("a.png", a.clone()), ("b.png", b.clone())]);
    let images = packrat::archive::extract_images(&data).unwrap();
    assert_eq!(images.len(), 2);
    assert_eq!(images[0], a);
    assert_eq!(images[1], b);
}

#[test]
fn corrupt_entry_fails_whole_job_with_no_items() {
    let mut db = Database::init();
    let data = zip_of(&[
        ("a.png", png_bytes(2, 2)),
        ("b.png", png_bytes(2, 2)),
        ("bad.bin", b"this is not an image".to_vec()),
        ("c.png", png_bytes(2, 2)),
    ]);
    let id = db.log_new_import("batch.zip", "Added to queue", ROOT_CONTAINER_ID).unwrap();
    let r = db.run_extraction(id, &data);
    assert_eq!(r.unwrap_err(), StoreError::InvalidInput);
    assert_eq!(db.imports[0].status, "FAILED");
    assert_eq!(db.get_container_items(ROOT_CONTAINER_ID).unwrap().len(), 0);
    assert_eq!(db.items.len(), 0);
}

#[test]
fn failed_description_drops_only_that_image() {
    let mut db = Database::init();
    let data = zip_of(&[
        ("a.png", png_bytes(20, 10)),
        ("b.png", png_bytes(20, 10)),
        ("c.png", png_bytes(20, 10)),
    ]);
    let id = db.log_new_import("batch.zip", "Added to queue", ROOT_CONTAINER_ID).unwrap();
    let images = db.run_extraction(id, &data).unwrap();
    assert_eq!(db.imports[0].status, "Starting");
    assert_eq!(images.len(), 3);
    let prepared = prepare_images(&images).unwrap();
    assert_eq!(prepared.len(), 3);
    // the describer answered for the first and third image only
    let infos: Vec<Option<ItemInfo>> = vec![
        Some(ItemInfo { name: "First".to_string(), descriptions: vec!["one".to_string()] }),
        None,
        Some(ItemInfo { name: "Third".to_string(), descriptions: vec!["three".to_string()] }),
    ];
    let order = plan_insertions(&infos);
    assert_eq!(order, vec![0, 2]);
    for idx in &order {
        let info = infos[*idx].as_ref().unwrap();
        db.insert_item(
            &info.name,
            &info.descriptions,
            &prepared[*idx].small,
            &prepared[*idx].large,
            ROOT_CONTAINER_ID,
            embeds(info.descriptions.len() + 2),
        )
        .unwrap();
    }
    db.update_import(id, "Complete").unwrap();
    assert_eq!(db.imports[0].status, "Complete");
    let listed = db.get_container_items(ROOT_CONTAINER_ID).unwrap();
    assert_eq!(listed.len(), 2);
    assert_eq!(listed[0].name, "First");
    assert_eq!(listed[1].name, "Third");
}

#[test]
fn prepared_renditions_follow_the_scale_policy() {
    let images = vec![png_bytes(100, 50)];
    let prepared = prepare_images(&images).unwrap();
    let small = image::load_from_memory(&prepared[0].small).unwrap();
    // the long edge becomes exactly 512, the short edge scales to 256
    assert_eq!(small.width(), 512);
    assert_eq!(small.height(), 256);
    let large = image::load_from_memory(&prepared[0].large).unwrap();
    assert_eq!(large.width(), 1024);
    assert_eq!(large.height(), 512);
    // the payload stays at the original size, re-encoded as JPEG
    let payload = image::load_from_memory(&prepared[0].payload).unwrap();
    assert_eq!(payload.width(), 100);
    assert_eq!(payload.height(), 50);
}

#[test]
fn downscale_returns_the_exact_rendition() {
    let png = png_bytes(100, 50);
    let bytes = packrat::imaging::downscale_image(&png, 100, 50, 10).unwrap();
    let img = image::load_from_memory(&bytes).unwrap();
    assert_eq!(img.width(), 10);
    assert_eq!(img.height(), 5);
    // a ratio whose short edge rounds to zero is refused
    let narrow = png_bytes(3, 100);
    assert_eq!(
        packrat::imaging::downscale_image(&narrow, 3, 100, 10).unwrap_err(),
        StoreError::InvalidInput
    );
}

#[test]
fn dimension_arithmetic() {
    assert_eq!(calculate_new_dimensions(100, 50, 10), (10, 5));
    assert_eq!(calculate_new_dimensions(50, 100, 10), (5, 10));
    assert_eq!(calculate_new_dimensions(64, 64, 16), (16, 16));
    // rounding: 15/100 of 10 is 1.5, rounded up
    assert_eq!(calculate_new_dimensions(100, 15, 10), (10, 2));
    // an extreme ratio rounds the short edge down to zero
    assert_eq!(calculate_new_dimensions(3, 100, 10), (0, 10));
}

#[test]
fn retry_budget() {
    assert!(should_retry(0));
    assert!(should_retry(DESCRIBE_RETRY_LIMIT - 1));
    assert!(!should_retry(DESCRIBE_RETRY_LIMIT));
    assert_eq!(DESCRIBE_RETRY_LIMIT, 10);
}

#[test]
fn embedding_texts_cover_all_facets() {
    let stmts = vec!["Steel blade".to_string(), "Wooden handle".to_string()];
    let texts = packrat::import::embedding_texts("Pocket Knife", &stmts);
    assert_eq!(
        texts,
        vec![
            "Pocket Knife".to_string(),
            "Steel blade".to_string(),
            "Wooden handle".to_string(),
            "Steel blade\nWooden handle".to_string(),
        ]
    );
    assert_eq!(texts.len(), stmts.len() + 2);
}

#[test]
fn describer_wording() {
    assert_eq!(
        system_prompt(),
        "You are a helpful item identifier and describer. You always respond in valid JSON."
    );
    assert_eq!(
        query_prompt("knife"),
        "Represent this sentence for searching relevant passages: knife"
    );
    assert_eq!(photo_data_url(&vec![1, 2, 3]), "data:image/jpeg;base64,AQID");
    assert_eq!(photo_data_url(&vec![]), "data:image/jpeg;base64,");
}
