use rei_manga::regions::{
    compute_region_bbox, crop_region_with_padding, foreground_summary, BoundingBox, CropRect,
    GrayMask,
};

fn make_mask(width: u32, height: u32, fill: &[(u32, u32)]) -> GrayMask {
    let mut data = vec![0u8; (width * height) as usize];
    for &(x, y) in fill {
        data[(y * width + x) as usize] = 255;
    }
    GrayMask { width, height, data }
}

#[test]
fn compute_region_bbox_returns_slice_bounds_when_empty() {
    let mask = make_mask(10, 6, &[]);
    let region = compute_region_bbox(&mask, 2, 8);
    assert_eq!(region.bbox.x0, 2);
    assert_eq!(region.bbox.x1, 8);
    assert_eq!(region.bbox.y0, 0);
    assert_eq!(region.bbox.y1, 6);
}

#[test]
fn compute_region_bbox_tracks_foreground_pixels() {
    let mask = make_mask(12, 10, &[(3, 4), (5, 6), (7, 3)]);
    let region = compute_region_bbox(&mask, 2, 10);
    assert_eq!(region.bbox.x0, 3);
    assert_eq!(region.bbox.x1, 8);
    assert_eq!(region.bbox.y0, 3);
    assert_eq!(region.bbox.y1, 7);
}

#[test]
fn crop_region_with_padding_respects_bounds() {
    let mask = make_mask(20, 10, &[(6, 3), (14, 7)]);
    let region = compute_region_bbox(&mask, 5, 15);
    let cropped = crop_region_with_padding(20, 10, &region, 1, 1);
    assert_eq!(cropped.width, 11);
    assert_eq!(cropped.height, 7);
}

#[test]
fn region_ignores_foreground_outside_the_band() {
    let mask = make_mask(12, 4, &[(1, 1), (9, 2)]);
    let region = compute_region_bbox(&mask, 4, 8);
    assert_eq!(region.bbox, BoundingBox { x0: 4, y0: 0, x1: 8, y1: 4 });
    let right = compute_region_bbox(&mask, 6, 12);
    assert_eq!(right.bbox, BoundingBox { x0: 9, y0: 2, x1: 10, y1: 3 });
}

#[test]
fn region_clamps_band_to_the_mask() {
    let mask = make_mask(8, 3, &[]);
    let region = compute_region_bbox(&mask, 20, 30);
    assert_eq!(region.bbox, BoundingBox { x0: 7, y0: 0, x1: 8, y1: 3 });
    let empty = GrayMask { width: 0, height: 5, data: Vec::new() };
    let zero = compute_region_bbox(&empty, 0, 4);
    assert_eq!(zero.bbox, BoundingBox { x0: 0, y0: 0, x1: 0, y1: 0 });
}

#[test]
fn foreground_summary_counts_and_bounds() {
    let mask = make_mask(64, 48, &[(10, 12), (37, 20), (20, 43), (22, 44)]);
    let (count, bbox) = foreground_summary(&mask.data, 64);
    assert_eq!(count, 4);
    assert_eq!(bbox, Some(BoundingBox { x0: 10, y0: 12, x1: 38, y1: 45 }));
    let blank = make_mask(5, 5, &[]);
    assert_eq!(foreground_summary(&blank.data, 5), (0, None));
}

#[test]
fn bounding_box_size() {
    let b = BoundingBox { x0: 3, y0: 2, x1: 10, y1: 9 };
    assert_eq!(b.width(), 7);
    assert_eq!(b.height(), 7);
}

#[test]
fn crop_falls_back_to_whole_image() {
    let region = rei_manga::regions::RegionBounds { bbox: BoundingBox { x0: 0, y0: 8, x1: 5, y1: 8 } };
    let rect = crop_region_with_padding(20, 10, &region, 0, 0);
    assert_eq!(rect, CropRect { x: 0, y: 0, width: 20, height: 10 });
    let edge = rei_manga::regions::RegionBounds { bbox: BoundingBox { x0: 30, y0: 0, x1: 30, y1: 4 } };
    assert_eq!(crop_region_with_padding(20, 10, &edge, 0, 0), CropRect { x: 19, y: 0, width: 1, height: 4 });
}
