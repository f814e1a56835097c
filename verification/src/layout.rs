//! How the layout of a manga source follows from what its root holds: the
//! image files at the root and the folders that hold images.
use vstd::prelude::*;
use crate::names::is_supported_name;
use crate::rename::DirEntryInfo;
use crate::volumes::{folder_scan, root_scan, source_mode, MangaSourceMode, SourceEntry};

verus! {

/// A file at the root of the source that is a supported image.
pub open spec fn is_root_image(e: SourceEntry) -> bool {
    !e.is_dir && is_supported_name(e.name@)
}

/// A folder holding at least one supported image file directly.
pub open spec fn holds_images(e: SourceEntry) -> bool {
    e.is_dir && exists|k: int| 0 <= k < e.children@.len() && !e.children@[k].is_dir && is_supported_name(#[trigger] e.children@[k].name@)
}

/// Some root entry is an image file.
pub open spec fn has_root_image(entries: Seq<SourceEntry>) -> bool {
    exists|i: int| 0 <= i < entries.len() && is_root_image(#[trigger] entries[i])
}

/// Some root entry is a folder holding images.
pub open spec fn has_image_folder(entries: Seq<SourceEntry>) -> bool {
    exists|i: int| 0 <= i < entries.len() && holds_images(#[trigger] entries[i])
}

/// Two different root entries are folders holding images.
pub open spec fn has_two_image_folders(entries: Seq<SourceEntry>) -> bool {
    exists|i: int, j: int| 0 <= i < j < entries.len() && holds_images(#[trigger] entries[i]) && holds_images(#[trigger] entries[j])
}

proof fn lemma_folder_scan_counts(listing: Seq<DirEntryInfo>)
    ensures
        folder_scan(listing).0 > 0 <==> exists|k: int| 0 <= k < listing.len() && !listing[k].is_dir && is_supported_name(#[trigger] listing[k].name@),
    decreases listing.len(),
{
    if listing.len() > 0 {
        let p = listing.drop_last();
        lemma_folder_scan_counts(p);
        let n = listing.len() - 1;
        if folder_scan(listing).0 > 0 {
            if folder_scan(p).0 > 0 {
                let k = choose|k: int| 0 <= k < p.len() && !p[k].is_dir && is_supported_name(#[trigger] p[k].name@);
                assert(listing[k] == p[k]);
            } else {
                assert(listing[n] == listing.last());
            }
        }
        if exists|k: int| 0 <= k < listing.len() && !listing[k].is_dir && is_supported_name(#[trigger] listing[k].name@) {
            let k = choose|k: int| 0 <= k < listing.len() && !listing[k].is_dir && is_supported_name(#[trigger] listing[k].name@);
            if k < n {
                assert(p[k] == listing[k]);
            } else {
                assert(listing[k] == listing.last());
            }
        }
    }
}

proof fn lemma_root_scan_counts(entries: Seq<SourceEntry>)
    ensures
        root_scan(entries).0 > 0 <==> has_root_image(entries),
        root_scan(entries).1.len() > 0 <==> has_image_folder(entries),
        root_scan(entries).1.len() >= 2 <==> has_two_image_folders(entries),
    decreases entries.len(),
{
    if entries.len() > 0 {
        let p = entries.drop_last();
        let e = entries.last();
        let n = entries.len() - 1;
        lemma_root_scan_counts(p);
        lemma_folder_scan_counts(e.children@);
        assert(entries[n] == e);
        assert(forall|i: int| 0 <= i < n ==> entries[i] == p[i]);
        let holds = e.is_dir && folder_scan(e.children@).0 > 0;
        assert(holds <==> holds_images(e));
        assert(root_scan(entries).1.len() == root_scan(p).1.len() + if holds { 1int } else { 0int });
        assert(root_scan(entries).0 == root_scan(p).0 + if is_root_image(e) { 1int } else { 0int });
        // root images
        if has_root_image(entries) {
            let i = choose|i: int| 0 <= i < entries.len() && is_root_image(#[trigger] entries[i]);
            if i < n {
                assert(is_root_image(p[i]));
            }
        }
        if has_root_image(p) {
            let i = choose|i: int| 0 <= i < p.len() && is_root_image(#[trigger] p[i]);
            assert(is_root_image(entries[i]));
        }
        // image folders
        if has_image_folder(entries) {
            let i = choose|i: int| 0 <= i < entries.len() && holds_images(#[trigger] entries[i]);
            if i < n {
                assert(holds_images(p[i]));
            }
        }
        if has_image_folder(p) {
            let i = choose|i: int| 0 <= i < p.len() && holds_images(#[trigger] p[i]);
            assert(holds_images(entries[i]));
            if holds {
                assert(holds_images(entries[n]));
                assert(has_two_image_folders(entries));
            }
        }
        if has_two_image_folders(entries) {
            let (i, j) = choose|i: int, j: int| 0 <= i < j < entries.len() && holds_images(#[trigger] entries[i]) && holds_images(#[trigger] entries[j]);
            if j < n {
                assert(holds_images(p[i]) && holds_images(p[j]));
                assert(has_two_image_folders(p));
            } else {
                assert(holds_images(p[i]));
                assert(has_image_folder(p));
            }
        }
        if has_two_image_folders(p) {
            let (i, j) = choose|i: int, j: int| 0 <= i < j < p.len() && holds_images(#[trigger] p[i]) && holds_images(#[trigger] p[j]);
            assert(holds_images(entries[i]) && holds_images(entries[j]));
        }
    }
}

/// The layout of a source directory, by what its root holds: several volumes
/// when some folder holds images and no image lies at the root, or when two
/// folders hold images; one volume otherwise (images at the root and at most
/// one image folder, or no image folder at all).
pub proof fn lemma_source_mode_by_entries(entries: Seq<SourceEntry>)
    ensures
        source_mode(root_scan(entries).0, root_scan(entries).1.len()) == (if (has_image_folder(entries) && !has_root_image(entries))
            || has_two_image_folders(entries) {
            MangaSourceMode::MultiVolume
        } else {
            MangaSourceMode::SingleVolume
        }),
{
    lemma_root_scan_counts(entries);
}

/// A listing entry that is an image file.
pub open spec fn is_image_file(c: DirEntryInfo) -> bool {
    !c.is_dir && is_supported_name(c.name@)
}

/// The number of image files directly inside a folder.
pub open spec fn image_files(children: Seq<DirEntryInfo>) -> nat {
    children.filter(|c: DirEntryInfo| is_image_file(c)).len()
}

/// A folder counts the image files directly inside it, and nothing else.
pub proof fn lemma_folder_counts_its_images(listing: Seq<DirEntryInfo>)
    ensures
        folder_scan(listing).0 == image_files(listing),
    decreases listing.len(),
{
    reveal(Seq::filter);
    if listing.len() > 0 {
        lemma_folder_counts_its_images(listing.drop_last());
    }
}

/// The root scan counts the image files at the root, and lists the folders
/// that hold images, in listing order, each with its name, its path and the
/// number of image files inside it.
pub proof fn lemma_root_scan_lists_image_folders(entries: Seq<SourceEntry>)
    ensures
        root_scan(entries).0 == entries.filter(|e: SourceEntry| is_root_image(e)).len(),
        root_scan(entries).1 == entries.filter(|e: SourceEntry| holds_images(e)).map_values(
            |e: SourceEntry| (e.name@, e.path@, image_files(e.children@)),
        ),
    decreases entries.len(),
{
    reveal(Seq::filter);
    if entries.len() > 0 {
        let p = entries.drop_last();
        let e = entries.last();
        lemma_root_scan_lists_image_folders(p);
        lemma_folder_counts_its_images(e.children@);
        lemma_folder_scan_counts(e.children@);
        let f = |x: SourceEntry| holds_images(x);
        let g = |x: SourceEntry| (x.name@, x.path@, image_files(x.children@));
        if holds_images(e) {
            assert(entries.filter(f) == p.filter(f).push(e));
            assert(entries.filter(f).map_values(g) =~= p.filter(f).map_values(g).push(g(e)));
        } else {
            assert(entries.filter(f) == p.filter(f));
        }
    }
}

} // verus!
