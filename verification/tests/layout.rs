use xross::global::CHUNK_SIZE;
use xross::local::{XrossLocalAllocator, TLSF_CAPACITY};
use xross::slab::{
    get_slab_idx, slab_config, SlabLayout, CHUNK_HEADER_SIZE, LAYOUT_LEN, SLAB_THRESHOLD,
    SLAB_TOTAL_CAPACITY,
};

#[test]
fn class_for_size_picks_smallest_fitting_class() {
    assert_eq!(get_slab_idx(1), 0);
    assert_eq!(get_slab_idx(8), 0);
    assert_eq!(get_slab_idx(9), 1);
    assert_eq!(get_slab_idx(16), 1);
    assert_eq!(get_slab_idx(17), 2);
    assert_eq!(get_slab_idx(100), 4);
    assert_eq!(get_slab_idx(1024), 7);
    assert_eq!(get_slab_idx(1025), 8);
    assert_eq!(get_slab_idx(2048), 8);
}

#[test]
fn table_rows_and_offsets() {
    let expected = [
        (8usize, 4096usize),
        (16, 2048),
        (32, 1024),
        (64, 512),
        (128, 256),
        (256, 128),
        (512, 64),
        (1024, 32),
        (2048, 16),
    ];
    for i in 0..LAYOUT_LEN {
        let c = slab_config(i);
        assert_eq!(c.size, expected[i].0);
        assert_eq!(c.len, expected[i].1);
        // every class fills the same number of bytes
        assert_eq!(c.size * c.len, 32768);
        assert_eq!(SlabLayout::offsets(i), CHUNK_HEADER_SIZE + i * 32768);
    }
    assert_eq!(SlabLayout::offsets(LAYOUT_LEN), SLAB_TOTAL_CAPACITY);
    assert_eq!(SlabLayout::total_capacity(), 256 + 9 * 32768);
    assert_eq!(SlabLayout::chunk_threshold(), SLAB_THRESHOLD);
    assert_eq!(SLAB_TOTAL_CAPACITY + TLSF_CAPACITY, CHUNK_SIZE);
}

#[test]
fn offset_maps_back_to_the_class_that_served_it() {
    for size in [1usize, 8, 9, 100, 500, 2048] {
        let i = get_slab_idx(size);
        let start = SlabLayout::offsets(i);
        // the first and the last byte offset of the class region
        assert_eq!(XrossLocalAllocator::get_slab_idx_from_offset(start), i);
        assert_eq!(
            XrossLocalAllocator::get_slab_idx_from_offset(start + 32768 - 1),
            i
        );
    }
}
