use kernel_core::bitmap::Bitmap;
use kernel_core::bits::{get_bits, padding, round_down, round_up, set_bits};
use kernel_core::slob::{
    need_units, unit_to_size, KMemCache, SlobAllocator, SlobPage, TOTAL_UNITS,
};

#[test]
fn rounding_and_padding() {
    assert_eq!(round_down(4097, 4096), 4096);
    assert_eq!(round_up(4097, 4096), 8192);
    assert_eq!(round_up(4096, 4096), 4096);
    assert_eq!(padding(10, 8), 6);
    assert_eq!(padding(16, 8), 0);
}

#[test]
fn bit_fields() {
    let mut w: u64 = 0;
    set_bits(&mut w, 0b101, 4, 7);
    assert_eq!(get_bits(w, 4, 7), 0b101);
    assert_eq!(get_bits(w, 0, 4), 0);
    assert_eq!(get_bits(w, 7, 64), 0);
    set_bits(&mut w, 0xff, 0, 4);
    assert_eq!(get_bits(w, 0, 4), 0xf);
    assert_eq!(get_bits(w, 4, 7), 0b101);
}

#[test]
fn bitmap_set_clear_get() {
    let mut bm = Bitmap::new(4);
    assert!(!bm.get(100));
    bm.set(100);
    assert!(bm.get(100));
    assert!(!bm.get(99));
    assert!(!bm.get(101));
    bm.clear(100);
    assert!(!bm.get(100));
}

#[test]
fn slob_unit_arithmetic() {
    assert_eq!(need_units(64), 33);
    assert_eq!(need_units(63), 33);
    assert_eq!(unit_to_size(33), 64);
    assert!(unit_to_size(need_units(200)) >= 200);
}

#[test]
fn slob_page_alloc_free_round_trip() {
    let mut page = SlobPage::new();
    let before = page.free_units;
    let got = page.page_alloc(33, 8).expect("fresh page must serve");
    assert_eq!(page.free_units, before - 33);
    let freed = page.page_free(got);
    assert_eq!(freed, 33);
    assert_eq!(page.free_units, before);
}

#[test]
fn slob_allocator_serves_and_frees() {
    let mut slob = SlobAllocator::new();
    let cache = KMemCache { name: "test", size: 64, align: 8 };
    let h1 = slob.kmem_cache_alloc_node(&cache);
    let h2 = slob.kmem_cache_alloc_node(&cache);
    assert_eq!(h1.page, h2.page);
    assert_ne!(h1.unit, h2.unit);
    let freed = slob.dealloc_node(h1);
    assert_eq!(freed, 33);
    let page = h2.page;
    let freed2 = slob.dealloc_node(h2);
    assert_eq!(freed2, 33);
    // The page emptied out and went back to the page allocator.
    assert!(!slob.live[page]);
}

#[test]
fn slob_alignment_honoured() {
    let mut slob = SlobAllocator::new();
    let cache = KMemCache { name: "aligned", size: 256, align: 8 };
    let h = slob.kmem_cache_alloc_node(&cache);
    // The object starts one unit after the block; units are 2 bytes and the
    // page header is 32 bytes.
    let addr = 32 + 2 * (h.unit as usize + 1);
    assert_eq!(addr % 8, 0);
}

#[test]
fn slob_fills_page_then_takes_another() {
    let mut slob = SlobAllocator::new();
    let cache = KMemCache { name: "big", size: 4000, align: 8 };
    let h1 = slob.kmem_cache_alloc_node(&cache);
    let h2 = slob.kmem_cache_alloc_node(&cache);
    assert_ne!(h1.page, h2.page);
    assert_eq!(TOTAL_UNITS, 2032);
}
