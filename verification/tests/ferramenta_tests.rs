use elsos::ferramenta::{align, divide_up, get_bit_at, in_range, pow, set_bit, Bitmap};

#[test]
fn get_bit_at_reads_single_bits() {
    assert!(get_bit_at(0b1000_0000, 7));
    assert!(!get_bit_at(0b1000_0000, 6));
    assert!(get_bit_at(1, 0));
    assert!(!get_bit_at(0, 0));
    assert!(get_bit_at(0x8000_0000, 31));
    // An out-of-range bit index reads as clear.
    assert!(!get_bit_at(0xffff_ffff, 32));
    assert!(!get_bit_at(0xffff_ffff, 255));
}

#[test]
fn set_bit_sets_and_clears_one_bit() {
    let mut v: u32 = 0;
    set_bit(&mut v, true, 3);
    assert_eq!(v, 0b1000);
    set_bit(&mut v, true, 0);
    assert_eq!(v, 0b1001);
    set_bit(&mut v, false, 3);
    assert_eq!(v, 0b0001);
    // Clearing a bit leaves every other bit alone.
    let mut w: u32 = 0xffff_ffff;
    set_bit(&mut w, false, 4);
    assert_eq!(w, 0xffff_ffef);
}

#[test]
fn align_rounds_up_to_power_of_two() {
    assert_eq!(align(0, 16), 0);
    assert_eq!(align(1, 16), 16);
    assert_eq!(align(16, 16), 16);
    assert_eq!(align(17, 16), 32);
    assert_eq!(align(100, 16), 112);
    assert_eq!(align(0x1234, 0x1000), 0x2000);
    assert_eq!(align(0x1000, 0x1000), 0x1000);
}

#[test]
fn divide_up_rounds_up() {
    assert_eq!(divide_up(0, 4096), 0);
    assert_eq!(divide_up(1, 4096), 1);
    assert_eq!(divide_up(4096, 4096), 1);
    assert_eq!(divide_up(4097, 4096), 2);
    assert_eq!(divide_up(0x180000, 0x1000), 0x180);
}

#[test]
fn in_range_is_half_open() {
    assert!(in_range(5, 5, 1));
    assert!(!in_range(6, 5, 1));
    assert!(in_range(9, 5, 5));
    assert!(!in_range(4, 5, 5));
}

#[test]
fn pow_repeats_multiplication() {
    assert_eq!(pow(2, 10), 1024);
    assert_eq!(pow(3, 4), 81);
    // The accumulator starts at the base, so exponent zero behaves
    // like exponent one.
    assert_eq!(pow(7, 0), 7);
    assert_eq!(pow(7, 1), 7);
}

fn fresh_bitmap(bits: usize) -> Bitmap {
    Bitmap { buffer: vec![0u8; bits / 8 + 8], size: bits }
}

#[test]
fn bitmap_set_and_get() {
    let mut bm = fresh_bitmap(64);
    assert!(!bm.get(0));
    bm.set(0, true);
    assert!(bm.get(0));
    assert!(!bm.get(1));
    bm.set(9, true);
    assert!(bm.get(9));
    assert!(!bm.get(8));
    assert!(!bm.get(10));
    bm.set(9, false);
    assert!(!bm.get(9));
}

#[test]
fn bitmap_erase_sets_every_bit() {
    let mut bm = fresh_bitmap(40);
    bm.erase();
    for i in 0..40 {
        assert!(bm.get(i));
    }
}

#[test]
fn bitmap_get_n_pages_finds_first_occupied() {
    let mut bm = fresh_bitmap(64);
    bm.set(5, true);
    // All free: the probe reports 0.
    assert_eq!(bm.get_n_pages(1, 4), 0);
    // Bit 5 blocks the run starting at 3.
    assert_eq!(bm.get_n_pages(3, 4), 5);
    assert_eq!(bm.get_n_pages(6, 4), 0);
}

#[test]
fn bitmap_get_chunk32_sums_four_bytes() {
    let mut bm = fresh_bitmap(64);
    bm.buffer[0] = 1;
    bm.buffer[1] = 2;
    bm.buffer[2] = 3;
    bm.buffer[3] = 4;
    bm.buffer[4] = 250;
    assert_eq!(bm.get_chunk32(0), 10);
    assert_eq!(bm.get_chunk32(1), 250);
}
