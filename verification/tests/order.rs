use trafalgar::single::{level_to_data, scale_degree, scale_density};

#[test]
fn pads_and_levels_keep_order() {
    let (mut degree, mut density, mut data) = (0, 1, 0);
    let mut b = 0u32;
    while b <= 0x7f80_0000 {
        let (a, c, d) = (scale_degree(b, 15), scale_density(b, 15), level_to_data(b));
        assert!(degree <= a && density <= c && data <= d);
        (degree, density, data) = (a, c, d);
        b += 9973;
    }
    assert_eq!((degree, density, data), (15, 16, 127));
}

#[test]
fn the_edges_reach_the_ends() {
    let one = 1.0f32.to_bits();
    assert_eq!((scale_degree(0, 15), scale_degree(one, 15)), (0, 15));
    assert_eq!((scale_density(0, 15), scale_density(one, 15)), (1, 16));
    assert_eq!((level_to_data(0), level_to_data(one)), (0, 127));
    // outside the pad, and nowhere at all
    assert_eq!((scale_degree(2.0f32.to_bits(), 15), scale_degree((-2.0f32).to_bits(), 15)), (15, 0));
    assert_eq!((scale_density(2.0f32.to_bits(), 15), scale_density((-2.0f32).to_bits(), 15)), (16, 1));
    assert_eq!(scale_degree(f32::NAN.to_bits(), 15), 0);
    assert_eq!(scale_density(f32::NAN.to_bits(), 15), 0);
}

#[test]
fn exact_values_on_the_pad() {
    assert_eq!(scale_degree(0.5f32.to_bits(), 15), 8); // 7.5 rounds away from zero
    assert_eq!(scale_degree(0.1f32.to_bits(), 15), 2); // 1.5
    assert_eq!(scale_degree(0.0999f32.to_bits(), 15), 1);
    assert_eq!(scale_density(0.5f32.to_bits(), 15), 9); // 8.5
    assert_eq!(level_to_data(0.5f32.to_bits()), 63); // 63.5 is cut
}
