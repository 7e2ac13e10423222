use voxel_core::lighting::lightmap::Lightmap;

#[test]
fn new_lightmap_is_dark() {
    let map = Lightmap::new();
    assert_eq!(map.map.len(), 4096);
    assert!(map.map.iter().all(|w| *w == 0));
    assert_eq!(map.get(3, 4, 5, 0), 0);
    assert_eq!(map.get(3, 4, 5, 3), 0);
}

#[test]
fn channels_pack_into_one_word() {
    let mut map = Lightmap::new();
    map.set(1, 2, 3, 0, 1);
    map.set(1, 2, 3, 1, 2);
    map.set(1, 2, 3, 2, 3);
    map.set(1, 2, 3, 3, 4);
    let index = 2 * 256 + 3 * 16 + 1;
    assert_eq!(map.map[index], 0x4321);
    assert_eq!(map.get(1, 2, 3, 0), 1);
    assert_eq!(map.get(1, 2, 3, 1), 2);
    assert_eq!(map.get(1, 2, 3, 2), 3);
    assert_eq!(map.get(1, 2, 3, 3), 4);
    assert_eq!(map.get_r(1, 2, 3), 1);
    assert_eq!(map.get_g(1, 2, 3), 2);
    assert_eq!(map.get_b(1, 2, 3), 3);
    assert_eq!(map.get_s(1, 2, 3), 4);
}

#[test]
fn setting_a_channel_leaves_the_others() {
    let mut map = Lightmap::new();
    map.set_r(0, 0, 0, 15);
    map.set_g(0, 0, 0, 15);
    map.set_b(0, 0, 0, 15);
    map.set_s(0, 0, 0, 15);
    assert_eq!(map.map[0], 0xFFFF);
    map.set_g(0, 0, 0, 0);
    assert_eq!(map.map[0], 0xFF0F);
    map.set(0, 0, 0, 3, 7);
    assert_eq!(map.map[0], 0x7F0F);
    map.set(0, 0, 0, 0, 9);
    assert_eq!(map.map[0], 0x7F09);
    map.set_b(0, 0, 0, 1);
    assert_eq!(map.map[0], 0x7109);
    assert_eq!(map.map[1], 0);
}

#[test]
fn setting_a_voxel_leaves_the_others() {
    let mut map = Lightmap::new();
    map.set_s(15, 15, 15, 15);
    assert_eq!(map.map[4095], 0xF000);
    assert_eq!(map.get_s(15, 15, 15), 15);
    assert_eq!(map.get_s(14, 15, 15), 0);
    assert_eq!(map.get_s(15, 14, 15), 0);
    assert_eq!(map.get_s(15, 15, 14), 0);
    let lit = map.map.iter().filter(|w| **w != 0).count();
    assert_eq!(lit, 1);
}
