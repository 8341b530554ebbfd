use linc::keys::KeyT;
use linc::sbox::{dot_product_f2, present_sbox};
use linc::state::{permute_block, StateT};
use linc::walsh::dot_prod_f2;

#[test]
fn test_round_composes_layers() {
    let mut k = KeyT::new(0x0123_4567_89ab_cdef, 0x5a5a);
    k.keyschedule(2);
    let m: u64 = 0xdead_beef_0bad_f00d;
    let r = StateT(m).round(&k, 0);
    let expected = permute_block(present_sbox().look_up_state(m ^ k.subkey(0).round_key()));
    assert_eq!(r.0, expected);

    let layered = StateT(m).kxor_layer(&k, 0).sbox_layer().perm_layer();
    assert_eq!(layered.0, expected);
}

#[test]
fn test_dot_products() {
    // Parity of the bitwise AND, over bytes and over full words.
    assert_eq!(dot_product_f2(0xff, 0xff), 0);
    assert_eq!(dot_product_f2(0x01, 0x01), 1);
    assert_eq!(dot_product_f2(0x0f, 0x07), 1);
    assert_eq!(dot_product_f2(0xa5, 0x5a), 0);
    assert_eq!(dot_prod_f2(u64::MAX, u64::MAX), 0);
    assert_eq!(dot_prod_f2(1, 1), 1);
    assert_eq!(dot_prod_f2(0x8000_0000_0000_0001, 0xffff_ffff_ffff_ffff), 0);
    assert_eq!(dot_prod_f2(0x7, 0x6), 0);
    assert_eq!(dot_prod_f2(0x7, 0x4), 1);
}

#[test]
fn test_permute_block_moves_bits() {
    // The transpose sends bit i to bit (i % 4) * 16 + i / 4.
    for i in 0..64u64 {
        let dest = (i % 4) * 16 + i / 4;
        assert_eq!(permute_block(1u64 << i), 1u64 << dest);
    }
}
