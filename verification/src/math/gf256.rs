//! Arithmetic in GF(2^8), the Rijndael field: bytes modulo the
//! polynomial `x^8 + x^4 + x^3 + x + 1`, with generator 3.
//!
//! Addition and subtraction are both XOR.  Multiplication and division go
//! through two 256-entry lookup tables: `EXP[i] = 3^(i mod 255)` and
//! `LOG[v]` = the discrete log of `v` base 3, for `v` in `1..=255`.  Each
//! table is held as 32 words of 8 bytes, least-significant byte first, so
//! that the field laws can be settled by the bit-vector solver.

use vstd::arithmetic::div_mod::{
    lemma_add_mod_noop_right, lemma_mod_add_multiples_vanish, lemma_mod_bound, lemma_small_mod,
};
use vstd::prelude::*;

use crate::error::{PPHError, PPHErrorKind};

verus! {

/// The eight `EXP` entries `EXP[8w] ..= EXP[8w + 7]`, packed into one word,
/// `EXP[8w]` in the least significant byte.
pub closed spec fn exp_word(w: u8) -> u64 {
    if w == 0 {
        0xff55_3311_0f05_0301u64
    } else if w == 1 {
        0x3513_f8a1_9672_2e1au64
    } else if w == 2 {
        0xa495_73d8_4838_e15fu64
    } else if w == 3 {
        0xaa66_221e_0a06_02f7u64
    } else if w == 4 {
        0x26eb_5937_e45c_34e5u64
    } else if w == 5 {
        0x31e6_ab90_70d9_be6au64
    } else if w == 6 {
        0xcc44_3c14_0c04_f553u64
    } else if w == 7 {
        0xcdb2_6ed3_b868_d14fu64
    } else if w == 8 {
        0xd74d_3be0_a967_d44cu64
    } else if w == 9 {
        0x8878_2818_08f1_a662u64
    } else if w == 10 {
        0x7fdc_bd6b_d0b9_9e83u64
    } else if w == 11 {
        0x9a76_db49_ceb3_9881u64
    } else if w == 12 {
        0xf050_3010_f957_c4b5u64
    } else if w == 13 {
        0xa361_d6bb_6927_1d0bu64
    } else if w == 14 {
        0xecad_9287_7d2b_19feu64
    } else if w == 15 {
        0xa060_20e9_ae93_712fu64
    } else if w == 16 {
        0xc2b7_6dd2_4e3a_16fbu64
    } else if w == 17 {
        0x413f_15fa_5632_e75du64
    } else if w == 18 {
        0xc040_c947_3de2_5ec3u64
    } else if w == 19 {
        0x75da_bf9c_742c_ed5bu64
    } else if w == 20 {
        0x7e2a_efac_64d5_ba9fu64
    } else if w == 21 {
        0x8089_8e7a_dfbc_9d82u64
    } else if w == 22 {
        0xaf65_23e8_58c1_b69bu64
    } else if w == 23 {
        0x54c5_43c8_b16f_25eau64
    } else if w == 24 {
        0x0907_f4a5_6321_1ffcu64
    } else if w == 25 {
        0xca46_cbb0_9977_2d1bu64
    } else if w == 26 {
        0x9186_8b79_de4a_cf45u64
    } else if w == 27 {
        0x0ef3_51c6_423e_e3a8u64
    } else if w == 28 {
        0x8c8d_7b29_ee5a_3612u64
    } else if w == 29 {
        0x170d_f2a7_9485_8a8fu64
    } else if w == 30 {
        0xfda2_9784_7cdd_4b39u64
    } else if w == 31 {
        0x01f6_52c7_b46c_241cu64
    } else {
        0
    }
}

/// The eight `LOG` entries `LOG[8w] ..= LOG[8w + 7]`, packed into one word,
/// `LOG[8w]` in the least significant byte.  `LOG[0]` is unused and holds 0.
pub closed spec fn log_word(w: u8) -> u64 {
    if w == 0 {
        0xc61a_0232_0119_0000u64
    } else if w == 1 {
        0x03df_ee33_681b_c74bu64
    } else if w == 2 {
        0xef81_8d34_0ee0_0464u64
    } else if w == 3 {
        0xc11c_69f8_c808_714cu64
    } else if w == 4 {
        0x6a27_b9f9_b51d_c27du64
    } else if w == 5 {
        0x7809_c99a_72a6_e44du64
    } else if w == 6 {
        0x24e1_0f21_058a_2f65u64
    } else if w == 7 {
        0x8eda_9335_4582_f012u64
    } else if w == 8 {
        0x94ce_d036_bddb_8f96u64
    } else if w == 9 {
        0x3883_4640_f1d2_5c13u64
    } else if w == 10 {
        0x628b_06bf_30fd_dd66u64
    } else if w == 11 {
        0x1091_8822_98e2_25b3u64
    } else if w == 12 {
        0x421e_b6a3_c348_6e7eu64
    } else if w == 13 {
        0xba3d_85fa_5428_6b3au64
    } else if w == 14 {
        0xca5e_9f9b_150a_792bu64
    } else if w == 15 {
        0x57a7_73f3_e5ac_d44eu64
    } else if w == 16 {
        0x74d6_eaf4_50a8_58afu64
    } else if w == 17 {
        0xe8ad_e6e7_d5e9_ae4fu64
    } else if w == 18 {
        0xf50b_16eb_7a75_d72cu64
    } else if w == 19 {
        0xa051_a99c_b05f_cb59u64
    } else if w == 20 {
        0xec49_c417_6ff6_0c7fu64
    } else if w == 21 {
        0xb77b_76a4_2d1f_43d8u64
    } else if w == 22 {
        0x86b1_60fb_5a3e_bbccu64
    } else if w == 23 {
        0x9d29_55aa_6ca1_523bu64
    } else if w == 24 {
        0xfcdc_be61_9087_b297u64
    } else if w == 25 {
        0xd15b_3f37_cdcf_95bcu64
    } else if w == 26 {
        0x476d_a241_3c84_3953u64
    } else if w == 27 {
        0xabd3_f256_5d9e_2a14u64
    } else if w == 28 {
        0x892e_2023_d992_1144u64
    } else if w == 29 {
        0xa5e3_9977_26b8_7cb4u64
    } else if w == 30 {
        0x18fe_31c5_deed_4a67u64
    } else if w == 31 {
        0x0770_f7c0_808c_630du64
    } else {
        0
    }
}

/// Byte `k` (from the least significant end) of `w`.
pub closed spec fn word_byte(w: u64, k: u8) -> u8 {
    ((w >> ((k as u64) * 8)) & 0xff) as u8
}

/// `EXP[i] = 3^(i mod 255)`; `EXP[0] == EXP[255] == 1`.
pub closed spec fn exp_at(i: u8) -> u8 {
    word_byte(exp_word(i >> 3), i & 7)
}

/// `LOG[v]` = discrete log of `v` base 3, for `v` in `1..=255`.
pub closed spec fn log_at(v: u8) -> u8 {
    word_byte(log_word(v >> 3), v & 7)
}

/// Product of two field elements: 0 if either factor is 0, else
/// `EXP[(LOG[a] + LOG[b]) mod 255]`.
pub closed spec fn gf_mul_spec(a: u8, b: u8) -> u8 {
    if a == 0 || b == 0 {
        0
    } else {
        exp_at((((log_at(a) as u16) + (log_at(b) as u16)) % 255) as u8)
    }
}

/// Quotient of two field elements, meaningful for `b != 0`: 0 if `a == 0`,
/// else `EXP[(LOG[a] - LOG[b]) mod 255]`.
pub closed spec fn gf_div_spec(a: u8, b: u8) -> u8 {
    if a == 0 {
        0
    } else {
        exp_at(((((log_at(a) as u16) + 255) - (log_at(b) as u16)) % 255) as u8)
    }
}

/// Sum (and difference) of two field elements: XOR.
pub open spec fn gf_add_spec(a: u8, b: u8) -> u8 {
    a ^ b
}

/// The `EXP` word holding entries `8w ..= 8w + 7`.
fn exp_word_x(w: u8) -> (r: u64)
    ensures
        r == exp_word(w),
{
    if w == 0 {
        0xff55_3311_0f05_0301u64
    } else if w == 1 {
        0x3513_f8a1_9672_2e1au64
    } else if w == 2 {
        0xa495_73d8_4838_e15fu64
    } else if w == 3 {
        0xaa66_221e_0a06_02f7u64
    } else if w == 4 {
        0x26eb_5937_e45c_34e5u64
    } else if w == 5 {
        0x31e6_ab90_70d9_be6au64
    } else if w == 6 {
        0xcc44_3c14_0c04_f553u64
    } else if w == 7 {
        0xcdb2_6ed3_b868_d14fu64
    } else if w == 8 {
        0xd74d_3be0_a967_d44cu64
    } else if w == 9 {
        0x8878_2818_08f1_a662u64
    } else if w == 10 {
        0x7fdc_bd6b_d0b9_9e83u64
    } else if w == 11 {
        0x9a76_db49_ceb3_9881u64
    } else if w == 12 {
        0xf050_3010_f957_c4b5u64
    } else if w == 13 {
        0xa361_d6bb_6927_1d0bu64
    } else if w == 14 {
        0xecad_9287_7d2b_19feu64
    } else if w == 15 {
        0xa060_20e9_ae93_712fu64
    } else if w == 16 {
        0xc2b7_6dd2_4e3a_16fbu64
    } else if w == 17 {
        0x413f_15fa_5632_e75du64
    } else if w == 18 {
        0xc040_c947_3de2_5ec3u64
    } else if w == 19 {
        0x75da_bf9c_742c_ed5bu64
    } else if w == 20 {
        0x7e2a_efac_64d5_ba9fu64
    } else if w == 21 {
        0x8089_8e7a_dfbc_9d82u64
    } else if w == 22 {
        0xaf65_23e8_58c1_b69bu64
    } else if w == 23 {
        0x54c5_43c8_b16f_25eau64
    } else if w == 24 {
        0x0907_f4a5_6321_1ffcu64
    } else if w == 25 {
        0xca46_cbb0_9977_2d1bu64
    } else if w == 26 {
        0x9186_8b79_de4a_cf45u64
    } else if w == 27 {
        0x0ef3_51c6_423e_e3a8u64
    } else if w == 28 {
        0x8c8d_7b29_ee5a_3612u64
    } else if w == 29 {
        0x170d_f2a7_9485_8a8fu64
    } else if w == 30 {
        0xfda2_9784_7cdd_4b39u64
    } else if w == 31 {
        0x01f6_52c7_b46c_241cu64
    } else {
        0
    }
}

/// The `LOG` word holding entries `8w ..= 8w + 7`.
fn log_word_x(w: u8) -> (r: u64)
    ensures
        r == log_word(w),
{
    if w == 0 {
        0xc61a_0232_0119_0000u64
    } else if w == 1 {
        0x03df_ee33_681b_c74bu64
    } else if w == 2 {
        0xef81_8d34_0ee0_0464u64
    } else if w == 3 {
        0xc11c_69f8_c808_714cu64
    } else if w == 4 {
        0x6a27_b9f9_b51d_c27du64
    } else if w == 5 {
        0x7809_c99a_72a6_e44du64
    } else if w == 6 {
        0x24e1_0f21_058a_2f65u64
    } else if w == 7 {
        0x8eda_9335_4582_f012u64
    } else if w == 8 {
        0x94ce_d036_bddb_8f96u64
    } else if w == 9 {
        0x3883_4640_f1d2_5c13u64
    } else if w == 10 {
        0x628b_06bf_30fd_dd66u64
    } else if w == 11 {
        0x1091_8822_98e2_25b3u64
    } else if w == 12 {
        0x421e_b6a3_c348_6e7eu64
    } else if w == 13 {
        0xba3d_85fa_5428_6b3au64
    } else if w == 14 {
        0xca5e_9f9b_150a_792bu64
    } else if w == 15 {
        0x57a7_73f3_e5ac_d44eu64
    } else if w == 16 {
        0x74d6_eaf4_50a8_58afu64
    } else if w == 17 {
        0xe8ad_e6e7_d5e9_ae4fu64
    } else if w == 18 {
        0xf50b_16eb_7a75_d72cu64
    } else if w == 19 {
        0xa051_a99c_b05f_cb59u64
    } else if w == 20 {
        0xec49_c417_6ff6_0c7fu64
    } else if w == 21 {
        0xb77b_76a4_2d1f_43d8u64
    } else if w == 22 {
        0x86b1_60fb_5a3e_bbccu64
    } else if w == 23 {
        0x9d29_55aa_6ca1_523bu64
    } else if w == 24 {
        0xfcdc_be61_9087_b297u64
    } else if w == 25 {
        0xd15b_3f37_cdcf_95bcu64
    } else if w == 26 {
        0x476d_a241_3c84_3953u64
    } else if w == 27 {
        0xabd3_f256_5d9e_2a14u64
    } else if w == 28 {
        0x892e_2023_d992_1144u64
    } else if w == 29 {
        0xa5e3_9977_26b8_7cb4u64
    } else if w == 30 {
        0x18fe_31c5_deed_4a67u64
    } else if w == 31 {
        0x0770_f7c0_808c_630du64
    } else {
        0
    }
}

/// `EXP[i]`, unpacked from the word table.
fn exp_at_x(i: u8) -> (r: u8)
    ensures
        r == exp_at(i),
{
    let w = exp_word_x(i >> 3);
    let k = i & 7;
    proof {
        assert(i & 7 < 8) by (bit_vector);
        assert((w >> ((k as u64) * 8)) & 0xff < 256) by (bit_vector);
    }
    ((w >> ((k as u64) * 8)) & 0xff) as u8
}

/// `LOG[v]`, unpacked from the word table.
fn log_at_x(v: u8) -> (r: u8)
    ensures
        r == log_at(v),
{
    let w = log_word_x(v >> 3);
    let k = v & 7;
    proof {
        assert(v & 7 < 8) by (bit_vector);
        assert((w >> ((k as u64) * 8)) & 0xff < 256) by (bit_vector);
    }
    ((w >> ((k as u64) * 8)) & 0xff) as u8
}

/// Field addition: XOR of the two bytes.
pub fn gf_add(a: u8, b: u8) -> (r: u8)
    ensures
        r == gf_add_spec(a, b),
{
    a ^ b
}

/// Field subtraction: identical to addition, since every element is its own
/// additive inverse.
pub fn gf_sub(a: u8, b: u8) -> (r: u8)
    ensures
        r == gf_add_spec(a, b),
{
    a ^ b
}

/// Field multiplication through the lookup tables.
pub fn gf_mul(a: u8, b: u8) -> (r: u8)
    ensures
        r == gf_mul_spec(a, b),
{
    if a == 0 || b == 0 {
        return 0;
    }
    let la = log_at_x(a) as u16;
    let lb = log_at_x(b) as u16;
    exp_at_x(((la + lb) % 255) as u8)
}

/// Field division for a nonzero divisor.
pub(crate) fn gf_div_nz(a: u8, b: u8) -> (r: u8)
    requires
        b != 0,
    ensures
        r == gf_div_spec(a, b),
{
    if a == 0 {
        return 0;
    }
    let la = log_at_x(a) as u16;
    let lb = log_at_x(b) as u16;
    exp_at_x(((la + 255 - lb) % 255) as u8)
}

/// Field division.  `a / 0` is rejected with a `ShardError`; `0 / b` is 0.
pub fn gf_div(a: u8, b: u8) -> (r: Result<u8, PPHError>)
    ensures
        b != 0 ==> (r matches Ok(q) && q == gf_div_spec(a, b)),
        b == 0 ==> (r matches Err(e) && e.kind == PPHErrorKind::ShardError),
{
    if b == 0 {
        return Err(PPHError::new(PPHErrorKind::ShardError, "division by zero"));
    }
    Ok(gf_div_nz(a, b))
}

/// Law: field addition is associative.
pub proof fn lemma_gf_add_assoc(a: u8, b: u8, c: u8)
    ensures
        gf_add_spec(a, gf_add_spec(b, c)) == gf_add_spec(gf_add_spec(a, b), c),
{
    assert((a ^ (b ^ c)) == ((a ^ b) ^ c)) by (bit_vector);
}

/// Law: 0 is the additive identity, and every element is its own additive
/// inverse.
pub proof fn lemma_gf_add_identity(a: u8)
    ensures
        gf_add_spec(a, 0) == a,
        gf_add_spec(a, a) == 0,
{
    assert((a ^ 0) == a) by (bit_vector);
    assert((a ^ a) == 0) by (bit_vector);
}

/// Law: 1 is the multiplicative identity.
pub proof fn lemma_gf_mul_one(a: u8)
    ensures
        gf_mul_spec(a, 1) == a,
{
    assert(gf_mul_spec(a, 1) == a) by (bit_vector);
}

/// Law: 0 is absorbing for multiplication.
pub proof fn lemma_gf_mul_zero(a: u8)
    ensures
        gf_mul_spec(a, 0) == 0,
        gf_mul_spec(0, a) == 0,
{
}

/// `LOG` inverts `EXP` on `0..255`.
proof fn lemma_log_exp(i: u8)
    requires
        i < 255,
    ensures
        log_at(exp_at(i)) == i,
{
    assert(i < 255 ==> log_at(exp_at(i)) == i) by (bit_vector);
}

/// `EXP` inverts `LOG` on the nonzero bytes.
proof fn lemma_exp_log(v: u8)
    requires
        v != 0,
    ensures
        exp_at(log_at(v)) == v,
{
    assert(v != 0 ==> exp_at(log_at(v)) == v) by (bit_vector);
}

/// Every `LOG` entry is below 255.
proof fn lemma_log_small(v: u8)
    ensures
        log_at(v) < 255,
{
    assert(log_at(v) < 255) by (bit_vector);
}

/// No `EXP` entry is 0: powers of the generator are invertible.
proof fn lemma_exp_nonzero(i: u8)
    ensures
        exp_at(i) != 0,
{
    assert(exp_at(i) != 0) by (bit_vector);
}

/// Law: for `b != 0`, `(a / b) * b == a`: division inverts multiplication.
pub proof fn lemma_gf_div_mul(a: u8, b: u8)
    requires
        b != 0,
    ensures
        gf_mul_spec(gf_div_spec(a, b), b) == a,
{
    if a != 0 {
        let la = log_at(a) as int;
        let lb = log_at(b) as int;
        lemma_log_small(a);
        lemma_log_small(b);
        let t = ((la + 255) - lb) % 255;
        lemma_mod_bound((la + 255) - lb, 255);
        let d = exp_at(t as u8);
        assert(gf_div_spec(a, b) == d);
        lemma_exp_nonzero(t as u8);
        lemma_log_exp(t as u8);
        assert(log_at(d) == t as u8);
        assert(gf_mul_spec(d, b) == exp_at((((log_at(d) as u16) + (log_at(b) as u16))
            % 255) as u8));
        lemma_add_mod_noop_right(lb, (la + 255) - lb, 255);
        assert((lb + t) % 255 == (lb + ((la + 255) - lb)) % 255);
        lemma_mod_add_multiples_vanish(la, 255);
        assert((la + 255) % 255 == la % 255);
        lemma_small_mod(la as nat, 255);
        assert((t + lb) % 255 == la);
        lemma_exp_log(a);
        assert(exp_at(la as u8) == a);
    }
}

} // verus!
