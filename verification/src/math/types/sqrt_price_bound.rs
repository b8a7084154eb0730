//! Facts about the square-root-price chain: every tick in range yields a
//! price inside `[MIN_SQRT_PRICE, MAX_SQRT_PRICE]`.
use crate::math::consts::{MAX_SQRT_PRICE, MAX_TICK, SQRT_PRICE_ONE};
use vstd::arithmetic::div_mod::*;
use vstd::arithmetic::power2::*;
use vstd::bits::*;
use vstd::prelude::*;

verus! {

/// Factor by which bit `k` of the absolute tick multiplies the price:
/// sqrt(1.0001)^(2^k), scaled by 10^24 and truncated.
pub open spec fn sqrt_price_factor(k: nat) -> nat {
    if k == 0 {
        1000049998750062496094023
    } else if k == 1 {
        1000100000000000000000000
    } else if k == 2 {
        1000200010000000000000000
    } else if k == 3 {
        1000400060004000100000000
    } else if k == 4 {
        1000800280056007000560028
    } else if k == 5 {
        1001601200560182043688009
    } else if k == 6 {
        1003204964963598014666528
    } else if k == 7 {
        1006420201727613920156533
    } else if k == 8 {
        1012881622445451097078095
    } else if k == 9 {
        1025929181087729343658708
    } else if k == 10 {
        1052530684607338948386589
    } else if k == 11 {
        1107820842039993613899215
    } else if k == 12 {
        1227267018058200482050503
    } else if k == 13 {
        1506184333613467388107955
    } else if k == 14 {
        2268591246822644826925609
    } else if k == 15 {
        5146506245160322222537991
    } else if k == 16 {
        26486526531474198664033811
    } else if k == 17 {
        701536087702486644953017488
    } else if k == 18 {
        492152882348911033633683861778
    } else {
        242214459604341065650571799093539783
    }
}

/// Bit `k` of `t`.
pub open spec fn tick_bit(t: nat, k: nat) -> bool {
    (t / pow2(k)) % 2 == 1
}

/// Price after applying the factors of the bits `0 .. k` of `t`, in that
/// order, each product rounded down to the 10^24 scale.
pub open spec fn sqrt_price_chain(t: nat, k: nat) -> nat
    decreases k,
{
    if k == 0 {
        SQRT_PRICE_ONE as nat
    } else {
        let v = sqrt_price_chain(t, (k - 1) as nat);
        if tick_bit(t, (k - 1) as nat) {
            v * sqrt_price_factor((k - 1) as nat) / (SQRT_PRICE_ONE as nat)
        } else {
            v
        }
    }
}

pub proof fn lemma_div_exact(x: nat, d: nat, q: nat, r: nat)
    requires
        d > 0,
        x == q * d + r,
        r < d,
    ensures
        x / d == q,
{
    lemma_fundamental_div_mod_converse(x as int, d as int, q as int, r as int);
}

pub proof fn lemma_tick_bit_of(t: nat, k: nat, a: nat, b: nat, lo: nat)
    requires
        b <= 1,
        lo < pow2(k),
        t == (2 * a + b) * pow2(k) + lo,
    ensures
        tick_bit(t, k) == (b == 1),
{
    lemma_pow2_pos(k);
    lemma_fundamental_div_mod_converse(t as int, pow2(k) as int, (2 * a + b) as int, lo as int);
    lemma_fundamental_div_mod_converse((2 * a + b) as int, 2, a as int, b as int);
}

proof fn lemma_factor_ge_one(k: nat)
    ensures
        sqrt_price_factor(k) >= SQRT_PRICE_ONE,
{
}

/// Every partial chain is at least 1 (10^24).
pub proof fn lemma_chain_ge_one(t: nat, k: nat)
    ensures
        sqrt_price_chain(t, k) >= SQRT_PRICE_ONE,
    decreases k,
{
    if k > 0 {
        lemma_chain_step(t, (k - 1) as nat);
    }
}

/// Applying one more bit never lowers the price.
pub proof fn lemma_chain_step(t: nat, k: nat)
    ensures
        sqrt_price_chain(t, k) <= sqrt_price_chain(t, k + 1),
        sqrt_price_chain(t, k) >= SQRT_PRICE_ONE,
    decreases k,
{
    if k > 0 {
        lemma_chain_step(t, (k - 1) as nat);
    }
    let v = sqrt_price_chain(t, k);
    let f = sqrt_price_factor(k);
    let one = SQRT_PRICE_ONE as nat;
    lemma_factor_ge_one(k);
    assert(v * one <= v * f) by (nonlinear_arith)
        requires f >= one;
    lemma_div_is_ordered((v * one) as int, (v * f) as int, one as int);
    lemma_div_multiples_vanish(v as int, one as int);
    assert(v * one / one == v) by (nonlinear_arith)
        requires one * v / one == v;
}

/// Monotonicity in the number of processed bits.
pub proof fn lemma_chain_mono_k(t: nat, k: nat, n: nat)
    requires
        k <= n,
    ensures
        sqrt_price_chain(t, k) <= sqrt_price_chain(t, n),
    decreases n - k,
{
    if k < n {
        lemma_chain_step(t, k);
        lemma_chain_mono_k(t, k + 1, n);
    }
}

proof fn lemma_mul_div_mono(v: nat, w: nat, f: nat, d: nat)
    requires
        v <= w,
        d > 0,
    ensures
        v * f / d <= w * f / d,
{
    assert(v * f <= w * f) by (nonlinear_arith)
        requires v <= w;
    lemma_div_is_ordered((v * f) as int, (w * f) as int, d as int);
}

/// A tick whose set bits (below `n`) are all set in `t2` never gets a
/// higher partial price than `t2`.
pub proof fn lemma_chain_subset(t: nat, t2: nat, n: nat)
    requires
        forall|k: nat| k < n && tick_bit(t, k) ==> tick_bit(t2, k),
    ensures
        sqrt_price_chain(t, n) <= sqrt_price_chain(t2, n),
    decreases n,
{
    if n > 0 {
        let k = (n - 1) as nat;
        lemma_chain_subset(t, t2, k);
        let v = sqrt_price_chain(t, k);
        let w = sqrt_price_chain(t2, k);
        let one = SQRT_PRICE_ONE as nat;
        lemma_mul_div_mono(v, w, sqrt_price_factor(k), one);
        lemma_chain_step(t2, k);
    }
}

/// Two ticks that agree on bits `p + 1 ..` keep the order of their prices at bit `p + 1`.
pub proof fn lemma_chain_same_top(t: nat, t2: nat, p: nat, n: nat)
    requires
        p + 1 <= n,
        forall|k: nat| p < k < n ==> tick_bit(t, k) == tick_bit(t2, k),
        sqrt_price_chain(t, p + 1) <= sqrt_price_chain(t2, p + 1),
    ensures
        sqrt_price_chain(t, n) <= sqrt_price_chain(t2, n),
    decreases n,
{
    if n > p + 1 {
        let k = (n - 1) as nat;
        lemma_chain_same_top(t, t2, p, k);
        lemma_mul_div_mono(
            sqrt_price_chain(t, k),
            sqrt_price_chain(t2, k),
            sqrt_price_factor(k),
            SQRT_PRICE_ONE as nat,
        );
    }
}

pub(crate) proof fn lemma_chain_values_max_tick()
    ensures
        sqrt_price_chain(665455, 20) == 281481114768267672330495791029795421271nat,
        tick_bit(665455, 0) == true,
        tick_bit(665455, 1) == true,
        tick_bit(665455, 2) == true,
        tick_bit(665455, 3) == true,
        tick_bit(665455, 4) == false,
        tick_bit(665455, 5) == true,
        tick_bit(665455, 6) == true,
        tick_bit(665455, 7) == false,
        tick_bit(665455, 8) == true,
        tick_bit(665455, 9) == true,
        tick_bit(665455, 10) == true,
        tick_bit(665455, 11) == false,
        tick_bit(665455, 12) == false,
        tick_bit(665455, 13) == true,
        tick_bit(665455, 14) == false,
        tick_bit(665455, 15) == false,
        tick_bit(665455, 16) == false,
        tick_bit(665455, 17) == true,
        tick_bit(665455, 18) == false,
        tick_bit(665455, 19) == true,
{
    lemma2_to64();
    assert(sqrt_price_chain(665455, 0) == 1000000000000000000000000nat);
    lemma_tick_bit_of(665455, 0, 332727, 1, 0);
    lemma_div_exact(1000000000000000000000000nat * 1000049998750062496094023nat, 1000000000000000000000000nat, 1000049998750062496094023nat, 0nat);
    assert(sqrt_price_chain(665455, 1) == 1000049998750062496094023nat);
    lemma_tick_bit_of(665455, 1, 166363, 1, 1);
    lemma_div_exact(1000049998750062496094023nat * 1000100000000000000000000nat, 1000000000000000000000000nat, 1000150003749937502343632nat, 402300000000000000000000nat);
    assert(sqrt_price_chain(665455, 2) == 1000150003749937502343632nat);
    lemma_tick_bit_of(665455, 2, 83181, 1, 3);
    lemma_div_exact(1000150003749937502343632nat * 1000200010000000000000000nat, 1000000000000000000000000nat, 1000350043752187527343475nat, 749836320000000000000000nat);
    assert(sqrt_price_chain(665455, 3) == 1000350043752187527343475nat);
    lemma_tick_bit_of(665455, 3, 41590, 1, 7);
    lemma_div_exact(1000350043752187527343475nat * 1000400060004000100000000nat, 1000000000000000000000000nat, 1000750243794692527695677nat, 155936626634347500000000nat);
    assert(sqrt_price_chain(665455, 4) == 1000750243794692527695677nat);
    lemma_tick_bit_of(665455, 4, 20795, 0, 15);
    assert(sqrt_price_chain(665455, 5) == 1000750243794692527695677nat);
    lemma_tick_bit_of(665455, 5, 10397, 1, 15);
    lemma_div_exact(1000750243794692527695677nat * 1001601200560182043688009nat, 1000000000000000000000000nat, 1002352645645658906161207nat, 425216741035415486037093nat);
    assert(sqrt_price_chain(665455, 6) == 1002352645645658906161207nat);
    lemma_tick_bit_of(665455, 6, 5198, 1, 47);
    lemma_div_exact(1002352645645658906161207nat * 1003204964963598014666528nat, 1000000000000000000000000nat, 1005565150756123019051631nat, 820526809168448714979296nat);
    assert(sqrt_price_chain(665455, 7) == 1005565150756123019051631nat);
    lemma_tick_bit_of(665455, 7, 2599, 0, 111);
    assert(sqrt_price_chain(665455, 8) == 1005565150756123019051631nat);
    lemma_tick_bit_of(665455, 8, 1299, 1, 111);
    lemma_div_exact(1005565150756123019051631nat * 1012881622445451097078095nat, 1000000000000000000000000nat, 1018518461372466509556367nat, 897777282355762044122945nat);
    assert(sqrt_price_chain(665455, 9) == 1018518461372466509556367nat);
    lemma_tick_bit_of(665455, 9, 649, 1, 367);
    lemma_div_exact(1018518461372466509556367nat * 1025929181087729343658708nat, 1000000000000000000000000nat, 1044927810998588658219575nat, 893472044967953736393836nat);
    assert(sqrt_price_chain(665455, 10) == 1044927810998588658219575nat);
    lemma_tick_bit_of(665455, 10, 324, 1, 879);
    lemma_div_exact(1044927810998588658219575nat * 1052530684607338948386589nat, 1000000000000000000000000nat, 1099818584275592601342274nat, 759633241624299547279675nat);
    assert(sqrt_price_chain(665455, 11) == 1099818584275592601342274nat);
    lemma_tick_bit_of(665455, 11, 162, 0, 1903);
    assert(sqrt_price_chain(665455, 12) == 1099818584275592601342274nat);
    lemma_tick_bit_of(665455, 12, 81, 0, 1903);
    assert(sqrt_price_chain(665455, 13) == 1099818584275592601342274nat);
    lemma_tick_bit_of(665455, 13, 40, 1, 1903);
    lemma_div_exact(1099818584275592601342274nat * 1506184333613467388107955nat, 1000000000000000000000000nat, 1656529521452840564720584nat, 449956283724038217189670nat);
    assert(sqrt_price_chain(665455, 14) == 1656529521452840564720584nat);
    lemma_tick_bit_of(665455, 14, 20, 0, 10095);
    assert(sqrt_price_chain(665455, 15) == 1656529521452840564720584nat);
    lemma_tick_bit_of(665455, 15, 10, 0, 10095);
    assert(sqrt_price_chain(665455, 16) == 1656529521452840564720584nat);
    lemma_tick_bit_of(665455, 16, 5, 0, 10095);
    assert(sqrt_price_chain(665455, 17) == 1656529521452840564720584nat);
    lemma_tick_bit_of(665455, 17, 2, 1, 10095);
    lemma_div_exact(1656529521452840564720584nat * 701536087702486644953017488nat, 1000000000000000000000000nat, 1162115239643698190599982323nat, 625264077334608385572992nat);
    assert(sqrt_price_chain(665455, 18) == 1162115239643698190599982323nat);
    lemma_tick_bit_of(665455, 18, 1, 0, 141167);
    assert(sqrt_price_chain(665455, 19) == 1162115239643698190599982323nat);
    lemma_tick_bit_of(665455, 19, 0, 1, 141167);
    lemma_div_exact(1162115239643698190599982323nat * 242214459604341065650571799093539783nat, 1000000000000000000000000nat, 281481114768267672330495791029795421271nat, 933910308524063297255909nat);
    assert(sqrt_price_chain(665455, 20) == 281481114768267672330495791029795421271nat);
}

proof fn lemma_chain_values_all_ones()
    ensures
        sqrt_price_chain(1048575, 0) <= sqrt_price_factor(0),
        sqrt_price_chain(1048575, 1) <= sqrt_price_factor(1),
        sqrt_price_chain(1048575, 2) <= sqrt_price_factor(2),
        sqrt_price_chain(1048575, 3) <= sqrt_price_factor(3),
        sqrt_price_chain(1048575, 4) <= sqrt_price_factor(4),
        sqrt_price_chain(1048575, 5) <= sqrt_price_factor(5),
        sqrt_price_chain(1048575, 6) <= sqrt_price_factor(6),
        sqrt_price_chain(1048575, 7) <= sqrt_price_factor(7),
        sqrt_price_chain(1048575, 8) <= sqrt_price_factor(8),
        sqrt_price_chain(1048575, 9) <= sqrt_price_factor(9),
        sqrt_price_chain(1048575, 10) <= sqrt_price_factor(10),
        sqrt_price_chain(1048575, 11) <= sqrt_price_factor(11),
        sqrt_price_chain(1048575, 12) <= sqrt_price_factor(12),
        sqrt_price_chain(1048575, 13) <= sqrt_price_factor(13),
        sqrt_price_chain(1048575, 14) <= sqrt_price_factor(14),
        sqrt_price_chain(1048575, 15) <= sqrt_price_factor(15),
        sqrt_price_chain(1048575, 16) <= sqrt_price_factor(16),
        sqrt_price_chain(1048575, 17) <= sqrt_price_factor(17),
        sqrt_price_chain(1048575, 18) <= sqrt_price_factor(18),
        sqrt_price_chain(1048575, 19) <= sqrt_price_factor(19),
        sqrt_price_chain(1048575, 0) * 1000040 <= sqrt_price_factor(0) * 1000000,
        sqrt_price_chain(1048575, 1) * 1000040 <= sqrt_price_factor(1) * 1000000,
        sqrt_price_chain(1048575, 2) * 1000040 <= sqrt_price_factor(2) * 1000000,
        sqrt_price_chain(1048575, 3) * 1000040 <= sqrt_price_factor(3) * 1000000,
        sqrt_price_chain(1048575, 4) * 1000040 <= sqrt_price_factor(4) * 1000000,
        sqrt_price_chain(1048575, 5) * 1000040 <= sqrt_price_factor(5) * 1000000,
        sqrt_price_chain(1048575, 6) * 1000040 <= sqrt_price_factor(6) * 1000000,
        sqrt_price_chain(1048575, 7) * 1000040 <= sqrt_price_factor(7) * 1000000,
        sqrt_price_chain(1048575, 8) * 1000040 <= sqrt_price_factor(8) * 1000000,
        sqrt_price_chain(1048575, 9) * 1000040 <= sqrt_price_factor(9) * 1000000,
        sqrt_price_chain(1048575, 10) * 1000040 <= sqrt_price_factor(10) * 1000000,
        sqrt_price_chain(1048575, 11) * 1000040 <= sqrt_price_factor(11) * 1000000,
        sqrt_price_chain(1048575, 12) * 1000040 <= sqrt_price_factor(12) * 1000000,
        sqrt_price_chain(1048575, 13) * 1000040 <= sqrt_price_factor(13) * 1000000,
        sqrt_price_chain(1048575, 14) * 1000040 <= sqrt_price_factor(14) * 1000000,
        sqrt_price_chain(1048575, 15) * 1000040 <= sqrt_price_factor(15) * 1000000,
        sqrt_price_chain(1048575, 16) * 1000040 <= sqrt_price_factor(16) * 1000000,
        sqrt_price_chain(1048575, 17) * 1000040 <= sqrt_price_factor(17) * 1000000,
        sqrt_price_chain(1048575, 18) * 1000040 <= sqrt_price_factor(18) * 1000000,
        sqrt_price_chain(1048575, 19) * 1000040 <= sqrt_price_factor(19) * 1000000,
        tick_bit(1048575, 0),
        tick_bit(1048575, 1),
        tick_bit(1048575, 2),
        tick_bit(1048575, 3),
        tick_bit(1048575, 4),
        tick_bit(1048575, 5),
        tick_bit(1048575, 6),
        tick_bit(1048575, 7),
        tick_bit(1048575, 8),
        tick_bit(1048575, 9),
        tick_bit(1048575, 10),
        tick_bit(1048575, 11),
        tick_bit(1048575, 12),
        tick_bit(1048575, 13),
        tick_bit(1048575, 14),
        tick_bit(1048575, 15),
        tick_bit(1048575, 16),
        tick_bit(1048575, 17),
        tick_bit(1048575, 18),
        tick_bit(1048575, 19),
{
    lemma2_to64();
    assert(sqrt_price_chain(1048575, 0) == 1000000000000000000000000nat);
    lemma_tick_bit_of(1048575, 0, 524287, 1, 0);
    lemma_div_exact(1000000000000000000000000nat * 1000049998750062496094023nat, 1000000000000000000000000nat, 1000049998750062496094023nat, 0nat);
    assert(sqrt_price_chain(1048575, 1) == 1000049998750062496094023nat);
    lemma_tick_bit_of(1048575, 1, 262143, 1, 1);
    lemma_div_exact(1000049998750062496094023nat * 1000100000000000000000000nat, 1000000000000000000000000nat, 1000150003749937502343632nat, 402300000000000000000000nat);
    assert(sqrt_price_chain(1048575, 2) == 1000150003749937502343632nat);
    lemma_tick_bit_of(1048575, 2, 131071, 1, 3);
    lemma_div_exact(1000150003749937502343632nat * 1000200010000000000000000nat, 1000000000000000000000000nat, 1000350043752187527343475nat, 749836320000000000000000nat);
    assert(sqrt_price_chain(1048575, 3) == 1000350043752187527343475nat);
    lemma_tick_bit_of(1048575, 3, 65535, 1, 7);
    lemma_div_exact(1000350043752187527343475nat * 1000400060004000100000000nat, 1000000000000000000000000nat, 1000750243794692527695677nat, 155936626634347500000000nat);
    assert(sqrt_price_chain(1048575, 4) == 1000750243794692527695677nat);
    lemma_tick_bit_of(1048575, 4, 32767, 1, 15);
    lemma_div_exact(1000750243794692527695677nat * 1000800280056007000560028nat, 1000000000000000000000000nat, 1001551124255845563696398nat, 798320065848639354598956nat);
    assert(sqrt_price_chain(1048575, 5) == 1001551124255845563696398nat);
    lemma_tick_bit_of(1048575, 5, 16383, 1, 31);
    lemma_div_exact(1001551124255845563696398nat * 1001601200560182043688009nat, 1000000000000000000000000nat, 1003154808477054979256651nat, 282489674913814309091582nat);
    assert(sqrt_price_chain(1048575, 6) == 1003154808477054979256651nat);
    lemma_tick_bit_of(1048575, 6, 8191, 1, 63);
    lemma_div_exact(1003154808477054979256651nat * 1003204964963598014666528nat, 1000000000000000000000000nat, 1006369884491288817142860nat, 623980678601105091077728nat);
    assert(sqrt_price_chain(1048575, 7) == 1006369884491288817142860nat);
    lemma_tick_bit_of(1048575, 7, 4095, 1, 127);
    lemma_div_exact(1006369884491288817142860nat * 1006420201727613920156533nat, 1000000000000000000000000nat, 1012830982162318410880153nat, 366137414477025023304380nat);
    assert(sqrt_price_chain(1048575, 8) == 1012830982162318410880153nat);
    lemma_tick_bit_of(1048575, 8, 2047, 1, 255);
    lemma_div_exact(1012830982162318410880153nat * 1012881622445451097078095nat, 1000000000000000000000000nat, 1025877888475588811451641nat, 21989993145675526548535nat);
    assert(sqrt_price_chain(1048575, 9) == 1025877888475588811451641nat);
    lemma_tick_bit_of(1048575, 9, 1023, 1, 511);
    lemma_div_exact(1025877888475588811451641nat * 1025929181087729343658708nat, 1000000000000000000000000nat, 1052478062019769761655290nat, 122364802496015550539828nat);
    assert(sqrt_price_chain(1048575, 10) == 1052478062019769761655290nat);
    lemma_tick_bit_of(1048575, 10, 511, 1, 1023);
    lemma_div_exact(1052478062019769761655290nat * 1052530684607338948386589nat, 1000000000000000000000000nat, 1107765455151873608144601nat, 519682455339623476905810nat);
    assert(sqrt_price_chain(1048575, 11) == 1107765455151873608144601nat);
    lemma_tick_bit_of(1048575, 11, 255, 1, 2047);
    lemma_div_exact(1107765455151873608144601nat * 1107820842039993613899215nat, 1000000000000000000000000nat, 1227205659309165402356562nat, 140637482846981160388215nat);
    assert(sqrt_price_chain(1048575, 12) == 1227205659309165402356562nat);
    lemma_tick_bit_of(1048575, 12, 127, 1, 4095);
    lemma_div_exact(1227205659309165402356562nat * 1227267018058200482050503nat, 1000000000000000000000000nat, 1506109030044507324365806nat, 799319082624578097450686nat);
    assert(sqrt_price_chain(1048575, 13) == 1506109030044507324365806nat);
    lemma_tick_bit_of(1048575, 13, 63, 1, 8191);
    lemma_div_exact(1506109030044507324365806nat * 1506184333613467388107955nat, 1000000000000000000000000nat, 2268477825766811997530735nat, 590481412551536638586730nat);
    assert(sqrt_price_chain(1048575, 14) == 2268477825766811997530735nat);
    lemma_tick_bit_of(1048575, 14, 31, 1, 16383);
    lemma_div_exact(2268477825766811997530735nat * 2268591246822644826925609nat, 1000000000000000000000000nat, 5146248939145854483288519nat, 901059387009949536092615nat);
    assert(sqrt_price_chain(1048575, 15) == 5146248939145854483288519nat);
    lemma_tick_bit_of(1048575, 15, 15, 1, 32767);
    lemma_div_exact(5146248939145854483288519nat * 5146506245160322222537991nat, 1000000000000000000000000nat, 26485202304463823131763252nat, 956170649632488091625329nat);
    assert(sqrt_price_chain(1048575, 16) == 26485202304463823131763252nat);
    lemma_tick_bit_of(1048575, 16, 7, 1, 65535);
    lemma_div_exact(26485202304463823131763252nat * 26486526531474198664033811nat, 1000000000000000000000000nat, 701501013528642638658580840nat, 249369468386603375313372nat);
    assert(sqrt_price_chain(1048575, 17) == 701501013528642638658580840nat);
    lemma_tick_bit_of(1048575, 17, 3, 1, 131071);
    lemma_div_exact(701501013528642638658580840nat * 701536087702486644953017488nat, 1000000000000000000000000nat, 492128276550213112570773230315nat, 865219638393361781729920nat);
    assert(sqrt_price_chain(1048575, 18) == 492128276550213112570773230315nat);
    lemma_tick_bit_of(1048575, 18, 1, 1, 262143);
    lemma_div_exact(492128276550213112570773230315nat * 492152882348911033633683861778nat, 1000000000000000000000000nat, 242202349789589386717394754519681395nat, 930694583316513019400070nat);
    assert(sqrt_price_chain(1048575, 19) == 242202349789589386717394754519681395nat);
    lemma_tick_bit_of(1048575, 19, 0, 1, 524287);
}

/// Bits of `t` from `s` up are decided by `t / 2^s`.
proof fn lemma_high_bits_agree(t: nat, m: nat, s: nat)
    requires
        t / pow2(s) == m / pow2(s),
    ensures
        forall|k: nat| s <= k ==> tick_bit(t, k) == tick_bit(m, k),
{
    assert forall|k: nat| s <= k implies tick_bit(t, k) == tick_bit(m, k) by {
        let e = (k - s) as nat;
        lemma_pow2_pos(s);
        lemma_pow2_pos(e);
        lemma_pow2_adds(s, e);
        lemma_div_denominator(t as int, pow2(s) as int, pow2(e) as int);
        lemma_div_denominator(m as int, pow2(s) as int, pow2(e) as int);
    }
}

proof fn lemma_u32_bit(t: u32, p: u32)
    requires
        p < 32,
    ensures
        (((t >> p) & 1u32) == 1u32) == tick_bit(t as nat, p as nat),
        (t >> p) as nat == (t as nat) / pow2(p as nat),
{
    lemma_u32_shr_is_div(t, p);
    let s = t >> p;
    assert((s & 1u32) == s % 2) by (bit_vector);
}

/// Every bit of 2^20 - 1 below bit 20 is set.
proof fn lemma_all_ones_bit(k: nat)
    requires
        k < 20,
    ensures
        tick_bit(1048575, k),
{
    let e = (19 - k) as nat;
    lemma2_to64();
    lemma_pow2_pos(k);
    lemma_pow2_pos(e);
    lemma_pow2_adds(e, 1);
    lemma_pow2_adds(e + 1, k);
    assert((e + 1 + k) as nat == 20);
    assert(pow2(20) == 1048576);
    let a = (pow2(e) - 1) as nat;
    assert(1048575 == (2 * a + 1) * pow2(k) + (pow2(k) - 1)) by (nonlinear_arith)
        requires
            pow2(e) * pow2(1) == pow2(e + 1),
            pow2(e + 1) * pow2(k) == 1048576,
            pow2(1) == 2,
            a == pow2(e) - 1,
            pow2(e) >= 1;
    lemma_tick_bit_of(1048575, k, a, 1, (pow2(k) - 1) as nat);
}

/// Below any bit `p < 20`, the all-ones chain stays under the factor of bit `p`.
proof fn lemma_all_ones_below_factor(p: nat)
    requires
        p < 20,
    ensures
        sqrt_price_chain(1048575, p) <= sqrt_price_factor(p),
{
    lemma_chain_values_all_ones();
    if p == 0 {
    } else if p == 1 {
    } else if p == 2 {
    } else if p == 3 {
    } else if p == 4 {
    } else if p == 5 {
    } else if p == 6 {
    } else if p == 7 {
    } else if p == 8 {
    } else if p == 9 {
    } else if p == 10 {
    } else if p == 11 {
    } else if p == 12 {
    } else if p == 13 {
    } else if p == 14 {
    } else if p == 15 {
    } else if p == 16 {
    } else if p == 17 {
    } else if p == 18 {
    } else if p == 19 {
    }
}

/// A tick that falls below `MAX_TICK` first at bit `p` has at most the price at `MAX_TICK`.
proof fn lemma_chain_below_at(t: nat, p: nat, hi: nat)
    requires
        p <= 19,
        tick_bit(MAX_TICK as nat, p),
        !tick_bit(t, p),
        t / pow2(p + 1) == hi,
        (MAX_TICK as nat) / pow2(p + 1) == hi,
    ensures
        sqrt_price_chain(t, 20) <= sqrt_price_chain(MAX_TICK as nat, 20),
{
    let mx = MAX_TICK as nat;
    let one = SQRT_PRICE_ONE as nat;
    assert(sqrt_price_chain(t, p) <= sqrt_price_factor(p)) by {
        assert forall|k: nat| k < p && tick_bit(t, k) implies tick_bit(1048575, k) by {
            lemma_all_ones_bit(k);
        }
        lemma_chain_subset(t, 1048575, p);
        lemma_all_ones_below_factor(p);
    }
    assert(sqrt_price_factor(p) <= sqrt_price_chain(mx, p + 1)) by {
        lemma_chain_ge_one(mx, p);
        let v = sqrt_price_chain(mx, p);
        let f = sqrt_price_factor(p);
        lemma_mul_div_mono(one, v, f, one);
        lemma_div_multiples_vanish(f as int, one as int);
        assert(one * f / one == f);
    }
    lemma_high_bits_agree(t, mx, p + 1);
    lemma_chain_same_top(t, mx, p, 20);
}

proof fn lemma_tick_prefixes(t: u32)
    requires
        t <= 665455,
    ensures
        t == 665455
            || ((t >> 1u32) == 332727u32 && ((t >> 0u32) & 1u32) == 0u32)
            || ((t >> 2u32) == 166363u32 && ((t >> 1u32) & 1u32) == 0u32)
            || ((t >> 3u32) == 83181u32 && ((t >> 2u32) & 1u32) == 0u32)
            || ((t >> 4u32) == 41590u32 && ((t >> 3u32) & 1u32) == 0u32)
            || ((t >> 6u32) == 10397u32 && ((t >> 5u32) & 1u32) == 0u32)
            || ((t >> 7u32) == 5198u32 && ((t >> 6u32) & 1u32) == 0u32)
            || ((t >> 9u32) == 1299u32 && ((t >> 8u32) & 1u32) == 0u32)
            || ((t >> 10u32) == 649u32 && ((t >> 9u32) & 1u32) == 0u32)
            || ((t >> 11u32) == 324u32 && ((t >> 10u32) & 1u32) == 0u32)
            || ((t >> 14u32) == 40u32 && ((t >> 13u32) & 1u32) == 0u32)
            || ((t >> 18u32) == 2u32 && ((t >> 17u32) & 1u32) == 0u32)
            || ((t >> 20u32) == 0u32 && ((t >> 19u32) & 1u32) == 0u32),
{
    assert(t <= 665455 ==> (t == 665455
            || ((t >> 1u32) == 332727u32 && ((t >> 0u32) & 1u32) == 0u32)
            || ((t >> 2u32) == 166363u32 && ((t >> 1u32) & 1u32) == 0u32)
            || ((t >> 3u32) == 83181u32 && ((t >> 2u32) & 1u32) == 0u32)
            || ((t >> 4u32) == 41590u32 && ((t >> 3u32) & 1u32) == 0u32)
            || ((t >> 6u32) == 10397u32 && ((t >> 5u32) & 1u32) == 0u32)
            || ((t >> 7u32) == 5198u32 && ((t >> 6u32) & 1u32) == 0u32)
            || ((t >> 9u32) == 1299u32 && ((t >> 8u32) & 1u32) == 0u32)
            || ((t >> 10u32) == 649u32 && ((t >> 9u32) & 1u32) == 0u32)
            || ((t >> 11u32) == 324u32 && ((t >> 10u32) & 1u32) == 0u32)
            || ((t >> 14u32) == 40u32 && ((t >> 13u32) & 1u32) == 0u32)
            || ((t >> 18u32) == 2u32 && ((t >> 17u32) & 1u32) == 0u32)
            || ((t >> 20u32) == 0u32 && ((t >> 19u32) & 1u32) == 0u32))) by (bit_vector);
}

/// Every absolute tick up to `MAX_TICK` has a chain price of at most `MAX_SQRT_PRICE`.
pub proof fn lemma_chain_le_max(t: nat)
    requires
        t <= MAX_TICK,
    ensures
        sqrt_price_chain(t, 20) <= MAX_SQRT_PRICE,
{
    lemma_chain_values_max_tick();
    lemma2_to64();
    let tu = t as u32;
    lemma_tick_prefixes(tu);
    if tu == 665455 {
    } else if (tu >> 1u32) == 332727u32 && ((tu >> 0u32) & 1u32) == 0u32 {
        lemma_u32_bit(tu, 0);
        lemma_u32_bit(tu, 1);
        lemma_div_exact(665455, pow2(1), 332727, 1);
        lemma_chain_below_at(t, 0, 332727);
    } else if (tu >> 2u32) == 166363u32 && ((tu >> 1u32) & 1u32) == 0u32 {
        lemma_u32_bit(tu, 1);
        lemma_u32_bit(tu, 2);
        lemma_div_exact(665455, pow2(2), 166363, 3);
        lemma_chain_below_at(t, 1, 166363);
    } else if (tu >> 3u32) == 83181u32 && ((tu >> 2u32) & 1u32) == 0u32 {
        lemma_u32_bit(tu, 2);
        lemma_u32_bit(tu, 3);
        lemma_div_exact(665455, pow2(3), 83181, 7);
        lemma_chain_below_at(t, 2, 83181);
    } else if (tu >> 4u32) == 41590u32 && ((tu >> 3u32) & 1u32) == 0u32 {
        lemma_u32_bit(tu, 3);
        lemma_u32_bit(tu, 4);
        lemma_div_exact(665455, pow2(4), 41590, 15);
        lemma_chain_below_at(t, 3, 41590);
    } else if (tu >> 6u32) == 10397u32 && ((tu >> 5u32) & 1u32) == 0u32 {
        lemma_u32_bit(tu, 5);
        lemma_u32_bit(tu, 6);
        lemma_div_exact(665455, pow2(6), 10397, 47);
        lemma_chain_below_at(t, 5, 10397);
    } else if (tu >> 7u32) == 5198u32 && ((tu >> 6u32) & 1u32) == 0u32 {
        lemma_u32_bit(tu, 6);
        lemma_u32_bit(tu, 7);
        lemma_div_exact(665455, pow2(7), 5198, 111);
        lemma_chain_below_at(t, 6, 5198);
    } else if (tu >> 9u32) == 1299u32 && ((tu >> 8u32) & 1u32) == 0u32 {
        lemma_u32_bit(tu, 8);
        lemma_u32_bit(tu, 9);
        lemma_div_exact(665455, pow2(9), 1299, 367);
        lemma_chain_below_at(t, 8, 1299);
    } else if (tu >> 10u32) == 649u32 && ((tu >> 9u32) & 1u32) == 0u32 {
        lemma_u32_bit(tu, 9);
        lemma_u32_bit(tu, 10);
        lemma_div_exact(665455, pow2(10), 649, 879);
        lemma_chain_below_at(t, 9, 649);
    } else if (tu >> 11u32) == 324u32 && ((tu >> 10u32) & 1u32) == 0u32 {
        lemma_u32_bit(tu, 10);
        lemma_u32_bit(tu, 11);
        lemma_div_exact(665455, pow2(11), 324, 1903);
        lemma_chain_below_at(t, 10, 324);
    } else if (tu >> 14u32) == 40u32 && ((tu >> 13u32) & 1u32) == 0u32 {
        lemma_u32_bit(tu, 13);
        lemma_u32_bit(tu, 14);
        lemma_div_exact(665455, pow2(14), 40, 10095);
        lemma_chain_below_at(t, 13, 40);
    } else if (tu >> 18u32) == 2u32 && ((tu >> 17u32) & 1u32) == 0u32 {
        lemma_u32_bit(tu, 17);
        lemma_u32_bit(tu, 18);
        lemma_div_exact(665455, pow2(18), 2, 141167);
        lemma_chain_below_at(t, 17, 2);
    } else if (tu >> 20u32) == 0u32 && ((tu >> 19u32) & 1u32) == 0u32 {
        lemma_u32_bit(tu, 19);
        lemma_u32_bit(tu, 20);
        lemma_div_exact(665455, pow2(20), 0, 665455);
        lemma_chain_below_at(t, 19, 0);
    }
}

/// Below any bit `p < 20`, the all-ones chain stays under the factor of bit `p`
/// by a ratio of more than 1.00004.
proof fn lemma_all_ones_gap(p: nat)
    requires
        p < 20,
    ensures
        sqrt_price_chain(1048575, p) * 1000040 <= sqrt_price_factor(p) * 1000000,
{
    lemma_chain_values_all_ones();
    if p == 0 {
    } else if p == 1 {
    } else if p == 2 {
    } else if p == 3 {
    } else if p == 4 {
    } else if p == 5 {
    } else if p == 6 {
    } else if p == 7 {
    } else if p == 8 {
    } else if p == 9 {
    } else if p == 10 {
    } else if p == 11 {
    } else if p == 12 {
    } else if p == 13 {
    } else if p == 14 {
    } else if p == 15 {
    } else if p == 16 {
    } else if p == 17 {
    } else if p == 18 {
    } else if p == 19 {
    }
}

/// Multiplying two prices by the same factor (at least 1) and rounding down
/// keeps a ratio of `(10^6 + e) / 10^6` between them, less one millionth.
proof fn lemma_gap_step(v: nat, w: nat, f: nat, e: nat)
    requires
        v >= SQRT_PRICE_ONE,
        f >= SQRT_PRICE_ONE,
        w * 1000000 >= v * (1000000 + e),
        e >= 1,
    ensures
        (w * f / (SQRT_PRICE_ONE as nat)) * 1000000 >= (v * f / (SQRT_PRICE_ONE as nat)) * (1000000 + e - 1),
{
    let one = SQRT_PRICE_ONE as nat;
    let v2 = v * f / one;
    let w2 = w * f / one;
    lemma_fundamental_div_mod((v * f) as int, one as int);
    lemma_fundamental_div_mod((w * f) as int, one as int);
    assert(v2 * one <= v * f);
    assert(w2 * one + one > w * f);
    assert(v * f >= v * one) by (nonlinear_arith)
        requires f >= one;
    lemma_div_multiples_vanish(v as int, one as int);
    lemma_div_is_ordered((v * one) as int, (v * f) as int, one as int);
    assert(v * one / one == v) by (nonlinear_arith)
        requires one * v / one == v;
    assert(v2 >= one);
    assert(w * f * 1000000 >= v * f * (1000000 + e)) by (nonlinear_arith)
        requires w * 1000000 >= v * (1000000 + e);
    assert(one * (w2 * 1000000 - v2 * (1000000 + e) + 1000000) > 0) by (nonlinear_arith)
        requires
            w2 * one + one > w * f,
            v2 * one <= v * f,
            w * f * 1000000 >= v * f * (1000000 + e),
            one > 0;
    assert(w2 * 1000000 - v2 * (1000000 + e) + 1000000 > 0) by (nonlinear_arith)
        requires one * (w2 * 1000000 - v2 * (1000000 + e) + 1000000) > 0, one > 0;
    assert(w2 * 1000000 >= v2 * (1000000 + e - 1)) by (nonlinear_arith)
        requires
            w2 * 1000000 - v2 * (1000000 + e) + 1000000 > 0,
            v2 >= 1000000;
}

/// Comparing the low `k + 1` bits of two ticks: if bit `k` agrees, the lower
/// bits compare the same way; otherwise the larger has bit `k` set.
proof fn lemma_low_bits_compare(t: nat, t2: nat, k: nat)
    requires
        t % pow2(k + 1) < t2 % pow2(k + 1),
    ensures
        tick_bit(t, k) == tick_bit(t2, k) ==> t % pow2(k) < t2 % pow2(k),
        !(tick_bit(t, k) && !tick_bit(t2, k)),
{
    let p = pow2(k) as int;
    lemma_pow2_pos(k);
    lemma_pow2_adds(k, 1);
    lemma2_to64();
    assert(pow2(k + 1) as int == p * 2);
    let ti = t as int;
    let t2i = t2 as int;
    lemma_mod_breakdown(ti, p, 2);
    lemma_mod_breakdown(t2i, p, 2);
    lemma_mod_pos_bound(ti, p);
    lemma_mod_pos_bound(t2i, p);
    let b = (ti / p) % 2;
    let b2 = (t2i / p) % 2;
    lemma_mod_pos_bound(ti / p, 2);
    lemma_mod_pos_bound(t2i / p, 2);
    let lo = ti % p;
    let lo2 = t2i % p;
    assert(ti % (p * 2) == p * b + lo);
    assert(t2i % (p * 2) == p * b2 + lo2);
    assert(p * b + lo < p * b2 + lo2);
    assert(tick_bit(t, k) == (b == 1));
    assert(tick_bit(t2, k) == (b2 == 1));
    if b == b2 {
        assert(lo < lo2);
    } else if b == 1 {
        assert(b2 == 0);
        assert(p * b + lo >= p) by (nonlinear_arith)
            requires b == 1, lo >= 0;
        assert(p * b2 + lo2 < p) by (nonlinear_arith)
            requires b2 == 0, lo2 < p;
    }
}

/// Comparing the low `n` bits of two ticks: the one whose low bits are larger
/// gets a chain price larger by a ratio of at least `(10^6 + 40 - n) / 10^6`.
proof fn lemma_chain_gap(t: nat, t2: nat, n: nat)
    requires
        n <= 20,
        t % pow2(n) < t2 % pow2(n),
    ensures
        sqrt_price_chain(t2, n) * 1000000 >= sqrt_price_chain(t, n) * (1000040 - n),
    decreases n,
{
    let one = SQRT_PRICE_ONE as nat;
    if n == 0 {
        lemma2_to64();
        assert(pow2(0) == 1);
        assert(t % 1 == 0 && t2 % 1 == 0);
    } else {
        let k = (n - 1) as nat;
        assert(pow2(k + 1) == pow2(n));
        lemma_low_bits_compare(t, t2, k);
        lemma_chain_ge_one(t, k);
        lemma_chain_ge_one(t2, k);
        let v = sqrt_price_chain(t, k);
        let w = sqrt_price_chain(t2, k);
        let f = sqrt_price_factor(k);
        lemma_factor_ge_one(k);
        if tick_bit(t, k) == tick_bit(t2, k) {
            assert(t % pow2(k) < t2 % pow2(k));
            lemma_chain_gap(t, t2, k);
            if tick_bit(t, k) {
                lemma_gap_step(v, w, f, (40 - k) as nat);
            } else {
                assert(w * 1000000 >= v * (1000040 - n)) by (nonlinear_arith)
                    requires w * 1000000 >= v * (1000040 - k), n == k + 1, v >= 0;
            }
        } else {
            assert(!tick_bit(t, k) && tick_bit(t2, k));
            assert forall|j: nat| j < k && tick_bit(t, j) implies tick_bit(1048575, j) by {
                lemma_all_ones_bit(j);
            }
            lemma_chain_subset(t, 1048575, k);
            lemma_all_ones_gap(k);
            lemma_mul_div_mono(one, w, f, one);
            lemma_div_multiples_vanish(f as int, one as int);
            assert(one * f / one == f);
            assert(sqrt_price_chain(t2, n) >= f);
            assert(sqrt_price_chain(t, n) == v);
            assert(sqrt_price_chain(t2, n) * 1000000 >= v * (1000040 - n)) by (nonlinear_arith)
                requires
                    sqrt_price_chain(t2, n) >= f,
                    v <= sqrt_price_chain(1048575, k),
                    sqrt_price_chain(1048575, k) * 1000040 <= f * 1000000,
                    n >= 1;
        }
    }
}

/// Of two ticks below 2^20, the larger has the larger chain price, by a ratio
/// of more than 1.00002.
pub proof fn lemma_chain_increasing(t: nat, t2: nat)
    requires
        t < t2 < 1048576,
    ensures
        sqrt_price_chain(t2, 20) * 1000000 >= sqrt_price_chain(t, 20) * 1000020,
        sqrt_price_chain(t, 20) < sqrt_price_chain(t2, 20),
{
    lemma2_to64();
    assert(pow2(20) == 1048576);
    lemma_small_mod(t, 1048576);
    lemma_small_mod(t2, 1048576);
    lemma_chain_gap(t, t2, 20);
    lemma_chain_ge_one(t, 20);
}

} // verus!
