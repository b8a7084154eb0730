//! Bounds on the logarithm-based tick estimate: the approximated logarithm
//! grows with the price, and the prices at both ends of the range lead to
//! ticks inside the tick range.
use crate::math::consts::{MAX_SQRT_PRICE, MIN_SQRT_PRICE};
use crate::math::log::{
    lemma_log2_floor_is, log2_floor, log2_fraction, spec_log2_approx, spec_sqrt_price_to_x64,
    LOG2_ACCURACY, LOG2_HALF, LOG2_NEGATIVE_MAX_LOSE, LOG2_ONE, LOG2_SQRT_10001, LOG2_TWO,
    SQRT_PRICE_DENOMINATOR,
};
use crate::math::types::sqrt_price_bound::lemma_div_exact;
use crate::math::uint::base128;
use vstd::arithmetic::div_mod::*;
use vstd::arithmetic::power2::*;
use vstd::prelude::*;

verus! {

/// The floor of the binary logarithm grows with its argument.
proof fn lemma_log2_floor_mono(a: nat, b: nat)
    requires
        a <= b,
    ensures
        log2_floor(a) <= log2_floor(b),
    decreases b,
{
    if a >= 2 {
        lemma_div_is_ordered(a as int, b as int, 2);
        lemma_log2_floor_mono(a / 2, b / 2);
    }
}

/// The fractional bits from `delta` down add up to at most `2 * delta`.
proof fn lemma_fraction_bound(y: nat, delta: nat)
    ensures
        0 <= log2_fraction(y, delta) <= 2 * delta,
    decreases delta,
{
    if delta > LOG2_ACCURACY {
        let y2 = y * y / (LOG2_ONE as nat);
        lemma_fraction_bound(y2 / 2, delta / 2);
        lemma_fraction_bound(y2, delta / 2);
    }
}

/// The fractional bits grow with the value they are taken from.
proof fn lemma_fraction_mono(y: nat, z: nat, delta: nat)
    requires
        y <= z,
    ensures
        log2_fraction(y, delta) <= log2_fraction(z, delta),
    decreases delta,
{
    if delta > LOG2_ACCURACY {
        let one = LOG2_ONE as nat;
        let y2 = y * y / one;
        let z2 = z * z / one;
        assert(y * y <= z * z) by (nonlinear_arith)
            requires y <= z;
        lemma_div_is_ordered((y * y) as int, (z * z) as int, one as int);
        if y2 >= LOG2_TWO && z2 >= LOG2_TWO {
            lemma_div_is_ordered(y2 as int, z2 as int, 2);
            lemma_fraction_mono(y2 / 2, z2 / 2, delta / 2);
        } else if y2 < LOG2_TWO && z2 < LOG2_TWO {
            lemma_fraction_mono(y2, z2, delta / 2);
        } else {
            lemma_fraction_bound(y2, delta / 2);
        }
    }
}

/// The approximated logarithm is the floor part plus the fractional bits, and
/// lies within one unit above the floor part.
proof fn lemma_approx_shape(x: nat)
    ensures
        ({
            let sign = x >= LOG2_ONE;
            let l = spec_log2_approx(x).1;
            let x2 = if sign { x } else { base128() / (x + 1) };
            let fl = log2_floor(x2 / (LOG2_ONE as nat));
            &&& l == fl * (LOG2_ONE as nat) + log2_fraction(x2 / pow2(fl), LOG2_HALF as nat)
            &&& l <= (fl + 1) * (LOG2_ONE as nat)
            &&& fl * (LOG2_ONE as nat) <= l
        }),
{
    let sign = x >= LOG2_ONE;
    let x2 = if sign { x } else { base128() / (x + 1) };
    let fl = log2_floor(x2 / (LOG2_ONE as nat));
    lemma_fraction_one(LOG2_HALF as nat);
    let y = x2 / pow2(fl);
    let f = log2_fraction(y, LOG2_HALF as nat);
    lemma_fraction_bound(y, LOG2_HALF as nat);
    assert(f <= LOG2_ONE);
    if y == LOG2_ONE {
        assert(f == 0);
    }
    assert(spec_log2_approx(x).0 == sign);
    assert(spec_log2_approx(x).1 == fl * (LOG2_ONE as nat) + f);
    let one = LOG2_ONE as nat;
    let a = fl * one;
    let b = (fl + 1) * one;
    vstd::arithmetic::mul::lemma_mul_is_distributive_add_other_way(one as int, fl as int, 1);
    assert(b == a + one);
    let l = spec_log2_approx(x).1;
    assert(l == a + f);
    assert(a <= l);
    assert(l <= b);
}

/// From 1 (2^64) no fractional bit is set.
proof fn lemma_fraction_one(delta: nat)
    ensures
        log2_fraction(LOG2_ONE as nat, delta) == 0,
    decreases delta,
{
    if delta > LOG2_ACCURACY {
        let one = LOG2_ONE as nat;
        lemma_div_multiples_vanish(one as int, one as int);
        assert(one * one / one == one);
        lemma_fraction_one(delta / 2);
    }
}

/// The approximated logarithm of values of at least 1 grows with the value.
proof fn lemma_approx_mono(x: nat, z: nat)
    requires
        x <= z,
        x >= LOG2_ONE,
    ensures
        spec_log2_approx(x).1 <= spec_log2_approx(z).1,
{
    let one = LOG2_ONE as nat;
    lemma_approx_shape(x);
    lemma_approx_shape(z);
    lemma_div_is_ordered(x as int, z as int, one as int);
    let fx = log2_floor(x / one);
    let fz = log2_floor(z / one);
    lemma_log2_floor_mono(x / one, z / one);
    if fx == fz {
        lemma_pow2_pos(fx);
        lemma_div_is_ordered(x as int, z as int, pow2(fx) as int);
        lemma_fraction_mono(x / pow2(fx), z / pow2(fx), LOG2_HALF as nat);
    } else {
        assert((fx + 1) * one <= fz * one) by (nonlinear_arith)
            requires fx < fz;
    }
}

/// The approximated logarithm of values below 1 shrinks as the value grows.
proof fn lemma_approx_anti(x: nat, z: nat)
    requires
        x <= z < LOG2_ONE,
    ensures
        spec_log2_approx(z).1 <= spec_log2_approx(x).1,
{
    let one = LOG2_ONE as nat;
    let x2 = base128() / (x + 1);
    let z2 = base128() / (z + 1);
    lemma_approx_shape(x);
    lemma_approx_shape(z);
    lemma_div_is_ordered_by_denominator(base128() as int, (x + 1) as int, (z + 1) as int);
    lemma_div_is_ordered_by_denominator(base128() as int, (z + 1) as int, one as int);
    lemma_div_by_self(one as int);
    assert(base128() / one == one) by {
        lemma_pow2_adds(64, 64);
        lemma2_to64();
        lemma2_to64_rest();
        lemma_div_multiples_vanish(one as int, one as int);
    }
    lemma_div_is_ordered(z2 as int, x2 as int, one as int);
    let fx = log2_floor(x2 / one);
    let fz = log2_floor(z2 / one);
    lemma_log2_floor_mono(z2 / one, x2 / one);
    if fx == fz {
        lemma_pow2_pos(fx);
        lemma_div_is_ordered(z2 as int, x2 as int, pow2(fx) as int);
        lemma_fraction_mono(z2 / pow2(fx), x2 / pow2(fx), LOG2_HALF as nat);
    } else {
        assert((fz + 1) * one <= fx * one) by (nonlinear_arith)
            requires fz < fx;
    }
}

/// The approximated logarithms at both ends of the price range.
proof fn lemma_approx_at_range_ends()
    ensures
        spec_sqrt_price_to_x64(MAX_SQRT_PRICE as nat) == 5192410085712699832897385122752987nat,
        spec_sqrt_price_to_x64(MIN_SQRT_PRICE as nat) == 65534nat,
        spec_log2_approx(5192410085712699832897385122752987nat).1 == 885444295875638853632nat,
        spec_log2_approx(65534nat).1 == 885444121623709614080nat,
{
    lemma2_to64();
    lemma2_to64_rest();
    lemma_pow2_adds(64, 64);
    lemma_div_exact(281481114768267672330495791029795421271nat * 18446744073709551616nat, 1000000000000000000000000nat, 5192410085712699832897385122752987nat, 28339747022095238823936nat);
    lemma_div_exact(3552636207nat * 18446744073709551616nat, 1000000000000000000000000nat, 65534nat, 570897523229872736960512nat);
    assert(spec_log2_approx(5192410085712699832897385122752987nat).1 == 885444295875638853632nat) by {
    lemma_div_exact(5192410085712699832897385122752987nat, 18446744073709551616nat, 281481114768267nat, 12402308588807383515nat);
    assert(pow2(48) == 281474976710656nat && pow2(49) == 562949953421312nat);
    lemma_log2_floor_is(281481114768267nat, 48);
    lemma_div_exact(5192410085712699832897385122752987nat, 281474976710656nat, 18447146337453190173nat, 239639959169499nat);
    lemma_div_exact(18447146337453190173nat * 18447146337453190173nat, 18446744073709551616nat, 18447548609968898142nat, 6126876182508272457nat);
    lemma_div_exact(18447548609968898142nat * 18447548609968898142nat, 18446744073709551616nat, 18448353181317287483nat, 3558571964271829636nat);
    lemma_div_exact(18448353181317287483nat * 18448353181317287483nat, 18446744073709551616nat, 18449962429287316171nat, 5378332792432492953nat);
    lemma_div_exact(18449962429287316171nat * 18449962429287316171nat, 18446744073709551616nat, 18453181346363228233nat, 4578731975416126713nat);
    lemma_div_exact(18453181346363228233nat * 18453181346363228233nat, 18446744073709551616nat, 18459620865401364470nat, 4326075026954818769nat);
    lemma_div_exact(18459620865401364470nat * 18459620865401364470nat, 18446744073709551616nat, 18472506645766929818nat, 13251293212057895012nat);
    lemma_div_exact(18472506645766929818nat * 18472506645766929818nat, 18446744073709551616nat, 18498305197621954669nat, 12811178436269818020nat);
    lemma_div_exact(18498305197621954669nat * 18498305197621954669nat, 18446744073709551616nat, 18550010441791487497nat, 8180678026750754409nat);
    lemma_div_exact(18550010441791487497nat * 18550010441791487497nat, 18446744073709551616nat, 18653854903369718596nat, 18411975628650273873nat);
    lemma_div_exact(18653854903369718596nat * 18653854903369718596nat, 18446744073709551616nat, 18863291069988598894nat, 11328809507414698512nat);
    lemma_div_exact(18863291069988598894nat * 18863291069988598894nat, 18446744073709551616nat, 19289244138115110379nat, 12827145714780200772nat);
    lemma_div_exact(19289244138115110379nat * 19289244138115110379nat, 18446744073709551616nat, 20170222882318422308nat, 671472144141673913nat);
    lemma_div_exact(20170222882318422308nat * 20170222882318422308nat, 18446744073709551616nat, 22054726270216451173nat, 1921712849644801296nat);
    lemma_div_exact(22054726270216451173nat * 22054726270216451173nat, 18446744073709551616nat, 26368390481841858725nat, 6310684090525626329nat);
    lemma_div_exact(26368390481841858725nat * 26368390481841858725nat, 18446744073709551616nat, 37691855745633947321nat, 17377888863784204889nat);
    lemma_div_exact(18845927872816973660nat * 18845927872816973660nat, 18446744073709551616nat, 19253749928346944456nat, 16938481065716754704nat);
    lemma_div_exact(19253749928346944456nat * 19253749928346944456nat, 18446744073709551616nat, 20096060574269819898nat, 11664365508894280768nat);
    lemma_div_exact(20096060574269819898nat * 20096060574269819898nat, 18446744073709551616nat, 21892841847374815161nat, 12345289473167880228nat);
    lemma_div_exact(21892841847374815161nat * 21892841847374815161nat, 18446744073709551616nat, 25982716637634886480nat, 1130417979054904241nat);
    lemma_div_exact(25982716637634886480nat * 25982716637634886480nat, 18446744073709551616nat, 36597329109899070629nat, 17480957283781703936nat);
    lemma_div_exact(36597329109899070629nat * 36597329109899070629nat, 18446744073709551616nat, 72607094922899645074nat, 7083622147847316057nat);
    lemma_div_exact(36303547461449822537nat * 36303547461449822537nat, 18446744073709551616nat, 71446080295768256492nat, 7143301157392025297nat);
    lemma_div_exact(35723040147884128246nat * 35723040147884128246nat, 18446744073709551616nat, 69179449354756323732nat, 17493319853115285604nat);
    lemma_div_exact(34589724677378161866nat * 34589724677378161866nat, 18446744073709551616nat, 64859633140463667041nat, 17308793029669113700nat);
    lemma_div_exact(32429816570231833520nat * 32429816570231833520nat, 18446744073709551616nat, 57012391920033440967nat, 18120890177820137728nat);
    lemma_div_exact(28506195960016720483nat * 28506195960016720483nat, 18446744073709551616nat, 44051308180124981529nat, 4451049591679652425nat);
    lemma_div_exact(22025654090062490764nat * 22025654090062490764nat, 18446744073709551616nat, 26298919535968242472nat, 10978449588897868944nat);
    lemma_div_exact(26298919535968242472nat * 26298919535968242472nat, 18446744073709551616nat, 37493509206595067716nat, 725419101067441728nat);
    lemma_div_exact(18746754603297533858nat * 18746754603297533858nat, 18446744073709551616nat, 19051644385153776236nat, 17163785579900166788nat);
    lemma_div_exact(19051644385153776236nat * 19051644385153776236nat, 18446744073709551616nat, 19676380413151731865nat, 1738771707748883856nat);
    lemma_div_exact(19676380413151731865nat * 19676380413151731865nat, 18446744073709551616nat, 20987982736468090061nat, 8427949160640289649nat);
    lemma_div_exact(20987982736468090061nat * 20987982736468090061nat, 18446744073709551616nat, 23879304531257643518nat, 13818129812658158633nat);
    lemma_div_exact(23879304531257643518nat * 23879304531257643518nat, 18446744073709551616nat, 30911752373104457834nat, 5640719423448856580nat);
    lemma_div_exact(30911752373104457834nat * 30911752373104457834nat, 18446744073709551616nat, 51799733923666632939nat, 15794291008937692132nat);
    lemma_div_exact(25899866961833316469nat * 25899866961833316469nat, 18446744073709551616nat, 36364309384911939326nat, 11100630391049377145nat);
    lemma_div_exact(36364309384911939326nat * 36364309384911939326nat, 18446744073709551616nat, 71685441710346974033nat, 11054347947480146948nat);
    lemma_div_exact(35842720855173487016nat * 35842720855173487016nat, 18446744073709551616nat, 69643761152021083885nat, 1545789763047276096nat);
    lemma_div_exact(34821880576010541942nat * 34821880576010541942nat, 18446744073709551616nat, 65733191830752146619nat, 2312925000560745060nat);
    lemma_div_exact(32866595915376073309nat * 32866595915376073309nat, 18446744073709551616nat, 58558470955540801603nat, 10979107653398169033nat);
    lemma_div_exact(29279235477770400801nat * 29279235477770400801nat, 18446744073709551616nat, 46472896611848277338nat, 6740763942187363393nat);
    lemma_div_exact(23236448305924138669nat * 23236448305924138669nat, 18446744073709551616nat, 29269801094243019759nat, 16220202995822711017nat);
    lemma_div_exact(29269801094243019759nat * 29269801094243019759nat, 18446744073709551616nat, 46442952353719479336nat, 11346055593727011105nat);
    lemma_div_exact(23221476176859739668nat * 23221476176859739668nat, 18446744073709551616nat, 29232093949901396884nat, 7223423701033185680nat);
    lemma_div_exact(29232093949901396884nat * 29232093949901396884nat, 18446744073709551616nat, 46323368139189612894nat, 1376446153132772752nat);
    lemma_div_exact(23161684069594806447nat * 23161684069594806447nat, 18446744073709551616nat, 29081750513593024558nat, 4131875119936178081nat);
    lemma_div_exact(29081750513593024558nat * 29081750513593024558nat, 18446744073709551616nat, 45848102491985852382nat, 15794254141605546052nat);
    assert(log2_fraction(22924051245992926191nat, 131072nat) == 0);
    assert(log2_fraction(29081750513593024558nat, 262144nat) == 262144nat);
    assert(log2_fraction(23161684069594806447nat, 524288nat) == 262144nat);
    assert(log2_fraction(29232093949901396884nat, 1048576nat) == 1310720nat);
    assert(log2_fraction(23221476176859739668nat, 2097152nat) == 1310720nat);
    assert(log2_fraction(29269801094243019759nat, 4194304nat) == 5505024nat);
    assert(log2_fraction(23236448305924138669nat, 8388608nat) == 5505024nat);
    assert(log2_fraction(29279235477770400801nat, 16777216nat) == 22282240nat);
    assert(log2_fraction(32866595915376073309nat, 33554432nat) == 55836672nat);
    assert(log2_fraction(34821880576010541942nat, 67108864nat) == 122945536nat);
    assert(log2_fraction(35842720855173487016nat, 134217728nat) == 257163264nat);
    assert(log2_fraction(36364309384911939326nat, 268435456nat) == 525598720nat);
    assert(log2_fraction(25899866961833316469nat, 536870912nat) == 525598720nat);
    assert(log2_fraction(30911752373104457834nat, 1073741824nat) == 1599340544nat);
    assert(log2_fraction(23879304531257643518nat, 2147483648nat) == 1599340544nat);
    assert(log2_fraction(20987982736468090061nat, 4294967296nat) == 1599340544nat);
    assert(log2_fraction(19676380413151731865nat, 8589934592nat) == 1599340544nat);
    assert(log2_fraction(19051644385153776236nat, 17179869184nat) == 1599340544nat);
    assert(log2_fraction(18746754603297533858nat, 34359738368nat) == 1599340544nat);
    assert(log2_fraction(26298919535968242472nat, 68719476736nat) == 70318817280nat);
    assert(log2_fraction(22025654090062490764nat, 137438953472nat) == 70318817280nat);
    assert(log2_fraction(28506195960016720483nat, 274877906944nat) == 345196724224nat);
    assert(log2_fraction(32429816570231833520nat, 549755813888nat) == 894952538112nat);
    assert(log2_fraction(34589724677378161866nat, 1099511627776nat) == 1994464165888nat);
    assert(log2_fraction(35723040147884128246nat, 2199023255552nat) == 4193487421440nat);
    assert(log2_fraction(36303547461449822537nat, 4398046511104nat) == 8591533932544nat);
    assert(log2_fraction(36597329109899070629nat, 8796093022208nat) == 17387626954752nat);
    assert(log2_fraction(25982716637634886480nat, 17592186044416nat) == 17387626954752nat);
    assert(log2_fraction(21892841847374815161nat, 35184372088832nat) == 17387626954752nat);
    assert(log2_fraction(20096060574269819898nat, 70368744177664nat) == 17387626954752nat);
    assert(log2_fraction(19253749928346944456nat, 140737488355328nat) == 17387626954752nat);
    assert(log2_fraction(18845927872816973660nat, 281474976710656nat) == 17387626954752nat);
    assert(log2_fraction(26368390481841858725nat, 562949953421312nat) == 580337580376064nat);
    assert(log2_fraction(22054726270216451173nat, 1125899906842624nat) == 580337580376064nat);
    assert(log2_fraction(20170222882318422308nat, 2251799813685248nat) == 580337580376064nat);
    assert(log2_fraction(19289244138115110379nat, 4503599627370496nat) == 580337580376064nat);
    assert(log2_fraction(18863291069988598894nat, 9007199254740992nat) == 580337580376064nat);
    assert(log2_fraction(18653854903369718596nat, 18014398509481984nat) == 580337580376064nat);
    assert(log2_fraction(18550010441791487497nat, 36028797018963968nat) == 580337580376064nat);
    assert(log2_fraction(18498305197621954669nat, 72057594037927936nat) == 580337580376064nat);
    assert(log2_fraction(18472506645766929818nat, 144115188075855872nat) == 580337580376064nat);
    assert(log2_fraction(18459620865401364470nat, 288230376151711744nat) == 580337580376064nat);
    assert(log2_fraction(18453181346363228233nat, 576460752303423488nat) == 580337580376064nat);
    assert(log2_fraction(18449962429287316171nat, 1152921504606846976nat) == 580337580376064nat);
    assert(log2_fraction(18448353181317287483nat, 2305843009213693952nat) == 580337580376064nat);
    assert(log2_fraction(18447548609968898142nat, 4611686018427387904nat) == 580337580376064nat);
    assert(log2_fraction(18447146337453190173nat, 9223372036854775808nat) == 580337580376064nat);
    }
    assert(spec_log2_approx(65534nat).1 == 885444121623709614080nat) by {
    lemma_div_exact(340282366920938463463374607431768211456nat, 65535nat, 5192376087906286159508272029171713nat, 1nat);
    assert(base128() / (65534nat + 1) == 5192376087906286159508272029171713nat);
    lemma_div_exact(5192376087906286159508272029171713nat, 18446744073709551616nat, 281479271743489nat, 281479271743489nat);
    assert(pow2(48) == 281474976710656nat && pow2(49) == 562949953421312nat);
    lemma_log2_floor_is(281479271743489nat, 48);
    lemma_div_exact(5192376087906286159508272029171713nat, 281474976710656nat, 18447025552981295105nat, 4295032833nat);
    lemma_div_exact(18447025552981295105nat * 18447025552981295105nat, 18446744073709551616nat, 18447307036548136965nat, 1125912791875585nat);
    lemma_div_exact(18447307036548136965nat * 18447307036548136965nat, 18446744073709551616nat, 18447870016567377955nat, 12385096546385945nat);
    lemma_div_exact(18447870016567377955nat * 18447870016567377955nat, 18446744073709551616nat, 18448996028149924170nat, 191407708719023305nat);
    lemma_div_exact(18448996028149924170nat * 18448996028149924170nat, 18446744073709551616nat, 18451248257505955620nat, 3918295576954906980nat);
    lemma_div_exact(18451248257505955620nat * 18451248257505955620nat, 18446744073709551616nat, 18455753541099244685nat, 5159506281788423440nat);
    lemma_div_exact(18455753541099244685nat * 18455753541099244685nat, 18446744073709551616nat, 18464767408750703277nat, 10713587405168903593nat);
    lemma_div_exact(18464767408750703277nat * 18464767408750703277nat, 18446744073709551616nat, 18482808353436392077nat, 4717346669653592297nat);
    lemma_div_exact(18482808353436392077nat * 18482808353436392077nat, 18446744073709551616nat, 18518943140579989594nat, 3575853251182490025nat);
    lemma_div_exact(18518943140579989594nat * 18518943140579989594nat, 18446744073709551616nat, 18591424788768633811nat, 2506863275440996260nat);
    lemma_div_exact(18591424788768633811nat * 18591424788768633811nat, 18446744073709551616nat, 18737240257431190155nat, 16908653773128843241nat);
    lemma_div_exact(18737240257431190155nat * 18737240257431190155nat, 18446744073709551616nat, 19032311125575165667nat, 11470085200281356153nat);
    lemma_div_exact(19032311125575165667nat * 19032311125575165667nat, 18446744073709551616nat, 19636466215029444190nat, 3084774811899243849nat);
    lemma_div_exact(19636466215029444190nat * 19636466215029444190nat, 18446744073709551616nat, 20902919446014319170nat, 14961884324111477380nat);
    lemma_div_exact(20902919446014319170nat * 20902919446014319170nat, 18446744073709551616nat, 23686133423907725809nat, 16282144738968631556nat);
    lemma_div_exact(23686133423907725809nat * 23686133423907725809nat, 18446744073709551616nat, 30413655349333293039nat, 6441304112900703457nat);
    lemma_div_exact(30413655349333293039nat * 30413655349333293039nat, 18446744073709551616nat, 50143831779307517591nat, 282422861203378465nat);
    lemma_div_exact(25071915889653758795nat * 25071915889653758795nat, 18446744073709551616nat, 34076526668668851802nat, 17615438161066239993nat);
    lemma_div_exact(34076526668668851802nat * 34076526668668851802nat, 18446744073709551616nat, 62949302335443839036nat, 147290511800965028nat);
    lemma_div_exact(31474651167721919518nat * 31474651167721919518nat, 18446744073709551616nat, 53703442849931787375nat, 15908499205769704324nat);
    lemma_div_exact(26851721424965893687nat * 26851721424965893687nat, 18446744073709551616nat, 39086298405991803993nat, 2101259095598051281nat);
    lemma_div_exact(19543149202995901996nat * 19543149202995901996nat, 18446744073709551616nat, 20704720531949903606nat, 12611774196955256720nat);
    lemma_div_exact(20704720531949903606nat * 20704720531949903606nat, 18446744073709551616nat, 23239084935162832465nat, 15403813489013789796nat);
    lemma_div_exact(23239084935162832465nat * 23239084935162832465nat, 18446744073709551616nat, 29276443933181842495nat, 14263989462473254305nat);
    lemma_div_exact(29276443933181842495nat * 29276443933181842495nat, 18446744073709551616nat, 46464035384667163876nat, 7647257664635201409nat);
    lemma_div_exact(23232017692333581938nat * 23232017692333581938nat, 18446744073709551616nat, 29258640110160325660nat, 14325080830220569284nat);
    lemma_div_exact(29258640110160325660nat * 29258640110160325660nat, 18446744073709551616nat, 46407540413376129586nat, 17580364975682724624nat);
    lemma_div_exact(23203770206688064793nat * 23203770206688064793nat, 18446744073709551616nat, 29187533022271285668nat, 6420547375239093361nat);
    lemma_div_exact(29187533022271285668nat * 29187533022271285668nat, 18446744073709551616nat, 46182246607970711859nat, 16569054518438392080nat);
    lemma_div_exact(23091123303985355929nat * 23091123303985355929nat, 18446744073709551616nat, 28904828587055451391nat, 14316105521721955185nat);
    lemma_div_exact(28904828587055451391nat * 28904828587055451391nat, 18446744073709551616nat, 45291955713626659263nat, 9594476391020815873nat);
    lemma_div_exact(22645977856813329631nat * 22645977856813329631nat, 18446744073709551616nat, 27801129079585583639nat, 9157242232306985537nat);
    lemma_div_exact(27801129079585583639nat * 27801129079585583639nat, 18446744073709551616nat, 41899143556793116240nat, 2963396234496638481nat);
    lemma_div_exact(20949571778396558120nat * 20949571778396558120nat, 18446744073709551616nat, 23791979546335840214nat, 12313639137976448576nat);
    lemma_div_exact(23791979546335840214nat * 23791979546335840214nat, 18446744073709551616nat, 30686081428321749908nat, 1976733238170314468nat);
    lemma_div_exact(30686081428321749908nat * 30686081428321749908nat, 18446744073709551616nat, 51046167804085255716nat, 14974304388236971408nat);
    lemma_div_exact(25523083902042627858nat * 25523083902042627858nat, 18446744073709551616nat, 35313972442384979153nat, 7889861945140206916nat);
    lemma_div_exact(35313972442384979153nat * 35313972442384979153nat, 18446744073709551616nat, 67604160640948525200nat, 1421450771767874209nat);
    lemma_div_exact(33802080320474262600nat * 33802080320474262600nat, 18446744073709551616nat, 61939420280688371408nat, 11356716704804164672nat);
    lemma_div_exact(30969710140344185704nat * 30969710140344185704nat, 18446744073709551616nat, 51994159096286657902nat, 2513728359234705984nat);
    lemma_div_exact(25997079548143328951nat * 25997079548143328951nat, 18446744073709551616nat, 36637801355726313676nat, 13842892413666059985nat);
    lemma_div_exact(36637801355726313676nat * 36637801355726313676nat, 18446744073709551616nat, 72767773153786976017nat, 10764330922329039504nat);
    lemma_div_exact(36383886576893488008nat * 36383886576893488008nat, 18446744073709551616nat, 71762648039711372731nat, 15690171978580424768nat);
    lemma_div_exact(35881324019855686365nat * 35881324019855686365nat, 18446744073709551616nat, 69793856751814777994nat, 4389784804922974921nat);
    lemma_div_exact(34896928375907388997nat * 34896928375907388997nat, 18446744073709551616nat, 66016832304234243725nat, 16515931339265056409nat);
    lemma_div_exact(33008416152117121862nat * 33008416152117121862nat, 18446744073709551616nat, 59064924005976200282nat, 18397912424925591332nat);
    lemma_div_exact(29532462002988100141nat * 29532462002988100141nat, 18446744073709551616nat, 47280230509673214772nat, 16244846923256548329nat);
    assert(log2_fraction(23640115254836607386nat, 131072nat) == 0);
    assert(log2_fraction(29532462002988100141nat, 262144nat) == 262144nat);
    assert(log2_fraction(33008416152117121862nat, 524288nat) == 786432nat);
    assert(log2_fraction(34896928375907388997nat, 1048576nat) == 1835008nat);
    assert(log2_fraction(35881324019855686365nat, 2097152nat) == 3932160nat);
    assert(log2_fraction(36383886576893488008nat, 4194304nat) == 8126464nat);
    assert(log2_fraction(36637801355726313676nat, 8388608nat) == 16515072nat);
    assert(log2_fraction(25997079548143328951nat, 16777216nat) == 16515072nat);
    assert(log2_fraction(30969710140344185704nat, 33554432nat) == 50069504nat);
    assert(log2_fraction(33802080320474262600nat, 67108864nat) == 117178368nat);
    assert(log2_fraction(35313972442384979153nat, 134217728nat) == 251396096nat);
    assert(log2_fraction(25523083902042627858nat, 268435456nat) == 251396096nat);
    assert(log2_fraction(30686081428321749908nat, 536870912nat) == 788267008nat);
    assert(log2_fraction(23791979546335840214nat, 1073741824nat) == 788267008nat);
    assert(log2_fraction(20949571778396558120nat, 2147483648nat) == 788267008nat);
    assert(log2_fraction(27801129079585583639nat, 4294967296nat) == 5083234304nat);
    assert(log2_fraction(22645977856813329631nat, 8589934592nat) == 5083234304nat);
    assert(log2_fraction(28904828587055451391nat, 17179869184nat) == 22263103488nat);
    assert(log2_fraction(23091123303985355929nat, 34359738368nat) == 22263103488nat);
    assert(log2_fraction(29187533022271285668nat, 68719476736nat) == 90982580224nat);
    assert(log2_fraction(23203770206688064793nat, 137438953472nat) == 90982580224nat);
    assert(log2_fraction(29258640110160325660nat, 274877906944nat) == 365860487168nat);
    assert(log2_fraction(23232017692333581938nat, 549755813888nat) == 365860487168nat);
    assert(log2_fraction(29276443933181842495nat, 1099511627776nat) == 1465372114944nat);
    assert(log2_fraction(23239084935162832465nat, 2199023255552nat) == 1465372114944nat);
    assert(log2_fraction(20704720531949903606nat, 4398046511104nat) == 1465372114944nat);
    assert(log2_fraction(19543149202995901996nat, 8796093022208nat) == 1465372114944nat);
    assert(log2_fraction(26851721424965893687nat, 17592186044416nat) == 19057558159360nat);
    assert(log2_fraction(31474651167721919518nat, 35184372088832nat) == 54241930248192nat);
    assert(log2_fraction(34076526668668851802nat, 70368744177664nat) == 124610674425856nat);
    assert(log2_fraction(25071915889653758795nat, 140737488355328nat) == 124610674425856nat);
    assert(log2_fraction(30413655349333293039nat, 281474976710656nat) == 406085651136512nat);
    assert(log2_fraction(23686133423907725809nat, 562949953421312nat) == 406085651136512nat);
    assert(log2_fraction(20902919446014319170nat, 1125899906842624nat) == 406085651136512nat);
    assert(log2_fraction(19636466215029444190nat, 2251799813685248nat) == 406085651136512nat);
    assert(log2_fraction(19032311125575165667nat, 4503599627370496nat) == 406085651136512nat);
    assert(log2_fraction(18737240257431190155nat, 9007199254740992nat) == 406085651136512nat);
    assert(log2_fraction(18591424788768633811nat, 18014398509481984nat) == 406085651136512nat);
    assert(log2_fraction(18518943140579989594nat, 36028797018963968nat) == 406085651136512nat);
    assert(log2_fraction(18482808353436392077nat, 72057594037927936nat) == 406085651136512nat);
    assert(log2_fraction(18464767408750703277nat, 144115188075855872nat) == 406085651136512nat);
    assert(log2_fraction(18455753541099244685nat, 288230376151711744nat) == 406085651136512nat);
    assert(log2_fraction(18451248257505955620nat, 576460752303423488nat) == 406085651136512nat);
    assert(log2_fraction(18448996028149924170nat, 1152921504606846976nat) == 406085651136512nat);
    assert(log2_fraction(18447870016567377955nat, 2305843009213693952nat) == 406085651136512nat);
    assert(log2_fraction(18447307036548136965nat, 4611686018427387904nat) == 406085651136512nat);
    assert(log2_fraction(18447025552981295105nat, 9223372036854775808nat) == 406085651136512nat);
    }
}

/// On a price in `[MIN_SQRT_PRICE, MAX_SQRT_PRICE]` the approximated logarithm
/// points to ticks within the tick range: at most `MAX_TICK - 1` above zero and
/// at most `MAX_TICK` below.
pub proof fn lemma_log_tick_in_range(p: nat)
    requires
        MIN_SQRT_PRICE <= p <= MAX_SQRT_PRICE,
    ensures
        spec_log2_approx(spec_sqrt_price_to_x64(p)).0 ==> spec_log2_approx(spec_sqrt_price_to_x64(p)).1
            / (LOG2_SQRT_10001 as nat) <= 665454,
        !spec_log2_approx(spec_sqrt_price_to_x64(p)).0 ==> (spec_log2_approx(spec_sqrt_price_to_x64(p)).1
            + LOG2_NEGATIVE_MAX_LOSE) as nat / (LOG2_SQRT_10001 as nat) <= 665455,
{
    let one = LOG2_ONE as nat;
    let den = SQRT_PRICE_DENOMINATOR as nat;
    let lsq = LOG2_SQRT_10001 as nat;
    lemma_approx_at_range_ends();
    let x = spec_sqrt_price_to_x64(p);
    assert(p * one <= (MAX_SQRT_PRICE as nat) * one) by (nonlinear_arith)
        requires p <= MAX_SQRT_PRICE, one > 0;
    assert((MIN_SQRT_PRICE as nat) * one <= p * one) by (nonlinear_arith)
        requires MIN_SQRT_PRICE <= p, one > 0;
    lemma_div_is_ordered((p * one) as int, ((MAX_SQRT_PRICE as nat) * one) as int, den as int);
    lemma_div_is_ordered(((MIN_SQRT_PRICE as nat) * one) as int, (p * one) as int, den as int);
    assert(65534 <= x <= 5192410085712699832897385122752987nat);
    let l = spec_log2_approx(x).1;
    if x >= LOG2_ONE {
        lemma_approx_mono(x, 5192410085712699832897385122752987nat);
        lemma_div_is_ordered(l as int, 885444295875638853632int, lsq as int);
        lemma_div_exact(885444295875638853632nat, lsq, 665454nat, 1330584780744968nat);
        assert(l / lsq <= 665454);
    } else {
        lemma_approx_anti(65534nat, x);
        lemma_div_is_ordered((l + LOG2_NEGATIVE_MAX_LOSE) as int, (885444121623709614080nat + LOG2_NEGATIVE_MAX_LOSE) as int, lsq as int);
        lemma_div_exact(885444121623709614080nat + LOG2_NEGATIVE_MAX_LOSE as nat, lsq, 665455nat, 860643625406855nat);
        assert((l + LOG2_NEGATIVE_MAX_LOSE) as nat / lsq <= 665455);
    }
}

} // verus!
