//! Facts about the multiplicative group of the Goldilocks field that rest on
//! computation: the orders of 2 and of 7, checked by repeated squaring.
use crate::dft::minus_one;
use crate::field::{fmul, fpow, lemma_fpow_add, lemma_fpow_mul, modulus};
use vstd::prelude::*;

verus! {

/// `1^q == 1`.
pub proof fn lemma_fpow_one(q: nat)
    ensures
        fpow(1, q) == 1,
    decreases q,
{
    if q > 0 {
        lemma_fpow_one((q - 1) as nat);
        lemma_fmul_value(1, 1, 0, 1);
    }
}

/// A product of two given values, reduced, from its quotient and remainder.
proof fn lemma_fmul_value(a: nat, b: nat, q: nat, c: nat)
    requires
        a * b == q * modulus() + c,
        c < modulus(),
    ensures
        fmul(a, b) == c,
{
    vstd::arithmetic::div_mod::lemma_fundamental_div_mod_converse(
        (a * b) as int,
        modulus() as int,
        q as int,
        c as int,
    );
}

/// `x^(2a) == x^a * x^a`, where `x^a` is `c` and `c * c` is `q * P + d`.
proof fn lemma_square_step(x: nat, a: nat, c: nat, q: nat, d: nat)
    requires
        fpow(x, a) == c,
        c * c == q * modulus() + d,
        d < modulus(),
    ensures
        fpow(x, a + a) == d,
{
    lemma_fpow_add(x, a, a);
    lemma_fmul_value(c, c, q, d);
}

/// `x^(a+b) == x^a * x^b`, where `x^a` is `c`, `x^b` is `e` and `c * e` is `q * P + d`.
proof fn lemma_product_step(x: nat, a: nat, b: nat, c: nat, e: nat, q: nat, d: nat)
    requires
        fpow(x, a) == c,
        fpow(x, b) == e,
        c * e == q * modulus() + d,
        d < modulus(),
    ensures
        fpow(x, a + b) == d,
{
    lemma_fpow_add(x, a, b);
    lemma_fmul_value(c, e, q, d);
}

/// `x^1 == x` for `x` below `P`.
proof fn lemma_fpow_first(x: nat)
    requires
        x < modulus(),
    ensures
        fpow(x, 1) == x,
{
    assert(fpow(x, 0) == 1);
    lemma_fmul_value(x, 1, 0, x);
}

/// `2^96 == -1`, hence `2^192 == 1` and `2^(P-1) == 1`.
pub proof fn lemma_two_order()
    ensures
        fpow(2, 96) == minus_one(),
        fpow(2, 192) == 1,
        fpow(2, (modulus() - 1) as nat) == 1,
{
    lemma_fpow_first(2);
    lemma_square_step(2, 1, 2, 0, 4);
    lemma_square_step(2, 2, 4, 0, 16);
    lemma_square_step(2, 4, 16, 0, 256);
    lemma_square_step(2, 8, 256, 0, 65536);
    lemma_square_step(2, 16, 65536, 0, 4294967296);
    lemma_square_step(2, 32, 4294967296, 1, 4294967295);
    lemma_product_step(2, 64, 32, 4294967295, 4294967296, 0, 18446744069414584320);
    lemma_square_step(2, 96, 18446744069414584320, 18446744069414584319, 1);
    lemma_fpow_mul(2, 192, 96076792028200960);
    lemma_fpow_one(96076792028200960);
    assert(192 * 96076792028200960 == modulus() - 1);
}

/// `7^(2^k)` for `k` up to 62, by repeated squaring.
proof fn lemma_seven_squares()
    ensures
        fpow(7, 1) == 7,
        fpow(7, 2) == 49,
        fpow(7, 4) == 2401,
        fpow(7, 8) == 5764801,
        fpow(7, 16) == 33232930569601,
        fpow(7, 32) == 3732854072722565977,
        fpow(7, 64) == 11250886851934520606,
        fpow(7, 128) == 12159723539389677939,
        fpow(7, 256) == 1536671775522476176,
        fpow(7, 512) == 18371408314118145657,
        fpow(7, 1024) == 2431605942540367610,
        fpow(7, 2048) == 6358221588783459004,
        fpow(7, 4096) == 10083885515493449909,
        fpow(7, 8192) == 15094611910849701842,
        fpow(7, 16384) == 18060412910171584788,
        fpow(7, 32768) == 10529651373896570371,
        fpow(7, 65536) == 11156834669773791359,
        fpow(7, 131072) == 11840798296997857860,
        fpow(7, 262144) == 1447330804268045396,
        fpow(7, 524288) == 15265864706138236984,
        fpow(7, 1048576) == 12990112920302977158,
        fpow(7, 2097152) == 16491641580159807679,
        fpow(7, 4194304) == 17642952523097762870,
        fpow(7, 8388608) == 4419967652436713981,
        fpow(7, 16777216) == 7206579306846404579,
        fpow(7, 33554432) == 17869454728573311546,
        fpow(7, 67108864) == 4919185416341570378,
        fpow(7, 134217728) == 14445320067108370181,
        fpow(7, 268435456) == 17666966662873528270,
        fpow(7, 536870912) == 5473358340599679662,
        fpow(7, 1073741824) == 4120449531758749877,
        fpow(7, 2147483648) == 17380019310548783236,
        fpow(7, 4294967296) == 12275445934081160404,
        fpow(7, 8589934592) == 4756475762779100925,
        fpow(7, 17179869184) == 8312008622371998338,
        fpow(7, 34359738368) == 3688660304411827445,
        fpow(7, 68719476736) == 6534114114080170934,
        fpow(7, 137438953472) == 12241777603010464820,
        fpow(7, 274877906944) == 6822456961749002749,
        fpow(7, 549755813888) == 14740284407083446365,
        fpow(7, 1099511627776) == 14198376421529404772,
        fpow(7, 2199023255552) == 16372603252271478917,
        fpow(7, 4398046511104) == 6094962593300533783,
        fpow(7, 8796093022208) == 12855798221536971597,
        fpow(7, 17592186044416) == 4570035464479216815,
        fpow(7, 35184372088832) == 13312966101283008305,
        fpow(7, 70368744177664) == 17717521521350689785,
        fpow(7, 140737488355328) == 2579852125121816621,
        fpow(7, 281474976710656) == 5647278486080789199,
        fpow(7, 562949953421312) == 10087368686013698258,
        fpow(7, 1125899906842624) == 13705325519725492466,
        fpow(7, 2251799813685248) == 16094056529116650251,
        fpow(7, 4503599627370496) == 839801632116640137,
        fpow(7, 9007199254740992) == 809314592928515922,
        fpow(7, 18014398509481984) == 17285123329644556226,
        fpow(7, 36028797018963968) == 13607546115301327129,
        fpow(7, 72057594037927936) == 8495382904317313497,
        fpow(7, 144115188075855872) == 7711545778172399998,
        fpow(7, 288230376151711744) == 14653638268244293248,
        fpow(7, 576460752303423488) == 4449853170003902284,
        fpow(7, 1152921504606846976) == 16684733269283358279,
        fpow(7, 2305843009213693952) == 10831206780798498119,
        fpow(7, 4611686018427387904) == 8050641074587903850,
{
    lemma_fpow_first(7);
    lemma_square_step(7, 1, 7, 0, 49);
    lemma_square_step(7, 2, 49, 0, 2401);
    lemma_square_step(7, 4, 2401, 0, 5764801);
    lemma_square_step(7, 8, 5764801, 0, 33232930569601);
    lemma_square_step(7, 16, 33232930569601, 59871144, 3732854072722565977);
    lemma_square_step(7, 32, 3732854072722565977, 755374470194167763, 11250886851934520606);
    lemma_square_step(7, 64, 11250886851934520606, 6862048634637463057, 12159723539389677939);
    lemma_square_step(7, 128, 12159723539389677939, 8015445760942885145, 1536671775522476176);
    lemma_square_step(7, 256, 1536671775522476176, 128009590028552839, 18371408314118145657);
    lemma_square_step(7, 512, 18371408314118145657, 18296380226993647159, 2431605942540367610);
    lemma_square_step(7, 1024, 2431605942540367610, 320528513733820776, 6358221588783459004);
    lemma_square_step(7, 2048, 6358221588783459004, 2191551073725880667, 10083885515493449909);
    lemma_square_step(7, 4096, 10083885515493449909, 5512341186441451559, 15094611910849701842);
    lemma_square_step(7, 8192, 15094611910849701842, 12351627359374782256, 18060412910171584788);
    lemma_square_step(7, 16384, 18060412910171584788, 17682172705301910413, 10529651373896570371);
    lemma_square_step(7, 32768, 10529651373896570371, 6010467627164328842, 11156834669773791359);
    lemma_square_step(7, 65536, 11156834669773791359, 6747801095969600701, 11840798296997857860);
    lemma_square_step(7, 131072, 11840798296997857860, 7600501410037550524, 1447330804268045396);
    lemma_square_step(7, 262144, 1447330804268045396, 113557517201986392, 15265864706138236984);
    lemma_square_step(7, 524288, 15265864706138236984, 12633482870970026938, 12990112920302977158);
    lemma_square_step(7, 1048576, 12990112920302977158, 9147578187632842085, 16491641580159807679);
    lemma_square_step(7, 2097152, 16491641580159807679, 14743753205716107851, 17642952523097762870);
    lemma_square_step(7, 4194304, 17642952523097762870, 16874185089843886439, 4419967652436713981);
    lemma_square_step(7, 8388608, 4419967652436713981, 1059054864916706342, 7206579306846404579);
    lemma_square_step(7, 16777216, 7206579306846404579, 2815390353464961295, 17869454728573311546);
    lemma_square_step(7, 33554432, 17869454728573311546, 17310231610247778778, 4919185416341570378);
    lemma_square_step(7, 67108864, 4919185416341570378, 1311797088379918943, 14445320067108370181);
    lemma_square_step(7, 134217728, 14445320067108370181, 11311875475476573771, 17666966662873528270);
    lemma_square_step(7, 268435456, 17666966662873528270, 16920151864880832278, 5473358340599679662);
    lemma_square_step(7, 536870912, 5473358340599679662, 1624007543655523727, 4120449531758749877);
    lemma_square_step(7, 1073741824, 4120449531758749877, 920384880924393333, 17380019310548783236);
    lemma_square_step(7, 2147483648, 17380019310548783236, 16374980327064014652, 12275445934081160404);
    lemma_square_step(7, 4294967296, 12275445934081160404, 8168735485976295571, 4756475762779100925);
    lemma_square_step(7, 8589934592, 4756475762779100925, 1226452841583930247, 8312008622371998338);
    lemma_square_step(7, 17179869184, 8312008622371998338, 3745348614281448719, 3688660304411827445);
    lemma_square_step(7, 34359738368, 3688660304411827445, 737594384686194371, 6534114114080170934);
    lemma_square_step(7, 68719476736, 6534114114080170934, 2314481465952090416, 12241777603010464820);
    lemma_square_step(7, 137438953472, 12241777603010464820, 8123987535016771731, 6822456961749002749);
    lemma_square_step(7, 274877906944, 6822456961749002749, 2523259325318681516, 14740284407083446365);
    lemma_square_step(7, 549755813888, 14740284407083446365, 11778554718605294693, 14198376421529404772);
    lemma_square_step(7, 1099511627776, 14198376421529404772, 10928426840468428427, 16372603252271478917);
    lemma_square_step(7, 2199023255552, 16372603252271478917, 14531677582102307586, 6094962593300533783);
    lemma_square_step(7, 4398046511104, 6094962593300533783, 2013827961939718852, 12855798221536971597);
    lemma_square_step(7, 8796093022208, 12855798221536971597, 8959388566944981114, 4570035464479216815);
    lemma_square_step(7, 17592186044416, 4570035464479216815, 1132190269893009520, 13312966101283008305);
    lemma_square_step(7, 35184372088832, 13312966101283008305, 9607932204565742440, 17717521521350689785);
    lemma_square_step(7, 70368744177664, 17717521521350689785, 17017126040144977924, 2579852125121816621);
    lemma_square_step(7, 140737488355328, 2579852125121816621, 360802804139883802, 5647278486080789199);
    lemma_square_step(7, 281474976710656, 5647278486080789199, 1728855465189040783, 10087368686013698258);
    lemma_square_step(7, 562949953421312, 10087368686013698258, 5516149984228569938, 13705325519725492466);
    lemma_square_step(7, 1125899906842624, 13705325519725492466, 10182607125399333305, 16094056529116650251);
    lemma_square_step(7, 2251799813685248, 16094056529116650251, 14041429457020831984, 839801632116640137);
    lemma_square_step(7, 4503599627370496, 839801632116640137, 38232588832580607, 809314592928515922);
    lemma_square_step(7, 9007199254740992, 809314592928515922, 35507085036922498, 17285123329644556226);
    lemma_square_step(7, 18014398509481984, 17285123329644556226, 16196651690766601707, 13607546115301327129);
    lemma_square_step(7, 36028797018963968, 13607546115301327129, 10037831640276480664, 8495382904317313497);
    lemma_square_step(7, 72057594037927936, 8495382904317313497, 3912426519248459891, 7711545778172399998);
    lemma_square_step(7, 144115188075855872, 7711545778172399998, 3223763395050767236, 14653638268244293248);
    lemma_square_step(7, 288230376151711744, 14653638268244293248, 11640488624362864820, 4449853170003902284);
    lemma_square_step(7, 576460752303423488, 4449853170003902284, 1073424836387518537, 16684733269283358279);
    lemma_square_step(7, 1152921504606846976, 16684733269283358279, 15091027620895781482, 10831206780798498119);
    lemma_square_step(7, 2305843009213693952, 10831206780798498119, 6359661080945349191, 8050641074587903850);
}

/// `7^((P-1)/2) == -1`: 7 is not a square mod `P`. The exponent is
/// `2^31 + 2^32 + ... + 2^62`.
pub proof fn lemma_seven_half_order()
    ensures
        fpow(7, ((modulus() - 1) as nat / 2) as nat) == minus_one(),
{
    lemma_seven_squares();
    lemma_product_step(7, 2147483648, 4294967296, 17380019310548783236, 12275445934081160404, 11565590468274913940, 16341254035993852604);
    lemma_product_step(7, 6442450944, 8589934592, 16341254035993852604, 4756475762779100925, 4213577120338267680, 17838412189661013420);
    lemma_product_step(7, 15032385536, 17179869184, 17838412189661013420, 8312008622371998338, 8037897385681765662, 14553636398574310458);
    lemma_product_step(7, 32212254720, 34359738368, 14553636398574310458, 3688660304411827445, 2910184077268863819, 12914056198713337911);
    lemma_product_step(7, 66571993088, 68719476736, 12914056198713337911, 6534114114080170934, 4574352880948016520, 10709466607341495954);
    lemma_product_step(7, 135291469824, 137438953472, 10709466607341495954, 12241777603010464820, 7107102909901335377, 7500959378422514263);
    lemma_product_step(7, 272730423296, 274877906944, 7500959378422514263, 6822456961749002749, 2774200820401972188, 8965981650855844639);
    lemma_product_step(7, 547608330240, 549755813888, 8965981650855844639, 14740284407083446365, 7164468646878174842, 12986574462539434953);
    lemma_product_step(7, 1097364144128, 1099511627776, 12986574462539434953, 14198376421529404772, 9995708291474521436, 12658757672957790760);
    lemma_product_step(7, 2196875771904, 2199023255552, 12658757672957790760, 16372603252271478917, 11235414567800346304, 328486730228707336);
    lemma_product_step(7, 4395899027456, 4398046511104, 328486730228707336, 6094962593300533783, 108534835502984939, 10989187623479390669);
    lemma_product_step(7, 8793945538560, 8796093022208, 10989187623479390669, 12855798221536971597, 7658521101309227864, 14744565892089108049);
    lemma_product_step(7, 17590038560768, 17592186044416, 14744565892089108049, 4570035464479216815, 3652849997898642738, 10977344643077333037);
    lemma_product_step(7, 35182224605184, 35184372088832, 10977344643077333037, 13312966101283008305, 7922320414131869577, 10862935977680770068);
    lemma_product_step(7, 70366596694016, 70368744177664, 10862935977680770068, 17717521521350689785, 10433510718497309362, 7318164361609642178);
    lemma_product_step(7, 140735340871680, 140737488355328, 7318164361609642178, 2579852125121816621, 1023475026771406612, 10123972320692110086);
    lemma_product_step(7, 281472829227008, 281474976710656, 10123972320692110086, 5647278486080789199, 3099348636549732368, 130724526948758986);
    lemma_product_step(7, 562947805937664, 562949953421312, 130724526948758986, 10087368686013698258, 71485054201151156, 17661458235941421312);
    lemma_product_step(7, 1125897759358976, 1125899906842624, 17661458235941421312, 13705325519725492466, 13121883914351704667, 6339018849627109285);
    lemma_product_step(7, 2251797666201600, 2251799813685248, 6339018849627109285, 16094056529116650251, 5530543890083490633, 11012737045107515342);
    lemma_product_step(7, 4503597479886848, 4503599627370496, 11012737045107515342, 839801632116640137, 501362978190122518, 14175618418188641576);
    lemma_product_step(7, 9007197107257344, 9007199254740992, 14175618418188641576, 809314592928515922, 621927360538829184, 14962862707483549008);
    lemma_product_step(7, 18014396361998336, 18014398509481984, 14962862707483549008, 17285123329644556226, 14020627504244454849, 13017193425094701279);
    lemma_product_step(7, 36028794871480320, 36028797018963968, 13017193425094701279, 13607546115301327129, 9602348206124092695, 8024443007816062896);
    lemma_product_step(7, 72057591890444288, 72057594037927936, 8024443007816062896, 8495382904317313497, 3695541917248088722, 4925816364943579550);
    lemma_product_step(7, 144115185928372224, 144115188075855872, 4925816364943579550, 7711545778172399998, 2059206668135807810, 14525145177837493890);
    lemma_product_step(7, 288230374004228096, 288230376151711744, 14525145177837493890, 14653638268244293248, 11538416884238711671, 18298270339531944329);
    lemma_product_step(7, 576460750155939840, 576460752303423488, 18298270339531944329, 4449853170003902284, 4414037294037150398, 11853244195314237678);
    lemma_product_step(7, 1152921502459363328, 1152921504606846976, 11853244195314237678, 16684733269283358279, 10721036570481111091, 9827442270647231951);
    lemma_product_step(7, 2305843007066210304, 2305843009213693952, 9827442270647231951, 10831206780798498119, 5770289811535185785, 15846339274147123184);
    lemma_product_step(7, 4611686016279904256, 4611686018427387904, 15846339274147123184, 8050641074587903850, 6915756480506800480, 18446744069414584320);
    assert((modulus() - 1) as nat / 2 == 9223372034707292160);
}

/// `7^((P-1)/3)` is not 1.
pub proof fn lemma_seven_not_root_3()
    ensures
        fpow(7, ((modulus() - 1) as nat / 3) as nat) != 1,
{
    lemma_seven_squares();
    lemma_product_step(7, 4294967296, 17179869184, 12275445934081160404, 8312008622371998338, 5531253215396400128, 7781028390488215464);
    lemma_product_step(7, 21474836480, 68719476736, 7781028390488215464, 6534114114080170934, 2756157251221681962, 8246665031048405574);
    lemma_product_step(7, 90194313216, 274877906944, 8246665031048405574, 6822456961749002749, 3049997172431837543, 4733570987445959623);
    lemma_product_step(7, 365072220160, 1099511627776, 4733570987445959623, 14198376421529404772, 3643408421826783852, 18361179848640336464);
    lemma_product_step(7, 1464583847936, 4398046511104, 18361179848640336464, 6094962593300533783, 6066691440246015392, 14539522463670894480);
    lemma_product_step(7, 5862630359040, 17592186044416, 14539522463670894480, 4570035464479216815, 3602052104454491996, 11310299617345086484);
    lemma_product_step(7, 23454816403456, 70368744177664, 11310299617345086484, 17717521521350689785, 10863189521639821974, 144820208228696286);
    lemma_product_step(7, 93823560581120, 281474976710656, 144820208228696286, 5647278486080789199, 44335197756425051, 18342191855603989543);
    lemma_product_step(7, 375298537291776, 1125899906842624, 18342191855603989543, 13705325519725492466, 13627646655710786421, 16561037900262977897);
    lemma_product_step(7, 1501198444134400, 4503599627370496, 16561037900262977897, 839801632116640137, 753953467660797875, 5709593261608934014);
    lemma_product_step(7, 6004798071504896, 18014398509481984, 5709593261608934014, 17285123329644556226, 5350051115668237440, 7802345761617692924);
    lemma_product_step(7, 24019196580986880, 72057594037927936, 7802345761617692924, 8495382904317313497, 3593258222014414664, 13093268643099712084);
    lemma_product_step(7, 96076790618914816, 288230376151711744, 13093268643099712084, 14653638268244293248, 10400969500251643209, 6515397714927682743);
    lemma_product_step(7, 384307166770626560, 1152921504606846976, 6515397714927682743, 16684733269283358279, 5893054763908618846, 11368723234197765731);
    lemma_product_step(7, 1537228671377473536, 4611686018427387904, 11368723234197765731, 8050641074587903850, 4961607852878883325, 18446744065119617025);
    assert((modulus() - 1) as nat / 3 == 6148914689804861440);
}

/// `7^((P-1)/5)` is not 1.
pub proof fn lemma_seven_not_root_5()
    ensures
        fpow(7, ((modulus() - 1) as nat / 5) as nat) != 1,
{
    lemma_seven_squares();
    lemma_product_step(7, 4294967296, 8589934592, 12275445934081160404, 4756475762779100925, 3165212291288392412, 1279992132519201448);
    lemma_product_step(7, 12884901888, 68719476736, 1279992132519201448, 6534114114080170934, 453392459261821036, 3320735505586735876);
    lemma_product_step(7, 81604378624, 137438953472, 3320735505586735876, 12241777603010464820, 2203733373480008149, 3080292546802250491);
    lemma_product_step(7, 219043332096, 1099511627776, 3080292546802250491, 14198376421529404772, 2370887399063795248, 8400513760699636444);
    lemma_product_step(7, 1318554959872, 2199023255552, 8400513760699636444, 16372603252271478917, 7455965041940705943, 8229424189471531445);
    lemma_product_step(7, 3517578215424, 17592186044416, 8229424189471531445, 4570035464479216815, 2038774986881550171, 5375412128173778784);
    lemma_product_step(7, 21109764259840, 35184372088832, 5375412128173778784, 13312966101283008305, 3879420626941789837, 13117622064007455443);
    lemma_product_step(7, 56294136348672, 281474976710656, 13117622064007455443, 5647278486080789199, 4015823312333671151, 11287908954693536686);
    lemma_product_step(7, 337769113059328, 562949953421312, 11287908954693536686, 10087368686013698258, 6172650246118081781, 3714462262458937287);
    lemma_product_step(7, 900719066480640, 4503599627370496, 3714462262458937287, 839801632116640137, 169103634696205723, 659527408083819236);
    lemma_product_step(7, 5404318693851136, 9007199254740992, 659527408083819236, 809314592928515922, 28935467082429937, 750328663734657815);
    lemma_product_step(7, 14411517948592128, 72057594037927936, 750328663734657815, 8495382904317313497, 345553083976459071, 11749639948441203264);
    lemma_product_step(7, 86469111986520064, 144115188075855872, 11749639948441203264, 7711545778172399998, 4911863361821066260, 7734626918933084012);
    lemma_product_step(7, 230584300062375936, 1152921504606846976, 7734626918933084012, 16684733269283358279, 6995824661208785817, 14805977549627360091);
    lemma_product_step(7, 1383505804669222912, 2305843009213693952, 14805977549627360091, 10831206780798498119, 8693491047982187367, 1373043270956696022);
    assert((modulus() - 1) as nat / 5 == 3689348813882916864);
}

/// `7^((P-1)/17)` is not 1.
pub proof fn lemma_seven_not_root_17()
    ensures
        fpow(7, ((modulus() - 1) as nat / 17) as nat) != 1,
{
    lemma_seven_squares();
    lemma_product_step(7, 4294967296, 8589934592, 12275445934081160404, 4756475762779100925, 3165212291288392412, 1279992132519201448);
    lemma_product_step(7, 12884901888, 17179869184, 1279992132519201448, 8312008622371998338, 576757914677653306, 4549350404001778198);
    lemma_product_step(7, 30064771072, 34359738368, 4549350404001778198, 3688660304411827445, 909700280057814134, 11274872323250451096);
    lemma_product_step(7, 64424509440, 1099511627776, 11274872323250451096, 14198376421529404772, 8678218809118764528, 4720006745175264624);
    lemma_product_step(7, 1163936137216, 2199023255552, 4720006745175264624, 16372603252271478917, 4189292023351215304, 10300021345978283624);
    lemma_product_step(7, 3362959392768, 4398046511104, 10300021345978283624, 6094962593300533783, 3403215471397113049, 2922959029587764863);
    lemma_product_step(7, 7761005903872, 8796093022208, 2922959029587764863, 12855798221536971597, 2037051706946153878, 17081009302073449373);
    lemma_product_step(7, 16557098926080, 281474976710656, 17081009302073449373, 5647278486080789199, 5229173017697017724, 11460834259182216823);
    lemma_product_step(7, 298032075636736, 562949953421312, 11460834259182216823, 10087368686013698258, 6267212261775398488, 4233525944401487686);
    lemma_product_step(7, 860982029058048, 1125899906842624, 4233525944401487686, 13705325519725492466, 3145370854926542327, 331254610867718709);
    lemma_product_step(7, 1986881935900672, 2251799813685248, 331254610867718709, 16094056529116650251, 289006580932349464, 15021829110735092015);
    lemma_product_step(7, 4238681749585920, 72057594037927936, 15021829110735092015, 8495382904317313497, 6918087535594296864, 13781439335062557111);
    lemma_product_step(7, 76296275787513856, 144115188075855872, 13781439335062557111, 7711545778172399998, 5761244364941928342, 13651804369712559996);
    lemma_product_step(7, 220411463863369728, 288230376151711744, 13651804369712559996, 14653638268244293248, 10844656498178069258, 6511077653398803190);
    lemma_product_step(7, 508641840015081472, 576460752303423488, 6511077653398803190, 4449853170003902284, 1570647883826672270, 16301593560560007290);
    assert((modulus() - 1) as nat / 17 == 1085102592318504960);
}

/// `7^((P-1)/257)` is not 1.
pub proof fn lemma_seven_not_root_257()
    ensures
        fpow(7, ((modulus() - 1) as nat / 257) as nat) != 1,
{
    lemma_seven_squares();
    lemma_product_step(7, 4294967296, 8589934592, 12275445934081160404, 4756475762779100925, 3165212291288392412, 1279992132519201448);
    lemma_product_step(7, 12884901888, 17179869184, 1279992132519201448, 8312008622371998338, 576757914677653306, 4549350404001778198);
    lemma_product_step(7, 30064771072, 34359738368, 4549350404001778198, 3688660304411827445, 909700280057814134, 11274872323250451096);
    lemma_product_step(7, 64424509440, 68719476736, 11274872323250451096, 6534114114080170934, 3993729305539210620, 4304519570518954644);
    lemma_product_step(7, 133143986176, 137438953472, 4304519570518954644, 12241777603010464820, 2856600117170241770, 16394889243316335910);
    lemma_product_step(7, 270582939648, 274877906944, 16394889243316335910, 6822456961749002749, 6063586388701770193, 3679734199234472637);
    lemma_product_step(7, 545460846592, 549755813888, 3679734199234472637, 14740284407083446365, 2940374108031354602, 17588058450869219263);
    lemma_product_step(7, 1095216660480, 281474976710656, 17588058450869219263, 5647278486080789199, 5384400831266981835, 14827937047230331302);
    lemma_product_step(7, 282570193371136, 562949953421312, 14827937047230331302, 10087368686013698258, 8108469835412016386, 11641541232969588010);
    lemma_product_step(7, 845520146792448, 1125899906842624, 11641541232969588010, 13705325519725492466, 8649283122743410789, 10121517038197293391);
    lemma_product_step(7, 1971420053635072, 2251799813685248, 10121517038197293391, 16094056529116650251, 8830624350844270998, 17072541970134968783);
    lemma_product_step(7, 4223219867320320, 4503599627370496, 17072541970134968783, 839801632116640137, 777240067783636475, 12352856845441134796);
    lemma_product_step(7, 8726819494690816, 9007199254740992, 12352856845441134796, 809314592928515922, 541957283721868952, 2236448923518320320);
    lemma_product_step(7, 17734018749431808, 18014398509481984, 2236448923518320320, 17285123329644556226, 2095616186683061569, 5366285883533252671);
    lemma_product_step(7, 35748417258913792, 36028797018963968, 5366285883533252671, 13607546115301327129, 3958529611149239936, 995085315851368103);
    assert((modulus() - 1) as nat / 257 == 71777214277877760);
}

/// `7^((P-1)/65537)` is not 1.
pub proof fn lemma_seven_not_root_65537()
    ensures
        fpow(7, ((modulus() - 1) as nat / 65537) as nat) != 1,
{
    lemma_seven_squares();
    lemma_product_step(7, 4294967296, 8589934592, 12275445934081160404, 4756475762779100925, 3165212291288392412, 1279992132519201448);
    lemma_product_step(7, 12884901888, 17179869184, 1279992132519201448, 8312008622371998338, 576757914677653306, 4549350404001778198);
    lemma_product_step(7, 30064771072, 34359738368, 4549350404001778198, 3688660304411827445, 909700280057814134, 11274872323250451096);
    lemma_product_step(7, 64424509440, 68719476736, 11274872323250451096, 6534114114080170934, 3993729305539210620, 4304519570518954644);
    lemma_product_step(7, 133143986176, 137438953472, 4304519570518954644, 12241777603010464820, 2856600117170241770, 16394889243316335910);
    lemma_product_step(7, 270582939648, 274877906944, 16394889243316335910, 6822456961749002749, 6063586388701770193, 3679734199234472637);
    lemma_product_step(7, 545460846592, 549755813888, 3679734199234472637, 14740284407083446365, 2940374108031354602, 17588058450869219263);
    lemma_product_step(7, 1095216660480, 1099511627776, 17588058450869219263, 14198376421529404772, 13537449940737837062, 13474118253388618134);
    lemma_product_step(7, 2194728288256, 2199023255552, 13474118253388618134, 16372603252271478917, 11959096494578407782, 3424231069583294856);
    lemma_product_step(7, 4393751543808, 4398046511104, 3424231069583294856, 6094962593300533783, 1131395340087785797, 3212278696635431411);
    lemma_product_step(7, 8791798054912, 8796093022208, 3212278696635431411, 12855798221536971597, 2238682696517588764, 8674491644268464123);
    lemma_product_step(7, 17587891077120, 17592186044416, 8674491644268464123, 4570035464479216815, 2149036941232610463, 7614671795105477622);
    lemma_product_step(7, 35180077121536, 35184372088832, 7614671795105477622, 13312966101283008305, 5495488369067626020, 565825823434018290);
    lemma_product_step(7, 70364449210368, 70368744177664, 565825823434018290, 17717521521350689785, 543458030658650720, 1614949354278806530);
    lemma_product_step(7, 140733193388032, 140737488355328, 1614949354278806530, 2579852125121816621, 225857230301591369, 8478886009461009681);
    assert((modulus() - 1) as nat / 65537 == 281470681743360);
}

/// `7^(P-1) == 1`.
pub proof fn lemma_seven_full_order()
    ensures
        fpow(7, (modulus() - 1) as nat) == 1,
{
    lemma_seven_half_order();
    lemma_square_step(7, 9223372034707292160, 18446744069414584320, 18446744069414584319, 1);
    assert(9223372034707292160 + 9223372034707292160 == modulus() - 1);
}

} // verus!
