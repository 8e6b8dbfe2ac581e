//! The order of the generator of the reference field: its successive
//! squares, down to minus one after 118 squarings and one after 119.

use crate::algebra::{fmul, fpow, REFERENCE_GENERATOR, REFERENCE_MODULUS};
use vstd::arithmetic::div_mod::*;
use vstd::arithmetic::power::*;
use vstd::arithmetic::power2::*;
use vstd::prelude::*;

verus! {

/// `x` squared `k` times in the field of modulus `p`.
pub open spec fn repeated_square(x: int, k: nat, p: int) -> int
    decreases k,
{
    if k == 0 {
        x % p
    } else {
        fmul(repeated_square(x, (k - 1) as nat, p), repeated_square(x, (k - 1) as nat, p), p)
    }
}

/// Squaring `k` times raises to the power `2^k`.
pub proof fn lemma_repeated_square(x: int, k: nat, p: int)
    requires
        p > 0,
    ensures
        repeated_square(x, k, p) == fpow(x, pow2(k), p),
    decreases k,
{
    if k == 0 {
        lemma2_to64();
        lemma_pow1(x);
    } else {
        let before = (k - 1) as nat;
        lemma_repeated_square(x, before, p);
        lemma_pow2_unfold(k);
        lemma_pow_adds(x, pow2(before), pow2(before));
        lemma_mul_mod_noop(pow(x, pow2(before)), pow(x, pow2(before)), p);
    }
}

/// The square of `x` in the reference field.
pub open spec fn reference_square(x: int) -> int {
    (x * x) % (REFERENCE_MODULUS as int)
}

/// The generator of the reference field squared `k` times.
pub open spec fn generator_square(k: nat) -> int {
    repeated_square(REFERENCE_GENERATOR as int, k, REFERENCE_MODULUS as int)
}

/// The squares of the generator from number 0 to number 10.
proof fn lemma_generator_squares_0_10()
    requires
        generator_square(0) == 85408008396924667383611388730472331217,
    ensures
        generator_square(10) == 167821236365404291148050121994212534469,
{
    assert(reference_square(85408008396924667383611388730472331217)
        == 149224634558074809886965749048363504499);
    assert(generator_square(1) == 149224634558074809886965749048363504499);
    assert(reference_square(149224634558074809886965749048363504499)
        == 196162427740603549034094478475071502895);
    assert(generator_square(2) == 196162427740603549034094478475071502895);
    assert(reference_square(196162427740603549034094478475071502895)
        == 116907268213658073643575533712566658409);
    assert(generator_square(3) == 116907268213658073643575533712566658409);
    assert(reference_square(116907268213658073643575533712566658409)
        == 166617961947997291532655829812349960164);
    assert(generator_square(4) == 166617961947997291532655829812349960164);
    assert(reference_square(166617961947997291532655829812349960164)
        == 66539852496339537101639054531930604572);
    assert(generator_square(5) == 66539852496339537101639054531930604572);
    assert(reference_square(66539852496339537101639054531930604572)
        == 11440213797608215834996383946810379256);
    assert(generator_square(6) == 11440213797608215834996383946810379256);
    assert(reference_square(11440213797608215834996383946810379256)
        == 17602296786744439286762978807761752841);
    assert(generator_square(7) == 17602296786744439286762978807761752841);
    assert(reference_square(17602296786744439286762978807761752841)
        == 199541424264935087850924453643565512551);
    assert(generator_square(8) == 199541424264935087850924453643565512551);
    assert(reference_square(199541424264935087850924453643565512551)
        == 246850224108186744029793303077107928002);
    assert(generator_square(9) == 246850224108186744029793303077107928002);
    assert(reference_square(246850224108186744029793303077107928002)
        == 167821236365404291148050121994212534469);
    assert(generator_square(10) == 167821236365404291148050121994212534469);
}

/// The squares of the generator from number 10 to number 20.
proof fn lemma_generator_squares_10_20()
    requires
        generator_square(10) == 167821236365404291148050121994212534469,
    ensures
        generator_square(20) == 255386618866870105815482582995418345528,
{
    assert(reference_square(167821236365404291148050121994212534469)
        == 88976046038924257398602493835937884988);
    assert(generator_square(11) == 88976046038924257398602493835937884988);
    assert(reference_square(88976046038924257398602493835937884988)
        == 113311751783716775014335921307100660215);
    assert(generator_square(12) == 113311751783716775014335921307100660215);
    assert(reference_square(113311751783716775014335921307100660215)
        == 252518172258572391743594285991950099575);
    assert(generator_square(13) == 252518172258572391743594285991950099575);
    assert(reference_square(252518172258572391743594285991950099575)
        == 11299117659779408681013300157561799534);
    assert(generator_square(14) == 11299117659779408681013300157561799534);
    assert(reference_square(11299117659779408681013300157561799534)
        == 270412624064662740304871610389070347221);
    assert(generator_square(15) == 270412624064662740304871610389070347221);
    assert(reference_square(270412624064662740304871610389070347221)
        == 107947943573123063506061990015412277862);
    assert(generator_square(16) == 107947943573123063506061990015412277862);
    assert(reference_square(107947943573123063506061990015412277862)
        == 80416519481334871588817435157238859049);
    assert(generator_square(17) == 80416519481334871588817435157238859049);
    assert(reference_square(80416519481334871588817435157238859049)
        == 225121490872289251628820053790942300823);
    assert(generator_square(18) == 225121490872289251628820053790942300823);
    assert(reference_square(225121490872289251628820053790942300823)
        == 261542952432975256673517305685335932442);
    assert(generator_square(19) == 261542952432975256673517305685335932442);
    assert(reference_square(261542952432975256673517305685335932442)
        == 255386618866870105815482582995418345528);
    assert(generator_square(20) == 255386618866870105815482582995418345528);
}

/// The squares of the generator from number 20 to number 30.
proof fn lemma_generator_squares_20_30()
    requires
        generator_square(20) == 255386618866870105815482582995418345528,
    ensures
        generator_square(30) == 62939139381922072894452418990800650140,
{
    assert(reference_square(255386618866870105815482582995418345528)
        == 169357868963646291131969861540516148345);
    assert(generator_square(21) == 169357868963646291131969861540516148345);
    assert(reference_square(169357868963646291131969861540516148345)
        == 42860547447461522328132211891982695648);
    assert(generator_square(22) == 42860547447461522328132211891982695648);
    assert(reference_square(42860547447461522328132211891982695648)
        == 247455619237964463369664434510801692452);
    assert(generator_square(23) == 247455619237964463369664434510801692452);
    assert(reference_square(247455619237964463369664434510801692452)
        == 130122049647530062205581222296118697477);
    assert(generator_square(24) == 130122049647530062205581222296118697477);
    assert(reference_square(130122049647530062205581222296118697477)
        == 180551018904150520211061380083100186190);
    assert(generator_square(25) == 180551018904150520211061380083100186190);
    assert(reference_square(180551018904150520211061380083100186190)
        == 224760921383767948157608946181935986226);
    assert(generator_square(26) == 224760921383767948157608946181935986226);
    assert(reference_square(224760921383767948157608946181935986226)
        == 176992033890563115156737092951553092095);
    assert(generator_square(27) == 176992033890563115156737092951553092095);
    assert(reference_square(176992033890563115156737092951553092095)
        == 27682845242716721946598882822503610202);
    assert(generator_square(28) == 27682845242716721946598882822503610202);
    assert(reference_square(27682845242716721946598882822503610202)
        == 108002185358140313573024299302487023714);
    assert(generator_square(29) == 108002185358140313573024299302487023714);
    assert(reference_square(108002185358140313573024299302487023714)
        == 62939139381922072894452418990800650140);
    assert(generator_square(30) == 62939139381922072894452418990800650140);
}

/// The squares of the generator from number 30 to number 40.
proof fn lemma_generator_squares_30_40()
    requires
        generator_square(30) == 62939139381922072894452418990800650140,
    ensures
        generator_square(40) == 202836202521740724160226012827507627891,
{
    assert(reference_square(62939139381922072894452418990800650140)
        == 57924891631807238565598727485572045644);
    assert(generator_square(31) == 57924891631807238565598727485572045644);
    assert(reference_square(57924891631807238565598727485572045644)
        == 124100165001946951453904346266445263568);
    assert(generator_square(32) == 124100165001946951453904346266445263568);
    assert(reference_square(124100165001946951453904346266445263568)
        == 17790046619295832126019970320279295517);
    assert(generator_square(33) == 17790046619295832126019970320279295517);
    assert(reference_square(17790046619295832126019970320279295517)
        == 122164916714994622816075438467735778924);
    assert(generator_square(34) == 122164916714994622816075438467735778924);
    assert(reference_square(122164916714994622816075438467735778924)
        == 13786098917239544716937413746546575312);
    assert(generator_square(35) == 13786098917239544716937413746546575312);
    assert(reference_square(13786098917239544716937413746546575312)
        == 185263851514126330133912249213886199221);
    assert(generator_square(36) == 185263851514126330133912249213886199221);
    assert(reference_square(185263851514126330133912249213886199221)
        == 179244674670192837828247893482562699105);
    assert(generator_square(37) == 179244674670192837828247893482562699105);
    assert(reference_square(179244674670192837828247893482562699105)
        == 20563719943151555632205195012007115505);
    assert(generator_square(38) == 20563719943151555632205195012007115505);
    assert(reference_square(20563719943151555632205195012007115505)
        == 140621402111036775988008772915844879174);
    assert(generator_square(39) == 140621402111036775988008772915844879174);
    assert(reference_square(140621402111036775988008772915844879174)
        == 202836202521740724160226012827507627891);
    assert(generator_square(40) == 202836202521740724160226012827507627891);
}

/// The squares of the generator from number 40 to number 50.
proof fn lemma_generator_squares_40_50()
    requires
        generator_square(40) == 202836202521740724160226012827507627891,
    ensures
        generator_square(50) == 133809604871796689988030087412326146557,
{
    assert(reference_square(202836202521740724160226012827507627891)
        == 23027356669772877248389090475997951526);
    assert(generator_square(41) == 23027356669772877248389090475997951526);
    assert(reference_square(23027356669772877248389090475997951526)
        == 58138121265556465467198353860315416106);
    assert(generator_square(42) == 58138121265556465467198353860315416106);
    assert(reference_square(58138121265556465467198353860315416106)
        == 165266553723404018475348156398223269877);
    assert(generator_square(43) == 165266553723404018475348156398223269877);
    assert(reference_square(165266553723404018475348156398223269877)
        == 261141639789913469346277529426114455260);
    assert(generator_square(44) == 261141639789913469346277529426114455260);
    assert(reference_square(261141639789913469346277529426114455260)
        == 58728008449227361815617982044258415329);
    assert(generator_square(45) == 58728008449227361815617982044258415329);
    assert(reference_square(58728008449227361815617982044258415329)
        == 37725989879039022500469842541563242074);
    assert(generator_square(46) == 37725989879039022500469842541563242074);
    assert(reference_square(37725989879039022500469842541563242074)
        == 60681604994722136887109123241705708294);
    assert(generator_square(47) == 60681604994722136887109123241705708294);
    assert(reference_square(60681604994722136887109123241705708294)
        == 141194708474709860713418838910853647399);
    assert(generator_square(48) == 141194708474709860713418838910853647399);
    assert(reference_square(141194708474709860713418838910853647399)
        == 114111171465583200206545561993065702547);
    assert(generator_square(49) == 114111171465583200206545561993065702547);
    assert(reference_square(114111171465583200206545561993065702547)
        == 133809604871796689988030087412326146557);
    assert(generator_square(50) == 133809604871796689988030087412326146557);
}

/// The squares of the generator from number 50 to number 60.
proof fn lemma_generator_squares_50_60()
    requires
        generator_square(50) == 133809604871796689988030087412326146557,
    ensures
        generator_square(60) == 131074062203379889953062526448314520318,
{
    assert(reference_square(133809604871796689988030087412326146557)
        == 139778377801951755471378484836047612481);
    assert(generator_square(51) == 139778377801951755471378484836047612481);
    assert(reference_square(139778377801951755471378484836047612481)
        == 268724245828496293570156221921880532962);
    assert(generator_square(52) == 268724245828496293570156221921880532962);
    assert(reference_square(268724245828496293570156221921880532962)
        == 3958032543719356951799974873689414320);
    assert(generator_square(53) == 3958032543719356951799974873689414320);
    assert(reference_square(3958032543719356951799974873689414320)
        == 53059386756353717559522727970609300717);
    assert(generator_square(54) == 53059386756353717559522727970609300717);
    assert(reference_square(53059386756353717559522727970609300717)
        == 164705897179045511576021990306356833063);
    assert(generator_square(55) == 164705897179045511576021990306356833063);
    assert(reference_square(164705897179045511576021990306356833063)
        == 105295318520168687186049693150401624994);
    assert(generator_square(56) == 105295318520168687186049693150401624994);
    assert(reference_square(105295318520168687186049693150401624994)
        == 16699477141478102951009382564178171941);
    assert(generator_square(57) == 16699477141478102951009382564178171941);
    assert(reference_square(16699477141478102951009382564178171941)
        == 149055539229067169652728748735484291821);
    assert(generator_square(58) == 149055539229067169652728748735484291821);
    assert(reference_square(149055539229067169652728748735484291821)
        == 138645589299768798093686386428214378832);
    assert(generator_square(59) == 138645589299768798093686386428214378832);
    assert(reference_square(138645589299768798093686386428214378832)
        == 131074062203379889953062526448314520318);
    assert(generator_square(60) == 131074062203379889953062526448314520318);
}

/// The squares of the generator from number 60 to number 70.
proof fn lemma_generator_squares_60_70()
    requires
        generator_square(60) == 131074062203379889953062526448314520318,
    ensures
        generator_square(70) == 87996014433354069326265695207609150526,
{
    assert(reference_square(131074062203379889953062526448314520318)
        == 26536124405033603670713480101053962456);
    assert(generator_square(61) == 26536124405033603670713480101053962456);
    assert(reference_square(26536124405033603670713480101053962456)
        == 57784280522505321714756156840676764917);
    assert(generator_square(62) == 57784280522505321714756156840676764917);
    assert(reference_square(57784280522505321714756156840676764917)
        == 7012453248280543647378601745987878829);
    assert(generator_square(63) == 7012453248280543647378601745987878829);
    assert(reference_square(7012453248280543647378601745987878829)
        == 119309974934634033526503127276303555971);
    assert(generator_square(64) == 119309974934634033526503127276303555971);
    assert(reference_square(119309974934634033526503127276303555971)
        == 115920883987797986801259308440027594150);
    assert(generator_square(65) == 115920883987797986801259308440027594150);
    assert(reference_square(115920883987797986801259308440027594150)
        == 149290865943755429783762521900753254994);
    assert(generator_square(66) == 149290865943755429783762521900753254994);
    assert(reference_square(149290865943755429783762521900753254994)
        == 231142037842266224342672198120388832262);
    assert(generator_square(67) == 231142037842266224342672198120388832262);
    assert(reference_square(231142037842266224342672198120388832262)
        == 164609129545297704292836920354710862498);
    assert(generator_square(68) == 164609129545297704292836920354710862498);
    assert(reference_square(164609129545297704292836920354710862498)
        == 50932702601501463798052246008257562581);
    assert(generator_square(69) == 50932702601501463798052246008257562581);
    assert(reference_square(50932702601501463798052246008257562581)
        == 87996014433354069326265695207609150526);
    assert(generator_square(70) == 87996014433354069326265695207609150526);
}

/// The squares of the generator from number 70 to number 80.
proof fn lemma_generator_squares_70_80()
    requires
        generator_square(70) == 87996014433354069326265695207609150526,
    ensures
        generator_square(80) == 188760366701737051411748298026312469771,
{
    assert(reference_square(87996014433354069326265695207609150526)
        == 30459465645563241462545685926180803515);
    assert(generator_square(71) == 30459465645563241462545685926180803515);
    assert(reference_square(30459465645563241462545685926180803515)
        == 230796742234458129108932900195113208666);
    assert(generator_square(72) == 230796742234458129108932900195113208666);
    assert(reference_square(230796742234458129108932900195113208666)
        == 57339134353009133810797907793724699763);
    assert(generator_square(73) == 57339134353009133810797907793724699763);
    assert(reference_square(57339134353009133810797907793724699763)
        == 71986082510956851263451977148123322035);
    assert(generator_square(74) == 71986082510956851263451977148123322035);
    assert(reference_square(71986082510956851263451977148123322035)
        == 47679057791719070864231322410555492847);
    assert(generator_square(75) == 47679057791719070864231322410555492847);
    assert(reference_square(47679057791719070864231322410555492847)
        == 165826587459566835239990104129175411136);
    assert(generator_square(76) == 165826587459566835239990104129175411136);
    assert(reference_square(165826587459566835239990104129175411136)
        == 87633478589235870927785904175920872344);
    assert(generator_square(77) == 87633478589235870927785904175920872344);
    assert(reference_square(87633478589235870927785904175920872344)
        == 175911951539014832173347546270092274198);
    assert(generator_square(78) == 175911951539014832173347546270092274198);
    assert(reference_square(175911951539014832173347546270092274198)
        == 168180781047028361987806241322463554771);
    assert(generator_square(79) == 168180781047028361987806241322463554771);
    assert(reference_square(168180781047028361987806241322463554771)
        == 188760366701737051411748298026312469771);
    assert(generator_square(80) == 188760366701737051411748298026312469771);
}

/// The squares of the generator from number 80 to number 90.
proof fn lemma_generator_squares_80_90()
    requires
        generator_square(80) == 188760366701737051411748298026312469771,
    ensures
        generator_square(90) == 132011392005246224365974131170596379858,
{
    assert(reference_square(188760366701737051411748298026312469771)
        == 137043329739432280743935136466033442567);
    assert(generator_square(81) == 137043329739432280743935136466033442567);
    assert(reference_square(137043329739432280743935136466033442567)
        == 254811542197935531661802877449773277617);
    assert(generator_square(82) == 254811542197935531661802877449773277617);
    assert(reference_square(254811542197935531661802877449773277617)
        == 146121351841646199955613554491793313345);
    assert(generator_square(83) == 146121351841646199955613554491793313345);
    assert(reference_square(146121351841646199955613554491793313345)
        == 202134711252280552281770353669653550211);
    assert(generator_square(84) == 202134711252280552281770353669653550211);
    assert(reference_square(202134711252280552281770353669653550211)
        == 62020643629271613536358612995472649224);
    assert(generator_square(85) == 62020643629271613536358612995472649224);
    assert(reference_square(62020643629271613536358612995472649224)
        == 60955409100920546531994404498493215995);
    assert(generator_square(86) == 60955409100920546531994404498493215995);
    assert(reference_square(60955409100920546531994404498493215995)
        == 267306289615708092041963651785810633313);
    assert(generator_square(87) == 267306289615708092041963651785810633313);
    assert(reference_square(267306289615708092041963651785810633313)
        == 82886710661896431930683110203913025715);
    assert(generator_square(88) == 82886710661896431930683110203913025715);
    assert(reference_square(82886710661896431930683110203913025715)
        == 183672562657124655756044190146949222768);
    assert(generator_square(89) == 183672562657124655756044190146949222768);
    assert(reference_square(183672562657124655756044190146949222768)
        == 132011392005246224365974131170596379858);
    assert(generator_square(90) == 132011392005246224365974131170596379858);
}

/// The squares of the generator from number 90 to number 100.
proof fn lemma_generator_squares_90_100()
    requires
        generator_square(90) == 132011392005246224365974131170596379858,
    ensures
        generator_square(100) == 205585349689748417101142707299351452499,
{
    assert(reference_square(132011392005246224365974131170596379858)
        == 70175474737685246412980779337185950443);
    assert(generator_square(91) == 70175474737685246412980779337185950443);
    assert(reference_square(70175474737685246412980779337185950443)
        == 220997914137524785485614782437485244991);
    assert(generator_square(92) == 220997914137524785485614782437485244991);
    assert(reference_square(220997914137524785485614782437485244991)
        == 171593735460794207840454921346185543981);
    assert(generator_square(93) == 171593735460794207840454921346185543981);
    assert(reference_square(171593735460794207840454921346185543981)
        == 71288948178855918325178708028277674438);
    assert(generator_square(94) == 71288948178855918325178708028277674438);
    assert(reference_square(71288948178855918325178708028277674438)
        == 65925256741735993773732873161688574648);
    assert(generator_square(95) == 65925256741735993773732873161688574648);
    assert(reference_square(65925256741735993773732873161688574648)
        == 223621218216708547223464078625256957762);
    assert(generator_square(96) == 223621218216708547223464078625256957762);
    assert(reference_square(223621218216708547223464078625256957762)
        == 70183190447477977100017978035181125195);
    assert(generator_square(97) == 70183190447477977100017978035181125195);
    assert(reference_square(70183190447477977100017978035181125195)
        == 81205103701858762222647973189173115555);
    assert(generator_square(98) == 81205103701858762222647973189173115555);
    assert(reference_square(81205103701858762222647973189173115555)
        == 246476146805045146772952495119713591992);
    assert(generator_square(99) == 246476146805045146772952495119713591992);
    assert(reference_square(246476146805045146772952495119713591992)
        == 205585349689748417101142707299351452499);
    assert(generator_square(100) == 205585349689748417101142707299351452499);
}

/// The squares of the generator from number 100 to number 110.
proof fn lemma_generator_squares_100_110()
    requires
        generator_square(100) == 205585349689748417101142707299351452499,
    ensures
        generator_square(110) == 11068365217297290165464327737828832066,
{
    assert(reference_square(205585349689748417101142707299351452499)
        == 235536536747046009653031169237027907708);
    assert(generator_square(101) == 235536536747046009653031169237027907708);
    assert(reference_square(235536536747046009653031169237027907708)
        == 124563061566547205452168207223266849609);
    assert(generator_square(102) == 124563061566547205452168207223266849609);
    assert(reference_square(124563061566547205452168207223266849609)
        == 60852861674981758841349565467922926979);
    assert(generator_square(103) == 60852861674981758841349565467922926979);
    assert(reference_square(60852861674981758841349565467922926979)
        == 47297075848054312102354453716405586435);
    assert(generator_square(104) == 47297075848054312102354453716405586435);
    assert(reference_square(47297075848054312102354453716405586435)
        == 218316119641727656000523521043738064690);
    assert(generator_square(105) == 218316119641727656000523521043738064690);
    assert(reference_square(218316119641727656000523521043738064690)
        == 185080982397478044717513752950010250958);
    assert(generator_square(106) == 185080982397478044717513752950010250958);
    assert(reference_square(185080982397478044717513752950010250958)
        == 106535815141977674204471003459472633885);
    assert(generator_square(107) == 106535815141977674204471003459472633885);
    assert(reference_square(106535815141977674204471003459472633885)
        == 240639785279454729936319549588094844628);
    assert(generator_square(108) == 240639785279454729936319549588094844628);
    assert(reference_square(240639785279454729936319549588094844628)
        == 157047144299673000979490264221078274179);
    assert(generator_square(109) == 157047144299673000979490264221078274179);
    assert(reference_square(157047144299673000979490264221078274179)
        == 11068365217297290165464327737828832066);
    assert(generator_square(110) == 11068365217297290165464327737828832066);
}

/// The squares of the generator from number 110 to number 118.
proof fn lemma_generator_squares_110_118()
    requires
        generator_square(110) == 11068365217297290165464327737828832066,
    ensures
        generator_square(118) == 270497897142230380135924736767050121216,
{
    assert(reference_square(11068365217297290165464327737828832066)
        == 178902808384765167578311106676137348214);
    assert(generator_square(111) == 178902808384765167578311106676137348214);
    assert(reference_square(178902808384765167578311106676137348214)
        == 65907963977709178563567092354521124432);
    assert(generator_square(112) == 65907963977709178563567092354521124432);
    assert(reference_square(65907963977709178563567092354521124432)
        == 59478736836296470922896375673044043947);
    assert(generator_square(113) == 59478736836296470922896375673044043947);
    assert(reference_square(59478736836296470922896375673044043947)
        == 16698199167658661640320272194027702370);
    assert(generator_square(114) == 16698199167658661640320272194027702370);
    assert(reference_square(16698199167658661640320272194027702370)
        == 22186728119017901039385635608201850931);
    assert(generator_square(115) == 22186728119017901039385635608201850931);
    assert(reference_square(22186728119017901039385635608201850931)
        == 131076302407280330469229082343774091404);
    assert(generator_square(116) == 131076302407280330469229082343774091404);
    assert(reference_square(131076302407280330469229082343774091404)
        == 259052015163170058651980223774986375587);
    assert(generator_square(117) == 259052015163170058651980223774986375587);
    assert(reference_square(259052015163170058651980223774986375587)
        == 270497897142230380135924736767050121216);
    assert(generator_square(118) == 270497897142230380135924736767050121216);
}

/// The squares of the generator from number 118 to number 119.
proof fn lemma_generator_squares_118_119()
    requires
        generator_square(118) == 270497897142230380135924736767050121216,
    ensures
        generator_square(119) == 1,
{
    assert(reference_square(270497897142230380135924736767050121216)
        == 1);
    assert(generator_square(119) == 1);
}

/// The generator of the reference field raised to the power `2^118` is
/// minus one, and raised to the power `2^119` it is one.
pub proof fn lemma_generator_order()
    ensures
        fpow(REFERENCE_GENERATOR as int, pow2(118), REFERENCE_MODULUS as int) == REFERENCE_MODULUS
            - 1,
        fpow(REFERENCE_GENERATOR as int, pow2(119), REFERENCE_MODULUS as int) == 1,
{
    assert(generator_square(0) == 85408008396924667383611388730472331217);
    lemma_generator_squares_0_10();
    lemma_generator_squares_10_20();
    lemma_generator_squares_20_30();
    lemma_generator_squares_30_40();
    lemma_generator_squares_40_50();
    lemma_generator_squares_50_60();
    lemma_generator_squares_60_70();
    lemma_generator_squares_70_80();
    lemma_generator_squares_80_90();
    lemma_generator_squares_90_100();
    lemma_generator_squares_100_110();
    lemma_generator_squares_110_118();
    lemma_generator_squares_118_119();
    lemma_repeated_square(REFERENCE_GENERATOR as int, 118, REFERENCE_MODULUS as int);
    lemma_repeated_square(REFERENCE_GENERATOR as int, 119, REFERENCE_MODULUS as int);
}

/// The power `2^(119 - k)` of the generator has order `2^k`: raised to the
/// power `2^k` it is one, and raised to half of that it is minus one.
pub proof fn lemma_root_order(k: nat)
    requires
        k <= 119,
    ensures
        ({
            let p = REFERENCE_MODULUS as int;
            let root = fpow(REFERENCE_GENERATOR as int, pow2((119 - k) as nat), p);
            &&& fpow(root, pow2(k), p) == 1
            &&& k >= 1 ==> fpow(root, pow2((k - 1) as nat), p) == p - 1
        }),
{
    let g = REFERENCE_GENERATOR as int;
    let p = REFERENCE_MODULUS as int;
    let m = pow2((119 - k) as nat);
    lemma_generator_order();
    lemma_pow_mod_noop(pow(g, m), pow2(k), p);
    lemma_pow_multiplies(g, m, pow2(k));
    lemma_pow2_adds((119 - k) as nat, k);
    if k >= 1 {
        let half = pow2((k - 1) as nat);
        lemma_pow_mod_noop(pow(g, m), half, p);
        lemma_pow_multiplies(g, m, half);
        lemma_pow2_adds((119 - k) as nat, (k - 1) as nat);
    }
}

/// `r` is of multiplicative order `n` modulo `p`: raised to the power `n`
/// it is one, and raised to no smaller positive exponent.
pub open spec fn has_order(r: int, n: int, p: int) -> bool {
    &&& n > 0
    &&& fpow(r, n as nat, p) == 1
    &&& forall|m: nat| 0 < m < n ==> #[trigger] fpow(r, m, p) != 1
}

/// Every positive number is a power of two times an odd number.
pub proof fn lemma_two_adic(m: nat) -> (r: (nat, nat))
    requires
        m > 0,
    ensures
        m == pow2(r.0) * r.1,
        r.1 % 2 == 1,
    decreases m,
{
    if m % 2 == 1 {
        lemma2_to64();
        assert(pow2(0) * m == m) by (nonlinear_arith)
            requires
                pow2(0) == 1,
        ;
        (0, m)
    } else {
        let (j, q) = lemma_two_adic(m / 2);
        lemma_pow2_unfold(j + 1);
        assert(pow2(j + 1) * q == 2 * (pow2(j) * q)) by (nonlinear_arith)
            requires
                pow2(j + 1) == 2 * pow2(j),
        ;
        (j + 1, q)
    }
}

/// An odd power of minus one is minus one.
pub proof fn lemma_odd_power_of_minus_one(q: nat, p: int)
    requires
        p > 1,
        q % 2 == 1,
    ensures
        fpow(p - 1, q, p) == p - 1,
    decreases q,
{
    lemma_small_mod((p - 1) as nat, p as nat);
    if q == 1 {
        lemma_pow1(p - 1);
    } else {
        let before = (q - 2) as nat;
        lemma_odd_power_of_minus_one(before, p);
        lemma_pow_adds(p - 1, before, 2);
        lemma_mul_mod_noop(pow(p - 1, before), pow(p - 1, 2), p);
        lemma_square_is_pow2(p - 1);
        assert((p - 1) * (p - 1) == p * (p - 2) + 1) by (nonlinear_arith);
        lemma_mod_multiples_vanish(p - 2, 1, p);
        lemma_small_mod(1, p as nat);
        assert((p - 1) * 1 == p - 1);
    }
}

/// A number that is one when raised to the power `2^k`, and minus one when
/// raised to half of that, is of order `2^k`.
pub proof fn lemma_order_of_root(r: int, k: nat, p: int)
    requires
        p > 2,
        fpow(r, pow2(k), p) == 1,
        k >= 1 ==> fpow(r, pow2((k - 1) as nat), p) == p - 1,
    ensures
        has_order(r, pow2(k) as int, p),
{
    lemma_pow2_pos(k);
    assert forall|m: nat| 0 < m < pow2(k) implies #[trigger] fpow(r, m, p) != 1 by {
        if fpow(r, m, p) == 1 {
            if k == 0 {
                lemma2_to64();
            } else {
                let (j, q) = lemma_two_adic(m);
                lemma_pow2_pos(j);
                assert(pow2(j) <= m) by (nonlinear_arith)
                    requires
                        m == pow2(j) * q,
                        q >= 1,
                        pow2(j) >= 1,
                ;
                if j >= k {
                    if j > k {
                        lemma_pow2_strictly_increases(k, j);
                    }
                }
                let rest = (k - 1 - j) as nat;
                let half = pow2((k - 1) as nat);
                let e = m * pow2(rest);
                lemma_pow2_adds(j, rest);
                assert(e == half * q) by (nonlinear_arith)
                    requires
                        e == m * pow2(rest),
                        m == pow2(j) * q,
                        half == pow2(j) * pow2(rest),
                ;
                // through r^m the power is one
                lemma_pow_multiplies(r, m, pow2(rest));
                lemma_pow_mod_noop(pow(r, m), pow2(rest), p);
                lemma1_pow(pow2(rest));
                lemma_small_mod(1, p as nat);
                assert(fpow(r, e, p) == 1);
                // through r^(2^(k-1)) it is minus one
                lemma_pow_multiplies(r, half, q);
                lemma_pow_mod_noop(pow(r, half), q, p);
                lemma_odd_power_of_minus_one(q, p);
                assert(fpow(r, e, p) == p - 1);
            }
        }
    }
}

} // verus!
