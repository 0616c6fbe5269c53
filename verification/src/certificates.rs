//! Proofs that the orders of the fields are prime.
//!
//! The order of the BlueSky field is one more than a product of `2^62 * 3^39 * 31` and a cofactor.
//! Powers of 5 show that 5 to the power of the cofactor has an order of `2^62 * 3^39 * 31`, which is
//! larger than the square root of the order of the field.
use crate::arith::{is_inverse, lemma_cong_mul, lemma_cong_sub, lemma_small};
use crate::field::{bluesky_modulus, goldilocks_modulus};
use crate::poly::bluesky_root;
use crate::primes::{
    escapes, has_exact_order, is_prime, leaves_one, lemma_no_small_divisor, lemma_prime_by_order,
    lemma_strip_power,
};
use vstd::arithmetic::div_mod::{lemma_fundamental_div_mod, lemma_mod_twice};
use vstd::arithmetic::power::{lemma_pow1, lemma_pow_adds, lemma_pow_multiplies, pow};
use vstd::prelude::*;

verus! {

/// `b` to the power `e` is `x` modulo `p`.
spec fn is_power(b: int, e: nat, x: int, p: int) -> bool {
    pow(b, e) % p == x
}

/// Powers are multiplied by adding their exponents.
proof fn lemma_power_sum(b: int, e: nat, x: int, f: nat, y: int, z: int, p: int)
    requires
        p > 0,
        is_power(b, e, x, p),
        is_power(b, f, y, p),
        (x * y) % p == z,
    ensures
        is_power(b, e + f, z, p),
{
    lemma_pow_adds(b, e, f);
    lemma_mod_twice(pow(b, e), p);
    lemma_mod_twice(pow(b, f), p);
    lemma_cong_mul(pow(b, e), x, pow(b, f), y, p);
}

/// The first power.
proof fn lemma_first_power(b: int, p: int)
    requires
        0 <= b < p,
    ensures
        is_power(b, 1, b, p),
{
    lemma_pow1(b);
    lemma_small(b, p);
}

/// A power is squared four times.
proof fn lemma_four_squares(
    b: int,
    e: nat,
    x: int,
    x2: int,
    x4: int,
    x8: int,
    x16: int,
    p: int,
)
    requires
        p > 0,
        is_power(b, e, x, p),
        (x * x) % p == x2,
        (x2 * x2) % p == x4,
        (x4 * x4) % p == x8,
        (x8 * x8) % p == x16,
    ensures
        is_power(b, 16 * e, x16, p),
{
    lemma_power_sum(b, e, x, e, x, x2, p);
    lemma_power_sum(b, 2 * e, x2, 2 * e, x2, x4, p);
    lemma_power_sum(b, 4 * e, x4, 4 * e, x4, x8, p);
    lemma_power_sum(b, 8 * e, x8, 8 * e, x8, x16, p);
}

/// A power is raised to the third power.
proof fn lemma_cube(b: int, e: nat, x: int, x2: int, x3: int, p: int)
    requires
        p > 0,
        is_power(b, e, x, p),
        (x * x) % p == x2,
        (x2 * x) % p == x3,
    ensures
        is_power(b, 3 * e, x3, p),
{
    lemma_power_sum(b, e, x, e, x, x2, p);
    lemma_power_sum(b, 2 * e, x2, e, x, x3, p);
}

/// A power is raised to the power 31.
proof fn lemma_thirty_first_power(
    b: int,
    e: nat,
    x: int,
    x2: int,
    x3: int,
    x6: int,
    x12: int,
    x24: int,
    x30: int,
    x31: int,
    p: int,
)
    requires
        p > 0,
        is_power(b, e, x, p),
        (x * x) % p == x2,
        (x2 * x) % p == x3,
        (x3 * x3) % p == x6,
        (x6 * x6) % p == x12,
        (x12 * x12) % p == x24,
        (x24 * x6) % p == x30,
        (x30 * x) % p == x31,
    ensures
        is_power(b, 31 * e, x31, p),
{
    lemma_cube(b, e, x, x2, x3, p);
    lemma_power_sum(b, 3 * e, x3, 3 * e, x3, x6, p);
    lemma_power_sum(b, 6 * e, x6, 6 * e, x6, x12, p);
    lemma_power_sum(b, 12 * e, x12, 12 * e, x12, x24, p);
    lemma_power_sum(b, 24 * e, x24, 6 * e, x6, x30, p);
    lemma_power_sum(b, 30 * e, x30, e, x, x31, p);
}

/// The powers of 5 with exponents of one hexadecimal digit.
proof fn lemma_small_powers()
    ensures
        is_power(5, 1, 5, bluesky_modulus()),
        is_power(5, 2, 25, bluesky_modulus()),
        is_power(5, 3, 125, bluesky_modulus()),
        is_power(5, 4, 625, bluesky_modulus()),
        is_power(5, 5, 3125, bluesky_modulus()),
        is_power(5, 6, 15625, bluesky_modulus()),
        is_power(5, 7, 78125, bluesky_modulus()),
        is_power(5, 8, 390625, bluesky_modulus()),
        is_power(5, 9, 1953125, bluesky_modulus()),
        is_power(5, 10, 9765625, bluesky_modulus()),
        is_power(5, 11, 48828125, bluesky_modulus()),
        is_power(5, 12, 244140625, bluesky_modulus()),
        is_power(5, 13, 1220703125, bluesky_modulus()),
        is_power(5, 14, 6103515625, bluesky_modulus()),
        is_power(5, 15, 30517578125, bluesky_modulus()),
{
    let p = bluesky_modulus();
    lemma_first_power(5, p);
    lemma_power_sum(5, 1, 5, 1, 5, 25, p);
    lemma_power_sum(5, 2, 25, 1, 5, 125, p);
    lemma_power_sum(5, 3, 125, 1, 5, 625, p);
    lemma_power_sum(5, 4, 625, 1, 5, 3125, p);
    lemma_power_sum(5, 5, 3125, 1, 5, 15625, p);
    lemma_power_sum(5, 6, 15625, 1, 5, 78125, p);
    lemma_power_sum(5, 7, 78125, 1, 5, 390625, p);
    lemma_power_sum(5, 8, 390625, 1, 5, 1953125, p);
    lemma_power_sum(5, 9, 1953125, 1, 5, 9765625, p);
    lemma_power_sum(5, 10, 9765625, 1, 5, 48828125, p);
    lemma_power_sum(5, 11, 48828125, 1, 5, 244140625, p);
    lemma_power_sum(5, 12, 244140625, 1, 5, 1220703125, p);
    lemma_power_sum(5, 13, 1220703125, 1, 5, 6103515625, p);
    lemma_power_sum(5, 14, 6103515625, 1, 5, 30517578125, p);
}

/// The power of 5 with the first 9 of the digits of the exponent.
proof fn lemma_base_power_a()
    ensures
        is_power(
            5,
            0x4b2def6e1nat,
            0x16436a15f5bc47f0feac045ea68a2a5eb756b42fe816e90d1a070edc29b72128int,
            bluesky_modulus(),
        ),
{
    let p = bluesky_modulus();
    lemma_small_powers();
    lemma_four_squares(
        5,
        0x4nat,
        0x271int,
        0x5f5e1int,
        0x2386f26fc1int,
        0x4ee2d6d415b85acef81int,
        0x184f03e93ff9f4daa797ed6e38ed64bf6a1f01int,
        p,
    );
    lemma_power_sum(
        5,
        0x40nat,
        0x184f03e93ff9f4daa797ed6e38ed64bf6a1f01int,
        0xbnat,
        0x2e90eddint,
        0x46bf5bb0385045767e0f0ef2e7aa1e517e454637d1ddint,
        p,
    );
    lemma_four_squares(
        5,
        0x4bnat,
        0x46bf5bb0385045767e0f0ef2e7aa1e517e454637d1ddint,
        0x28a6ddfc687350e5bea28ff824f98705572a94079bc73a0189be1dcb535fb48int,
        0x1323fbfd918b1a0c496af07dce132c6857b81a48c3a7a620ecd5c4378c9be334int,
        0x2246cc2b31d49fca4d59c922fff4a4efe95e04b291f3c02f366bca790772a21dint,
        0x221fccdf173419ab297f900ef98c1988a4ba88f880e5e2f4d8b90ff83f599e38int,
        p,
    );
    lemma_power_sum(
        5,
        0x4b0nat,
        0x221fccdf173419ab297f900ef98c1988a4ba88f880e5e2f4d8b90ff83f599e38int,
        0x2nat,
        0x19int,
        0x551b01c9441681b70d7511765eae7e63ef802c94decf2a3aaa128f3e2fc07372int,
        p,
    );
    lemma_four_squares(
        5,
        0x4b2nat,
        0x551b01c9441681b70d7511765eae7e63ef802c94decf2a3aaa128f3e2fc07372int,
        0x21c711cde7a751218eb7c253f8ac234dc6b7e970ec53bbdf4d639c4e4d585855int,
        0x71d7f7f72d4a97f8471918abce64c2c4e74567ee06684be769c25f102f07692int,
        0x541b6fe7ddca0d170e948ab9300a5319f178a1fb5d925c96d671aa42713d28e4int,
        0x503c561a3f2aebabda664c50763fabc6c6c4821487455803cbbe2e75c52ba1e3int,
        p,
    );
    lemma_power_sum(
        5,
        0x4b20nat,
        0x503c561a3f2aebabda664c50763fabc6c6c4821487455803cbbe2e75c52ba1e3int,
        0xdnat,
        0x48c27395int,
        0x6f73d875f981a51e880e1483dbd4889f36cfdd05b94b2b615943a2b6b4885dcbint,
        p,
    );
    lemma_four_squares(
        5,
        0x4b2dnat,
        0x6f73d875f981a51e880e1483dbd4889f36cfdd05b94b2b615943a2b6b4885dcbint,
        0x1a8401eebc0b191e74d705c2459841efff059709d39dfd70e2806b6592d11adint,
        0xcbc44aa881a08b97236a4a502ff454b9df0bc21e806b63ee6e3e30eba940650int,
        0x376aad41ee0c6b4df7340bb595eb04cddfe8baafeda0ba5b7da0dd49724ef75cint,
        0x5629e389b3635f3381c90933cb236dedc101410c4db8b9c3e79236644a31be5eint,
        p,
    );
    lemma_power_sum(
        5,
        0x4b2d0nat,
        0x5629e389b3635f3381c90933cb236dedc101410c4db8b9c3e79236644a31be5eint,
        0xenat,
        0x16bcc41e9int,
        0x21feea0e66b13614f1a0a3d57fe763d734bbb88f2a80f4cfb102a0b0309fd725int,
        p,
    );
    lemma_four_squares(
        5,
        0x4b2denat,
        0x21feea0e66b13614f1a0a3d57fe763d734bbb88f2a80f4cfb102a0b0309fd725int,
        0x757c102febe56c76608807a8f229d9d37f983f32a99533b3a1cadae6a783d280int,
        0x49f6fc5b917c1e8b3262ded90c6bc002ee2bd64794c5103be499dcd54f309a17int,
        0x19eff33d92d129436a34786b3e2ab0c22ebcaa24ec679c5fbbb981f879d74efbint,
        0x603ac3dd9b43e08b7f9aaa74c7d01faf07ccfbf9ef27cdd2f9bcfe1d0e3a9279int,
        p,
    );
    lemma_power_sum(
        5,
        0x4b2de0nat,
        0x603ac3dd9b43e08b7f9aaa74c7d01faf07ccfbf9ef27cdd2f9bcfe1d0e3a9279int,
        0xfnat,
        0x71afd498dint,
        0x14da8d087177ee942b30a9074094f35957788f618ef8fbd26b51431c3e1b1c4bint,
        p,
    );
    lemma_four_squares(
        5,
        0x4b2defnat,
        0x14da8d087177ee942b30a9074094f35957788f618ef8fbd26b51431c3e1b1c4bint,
        0x21da0fb1c157e8db462b3097afe5dbb87a23aabcf9b81eb483b9455185990515int,
        0xe2d92a2d4e4766ae1f2bd573eefefa261bcc1a47155d94fbcb5fcf3311f7541int,
        0x264880fd78e99172dcae81d84a61b72c41d0b23d33840dffe834abab6016fa6eint,
        0x6afb792222c2f4c5cb04fba4e73ce66cc396bae542673527431b6db3128dd38dint,
        p,
    );
    lemma_power_sum(
        5,
        0x4b2def0nat,
        0x6afb792222c2f4c5cb04fba4e73ce66cc396bae542673527431b6db3128dd38dint,
        0x6nat,
        0x3d09int,
        0x2eb4647bad2dbc54532323e5a40c692aa24243711f7bee47a51a86b77264d5f2int,
        p,
    );
    lemma_four_squares(
        5,
        0x4b2def6nat,
        0x2eb4647bad2dbc54532323e5a40c692aa24243711f7bee47a51a86b77264d5f2int,
        0x3d321af784337626dcc486363b08bf2d3ea04268d229b4928c5faf272bb9ac04int,
        0x3089ab9bc5ead13463e9fa15cf53d72b69a71a903b35961432705154de66aaceint,
        0x201b794f862e1ac6cb39792912c8a92a976a6efadd59cfab17192f3b3dd781eint,
        0x617243a98f4157c650a1fe5603fe6a5e64d3300aff2231c9dfb4b8e99f06fc43int,
        p,
    );
    lemma_power_sum(
        5,
        0x4b2def60nat,
        0x617243a98f4157c650a1fe5603fe6a5e64d3300aff2231c9dfb4b8e99f06fc43int,
        0xenat,
        0x16bcc41e9int,
        0xd6d723b202032b3293942dffab0918fce763998a3d6736b1d193f4574d70fcfint,
        p,
    );
    lemma_four_squares(
        5,
        0x4b2def6enat,
        0xd6d723b202032b3293942dffab0918fce763998a3d6736b1d193f4574d70fcfint,
        0x7f2c33254fe6c38011ca6183d47ac8caac6fcb6e227e271e9e54122bac072207int,
        0x44d07874bbd3c36138fc70c6b3368b3c4199f13124b0d3a0acce1b5d44c40e41int,
        0x7a38d9a9b94f61e39b64a5fa6074fcbd446bbcab26884558eb7cefb0b03f9cdbint,
        0x5140aed13125a7fcffbc00dfbae86ede8ef076018d94fb60dece362c0857d36fint,
        p,
    );
    lemma_power_sum(
        5,
        0x4b2def6e0nat,
        0x5140aed13125a7fcffbc00dfbae86ede8ef076018d94fb60dece362c0857d36fint,
        0x1nat,
        0x5int,
        0x16436a15f5bc47f0feac045ea68a2a5eb756b42fe816e90d1a070edc29b72128int,
        p,
    );
}

/// The power of 5 with the first 17 of the digits of the exponent.
proof fn lemma_base_power_b()
    ensures
        is_power(
            5,
            0x4b2def6e1b4c53c9enat,
            0x7441dbbd0a621cdc6d404c1f0c6cfeaeaf7ee379bf6341cefc2be991b79eb673int,
            bluesky_modulus(),
        ),
{
    let p = bluesky_modulus();
    lemma_small_powers();
    lemma_base_power_a();
    lemma_four_squares(
        5,
        0x4b2def6e1nat,
        0x16436a15f5bc47f0feac045ea68a2a5eb756b42fe816e90d1a070edc29b72128int,
        0x52f007567b59c85468fff8a2d4f7ef31ae742dc9570beef5bd5b56b62e5e2079int,
        0x7fca5d7c22f0402de4b17ed289df43b915a0da42adc119931533ba19a97a9ac8int,
        0x4bae293f5bb94d73e754d8c1818bcf50511bbc5a15b01fef0da82392e59b7bf1int,
        0x7a2a6fd8cef3f6dfde83b479493bb04617e18a169b1818feade2d70b019c397int,
        p,
    );
    lemma_power_sum(
        5,
        0x4b2def6e10nat,
        0x7a2a6fd8cef3f6dfde83b479493bb04617e18a169b1818feade2d70b019c397int,
        0xbnat,
        0x2e90eddint,
        0x746b2ad75719aeab680878d697da2c6fc430bd9e5194e9fca539dee3a132a9c9int,
        p,
    );
    lemma_four_squares(
        5,
        0x4b2def6e1bnat,
        0x746b2ad75719aeab680878d697da2c6fc430bd9e5194e9fca539dee3a132a9c9int,
        0x48802b5d7e15d6cbbba19cfd64e6930fdbbd2606eeacea61ecf2c60772156a61int,
        0x5051ea31df14b9fffa2b09d04c5f40a0b1f7b2cf621c22978a7a032cd94a9a8eint,
        0x108ea58c2fb5788072091117359e76363d290be72f59c0fe8d8422f774ce1cfcint,
        0xc8726792d4d1715287a07f4da175e9cac066530d92498ca2a4b056c1a3c370eint,
        p,
    );
    lemma_power_sum(
        5,
        0x4b2def6e1b0nat,
        0xc8726792d4d1715287a07f4da175e9cac066530d92498ca2a4b056c1a3c370eint,
        0x4nat,
        0x271int,
        0x15f4edd799355aa7d1ed6cc8730dfcf8720129725755b37881283cec0d0268f1int,
        p,
    );
    lemma_four_squares(
        5,
        0x4b2def6e1b4nat,
        0x15f4edd799355aa7d1ed6cc8730dfcf8720129725755b37881283cec0d0268f1int,
        0x370140f14b7518b2e8917b9ef00482559c52def337714564ed1338753cd9a052int,
        0xafb4ac68dab269326ba54d10971be2f4bae87a39f00c960768635a29ca888e2int,
        0x20c3c00f20d7593dad7076eb806e0f9e8c48c42a0d4f5408aba24338421d1e9fint,
        0x43c18b2cbfe834edbcdaab5d3cede142a242663558f2c403bc57bb47eedb6d96int,
        p,
    );
    lemma_power_sum(
        5,
        0x4b2def6e1b40nat,
        0x43c18b2cbfe834edbcdaab5d3cede142a242663558f2c403bc57bb47eedb6d96int,
        0xcnat,
        0xe8d4a51int,
        0x7c9c5e6bff0a719f7268bd73d02ac062249a7d6d0a15171089939ba7890512b4int,
        p,
    );
    lemma_four_squares(
        5,
        0x4b2def6e1b4cnat,
        0x7c9c5e6bff0a719f7268bd73d02ac062249a7d6d0a15171089939ba7890512b4int,
        0x7d4ef7f8b14547bd0c765c4b1f7484fbcb721fb50232e2100a7f343d24911a64int,
        0x38f92240af383777455a98b3bf59805af1477a31c7e405b208659ace7bd3dc31int,
        0x123abab3350cc6240fb3b1062d7e11607d5a65f4996b8f839ac44e3cb55b3a1bint,
        0x2118045ad983a0df4a60f597a87b765339a02e8379e937605ee0ed14325a6dbeint,
        p,
    );
    lemma_power_sum(
        5,
        0x4b2def6e1b4c0nat,
        0x2118045ad983a0df4a60f597a87b765339a02e8379e937605ee0ed14325a6dbeint,
        0x5nat,
        0xc35int,
        0x7a2d290133cac5b6f195f44bab1b6c281917231d30372637efae078aa9dd9d2fint,
        p,
    );
    lemma_four_squares(
        5,
        0x4b2def6e1b4c5nat,
        0x7a2d290133cac5b6f195f44bab1b6c281917231d30372637efae078aa9dd9d2fint,
        0x31ca77ac90cfa0b7997bad6c21779704e5d11496272626076152b4cd4914ef7aint,
        0x178b178688632de5ae4359123dc5e4f3c4ece5d7c8ff72a8d079d117fa4e671int,
        0x5f2cae296cc59da13761936f20e7eecd69347db429519605459caae127309f61int,
        0x40eb7f9bfdedf2088658acbaa8a004147af2942cad82f39bccfef4e43163b6adint,
        p,
    );
    lemma_power_sum(
        5,
        0x4b2def6e1b4c50nat,
        0x40eb7f9bfdedf2088658acbaa8a004147af2942cad82f39bccfef4e43163b6adint,
        0x3nat,
        0x7dint,
        0x32fd4f2afd2f2e29994c57245621fe7c71eebb1bb0b6f66ad87d936c1db0323aint,
        p,
    );
    lemma_four_squares(
        5,
        0x4b2def6e1b4c53nat,
        0x32fd4f2afd2f2e29994c57245621fe7c71eebb1bb0b6f66ad87d936c1db0323aint,
        0x6def574d918f24ad9cefc30602fdcd4a84facebbb8aa19a9d9f429715a070aa3int,
        0xb6837f2f4ccbd90d081be205fd7fd0569f15aee827dabe415e7d4f16c2d2b0int,
        0x67e1f189c85a34fe1b11e78e15baaefbf620318b16bdf5e5cb02f542f9ea0494int,
        0x31c34e032bfd1ed4277d286e10eb9a76a7a2628dd05cb3ab53eae7ba4279cef5int,
        p,
    );
    lemma_power_sum(
        5,
        0x4b2def6e1b4c530nat,
        0x31c34e032bfd1ed4277d286e10eb9a76a7a2628dd05cb3ab53eae7ba4279cef5int,
        0xcnat,
        0xe8d4a51int,
        0x577fabd1ab02acaff5d5cfee10e375b380b8e90f915bbaa945886f8e9ba602f5int,
        p,
    );
    lemma_four_squares(
        5,
        0x4b2def6e1b4c53cnat,
        0x577fabd1ab02acaff5d5cfee10e375b380b8e90f915bbaa945886f8e9ba602f5int,
        0x2c6cd3c0589a7330aa433557fa9d5a35b81301dbee995edb746a79e545dda95fint,
        0x38eb5d0f982b8b77cdd3275ca9d966ed94785a3f090c8d8db7431be8b4e81aa9int,
        0xf23c92d2fff828ec53806c4037bd8a41a889d166a286692499a20be75ffa26int,
        0x4a033e9666181210314cc1e5bb58e5a8408cf9526ad9d68540e292ce86c8831cint,
        p,
    );
    lemma_power_sum(
        5,
        0x4b2def6e1b4c53c0nat,
        0x4a033e9666181210314cc1e5bb58e5a8408cf9526ad9d68540e292ce86c8831cint,
        0x9nat,
        0x1dcd65int,
        0x636fb1d199cbad8fe193afbb1e2baed6f4dce986c058195a6a5892209833ea8dint,
        p,
    );
    lemma_four_squares(
        5,
        0x4b2def6e1b4c53c9nat,
        0x636fb1d199cbad8fe193afbb1e2baed6f4dce986c058195a6a5892209833ea8dint,
        0x6448680b4dace801f9a898cbfa831f2926c943f3d46286d2bc199e83b6bfe189int,
        0x68177596ba68df72e3d09e08ccaff59594e2d6e6e6b526bebcc8efbbc0aadcd1int,
        0x219399d00cc7b7a1ccf82566720fc249cf22ba265165889389f922bf56634eadint,
        0x62523e8f536ec06c5b3de39e2c7d30ba07c588e60f1efa361ca3195f0f2fa969int,
        p,
    );
    lemma_power_sum(
        5,
        0x4b2def6e1b4c53c90nat,
        0x62523e8f536ec06c5b3de39e2c7d30ba07c588e60f1efa361ca3195f0f2fa969int,
        0xenat,
        0x16bcc41e9int,
        0x7441dbbd0a621cdc6d404c1f0c6cfeaeaf7ee379bf6341cefc2be991b79eb673int,
        p,
    );
}

/// The power of 5 with the first 25 of the digits of the exponent.
proof fn lemma_base_power_c()
    ensures
        is_power(
            5,
            0x4b2def6e1b4c53c9ed34e240anat,
            0x1a4a71ea1f12517878c867269c5376331129780ca7820669c4bfdee9ff81027eint,
            bluesky_modulus(),
        ),
{
    let p = bluesky_modulus();
    lemma_small_powers();
    lemma_base_power_b();
    lemma_four_squares(
        5,
        0x4b2def6e1b4c53c9enat,
        0x7441dbbd0a621cdc6d404c1f0c6cfeaeaf7ee379bf6341cefc2be991b79eb673int,
        0x4a5ae1d9d10c6c2e268c554849746e4465b0c7f63edaba8d55c130586a84c9deint,
        0x4a146547711444b7a943f6b4f4f025099dbcf23816cbdc0634ad74a802e7bccdint,
        0x77366d748e1ea9afc3ed9ebe65a1b2cdaa12e6049536acd4cb7ecbb050cf995fint,
        0x7399bc0fe53fcaca2671f142130ce9f3b372ef5fb984768c3eaeef9ebb53939eint,
        p,
    );
    lemma_power_sum(
        5,
        0x4b2def6e1b4c53c9e0nat,
        0x7399bc0fe53fcaca2671f142130ce9f3b372ef5fb984768c3eaeef9ebb53939eint,
        0xdnat,
        0x48c27395int,
        0x547b449c9e3b0520f9202b9a3a8720e87c8805bdb324192a4c6f3c639efacdcaint,
        p,
    );
    lemma_four_squares(
        5,
        0x4b2def6e1b4c53c9ednat,
        0x547b449c9e3b0520f9202b9a3a8720e87c8805bdb324192a4c6f3c639efacdcaint,
        0x6298ad6439768f82a785abcdc513c4fe91d31686aa0ec4be9b9a4bdc56dc5e71int,
        0x706a3dd2e374a3d2d2ad6d98f9da53391bc8a13e03ffc95325427da79171a6c6int,
        0x381d6e66deb284db855497b11f4bc43d9ae377ebd11d34abee569cf87d6f2dd3int,
        0x784d1d2c11d0a113afb21be39737153bc062d85a1e063e703d9c8df921aa794cint,
        p,
    );
    lemma_power_sum(
        5,
        0x4b2def6e1b4c53c9ed0nat,
        0x784d1d2c11d0a113afb21be39737153bc062d85a1e063e703d9c8df921aa794cint,
        0x3nat,
        0x7dint,
        0x3da73e84b2dea69cc9f79e20d5e55f13fd4f341e2c0e8303557152a5703d39a7int,
        p,
    );
    lemma_four_squares(
        5,
        0x4b2def6e1b4c53c9ed3nat,
        0x3da73e84b2dea69cc9f79e20d5e55f13fd4f341e2c0e8303557152a5703d39a7int,
        0x65713c4c35113838c1916f9c95ec312225d8ac0528f68bea4d1c77e0ec89581bint,
        0x5a1e69ba030ba5f280c09485d05b99b606bde61c43b62e58464be06a7f47fb96int,
        0x45c8d4ce7ac0db2ca8e1c38a6ba4639072229100379fd8ac45745d440d758b5cint,
        0x1a50c21854e5705edf2c6944ffb01ceb9205332c57d5693eb13826f42b7fd79fint,
        p,
    );
    lemma_power_sum(
        5,
        0x4b2def6e1b4c53c9ed30nat,
        0x1a50c21854e5705edf2c6944ffb01ceb9205332c57d5693eb13826f42b7fd79fint,
        0x4nat,
        0x271int,
        0x3f29dd674427579edb6d01743cf69c1c44c2f5f3225b4e2eaa171a1e331d6aafint,
        p,
    );
    lemma_four_squares(
        5,
        0x4b2def6e1b4c53c9ed34nat,
        0x3f29dd674427579edb6d01743cf69c1c44c2f5f3225b4e2eaa171a1e331d6aafint,
        0x2da309f8df02b27b28ff747f719cfaea21c5b8729b5ce95495979c64e73447aeint,
        0x2002184c951fba144c827164c78a9c5ee33e3693857ed03ccffa0c45133c98baint,
        0x2e3bca8cdf75f6eb2a70871583e5e1bbc319ce95ce04f8f0d39f598d7efbf6ceint,
        0x6758396dc0b2d217e29c52edd1119b85a2457a773b4a3d2ed1ec7afcf7b15253int,
        p,
    );
    lemma_power_sum(
        5,
        0x4b2def6e1b4c53c9ed340nat,
        0x6758396dc0b2d217e29c52edd1119b85a2457a773b4a3d2ed1ec7afcf7b15253int,
        0xenat,
        0x16bcc41e9int,
        0x59944139137586703e4c6e19712440bbd412976dcbf748b49043fc299bb5e3dcint,
        p,
    );
    lemma_four_squares(
        5,
        0x4b2def6e1b4c53c9ed34enat,
        0x59944139137586703e4c6e19712440bbd412976dcbf748b49043fc299bb5e3dcint,
        0xda86c62a348065aa1db0fc7e8fcbccc635efd7248e6c3566ad15fa2b0b4ed40int,
        0x7b92925a11bc4a30439b68175a35d55a0bb6d87efea6531fd6c716db8e806b3int,
        0x4959f5ce02f6599ca9358a914b3d3feb94248b91b129168eab04f880b8047a7int,
        0x18b10bc2719812020ab05e7c60240914911021f978fdd8abd09d0da1e5628399int,
        p,
    );
    lemma_power_sum(
        5,
        0x4b2def6e1b4c53c9ed34e0nat,
        0x18b10bc2719812020ab05e7c60240914911021f978fdd8abd09d0da1e5628399int,
        0x2nat,
        0x19int,
        0x694a25fd17d9c2330b393a256384e30a10c3d992565cd3a85f5654cf669ed9edint,
        p,
    );
    lemma_four_squares(
        5,
        0x4b2def6e1b4c53c9ed34e2nat,
        0x694a25fd17d9c2330b393a256384e30a10c3d992565cd3a85f5654cf669ed9edint,
        0x486b68ece07c6b0aa012e8ea291b07ad9995f898c22fd7879c7a3e0332b29b3cint,
        0x4b465cf489b2be9abb797881cadfaed49258d319d053cab72ba539fb5f740ab0int,
        0x50d6deabf88731fa1b408f9e3f941d80f03d336d7b12aeaa05b70ab39207aaeint,
        0x78833f3c9c791fa0408ce0b6ae07b298bf1f957bf619c955f0fd78ac78feeb79int,
        p,
    );
    lemma_power_sum(
        5,
        0x4b2def6e1b4c53c9ed34e20nat,
        0x78833f3c9c791fa0408ce0b6ae07b298bf1f957bf619c955f0fd78ac78feeb79int,
        0x4nat,
        0x271int,
        0x386d62fa03b6363d97f09dfee0cb0b73c9fa2a5f882caa045ad39d13665ce01dint,
        p,
    );
    lemma_four_squares(
        5,
        0x4b2def6e1b4c53c9ed34e24nat,
        0x386d62fa03b6363d97f09dfee0cb0b73c9fa2a5f882caa045ad39d13665ce01dint,
        0x675ce535f42dc2b37894ba6d3121f004c70ede23dd498581b8cde2032b1ae3e4int,
        0x3cdcd18e115f4ade41804e5a4a45bbefa80f826522f35f6eb2cd925a7cda0509int,
        0x734a9b0d05c4e05d2db622e46e9e1dfa2ad4540f50096a16c68511b8600f1f02int,
        0x157d320e33d01ab8e91d4e5e3360431d431bb1de04283169bbd8671dfa8114a8int,
        p,
    );
    lemma_four_squares(
        5,
        0x4b2def6e1b4c53c9ed34e240nat,
        0x157d320e33d01ab8e91d4e5e3360431d431bb1de04283169bbd8671dfa8114a8int,
        0x3c189835af3db43c7deb4017461adc9d02c1dbb1398907c48db1b7b80c732cb4int,
        0x4951ccdd80f57c0cf0a9564148852415eeb8a180365bb35ac7cdb5ba946c7378int,
        0x66901bf5e53887bfc9dc9508cbe8054ede136d662e1095d3e5f525403eb58fc2int,
        0x6f4fb3e8916b80949ff1abd5b1fe1fc72287279a800293f93d3cb1cb4c32d273int,
        p,
    );
    lemma_power_sum(
        5,
        0x4b2def6e1b4c53c9ed34e2400nat,
        0x6f4fb3e8916b80949ff1abd5b1fe1fc72287279a800293f93d3cb1cb4c32d273int,
        0xanat,
        0x9502f9int,
        0x1a4a71ea1f12517878c867269c5376331129780ca7820669c4bfdee9ff81027eint,
        p,
    );
}

/// The power of 5 with all of the digits of the exponent.
proof fn lemma_base_power_d()
    ensures
        is_power(
            5,
            0x4b2def6e1b4c53c9ed34e240a6b0d4a3nat,
            0x507d6476b6d18418701cb41b665e2a92104471e3418cd3f5112c4a8f4ea13f18int,
            bluesky_modulus(),
        ),
{
    let p = bluesky_modulus();
    lemma_small_powers();
    lemma_base_power_c();
    lemma_four_squares(
        5,
        0x4b2def6e1b4c53c9ed34e240anat,
        0x1a4a71ea1f12517878c867269c5376331129780ca7820669c4bfdee9ff81027eint,
        0x568c522c7eb4bb35f5055372296166591bf978b35f08a325e0dc95ddedaeaa4aint,
        0x6c0341c46f0f348ee89a2d845a721313bbffdb0b86183712f0b2403d7b6a8720int,
        0x422a03734ba6cd3f42483cb6909858b6b28e473ccc922e873cdbb9a9340cd02aint,
        0x8b85ddb04eda9d65ffcb41cad7dacc90e3a938fb5289ed01312c5325955f2b2int,
        p,
    );
    lemma_power_sum(
        5,
        0x4b2def6e1b4c53c9ed34e240a0nat,
        0x8b85ddb04eda9d65ffcb41cad7dacc90e3a938fb5289ed01312c5325955f2b2int,
        0x6nat,
        0x3d09int,
        0x3cd87cdfcdd30d6896cd2a590b9703aaa3a5f5d4d6aab7a624a5ee0e9ed9ee1aint,
        p,
    );
    lemma_four_squares(
        5,
        0x4b2def6e1b4c53c9ed34e240a6nat,
        0x3cd87cdfcdd30d6896cd2a590b9703aaa3a5f5d4d6aab7a624a5ee0e9ed9ee1aint,
        0xe6f90f0fc26d8c8361862ae15a4dcc6a702ff1fcfd60aac2ed89655879ba217int,
        0x34724ce5b11bda0788d2311b0f979f6a2ea84c29e0517b23cff962a2c5410fceint,
        0x59254366c7af913070c0704bc58d6f435aab7f6c5a58ae1f870d2f64760d028bint,
        0x1d19d1df6a2c813c77d4f8eee5d0c6874c07f6dd78a2d3a15ec17f60eb4446deint,
        p,
    );
    lemma_power_sum(
        5,
        0x4b2def6e1b4c53c9ed34e240a60nat,
        0x1d19d1df6a2c813c77d4f8eee5d0c6874c07f6dd78a2d3a15ec17f60eb4446deint,
        0xbnat,
        0x2e90eddint,
        0x4bf0613130759a8987b2c35f91218e71ecdb1c8a7877d043130eed3b1135edfeint,
        p,
    );
    lemma_four_squares(
        5,
        0x4b2def6e1b4c53c9ed34e240a6bnat,
        0x4bf0613130759a8987b2c35f91218e71ecdb1c8a7877d043130eed3b1135edfeint,
        0x6fbb7269779a25f4dfc5aef485865e317a0adcd7b0afe4aa5f3c5ef228ca9ec7int,
        0x2c095648f481d653af35ddee3b70834f130e7a1f254061d1d182cdf54114b6e9int,
        0x3920d8daf4fb8f7f45dc13c9bf144fba6747c87a026ca393a9947005ab56bc41int,
        0x1c0adea38d958737cb8077f16ed65c5f3163ed0c8d63fb7a7b462627df4682d6int,
        p,
    );
    lemma_four_squares(
        5,
        0x4b2def6e1b4c53c9ed34e240a6b0nat,
        0x1c0adea38d958737cb8077f16ed65c5f3163ed0c8d63fb7a7b462627df4682d6int,
        0x4cf5f7dc1e12cae718ae936568c5c9e804b7a5b3208d04bf8f74cfcafdee6bdint,
        0x6f33d97dbd20082794f4266a81fe28e2e406284130259d136e9346ae93f8330aint,
        0x7d3a4bb096387ee4840975717f886eca33f5029234dcb9e91ca7843af5c64680int,
        0x7b45e08e6b7377ea5e6ecd109169093cdd745ef9717e5b5d7137be47cdd8c310int,
        p,
    );
    lemma_power_sum(
        5,
        0x4b2def6e1b4c53c9ed34e240a6b00nat,
        0x7b45e08e6b7377ea5e6ecd109169093cdd745ef9717e5b5d7137be47cdd8c310int,
        0xdnat,
        0x48c27395int,
        0x5db19464333dcd78cc0f88297a12455063eb066944349fa3543af6633ad724c8int,
        p,
    );
    lemma_four_squares(
        5,
        0x4b2def6e1b4c53c9ed34e240a6b0dnat,
        0x5db19464333dcd78cc0f88297a12455063eb066944349fa3543af6633ad724c8int,
        0xac07aa9da1ec553cbfb53c9d6c268017d0ec3b1a1b8f3848bc3139eb2bbf526int,
        0x7e2e022efc07c2f43599f77b34a16cc6709d748e70b3b152c01fb01745b33b0int,
        0x68159a964ef03bba8fa31e56b63056c416f8ae68ff0fa3446acd5b778c881433int,
        0x5e7bc8e9727667eaa5ddb4d12865110459615594ee8f5de6b61257c64e6781c0int,
        p,
    );
    lemma_power_sum(
        5,
        0x4b2def6e1b4c53c9ed34e240a6b0d0nat,
        0x5e7bc8e9727667eaa5ddb4d12865110459615594ee8f5de6b61257c64e6781c0int,
        0x4nat,
        0x271int,
        0x2c3581f07313b3def24672a39ebe8f2c97fb42b2ce4bae0dc2c84b256ab3c3f3int,
        p,
    );
    lemma_four_squares(
        5,
        0x4b2def6e1b4c53c9ed34e240a6b0d4nat,
        0x2c3581f07313b3def24672a39ebe8f2c97fb42b2ce4bae0dc2c84b256ab3c3f3int,
        0x6505967f2cb4efa9cb7f5447db30b6c60bd128048731e5952cae40faf0c1ac51int,
        0x6aea1da27750e8cab708198ded94d9f8b834afdc596a01641b32b7aca0f12e01int,
        0x619ce807bb2db1a2cfb0cb268cd6fce9560ea7cfad82ebde379f01708522d5a8int,
        0x4d1ea7318ffb4a3e767ae4838d0bdfba385f9845c190337b42beb798d1eab56dint,
        p,
    );
    lemma_power_sum(
        5,
        0x4b2def6e1b4c53c9ed34e240a6b0d40nat,
        0x4d1ea7318ffb4a3e767ae4838d0bdfba385f9845c190337b42beb798d1eab56dint,
        0xanat,
        0x9502f9int,
        0xff7cf97385aa93533e262f780602bd7ed20ab51ffbf0d4084e1f2e39acc898cint,
        p,
    );
    lemma_four_squares(
        5,
        0x4b2def6e1b4c53c9ed34e240a6b0d4anat,
        0xff7cf97385aa93533e262f780602bd7ed20ab51ffbf0d4084e1f2e39acc898cint,
        0x42fd6fff9fcbe671628c216fbdf01f4d443a458885231950230a7e1d3b26b8c4int,
        0x75332e58cd5294e871402eafaff21ac59000a4e228fd469af1f81b9cfa047822int,
        0x4c3269c60a9b7d7446aa0d50be93c0f4da9a681fcb2e641875f297d899280381int,
        0x3e157baf079b46b052d120292ddffc3da91d8a2a7fdb0be9022f75551d4d10e4int,
        p,
    );
    lemma_power_sum(
        5,
        0x4b2def6e1b4c53c9ed34e240a6b0d4a0nat,
        0x3e157baf079b46b052d120292ddffc3da91d8a2a7fdb0be9022f75551d4d10e4int,
        0x3nat,
        0x7dint,
        0x507d6476b6d18418701cb41b665e2a92104471e3418cd3f5112c4a8f4ea13f18int,
        p,
    );
}

/// The first powers with exponents that are multiplied by 3.
proof fn lemma_cubes_a()
    ensures
        is_power(
            5,
            0x145824e9942cd9bc0f07fc0b310bff865185e071nat,
            0x3cbba1edf6bc88d3d04e757fc520d2e0881a2b32d7e2660eea902fe5a7bbe194int,
            bluesky_modulus(),
        ),
{
    let p = bluesky_modulus();
    lemma_base_power_d();
    lemma_cube(
        5,
        0x4b2def6e1b4c53c9ed34e240a6b0d4a3nat,
        0x507d6476b6d18418701cb41b665e2a92104471e3418cd3f5112c4a8f4ea13f18int,
        0x7f0f12cbc2d16978a70a3104849b17c37f41f8d48fcddd531c4eb7e9a61d1217int,
        0x288210866e9578b0cddc5e9b6d54282f055a8218b06d45ada4c7b1ae27fc77f1int,
        p,
    );
    lemma_cube(
        5,
        0xe189ce4a51e4fb5dc79ea6c1f4127de9nat,
        0x288210866e9578b0cddc5e9b6d54282f055a8218b06d45ada4c7b1ae27fc77f1int,
        0x5b92dd125b09f6d770a89831651e77e3525251da8812814cf2fa61699c21f17eint,
        0x5265747b92b40e1e55ffbf451f34037990926b8fb76bf57b23f930bd841eb948int,
        p,
    );
    lemma_cube(
        5,
        0x2a49d6adef5aef21956dbf445dc3779bbnat,
        0x5265747b92b40e1e55ffbf451f34037990926b8fb76bf57b23f930bd841eb948int,
        0x43bcbd9c82ae07d5ba9e6702329101857e127188b7adeaa59a8aad19c862e196int,
        0x725d3a804a04bb2139a12108d1109f58eb49b53f2d4c5ef91ba46fbd68c9dffbint,
        p,
    );
    lemma_cube(
        5,
        0x7edd8409ce10cd64c0493dcd194a66d31nat,
        0x725d3a804a04bb2139a12108d1109f58eb49b53f2d4c5ef91ba46fbd68c9dffbint,
        0x4152161bca6c32ed9a4c2c7a07ec7945688d3d24d9f9084c66ea06dc9ccf1988int,
        0x3ea5fbaf5b6b5e34cb7a2dcdca5e38b9122de86ed1b6d86a735f6902adc2591eint,
        p,
    );
    lemma_cube(
        5,
        0x17c988c1d6a32682e40dbb9674bdf34793nat,
        0x3ea5fbaf5b6b5e34cb7a2dcdca5e38b9122de86ed1b6d86a735f6902adc2591eint,
        0x48176daf2e5210006c8954ee1100eac79fe4f91e3451011dc88d93e8375275e1int,
        0x229562c5051de8c8e29e6c93ccff7cc1fa3a09cbc01a3462f3bb350ed873423eint,
        p,
    );
    lemma_cube(
        5,
        0x475c9a4583e97388ac2932c35e39d9d6b9nat,
        0x229562c5051de8c8e29e6c93ccff7cc1fa3a09cbc01a3462f3bb350ed873423eint,
        0x4d33a983a38b4cc26b697de17f3a6a17de7eeed635e232272f0ec294430bb07aint,
        0x6ed35901c58c359f2f634bee0cb9d7c4140733f5d5154ac08c6fee4effff68int,
        p,
    );
    lemma_cube(
        5,
        0xd615ced08bbc5a9a047b984a1aad8d842bnat,
        0x6ed35901c58c359f2f634bee0cb9d7c4140733f5d5154ac08c6fee4effff68int,
        0x1bf0ea43ac8845a3af5b14cbf89501e8a26568056ea68d2fab29e28d953276c9int,
        0x4798f59dfdc674a89c105d078378662e141c1e2e4d825d148311f6b764b1434fint,
        p,
    );
    lemma_cube(
        5,
        0x282416c71a3350fce0d72c8de5008a88c81nat,
        0x4798f59dfdc674a89c105d078378662e141c1e2e4d825d148311f6b764b1434fint,
        0x35c60157ea2221364a3b4b3601efdce2bf84b4278d547baa964ab0f3bce0b4acint,
        0x2c31f70fe88e296c660975a4797f3e6f113ab6df57197d55294c1d05548b86a3int,
        p,
    );
    lemma_cube(
        5,
        0x786c44554e99f2f6a28585a9af019f9a583nat,
        0x2c31f70fe88e296c660975a4797f3e6f113ab6df57197d55294c1d05548b86a3int,
        0x6ad18dd9ce6d665d3fe1cf0f540d8ded2a6d23378a3c029800de3b156aef650cint,
        0x68cab80ea307cf88552d7e598cfad3ec462d16b21fdd0c509be1621938f12a1bint,
        p,
    );
    lemma_cube(
        5,
        0x16944ccffebcdd8e3e79090fd0d04decf089nat,
        0x68cab80ea307cf88552d7e598cfad3ec462d16b21fdd0c509be1621938f12a1bint,
        0x68fd77a43ca1b15ba668370a557f365ce1f6eabc8b1eb0e8b1b64589edf219acint,
        0x19cd7c7593a273d5047d9214ab985e9b31eeed5d975f190c606611b57605ce99int,
        p,
    );
    lemma_cube(
        5,
        0x43bce66ffc3698aabb6b1b2f7270e9c6d19bnat,
        0x19cd7c7593a273d5047d9214ab985e9b31eeed5d975f190c606611b57605ce99int,
        0x5c291eebe6679aae0e294d38c77f0d46af95495f12f4c7f23a01e5300a186fa1int,
        0x73e5b8617691c055d9cab5f8d6fdd9780911cd03a0894be0aa8621820f4d2425int,
        p,
    );
    lemma_cube(
        5,
        0xcb36b34ff4a3ca003241518e5752bd5474d1nat,
        0x73e5b8617691c055d9cab5f8d6fdd9780911cd03a0894be0aa8621820f4d2425int,
        0x407fe6efd932666db1ad8940c015d31732dc1195e252eecd08a78fa01353cd95int,
        0x4229f356e279b4f48fa60a701719022dad451b86dee965a9728234fab8d633bcint,
        p,
    );
    lemma_cube(
        5,
        0x261a419efddeb5e0096c3f4ab05f837fd5e73nat,
        0x4229f356e279b4f48fa60a701719022dad451b86dee965a9728234fab8d633bcint,
        0x6d6e1cff7253da3b858ba78bc9a45bee084fc456ef627dd5dea90c94059bc4c2int,
        0xa5acf9fa256f76e89428098179ec7e18a0352f08e20464aba43776e7d40b708int,
        p,
    );
    lemma_cube(
        5,
        0x724ec4dcf99c21a01c44bde0111e8a7f81b59nat,
        0xa5acf9fa256f76e89428098179ec7e18a0352f08e20464aba43776e7d40b708int,
        0x7db22e55f9d598056cd83b9a1a67f1394b81a9b0704bfba38737def159e6b589int,
        0xb419790289e0bd546a64e5f1e8a7c0e06a40a7296a81989d4e15f86e7611999int,
        p,
    );
    lemma_cube(
        5,
        0x156ec4e96ecd464e054ce39a0335b9f7e8520bnat,
        0xb419790289e0bd546a64e5f1e8a7c0e06a40a7296a81989d4e15f86e7611999int,
        0x41f82c1dd2c9370746fcef08cf6c0638edf9122672234e57037b04869dfb5fdfint,
        0x4b46045146e72f08efe18f3ba5834a8064fe218d0b8cf4424c86cf7f783f97f8int,
        p,
    );
    lemma_cube(
        5,
        0x404c4ebc4c67d2ea0fe6aace09a12de7b8f621nat,
        0x4b46045146e72f08efe18f3ba5834a8064fe218d0b8cf4424c86cf7f783f97f8int,
        0x55231c76a4973b41242b83dc2f8df7ab7534b37e1cb2992e4e66e4d839fd22e5int,
        0x4b084e95fca0122e0177c641fa08bcb8ce416ea64729696e677fd2f73620aa90int,
        p,
    );
    lemma_cube(
        5,
        0xc0e4ec34e53778be2fb4006a1ce389b72ae263nat,
        0x4b084e95fca0122e0177c641fa08bcb8ce416ea64729696e677fd2f73620aa90int,
        0x6073db91161cb472fbaeeb8ff1d0ae1f072872ddb44168249c03057c4ff651fcint,
        0x6c7e15602d7e3a8105f8d2651e0b51692bfc895ad2b29051774a9be60a8fbd55int,
        p,
    );
    lemma_cube(
        5,
        0x242aec49eafa66a3a8f1c013e56aa9d2580a729nat,
        0x6c7e15602d7e3a8105f8d2651e0b51692bfc895ad2b29051774a9be60a8fbd55int,
        0xf594a0d2bb4929ab2b1392259bbe78f41820225848577e786ca6092ed42baefint,
        0x5788edc80899dace0468d9d066b0982622903ba4e83f4d2b3e10cc5e4fc448abint,
        p,
    );
    lemma_cube(
        5,
        0x6c80c4ddc0ef33eafad5403bb03ffd77081f57bnat,
        0x5788edc80899dace0468d9d066b0982622903ba4e83f4d2b3e10cc5e4fc448abint,
        0x24f36f2d3fd0fb7c976fb0cd22241d11f0440349fe289fe8f774115f5e0c3daeint,
        0x3cbba1edf6bc88d3d04e757fc520d2e0881a2b32d7e2660eea902fe5a7bbe194int,
        p,
    );
}

/// The remaining powers with exponents that are multiplied by 3.
proof fn lemma_cubes_b()
    ensures
        is_power(
            5,
            0x58160581605816058160581605816056ba1e3022d5c03abnat,
            0x7fcaba7b09a47f764a2a7eda91d9537914479268c9852bb314c25faaa3606259int,
            bluesky_modulus(),
        ),
{
    let p = bluesky_modulus();
    lemma_cubes_a();
    lemma_cube(
        5,
        0x145824e9942cd9bc0f07fc0b310bff865185e071nat,
        0x3cbba1edf6bc88d3d04e757fc520d2e0881a2b32d7e2660eea902fe5a7bbe194int,
        0x1fdb8f9457dbfcc8f37472203f0faa6012d47bc70d84c7806bc5c95aef26409dint,
        0x5358977d7d91f2ed64b8f4627affff5668718c8fb20f05d702e4a123358e93cbint,
        p,
    );
    lemma_cube(
        5,
        0x3d086ebcbc868d342d17f4219323fe92f491a153nat,
        0x5358977d7d91f2ed64b8f4627affff5668718c8fb20f05d702e4a123358e93cbint,
        0x1f3546287d45e41ebc0b4b7f0ee98f8e22b3fdacdd296443425e47305e257c1bint,
        0x777419eafd00e495107a88f409b5eea0f24d5a3d1639612140d1cb7d36147f91int,
        p,
    );
    lemma_cube(
        5,
        0xb7194c363593a79c8747dc64b96bfbb8ddb4e3f9nat,
        0x777419eafd00e495107a88f409b5eea0f24d5a3d1639612140d1cb7d36147f91int,
        0x5de8a93ea386165f03a79676aceee27a9ac807dd609938165b12f50d6eed660cint,
        0x688a087c6d7b0c02d276035349003e7b07dbe7464595f225cb8cd85d17fc784aint,
        p,
    );
    lemma_cube(
        5,
        0x2254be4a2a0baf6d595d7952e2c43f32a991eabebnat,
        0x688a087c6d7b0c02d276035349003e7b07dbe7464595f225cb8cd85d17fc784aint,
        0x5fd8d634d18ef6f69efb4964972bcf95c3c9483003ddc7ea674d3423f59a2ad8int,
        0x2a073895c30d56a54d11df68e123e68416ca0bb56294dd1374c7d8499bbf25daint,
        p,
    );
    lemma_cube(
        5,
        0x66fe3ade7e230e480c186bf8a84cbd97fcb5c03c1nat,
        0x2a073895c30d56a54d11df68e123e68416ca0bb56294dd1374c7d8499bbf25daint,
        0x7148fcf8fe78119ca6ac47f76e53fae8ec4aa6cefafcd384084f76c37be48e42int,
        0x6658cea3e6f990c64669ce75ee594934e996296c1a21e03c84240c0ed33ccec5int,
        p,
    );
    lemma_cube(
        5,
        0x134fab09b7a692ad8244943e9f8e638c7f62140b43nat,
        0x6658cea3e6f990c64669ce75ee594934e996296c1a21e03c84240c0ed33ccec5int,
        0x3f17e20803f7b1d8295f43872f63da5c572d53028ea228b3c67cbb113f3c0039int,
        0xb6dfacaba8f22edd96dcfa3b161f9dfd47eecbeeae3b434a7cc87897fab51e2int,
        p,
    );
    lemma_cube(
        5,
        0x39ef011d26f3b80886cdbcbbdeab2aa57e263c21c9nat,
        0xb6dfacaba8f22edd96dcfa3b161f9dfd47eecbeeae3b434a7cc87897fab51e2int,
        0x381feecee86a97f8f575b0aaeb82f790461bca736dc1ba332a7d9f70ea29585bint,
        0x78f1d0d156b97c9dea85b2575401db473f627d93346c76251e41e1d292fd6848int,
        p,
    );
    lemma_cube(
        5,
        0xadcd035774db2819946936339c017ff07a72b4655bnat,
        0x78f1d0d156b97c9dea85b2575401db473f627d93346c76251e41e1d292fd6848int,
        0x36a5210f5719d7e6e4a1815352af6840e3f77744df047c0c362488f3c1337af6int,
        0x4db270dc269f8fbd88a975369e80a9d253ef89680feec5f69c2ffc5076708be1int,
        p,
    );
    lemma_cube(
        5,
        0x209670a065e91784cbd3ba29ad4047fd16f581d3011nat,
        0x4db270dc269f8fbd88a975369e80a9d253ef89680feec5f69c2ffc5076708be1int,
        0x7f3cad0bdafd73c46fd77633f726c3391b10e151be46f789f781415e690d75edint,
        0x15738a284a919b10dc1609ef0102630b5b6277b4d56f02b694e6bf6aba5c5adcint,
        p,
    );
    lemma_cube(
        5,
        0x61c351e131bb468e637b2e7d07c0d7f744e08579033nat,
        0x15738a284a919b10dc1609ef0102630b5b6277b4d56f02b694e6bf6aba5c5adcint,
        0x26d37769357e94c8c46a26ba11ded1378c98808d6f846a769fdca91c4040accint,
        0x35dd5a2877ff4c68bc0e5e25743c9201ea1598460dfd7da5424f59ba7d062766int,
        p,
    );
    lemma_cube(
        5,
        0x12549f5a39531d3ab2a718b77174287e5cea1906b099nat,
        0x35dd5a2877ff4c68bc0e5e25743c9201ea1598460dfd7da5424f59ba7d062766int,
        0xe1df1561df50ee82b15d8693198d17449b1438658b77f81406f40dde122011dint,
        0x5415ebfa4401443ed5454b010b137849a5e60c8184d7e4a999cbb2d265783457int,
        p,
    );
    lemma_cube(
        5,
        0x36fdde0eabf957b017f54a26545c797b16be4b1411cbnat,
        0x5415ebfa4401443ed5454b010b137849a5e60c8184d7e4a999cbb2d265783457int,
        0x961c1eb959bb6b7663019f9f1ff3e2c7b9a7da371336895ea5f7a6f71890f4dint,
        0x22e7ccbab0b2f52c5a4ad4f741f93a7beffc115f68eb2a78824627ee18f312adint,
        p,
    );
    lemma_cube(
        5,
        0xa4f99a2c03ec071047dfde72fd156c71443ae13c3561nat,
        0x22e7ccbab0b2f52c5a4ad4f741f93a7beffc115f68eb2a78824627ee18f312adint,
        0x5d00468b0626a57814ad4cbbc4a065356c4cb74a39adf5508e629b51fc0a6220int,
        0x65a1c133685d82e7a55d9657659fb61dca458b08467bc54443b42cbd24072108int,
        p,
    );
    lemma_cube(
        5,
        0x1eeecce840bc41530d79f9b58f7404553ccb0a3b4a023nat,
        0x65a1c133685d82e7a55d9657659fb61dca458b08467bc54443b42cbd24072108int,
        0x454951de8463b3d1d1749e15d4b25b710ed861188918524c476e92d546a50eaint,
        0x3ca5fafb6debaa4e5f68d3300c4d5ad056b451e2944c330ae2d6f34483a6de70int,
        p,
    );
    lemma_cube(
        5,
        0x5ccc66b8c234c3f9286ded20ae5c0cffb6611eb1de069nat,
        0x3ca5fafb6debaa4e5f68d3300c4d5ad056b451e2944c330ae2d6f34483a6de70int,
        0x6f6ed1e2e4b556d1ecb52b5f73132a5802e939b88698953d354caf9c3cebe372int,
        0x2910e2b1090974a942c8e0d34403cda4678c4eddad1ee1e5bed14d4daa1cb32eint,
        p,
    );
    lemma_cube(
        5,
        0x11665342a469e4beb7949c7620b1426ff23235c159a13bnat,
        0x2910e2b1090974a942c8e0d34403cda4678c4eddad1ee1e5bed14d4daa1cb32eint,
        0x6a2edf3214c91afb81ee0af1c9263cb8f7db5740706660b0c00ea3be9c16687bint,
        0x7e39356ad0d4738d818e1a9f4123ceefb41c2ad856f93c749e489d3136dd55f5int,
        p,
    );
    lemma_cube(
        5,
        0x3432f9c7ed3dae3c26bdd5626213c74fd696a1440ce3b1nat,
        0x7e39356ad0d4738d818e1a9f4123ceefb41c2ad856f93c749e489d3136dd55f5int,
        0x57097acde9bc013fe4453966df934608d8d32989800d5a2f7bc8f4950528980int,
        0x6018a22792256c73079a074dedd0cc42ffef49ed06a1526955ec4a3a85eb7146int,
        p,
    );
    lemma_cube(
        5,
        0x9c98ed57c7b90ab474398027263b55ef83c3e3cc26ab13nat,
        0x6018a22792256c73079a074dedd0cc42ffef49ed06a1526955ec4a3a85eb7146int,
        0x2f90571b8514d0e83ae0ccc4d11551791328507928b804541eb055b020633e6dint,
        0x2a99a7d1456270bf65e8aa0b6474ed39116d9990a1663040da279d462fa8da77int,
        p,
    );
    lemma_cube(
        5,
        0x1d5cac807572b201d5cac807572b201ce8b4bab64740139nat,
        0x2a99a7d1456270bf65e8aa0b6474ed39116d9990a1663040da279d462fa8da77int,
        0x3d4b2b15530df401b7a095a97d82f5f0e820c9a80a0b506eb4d31e95602a36adint,
        0x7fcaba7b09a47f764a2a7eda91d9537914479268c9852bb314c25faaa3606259int,
        p,
    );
}

/// The power for the factor 3, before it is squared.
proof fn lemma_third_start()
    ensures
        is_power(
            5,
            0xaaaaaaaaaaaaaaaaaaaaaaaaaaaaaaa8089a7d437e2471b5nat,
            0x1d4767b264179c948342616ce77d3d233655b9ab99c9411e2a9a39bc86d7a063int,
            bluesky_modulus(),
        ),
{
    let p = bluesky_modulus();
    lemma_cubes_b();
    lemma_thirty_first_power(
        5,
        0x58160581605816058160581605816056ba1e3022d5c03abnat,
        0x7fcaba7b09a47f764a2a7eda91d9537914479268c9852bb314c25faaa3606259int,
        0xc2b61e70a11f3d8e30753ef02add8dd4c21d5086232bac62299719518cb89a3int,
        0x1e790b5f0fe0a25380b6f43584d48b9f606602140734324ca97aa8546603c54int,
        0x3048bafd6c9d70b66432cc421035d9ddc8308976d1b5751a4d7694a559ee9040int,
        0x7262ccfa5eabf244118b4a302395602dffdeed64657527138e85a9cc2e99db93int,
        0x19a0278b9bbc21f6040ff99b6b8082cb9a9ec20f681eb18f862e8ea316f6c9ceint,
        0x4e82bdec30cbbc4181b987574326a4b68b686d90198f9e2fd180528e30759a6cint,
        0x1d4767b264179c948342616ce77d3d233655b9ab99c9411e2a9a39bc86d7a063int,
        p,
    );
}

/// The first squares for the factor 3.
proof fn lemma_third_squares_a()
    ensures
        is_power(
            5,
            0xaaaaaaaaaaaaaaaaaaaaaaaaaaaaaaa8089a7d437e2471b500000000nat,
            0x7cb69b187cad96cc954d173c7e0b28328813d0c152bdd619c2f4709863c2ddc7int,
            bluesky_modulus(),
        ),
{
    let p = bluesky_modulus();
    lemma_third_start();
    lemma_four_squares(
        5,
        0xaaaaaaaaaaaaaaaaaaaaaaaaaaaaaaa8089a7d437e2471b5nat,
        0x1d4767b264179c948342616ce77d3d233655b9ab99c9411e2a9a39bc86d7a063int,
        0x6d19695e6d258d023c2980ac54d85d1f5480ba99da5be4035441dfb1f0950a28int,
        0x6149eaf90f6f0243eba6f1c4f170351cde199548f728b42e7ed4e93507c1e2b4int,
        0x2cf491d91c75237772a68a9fa8a629672ef73eabe08bd73e6d3a3583e077bd9bint,
        0x39b42feeb3754c059dabbf752b638e42495af815a53d0066d1f9d1a456b2c073int,
        p,
    );
    lemma_four_squares(
        5,
        0xaaaaaaaaaaaaaaaaaaaaaaaaaaaaaaa8089a7d437e2471b50nat,
        0x39b42feeb3754c059dabbf752b638e42495af815a53d0066d1f9d1a456b2c073int,
        0x1c7cdd151711d5019e1e129c4abd11c5d62d56e3e79ad9dac90c88852b330af3int,
        0x2916d691c6218321a507b31eeebd7b4b908c678605ac9102ce12c928e9d15edaint,
        0x569a531465cfa52fdf7a6962e554b6843ac42ed3709586fdb150f3efd05db662int,
        0x641c6c3ffd2f7aa29995f4ce6d866d6c5586e06ecfe0129767cb779de3b70ec9int,
        p,
    );
    lemma_four_squares(
        5,
        0xaaaaaaaaaaaaaaaaaaaaaaaaaaaaaaa8089a7d437e2471b500nat,
        0x641c6c3ffd2f7aa29995f4ce6d866d6c5586e06ecfe0129767cb779de3b70ec9int,
        0x41979d31af0362178899643df38bd02a78a6c50807613f0d8548528c8a7547fbint,
        0x66a9bb60cedaf79f85c9ea14048cc38a2ad0aa597e731ac1353042648d33710int,
        0x1560d47e56a72b70bc6933babd04008d51a23baa7a60069d4d40082a37847b0int,
        0x4c3bb0c96ed3845e41d5fa578946960f9825702d06f145a2c9d084f380468684int,
        p,
    );
    lemma_four_squares(
        5,
        0xaaaaaaaaaaaaaaaaaaaaaaaaaaaaaaa8089a7d437e2471b5000nat,
        0x4c3bb0c96ed3845e41d5fa578946960f9825702d06f145a2c9d084f380468684int,
        0x396198680bfe992b037129b58976174399bc5c3f33df11a781c21843a1a3f1c1int,
        0x39fc9f032a38760abb646726e415cab18e5f9f91f740a6c2629b57a24d8efd5aint,
        0x15184d680b75c44ade5339c38e451a4ac50b98cf59216b84d6fc6d97e1877b5dint,
        0x697217153275ffcddc15a7e78e54d837d47ffc76df9c4d0537318538535a7f22int,
        p,
    );
    lemma_four_squares(
        5,
        0xaaaaaaaaaaaaaaaaaaaaaaaaaaaaaaa8089a7d437e2471b50000nat,
        0x697217153275ffcddc15a7e78e54d837d47ffc76df9c4d0537318538535a7f22int,
        0x32ab75c14f96f18cb8f27fa5280146559396d2c2bda1fe96656b5d76a8956686int,
        0x5af035abc0854f293eb86b74e43e7ff5e43a34360fe6544b7ab302fe207fa245int,
        0x793ccc3039a65c09453a52c0aadc0d1218ce415072f4eed46cc2ec6e26b05470int,
        0x629f5090b3251d93302523b25c0cae06c4e3a07db97318d9372c5a35b023ddb4int,
        p,
    );
    lemma_four_squares(
        5,
        0xaaaaaaaaaaaaaaaaaaaaaaaaaaaaaaa8089a7d437e2471b500000nat,
        0x629f5090b3251d93302523b25c0cae06c4e3a07db97318d9372c5a35b023ddb4int,
        0x13d7b1b0aa6947135c31671471cb3301329f29348da630d6017963d665341efbint,
        0x2677452a42e3422ffb57fa91e6dd4b2a2a1a190b1ba494b850047b2d6d33508eint,
        0x69aa5cc981709fe676a44ea115c9dd7a26c2a88756c92c21f24ac099cab8341fint,
        0x4a449272548ead4ccdebbfe53bcbc301d1800a89e0eadfdb096fd262dcccedfdint,
        p,
    );
    lemma_four_squares(
        5,
        0xaaaaaaaaaaaaaaaaaaaaaaaaaaaaaaa8089a7d437e2471b5000000nat,
        0x4a449272548ead4ccdebbfe53bcbc301d1800a89e0eadfdb096fd262dcccedfdint,
        0x3d669d6a0568d0c8df9208fc7e3db3fb5d4a711d4cf0b3c796aef625fb2aa33fint,
        0x1e65a083e11e05f612761680d9d1fca97d9775f90481cada6b46c0cc2ed03852int,
        0x1f1c4885466115f8d5cf831e0e655fcd84892ff0186da89dfc85707fb8e6fc7bint,
        0x7cbe45c38cc20799e6585cf957a1ebb5d244c807e5b1d451aa1999aa17cb6c6dint,
        p,
    );
    lemma_four_squares(
        5,
        0xaaaaaaaaaaaaaaaaaaaaaaaaaaaaaaa8089a7d437e2471b50000000nat,
        0x7cbe45c38cc20799e6585cf957a1ebb5d244c807e5b1d451aa1999aa17cb6c6dint,
        0x25c72e12455ffc42cd2fbb4cc543d3efc9d882c091396e7cd1fcfee5d5a9a97fint,
        0x48fb6d0ab80081b87a815a397b3015d4eb1825e1d2cda0e49182e58f2206902aint,
        0x230c7541398f90eb7095b20e1029a3a75d59aa2dcce09de6ab57b4ef771d60aeint,
        0x7cb69b187cad96cc954d173c7e0b28328813d0c152bdd619c2f4709863c2ddc7int,
        p,
    );
}

/// The remaining squares for the factor 3.
proof fn lemma_third_squares_b()
    ensures
        is_power(
            5,
            0x2aaaaaaaaaaaaaaaaaaaaaaaaaaaaaaa02269f50df891c6d4000000000000000nat,
            0x64674cfac2f653437b88cb1960f851748f7f72130ec4d0bb7193dc3ce3b901a7int,
            bluesky_modulus(),
        ),
{
    let p = bluesky_modulus();
    lemma_third_squares_a();
    lemma_four_squares(
        5,
        0xaaaaaaaaaaaaaaaaaaaaaaaaaaaaaaa8089a7d437e2471b500000000nat,
        0x7cb69b187cad96cc954d173c7e0b28328813d0c152bdd619c2f4709863c2ddc7int,
        0x249bfb866f07ad9c1c229e08e7ccdcc10fce1d6b790ca51e8982ac7704a17fbint,
        0x7e7f3531d1aec26865c8faae4617b9c7e4a6918c626ea4e9abaa28ec6567227dint,
        0x2043bf31beb0f7bd83cc3e16a141c1990df34659899daee89fb6cb084c27e14aint,
        0x33853812b02a83d251c20e338dca68ec4e51ef14ce71ccdb17d852c7465fbf72int,
        p,
    );
    lemma_four_squares(
        5,
        0xaaaaaaaaaaaaaaaaaaaaaaaaaaaaaaa8089a7d437e2471b5000000000nat,
        0x33853812b02a83d251c20e338dca68ec4e51ef14ce71ccdb17d852c7465fbf72int,
        0x449eb846a74a8b8f0678775392abaa8ba69f6b4b0b79db30e13acfaa6c2761c1int,
        0x38b7c4fc9feca25abdd7f7ce84b4d4556f81b9bcf6f49200c2ddd53d2f5e08c1int,
        0x41574107d8d0d8c5b85c2e5add853b785499369fda71bcf0de1409f553da6758int,
        0x4ffef7fbc55882dea0a7aa71113801612b208944a5cd7deb223289bb2ae266abint,
        p,
    );
    lemma_four_squares(
        5,
        0xaaaaaaaaaaaaaaaaaaaaaaaaaaaaaaa8089a7d437e2471b50000000000nat,
        0x4ffef7fbc55882dea0a7aa71113801612b208944a5cd7deb223289bb2ae266abint,
        0x6374bc9fa3247b3eb665b948ed362bc8dbbff82752a289f493b2427e731bfd86int,
        0x4a535d8f920cbab03b277a4fdf99ee1adc6658abf506d3a1e25172b84eb89d04int,
        0x298a18964214f7c9b6cb9d502f289df57a1fe9d13d47c85cd4d30fc6ff5c0e79int,
        0x1dcead0d22707bb1af7e1f33dfdcaab03207303c521fb32e253c4ed26428e4c2int,
        p,
    );
    lemma_four_squares(
        5,
        0xaaaaaaaaaaaaaaaaaaaaaaaaaaaaaaa8089a7d437e2471b500000000000nat,
        0x1dcead0d22707bb1af7e1f33dfdcaab03207303c521fb32e253c4ed26428e4c2int,
        0x6d11c9aea8a24e2d81f7b0b144e18d36b708601c5cd81c618fdeb67ce033e2e9int,
        0x53a6899bc3ecd00b128cf77f01837e36086cfde7e1c4c5fc7085042a1bd410ccint,
        0x42a487e223f2583291ee40e8ae72936fd3d2a6b9e786abe66d15205a5cbe331fint,
        0x3903848bd20353230d1d121e1b2badaf9eb2fa0f842907e6498786c1abba966fint,
        p,
    );
    lemma_four_squares(
        5,
        0xaaaaaaaaaaaaaaaaaaaaaaaaaaaaaaa8089a7d437e2471b5000000000000nat,
        0x3903848bd20353230d1d121e1b2badaf9eb2fa0f842907e6498786c1abba966fint,
        0x2c3e41c587bf2d4b52be0cf922e8fd92fcd6f600c5af842194ccb807f3643bd8int,
        0x2eea7ac6660cf9971dfba30bd0a517aef062601198eed690d793bf1018548c13int,
        0x123f480ac366aa9fa0ba4cae6fa2c47bca0bfc4c9bc99a1ab8cc7670f37833dfint,
        0x543b0e18d2543b78f0165e61d4d34cb1f410f950cc5a7b02cf687168bb8d6705int,
        p,
    );
    lemma_four_squares(
        5,
        0xaaaaaaaaaaaaaaaaaaaaaaaaaaaaaaa8089a7d437e2471b50000000000000nat,
        0x543b0e18d2543b78f0165e61d4d34cb1f410f950cc5a7b02cf687168bb8d6705int,
        0x2c8569ba8421d63a48793cab11a5dd752ccf8c502e8c8d6e57ddda01554e3fa2int,
        0x14028fb57001803bc530a356925f4c8a6e671b5673fd7e0d767061a76c46cb2eint,
        0x4542985ebcbee26d33589a7b5538e3cbaabeccd41fce60881d1c8751188cb024int,
        0x68ce729c8d7e8a022cb35d8ce02a4465186882349287a2049b7dabe0f6985ed4int,
        p,
    );
    lemma_four_squares(
        5,
        0xaaaaaaaaaaaaaaaaaaaaaaaaaaaaaaa8089a7d437e2471b500000000000000nat,
        0x68ce729c8d7e8a022cb35d8ce02a4465186882349287a2049b7dabe0f6985ed4int,
        0x59f6fa63caa2db4cbb5a98d46136fa009b2fab012e8ec9dfcd27acaa6fe45d9bint,
        0x967b6d1b193bf685655572450f06606acd557c06886116c135e3661f4425c9eint,
        0x6964d8a0223c3af729ca73d7467e58cd6eed0ddaa20145971d408c5d9a55dd7dint,
        0x2a71a3d88bc8e7ee49c2eab56c08be8980261c14f60739714c074a0f5ded01c0int,
        p,
    );
    lemma_power_sum(
        5,
        0xaaaaaaaaaaaaaaaaaaaaaaaaaaaaaaa8089a7d437e2471b5000000000000000nat,
        0x2a71a3d88bc8e7ee49c2eab56c08be8980261c14f60739714c074a0f5ded01c0int,
        0xaaaaaaaaaaaaaaaaaaaaaaaaaaaaaaa8089a7d437e2471b5000000000000000nat,
        0x2a71a3d88bc8e7ee49c2eab56c08be8980261c14f60739714c074a0f5ded01c0int,
        0x64674cfac2f653437b88cb1960f851748f7f72130ec4d0bb7193dc3ce3b901a8int,
        p,
    );
    lemma_power_sum(
        5,
        0x1555555555555555555555555555555501134fa86fc48e36a000000000000000nat,
        0x64674cfac2f653437b88cb1960f851748f7f72130ec4d0bb7193dc3ce3b901a8int,
        0x1555555555555555555555555555555501134fa86fc48e36a000000000000000nat,
        0x64674cfac2f653437b88cb1960f851748f7f72130ec4d0bb7193dc3ce3b901a8int,
        0x64674cfac2f653437b88cb1960f851748f7f72130ec4d0bb7193dc3ce3b901a7int,
        p,
    );
}

/// The power with all factors 3.
proof fn lemma_last_cube()
    ensures
        is_power(
            5,
            0x1084210842108421084210842108421042e5a90688140b01nat,
            0x1e790b5f0fe0a25380b6f43584d48b9f606602140734324ca97aa8546603c54int,
            bluesky_modulus(),
        ),
{
    let p = bluesky_modulus();
    lemma_cubes_b();
    lemma_cube(
        5,
        0x58160581605816058160581605816056ba1e3022d5c03abnat,
        0x7fcaba7b09a47f764a2a7eda91d9537914479268c9852bb314c25faaa3606259int,
        0xc2b61e70a11f3d8e30753ef02add8dd4c21d5086232bac62299719518cb89a3int,
        0x1e790b5f0fe0a25380b6f43584d48b9f606602140734324ca97aa8546603c54int,
        p,
    );
}

/// The first squares for the factor 31.
proof fn lemma_thirty_first_squares_a()
    ensures
        is_power(
            5,
            0x1084210842108421084210842108421042e5a90688140b0100000000nat,
            0x191e159ea4c6e79d41122ac45092149759008962eb5826fc702311f353e1f773int,
            bluesky_modulus(),
        ),
{
    let p = bluesky_modulus();
    lemma_last_cube();
    lemma_four_squares(
        5,
        0x1084210842108421084210842108421042e5a90688140b01nat,
        0x1e790b5f0fe0a25380b6f43584d48b9f606602140734324ca97aa8546603c54int,
        0x3048bafd6c9d70b66432cc421035d9ddc8308976d1b5751a4d7694a559ee9040int,
        0x7262ccfa5eabf244118b4a302395602dffdeed64657527138e85a9cc2e99db93int,
        0x19a0278b9bbc21f6040ff99b6b8082cb9a9ec20f681eb18f862e8ea316f6c9ceint,
        0x2a767a8042a8b283115db1af7a3dac487b460d096da6120e1acf1e09274efedfint,
        p,
    );
    lemma_four_squares(
        5,
        0x1084210842108421084210842108421042e5a90688140b010nat,
        0x2a767a8042a8b283115db1af7a3dac487b460d096da6120e1acf1e09274efedfint,
        0x1253a444d77765ea3413bed0bbe6f3db345ff998f8686886306cdf0329d03191int,
        0x4780e529f08031957ba45c81c17a8fed9e637030a1dd07cfb9f447062e3d44bcint,
        0xbe1ccea249e03794ef57cb2dd84bfa69aecf454f0ffb57d0bc53ba854db7d17int,
        0x61c74830ebac658a459fb0ac3a76dff806a6444a43a3fc40bd12c1b2dceaf34dint,
        p,
    );
    lemma_four_squares(
        5,
        0x1084210842108421084210842108421042e5a90688140b0100nat,
        0x61c74830ebac658a459fb0ac3a76dff806a6444a43a3fc40bd12c1b2dceaf34dint,
        0x3cc53406926f9865ac7a42ece4612e211730342ab92667e38f05537e12e37b43int,
        0x1fececda037591c591d12e5e625bd7ae7df498ad37730578ab844035ed7fe072int,
        0x71dc2ed8c7256311d1779bbc355131ce001cab08c570374a318f30c8a8702345int,
        0x1786effa3b00804051ae4793b002cf2794016cb2b2e838071122319e1fb2ac5int,
        p,
    );
    lemma_four_squares(
        5,
        0x1084210842108421084210842108421042e5a90688140b01000nat,
        0x1786effa3b00804051ae4793b002cf2794016cb2b2e838071122319e1fb2ac5int,
        0x4ccfc48c533c3bff74c542f42abde8441d37df31e847b8397eeeb22e13227053int,
        0x4dd7c6de38ab39a6dca3514fe9cb3fcfe2959409ce306cdc8dd8f2892e9ef695int,
        0x4c4117f45f5346080cb3574e1a0f6a93ba9c5c81b67896db574fdd3c2d3c1cc2int,
        0x7c5d5a54eb369ed97aa99f3b675a064c398b30234780201a61c411305a4838f2int,
        p,
    );
    lemma_four_squares(
        5,
        0x1084210842108421084210842108421042e5a90688140b010000nat,
        0x7c5d5a54eb369ed97aa99f3b675a064c398b30234780201a61c411305a4838f2int,
        0x4dc8de5c57eff8a3f4c6e076c42d5f162b52d8d029886bbb180322d73722477cint,
        0x526575dd7ea1526a60e6715a9a6f59f8be0a2d243119af718e7b88c3ae0ecc32int,
        0x62c640f3c8592b7338f5117cec2c716325ebae3be67baa7bb9607487b8545bint,
        0x62ef763a7162d9f8449aeb33ce34b1317c3ecde22f442fa813fbddfbeceadf33int,
        p,
    );
    lemma_four_squares(
        5,
        0x1084210842108421084210842108421042e5a90688140b0100000nat,
        0x62ef763a7162d9f8449aeb33ce34b1317c3ecde22f442fa813fbddfbeceadf33int,
        0x7cbb1a95e8de5d63ecfece63a780af8a99ae158e49648b75f0168b562674bdaint,
        0x19615dbdac85a7b57f9a611d9c3b7b5d7940b16fa0dd3a925f6363445a4ef825int,
        0x1c9aca166ab8022338213b7efc742603e406df60155bc899be902b31782a7750int,
        0x1713d656f05782d256ba40c3dce7fcf69ce76d58f4aed4ab8f1c0d0c8a2c1d5dint,
        p,
    );
    lemma_four_squares(
        5,
        0x1084210842108421084210842108421042e5a90688140b01000000nat,
        0x1713d656f05782d256ba40c3dce7fcf69ce76d58f4aed4ab8f1c0d0c8a2c1d5dint,
        0x29aa5f5b39202da32f6c1b01cbb8dee7fbad5a2df48c4b32d1ca516a0842c9beint,
        0x35693e7b20081599dc36ff48bd2f874dc7fe0af7ab1b5ad7955e518131331d77int,
        0x7944f5afd1748f9acce827d6f332edacb9f8f90c6797d13aac1af2ba1fcbe012int,
        0x76f28d30851901fd41a62adfae31d035096a3fd616bbe803c6f11d7c68761eint,
        p,
    );
    lemma_four_squares(
        5,
        0x1084210842108421084210842108421042e5a90688140b010000000nat,
        0x76f28d30851901fd41a62adfae31d035096a3fd616bbe803c6f11d7c68761eint,
        0x5d5ef7c4df0709b4ecd22978f68dae404ea13ed2e8e752ad1c23c8b4386c7237int,
        0x35ebf8395b9a2694c41c4e9130d98b7cd07e41c591979b59829800f2e1c249c2int,
        0x4d8ab85a24d7f36412a1c66c8bc60094d87a15eaec67a4e25d7ad95c27f9f214int,
        0x191e159ea4c6e79d41122ac45092149759008962eb5826fc702311f353e1f773int,
        p,
    );
}

/// The remaining squares for the factor 31.
proof fn lemma_thirty_first_squares_b()
    ensures
        is_power(
            5,
            0x421084210842108421084210842108410b96a41a20502c04000000000000000nat,
            0x368788bf38c11b3d21e469312ad249c0eaee9130a4f07cc270bee5a96d08dba8int,
            bluesky_modulus(),
        ),
{
    let p = bluesky_modulus();
    lemma_thirty_first_squares_a();
    lemma_four_squares(
        5,
        0x1084210842108421084210842108421042e5a90688140b0100000000nat,
        0x191e159ea4c6e79d41122ac45092149759008962eb5826fc702311f353e1f773int,
        0xe53b47cf7d3b854031a6d5b5b97cfba117041daffbb69aa00f7bdae89f0e84aint,
        0x77653385ff69a4068f4389c351c3a5b8c72e5e09fb52879208848683dad691faint,
        0x70fe482fd634f40cf3d3ebbfd40e7c429c9f822ddd3e45f458c1b3e3c90a7964int,
        0x62be4c94e46801361d527e110335a18e697bd91f0985f78196fbd48b7b758f97int,
        p,
    );
    lemma_four_squares(
        5,
        0x1084210842108421084210842108421042e5a90688140b01000000000nat,
        0x62be4c94e46801361d527e110335a18e697bd91f0985f78196fbd48b7b758f97int,
        0x3f2adccc0cbfd85518f8f22e5420cb8a49774da4299b140f3daa5de91bb4f6eint,
        0xcc2c4872fb2a284deab2bc53b5c3583d69f1e33d1c44044b61acdb82e9b97f1int,
        0xaa69f3c823166e0bb4fda9ab19e1b8da73ee54d977bc7457c82c10235a02965int,
        0x791abddfef8fe7bf6c726b622f6bd841136c1246d5ec902b9f89230573b2fb37int,
        p,
    );
    lemma_four_squares(
        5,
        0x1084210842108421084210842108421042e5a90688140b010000000000nat,
        0x791abddfef8fe7bf6c726b622f6bd841136c1246d5ec902b9f89230573b2fb37int,
        0x663bd9ab71c6599d31d7cb05982a369989775674124656ec6b3e996c1552bfbint,
        0x22849b7f6839f795dffd0b96fbc50cf3debbf94fa4f5b3c193ec34805f13f8caint,
        0x2f485e5adb8fb1861c1b8e07e012b897adaaab11010d0068ce9ffa220c3f34d5int,
        0x6bcef8cd6b3ce776ec05ec8eba628866b659ec6f21c8ac68fcb5ba711d00262bint,
        p,
    );
    lemma_four_squares(
        5,
        0x1084210842108421084210842108421042e5a90688140b0100000000000nat,
        0x6bcef8cd6b3ce776ec05ec8eba628866b659ec6f21c8ac68fcb5ba711d00262bint,
        0x3d7b111487b2c4eedf0e8863ea75c7d27ae7b061bd0277efae7ffa3b89b84904int,
        0x7f3ae018ac5552f354f24ff38e0c3f013e1850bbba3f9d2276417776f08c6c54int,
        0x1dcddf4459e1e7a00c2d10d3fc76922dfbcc2ccfc6a308986dc4c31f5b02cb9cint,
        0x59da22b5af369355fcf90348b2f5c6897a22c3c9039e2d382aafc20fbd157704int,
        p,
    );
    lemma_four_squares(
        5,
        0x1084210842108421084210842108421042e5a90688140b01000000000000nat,
        0x59da22b5af369355fcf90348b2f5c6897a22c3c9039e2d382aafc20fbd157704int,
        0x87485ac922a555fe8eae06ee4fca5b91e19c03c60d65bef769a7a0d4bba0403int,
        0x76b00909f7fb664800d25d806154cafd4342a181caec35531c221a4a98c32a7bint,
        0x55507b1d02173b64f07eafc330a8139c3f7d3b6f47e79a01c19e7ac3e72585dcint,
        0x1c138566b16546fe455f64cac38f51d07eb99e7e8d009519c9f2321249c4fa2eint,
        p,
    );
    lemma_four_squares(
        5,
        0x1084210842108421084210842108421042e5a90688140b010000000000000nat,
        0x1c138566b16546fe455f64cac38f51d07eb99e7e8d009519c9f2321249c4fa2eint,
        0x1fa162607d2028613c197e0db82ee907ded3bc266b3d9b760e835d63502b29fint,
        0x16b8b40fd238b85d61c3193ab479ddd0f0d6c97fcba474f53e77eec7f3e3bfc9int,
        0x3ed9d64b4ae42ddb824f482d83b98eae34397d59bd53ba0a16ab56400169d6d4int,
        0x56a2cf79bc20da0754dca1556137e4d8209ca464abbf85eaa9170b1ad4037a81int,
        p,
    );
    lemma_four_squares(
        5,
        0x1084210842108421084210842108421042e5a90688140b0100000000000000nat,
        0x56a2cf79bc20da0754dca1556137e4d8209ca464abbf85eaa9170b1ad4037a81int,
        0x571f50b5b62a2c6f7507666b874949961b21edd5c1802e00577c424bfc0d42d7int,
        0x240a1b3df49f2db9366859110b8c0b6e6823ed4e6d6447e375f992dedfdfac33int,
        0x74b1d9452f3e9a24421bb10a964f0d18513944b855eca77f06049b795155a9adint,
        0x231f5bd05965b114ca4617fca14e8a50d2faf8363960f5dfb8f8072e15fc4dd6int,
        p,
    );
    lemma_power_sum(
        5,
        0x1084210842108421084210842108421042e5a90688140b01000000000000000nat,
        0x231f5bd05965b114ca4617fca14e8a50d2faf8363960f5dfb8f8072e15fc4dd6int,
        0x1084210842108421084210842108421042e5a90688140b01000000000000000nat,
        0x231f5bd05965b114ca4617fca14e8a50d2faf8363960f5dfb8f8072e15fc4dd6int,
        0x25f0897d2b104bae136b8bf74064e609b71d93909729080035ce0972dd3ccf77int,
        p,
    );
    lemma_power_sum(
        5,
        0x2108421084210842108421084210842085cb520d10281602000000000000000nat,
        0x25f0897d2b104bae136b8bf74064e609b71d93909729080035ce0972dd3ccf77int,
        0x2108421084210842108421084210842085cb520d10281602000000000000000nat,
        0x25f0897d2b104bae136b8bf74064e609b71d93909729080035ce0972dd3ccf77int,
        0x368788bf38c11b3d21e469312ad249c0eaee9130a4f07cc270bee5a96d08dba8int,
        p,
    );
}

/// The root of unity is a power of 5.
proof fn lemma_root()
    ensures
        is_power(
            5,
            0x1fffffffffffffffffffffffffffffff819cf77ca7a6d551fnat,
            0x2772569d549e1249ca6891eceba43568f6e0a747a2afe898b3977ca1a5bbfc9cint,
            bluesky_modulus(),
        ),
{
    let p = bluesky_modulus();
    lemma_last_cube();
    lemma_thirty_first_power(
        5,
        0x1084210842108421084210842108421042e5a90688140b01nat,
        0x1e790b5f0fe0a25380b6f43584d48b9f606602140734324ca97aa8546603c54int,
        0x3048bafd6c9d70b66432cc421035d9ddc8308976d1b5751a4d7694a559ee9040int,
        0x1ada68520f12c9f078adaea2fea14d5fb468717a93725f4abaf7f2438fada963int,
        0x5ddb8832d20ce8bed5d2af60e02e4f975e3f12909a3030e2e263f5c29504506fint,
        0x7d5147ae2617a4bb721f198ea981afafe66499116b312f0a54e9559ccb3ee00int,
        0x6ac175989328872576f45bb02cd596db746fc4bab115102a3152d222e8cdba63int,
        0x3e7f5e74945875fff0c6b5192b65503e0cf4183ade104ae642042b71bdc7747eint,
        0x2772569d549e1249ca6891eceba43568f6e0a747a2afe898b3977ca1a5bbfc9cint,
        p,
    );
}

/// The first squares for the factor 2.
proof fn lemma_half_squares_a()
    ensures
        is_power(
            5,
            0x1fffffffffffffffffffffffffffffff819cf77ca7a6d551f00000000nat,
            0x749fb4dd9419e195c6bf79734d167f74fe4ee36175f4fd7ade2a0bd953a3300cint,
            bluesky_modulus(),
        ),
{
    let p = bluesky_modulus();
    lemma_root();
    lemma_four_squares(
        5,
        0x1fffffffffffffffffffffffffffffff819cf77ca7a6d551fnat,
        0x2772569d549e1249ca6891eceba43568f6e0a747a2afe898b3977ca1a5bbfc9cint,
        0xdb38173e8d49dc24519c5c44e784cce6f2367b2edfc64b31655ebe1ccb5c56dint,
        0x71928e3d9b9badb9c0609ce16c2634286c591739c0e1b46ce8a01c0238413d6fint,
        0x7630c960313a7691ecb0c1aa1c866551d6e528d4fa8d138de8509241cd617448int,
        0x17f9d7eedbb37f8c3fa36aa766937b7d8f0c59873125467f23d7514680929754int,
        p,
    );
    lemma_four_squares(
        5,
        0x1fffffffffffffffffffffffffffffff819cf77ca7a6d551f0nat,
        0x17f9d7eedbb37f8c3fa36aa766937b7d8f0c59873125467f23d7514680929754int,
        0x34dd68569136509d24e000f3a3fe7a748534677240c439cd7daf5bc42ec5d281int,
        0x6ed963ff96f513d6fd40796b8a4018ae3f21581ec5187e7f021b5ca81f7d94f1int,
        0x4d190459cf7108efdb3f6e4b628e79df5f5291eac6567b478b0fc305b65a832cint,
        0x5bc3de01af17d37d494646f7a2bf17029f29be3922502dab64a44707f6ebecbdint,
        p,
    );
    lemma_four_squares(
        5,
        0x1fffffffffffffffffffffffffffffff819cf77ca7a6d551f00nat,
        0x5bc3de01af17d37d494646f7a2bf17029f29be3922502dab64a44707f6ebecbdint,
        0x4f2159f128089d76d347a98bb933f1b8477ca703536d3ca8ed715910467395fdint,
        0x19f0284c7359ccaf93a6cda2a4d6ad3ec3ec9af9d57032db4fea07f84535cf29int,
        0x4671fb82792df21bab79e6a484da31a2172cbc1a2a40f5f8010e8c571903b0ebint,
        0x64fd20ccc99caaafc58ac310468a7acc2432b3cbc330371ba1725df6c4475723int,
        p,
    );
    lemma_four_squares(
        5,
        0x1fffffffffffffffffffffffffffffff819cf77ca7a6d551f000nat,
        0x64fd20ccc99caaafc58ac310468a7acc2432b3cbc330371ba1725df6c4475723int,
        0x760f9f0e782519eb7ce7e396de07834f5a61a42c38a21007230fbd29de2ab278int,
        0x20e9d2c9d6a54104a1a8d07af07f8bab2ccf89b690eb537de7105c9dbf1174cint,
        0xddef8e9be2cbe9e7eb8e3a4ce06e91c4f7ea2cc0dbc249ef602760dc0089349int,
        0x7938c95604118e75f8871256b2ac66ed5f5f188c60073dbc6700c0709333864int,
        p,
    );
    lemma_four_squares(
        5,
        0x1fffffffffffffffffffffffffffffff819cf77ca7a6d551f0000nat,
        0x7938c95604118e75f8871256b2ac66ed5f5f188c60073dbc6700c0709333864int,
        0x3dc14b71a5468bb2497c44933e0e50aa41ba23e1cc560fbd0ecd3de9d8b31bedint,
        0x28b95639a6d3e05b64730b105cfbbf2222f2fdee248a6efae97785cbe9e3e290int,
        0x57aab5641439f2a5014963dc19c794824bf1220b00a0d001169e88f9723e003aint,
        0x73077917cef52a713b9f64df8ba2f5e444195f1352b99cc359c987c0a4a88a3dint,
        p,
    );
    lemma_four_squares(
        5,
        0x1fffffffffffffffffffffffffffffff819cf77ca7a6d551f00000nat,
        0x73077917cef52a713b9f64df8ba2f5e444195f1352b99cc359c987c0a4a88a3dint,
        0x3cfef73996dc5509e884c2bf4295f50be587c4c80e69951346b5b85a106a6056int,
        0x41b3bf27507720bf5c6753879262be3fe857ae403413f83abbd972f1581e3655int,
        0x2e2de558c9d27ad701760a4f7f9b26026a947373a98fb86060dacb1ab37f8356int,
        0x6194df23f3f26a69194af2b11dbe69f68c3de701e0614f41bf9c9d5a1f5259c5int,
        p,
    );
    lemma_four_squares(
        5,
        0x1fffffffffffffffffffffffffffffff819cf77ca7a6d551f000000nat,
        0x6194df23f3f26a69194af2b11dbe69f68c3de701e0614f41bf9c9d5a1f5259c5int,
        0x7e05d836e019b733c965ade9fb6c04bd9d39fadad78ab3506ae9dfe312bdc9aaint,
        0x555692a5f06c044f98c290bf2360d0b3c26b4fc04231f2fc015b99d2dfbff5e3int,
        0x23e497c74fc76ad68170caac0e69a6d642363290749fe6546a03bab6ca24e704int,
        0x583dabcc28b0d6380214820c7520f007e457be87c621d66d0462d3b1f436cff9int,
        p,
    );
    lemma_four_squares(
        5,
        0x1fffffffffffffffffffffffffffffff819cf77ca7a6d551f0000000nat,
        0x583dabcc28b0d6380214820c7520f007e457be87c621d66d0462d3b1f436cff9int,
        0x30bcf805635799e08df600bcca8ee253e64da5311491b6f69bcf4fca8c2a8ca9int,
        0x79f15c9567563ba7ba726bdfefffa3ea1cbf4206390276d84823eca34bb45ed1int,
        0x74040eb448ff70feaffa64e25afc884d9d13a8629708b821adaec4ffdc264936int,
        0x749fb4dd9419e195c6bf79734d167f74fe4ee36175f4fd7ade2a0bd953a3300cint,
        p,
    );
}

/// The remaining squares for the factor 2.
proof fn lemma_half_squares_b()
    ensures
        is_power(
            5,
            0x3fffffffffffffffffffffffffffffff0339eef94f4daaa3e000000000000000nat,
            0x7ffffffffffffffffffffffffffffffe0673ddf29e9b5547c000000000000000int,
            bluesky_modulus(),
        ),
{
    let p = bluesky_modulus();
    lemma_half_squares_a();
    lemma_four_squares(
        5,
        0x1fffffffffffffffffffffffffffffff819cf77ca7a6d551f00000000nat,
        0x749fb4dd9419e195c6bf79734d167f74fe4ee36175f4fd7ade2a0bd953a3300cint,
        0x6075a3f7fdac0b5523ed1b758a19999469fb73b85f1b941e9af4719a965ece1dint,
        0x7554ee67fce67e1c8dd378014ceb34779b3cb544401496860d2909f252702328int,
        0x5a2e75863d68f4b36281c57402fe4738ec672b2861e146d37115ac9a26b3bb5dint,
        0x3dbde4a8ba00ac177b4a15531f7755b01735854b64147a6851d2aa2d6b0ec803int,
        p,
    );
    lemma_four_squares(
        5,
        0x1fffffffffffffffffffffffffffffff819cf77ca7a6d551f000000000nat,
        0x3dbde4a8ba00ac177b4a15531f7755b01735854b64147a6851d2aa2d6b0ec803int,
        0x1a6a4a7c11fa0ee63e799a6d6a03fe9369131e74cb38e716e7a9ec364accc6b0int,
        0x7a7eae46fec661ec36f37616e91c7625b621e0dbba0541dec76aea10c7aac8feint,
        0x20f3ed6668d0aae3e8c92f4490936cfbe045697be77b2f6d1be56bf00d149616int,
        0x7acc28d7ec24c48c5ac78bbb28fe4b53048c1cf4f6bcc1323b1cab42a5aeb496int,
        p,
    );
    lemma_four_squares(
        5,
        0x1fffffffffffffffffffffffffffffff819cf77ca7a6d551f0000000000nat,
        0x7acc28d7ec24c48c5ac78bbb28fe4b53048c1cf4f6bcc1323b1cab42a5aeb496int,
        0x7c0e94c6306b8b32549033596f9c16c8fa8cc6408c4559e3d2fce14d80c5a710int,
        0x187f5d9fa7e8b039de8a81bd96243781c9670d7f9198043a1955167e207b0660int,
        0x544f2f6ab0834a5b00e1a8c2684ac1288c813338f2e0a115578043061437c92eint,
        0x1664fb337a452ea261416a9a8bbe6c6f94ee67789206f08aa456880e7645ddc0int,
        p,
    );
    lemma_four_squares(
        5,
        0x1fffffffffffffffffffffffffffffff819cf77ca7a6d551f00000000000nat,
        0x1664fb337a452ea261416a9a8bbe6c6f94ee67789206f08aa456880e7645ddc0int,
        0x278d176ea097ec2bef95e98f83bc1ea7579c934fdd8e320930a85fb3eb1bb45eint,
        0xc2bc7c869039f938f2cfc1eab504e60e05e6c82c52dd37eb23dcf65d042fed4int,
        0x4dc091ba0bba9fc7e13ed7cdd9d692b18122dfa5e2c7a7c6afd1cc54f213923cint,
        0x2ba42397f4ac9d44e9daa66b2a965d35bac62991133e9e7699f5ced986891e59int,
        p,
    );
    lemma_four_squares(
        5,
        0x1fffffffffffffffffffffffffffffff819cf77ca7a6d551f000000000000nat,
        0x2ba42397f4ac9d44e9daa66b2a965d35bac62991133e9e7699f5ced986891e59int,
        0x258fa1807576e1c987fcb802a9c47dadd84fca0ec63479eb8ee20e57b9146d5aint,
        0x4f4f035a007d5173cd6ebdec392eda6208deb1f9d2ec9dcca10efd89271799c1int,
        0x1332fc126a654186ab8b22740732ec507ba7107d2654ba2873703998fcc50f4dint,
        0x7f581eacaca3b36c98f7fe03b5c20a5bd3efa22ac6e849d928389a0c8b1969f1int,
        p,
    );
    lemma_four_squares(
        5,
        0x1fffffffffffffffffffffffffffffff819cf77ca7a6d551f0000000000000nat,
        0x7f581eacaca3b36c98f7fe03b5c20a5bd3efa22ac6e849d928389a0c8b1969f1int,
        0x16dc2656151a2da6dbb829ee3638c7f266d3de289b58c190d34686db027a207eint,
        0x6196781b9cc18dcdbd554dae890ccf6e0096aaee322dc9ffa5aea5cdefe2ef7bint,
        0x1c4995bdb2efd9ca4592442f73dc08abfe4f829330e30903ed988ee3f160d64bint,
        0x4e1af648e14a6a2f6fd2820f0db2099b4440b77386ef98e8a203fea18bd645faint,
        p,
    );
    lemma_four_squares(
        5,
        0x1fffffffffffffffffffffffffffffff819cf77ca7a6d551f00000000000000nat,
        0x4e1af648e14a6a2f6fd2820f0db2099b4440b77386ef98e8a203fea18bd645faint,
        0x3e71ec0458895085badd80b0ad6fe0ef0741a7c971b54e6c5372e2b31f8d248bint,
        0x3bb0601770337888f5da57359a9517df3676ae50f0fe8b03f2fc2bb867542edbint,
        0x2c339e8a8872142e7420508f7430401cbfe1efb46380e30fbb9b8305415b6ab3int,
        0x47f72c2d94513fcf85b21da2ad30ac74a7a6e043d4d5cee280348f32c05ca465int,
        p,
    );
    lemma_power_sum(
        5,
        0x1fffffffffffffffffffffffffffffff819cf77ca7a6d551f000000000000000nat,
        0x47f72c2d94513fcf85b21da2ad30ac74a7a6e043d4d5cee280348f32c05ca465int,
        0x1fffffffffffffffffffffffffffffff819cf77ca7a6d551f000000000000000nat,
        0x47f72c2d94513fcf85b21da2ad30ac74a7a6e043d4d5cee280348f32c05ca465int,
        0x7ffffffffffffffffffffffffffffffe0673ddf29e9b5547c000000000000000int,
        p,
    );
}

/// The squares of the root of unity of the Goldilocks field.
proof fn lemma_goldilocks_squares()
    ensures
        is_power(0x185629dcda58878cint, 0x80000000nat, 0xffffffff00000000int, goldilocks_modulus()),
{
    let p = goldilocks_modulus();
    lemma_first_power(0x185629dcda58878cint, p);
    lemma_four_squares(
        0x185629dcda58878cint,
        0x1nat,
        0x185629dcda58878cint,
        0x400a7f755588e659int,
        0x7e9bd009b86a0845int,
        0xdfa8c93ba46d2666int,
        0x59049500004a4485int,
        p,
    );
    lemma_four_squares(
        0x185629dcda58878cint,
        0x10nat,
        0x59049500004a4485int,
        0x10d78dd8915a171dint,
        0xed41d05b78d6e286int,
        0x4bbaf5976ecfefd8int,
        0x86cdcc31c307e171int,
        p,
    );
    lemma_four_squares(
        0x185629dcda58878cint,
        0x100nat,
        0x86cdcc31c307e171int,
        0xea9d5a1336fbc98bint,
        0x4b2a18ade67246b5int,
        0xf502aef532322654int,
        0x30ba2ecd5e93e76dint,
        p,
    );
    lemma_four_squares(
        0x185629dcda58878cint,
        0x1000nat,
        0x30ba2ecd5e93e76dint,
        0xfbd41c6b8caa3302int,
        0x81281a7b05f9beacint,
        0xabd0a6e8aa3d8a0eint,
        0x54df9630bf79450eint,
        p,
    );
    lemma_four_squares(
        0x185629dcda58878cint,
        0x10000nat,
        0x54df9630bf79450eint,
        0xf6b2cffe2306baacint,
        0xe0ee099310bba1e2int,
        0x1544ef2335d17997int,
        0xf2c35199959dfcb6int,
        p,
    );
    lemma_four_squares(
        0x185629dcda58878cint,
        0x100000nat,
        0xf2c35199959dfcb6int,
        0x653b4801da1c8cfint,
        0x9d8f2ad78bfed972int,
        0x1905d02a5c411f4eint,
        0xbf79143ce60ca966int,
        p,
    );
    lemma_four_squares(
        0x185629dcda58878cint,
        0x1000000nat,
        0xbf79143ce60ca966int,
        0xf80007ff08000001int,
        0x8000000000int,
        0x3fffffffc000int,
        0xefffffff00000001int,
        p,
    );
    lemma_power_sum(
        0x185629dcda58878cint,
        0x10000000nat,
        0xefffffff00000001int,
        0x10000000nat,
        0xefffffff00000001int,
        0xfffffffeff000001int,
        p,
    );
    lemma_power_sum(
        0x185629dcda58878cint,
        0x20000000nat,
        0xfffffffeff000001int,
        0x20000000nat,
        0xfffffffeff000001int,
        0x1000000000000int,
        p,
    );
    lemma_power_sum(
        0x185629dcda58878cint,
        0x40000000nat,
        0x1000000000000int,
        0x40000000nat,
        0x1000000000000int,
        0xffffffff00000000int,
        p,
    );
}

/// The order of 5 to the power of the cofactor.
pub open spec fn bluesky_order() -> nat {
    0x1b3dd272994e7c2554000000000000000nat
}

/// The cofactor of the order of the BlueSky field's units.
pub open spec fn bluesky_cofactor() -> nat {
    0x4b2def6e1b4c53c9ed34e240a6b0d4a3nat
}

/// 5 to the power of the cofactor.
pub open spec fn bluesky_base() -> int {
    pow(5, bluesky_cofactor())
}

/// A power of the base, given as a power of 5, differs from 1 by an invertible number.
proof fn lemma_leaves_one(g: nat, x: int, u: int)
    requires
        is_power(5, bluesky_cofactor() * g, x, bluesky_modulus()),
        0 <= u < bluesky_modulus(),
        ((x - 1) * u) % bluesky_modulus() == 1,
    ensures
        leaves_one(bluesky_base(), g, bluesky_modulus()),
{
    let p = bluesky_modulus();
    lemma_pow_multiplies(5, bluesky_cofactor(), g);
    let y = pow(bluesky_base(), g);
    lemma_mod_twice(y, p);
    lemma_cong_sub(y, x, 1, 1, p);
    lemma_cong_mul(y - 1, x - 1, u, u, p);
    assert(is_inverse(y - 1, u, p));
}

/// A divisor of a number divides the quotient of that number and a divisor of the codivisor.
proof fn lemma_divides_part(f: int, d: int, e: int, q: int, g: int)
    requires
        d > 0,
        q > 0,
        f == d * e,
        f == q * g,
        e % q == 0,
    ensures
        g % d == 0,
{
    let k = e / q;
    lemma_fundamental_div_mod(e, q);
    assert(g == k * d) by (nonlinear_arith)
        requires
            q > 0,
            d * e == q * g,
            e == q * k,
    ;
    vstd::arithmetic::div_mod::lemma_mod_multiples_basic(k, d);
}

/// 2 is prime.
proof fn lemma_prime_2()
    ensures
        is_prime(2),
{
}

/// 3 is prime.
proof fn lemma_prime_3()
    ensures
        is_prime(3),
{
    assert forall|d: int| 1 < d < 3 implies #[trigger] (3int % d) != 0 by {
        assert(d == 2);
    }
}

/// 31 is prime.
proof fn lemma_prime_31()
    ensures
        is_prime(31),
{
    assert forall|r: int| 1 < r && r * r <= 31 implies #[trigger] (31int % r) != 0 by {
        assert(r < 6) by (nonlinear_arith)
            requires
                1 < r,
                r * r <= 31,
        ;
        assert(r == 2 || r == 3 || r == 4 || r == 5);
    }
    lemma_no_small_divisor(31);
}

/// The only positive factor of 1 is 1.
proof fn lemma_unit_factor(r: int, e: int)
    requires
        e > 0,
        1 == r * e,
    ensures
        e == 1,
{
    assert(e == 1) by (nonlinear_arith)
        requires
            e > 0,
            1 == r * e,
    ;
}

/// The codivisor of a proper divisor of the order is divisible by 2, by 3 or by 31.
proof fn lemma_bluesky_factors(d: int, e: int)
    requires
        bluesky_order() == d * e,
        e > 1,
    ensures
        e % 2 == 0 || e % 3 == 0 || e % 31 == 0,
{
    if e % 2 != 0 && e % 3 != 0 && e % 31 != 0 {
        assert(pow(2, 62) == 0x4000000000000000int) by {
            reveal_with_fuel(pow, 63);
        }
        assert(pow(3, 39) == 0x383d9170b85ff80bint) by {
            reveal_with_fuel(pow, 40);
        }
        lemma_pow1(31);
        lemma_prime_2();
        lemma_prime_3();
        lemma_prime_31();
        let c = lemma_strip_power(2, 62, 0x6cf749ca6539f0955int, d, e);
        let c = lemma_strip_power(3, 39, 31, c, e);
        let c = lemma_strip_power(31, 1, 1, c, e);
        lemma_unit_factor(c, e);
    }
}

/// The base has an exact order.
pub proof fn lemma_bluesky_order()
    ensures
        has_exact_order(bluesky_base(), bluesky_order(), bluesky_modulus()),
        pow(5, bluesky_cofactor() * 0x6cf749ca6539f0955nat) % bluesky_modulus() == bluesky_root(),
{
    let (b, f, n) = (bluesky_base(), bluesky_order(), bluesky_modulus());
    lemma_root();
    lemma_half_squares_b();
    lemma_third_squares_b();
    lemma_thirty_first_squares_b();
    lemma_leaves_one(
        0xd9ee9394ca73e12aa000000000000000nat,
        0x7ffffffffffffffffffffffffffffffe0673ddf29e9b5547c000000000000000int,
        0x3fffffffffffffffffffffffffffffff0339eef94f4daaa3e000000000000000int,
    );
    lemma_leaves_one(
        0x9149b7b886f7eb71c000000000000000nat,
        0x64674cfac2f653437b88cb1960f851748f7f72130ec4d0bb7193dc3ce3b901a7int,
        0x33dd9101bf0339942c27bc4cdfad3a2d29cd6df0ba25f346af796141096cff73int,
    );
    lemma_leaves_one(
        0xe0f645c2e17fe02c000000000000000nat,
        0x368788bf38c11b3d21e469312ad249c0eaee9130a4f07cc270bee5a96d08dba8int,
        0x76a7f25471669ff664439e3eb52a57a449e84f8f1aa54ec16de5ad8e7c95df54int,
    );
    lemma_power_sum(
        5,
        0x3fffffffffffffffffffffffffffffff0339eef94f4daaa3e000000000000000nat,
        0x7ffffffffffffffffffffffffffffffe0673ddf29e9b5547c000000000000000int,
        0x3fffffffffffffffffffffffffffffff0339eef94f4daaa3e000000000000000nat,
        0x7ffffffffffffffffffffffffffffffe0673ddf29e9b5547c000000000000000int,
        1,
        n,
    );
    lemma_pow_multiplies(5, bluesky_cofactor(), f);
    assert forall|d: nat| 0 < d < f && f % d == 0 implies #[trigger] escapes(b, d, n) by {
        let e = f as int / d as int;
        lemma_fundamental_div_mod(f as int, d as int);
        assert(e > 1) by (nonlinear_arith)
            requires
                f == d * e,
                0 < d < f,
        ;
        lemma_bluesky_factors(d as int, e);
        if e % 2 == 0 {
            lemma_divides_part(f as int, d as int, e, 2, 0xd9ee9394ca73e12aa000000000000000int);
            assert(leaves_one(b, 0xd9ee9394ca73e12aa000000000000000nat, n));
        } else if e % 3 == 0 {
            lemma_divides_part(f as int, d as int, e, 3, 0x9149b7b886f7eb71c000000000000000int);
            assert(leaves_one(b, 0x9149b7b886f7eb71c000000000000000nat, n));
        } else {
            lemma_divides_part(f as int, d as int, e, 31, 0xe0f645c2e17fe02c000000000000000int);
            assert(leaves_one(b, 0xe0f645c2e17fe02c000000000000000nat, n));
        }
    }
}

/// The order of the BlueSky field is prime.
pub proof fn lemma_bluesky_prime()
    ensures
        is_prime(bluesky_modulus()),
{
    lemma_bluesky_order();
    lemma_prime_by_order(bluesky_base(), bluesky_order(), bluesky_modulus());
}

/// The order of the Goldilocks field is prime.
pub proof fn lemma_goldilocks_prime()
    ensures
        is_prime(goldilocks_modulus()),
{
    let (b, n) = (0x185629dcda58878cint, goldilocks_modulus());
    let f = 0x1_0000_0000nat;
    lemma_goldilocks_squares();
    lemma_power_sum(b, 0x8000_0000nat, n - 1, 0x8000_0000nat, n - 1, 1, n);
    assert(leaves_one(b, 0x8000_0000nat, n)) by {
        let y = pow(b, 0x8000_0000nat);
        lemma_mod_twice(y, n);
        lemma_cong_sub(y, n - 1, 1, 1, n);
        lemma_cong_mul(y - 1, n - 2, 0x7fffffff80000000int, 0x7fffffff80000000int, n);
        assert(is_inverse(y - 1, 0x7fffffff80000000int, n));
    }
    assert forall|d: nat| 0 < d < f && f % d == 0 implies #[trigger] escapes(b, d, n) by {
        let e = f as int / d as int;
        lemma_fundamental_div_mod(f as int, d as int);
        assert(e > 1) by (nonlinear_arith)
            requires
                f == d * e,
                0 < d < f,
        ;
        if e % 2 != 0 {
            assert(pow(2, 32) == 0x1_0000_0000) by {
                reveal_with_fuel(pow, 33);
            }
            lemma_prime_2();
            let c = lemma_strip_power(2, 32, 1, d as int, e);
            lemma_unit_factor(c, e);
        }
        lemma_divides_part(f as int, d as int, e, 2, 0x8000_0000);
        assert(leaves_one(b, 0x8000_0000nat, n));
    }
    lemma_prime_by_order(b, f, n);
}

} // verus!
