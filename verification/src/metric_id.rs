//! How Prometheus tells label-free metrics apart.
use vstd::prelude::*;
use vstd::utf8::*;

verus! {

/// One more byte in a 64-bit FNV-1a hash: the byte is mixed in, and the product is taken modulo two
/// to the power of 64.
pub open spec fn fnv_step(h: u64, b: u8) -> u64 {
    ((h ^ (b as u64)) * 0x100_0000_01b3u64) as u64
}

/// The 64-bit FNV-1a hash of the first `n` of some bytes.
pub open spec fn fnv(bytes: Seq<u8>, n: int) -> u64
    decreases n,
{
    if n <= 0 {
        0xcbf2_9ce4_8422_2325
    } else {
        fnv_step(fnv(bytes, n - 1), bytes[n - 1])
    }
}

/// The identifier that Prometheus gives to a label-free metric of a name: the hash of the name and
/// of a separator behind it.
pub open spec fn metric_id(name: Seq<char>) -> u64 {
    let bytes = encode_utf8(name);
    fnv_step(fnv(bytes, bytes.len() as int), 0xff)
}

/// Four more bytes in a hash.
spec fn fnv_word(h: u64, a: u8, b: u8, c: u8, d: u8) -> u64 {
    fnv_step(fnv_step(fnv_step(fnv_step(h, a), b), c), d)
}

proof fn lemma_id_of_edge_bytes_served_total()
    ensures
        metric_id("edge_bytes_served_total"@) == 0x1472_1730_5ec9_f1f6,
{
    reveal_strlit("edge_bytes_served_total");
    is_ascii_chars_encode_utf8("edge_bytes_served_total"@);
    reveal_with_fuel(fnv, 24);
    assert(fnv_step(
        fnv_step(
            fnv_step(
                fnv_step(
                    fnv_word(
                        fnv_word(
                            fnv_word(
                                fnv_word(
                                    fnv_word(
                                        0xcbf2_9ce4_8422_2325,
                                        101, 100, 103, 101,
                                    ),
                                    95, 98, 121, 116,
                                ),
                                101, 115, 95, 115,
                            ),
                            101, 114, 118, 101,
                        ),
                        100, 95, 116, 111,
                    ),
                    116,
                ),
                97,
            ),
            108,
        ),
        0xff,
    ) == 0x1472_1730_5ec9_f1f6u64) by (bit_vector);
}

proof fn lemma_id_of_edge_request_duration_seconds()
    ensures
        metric_id("edge_request_duration_seconds"@) == 0xda51_d095_76f1_d2fe,
{
    reveal_strlit("edge_request_duration_seconds");
    is_ascii_chars_encode_utf8("edge_request_duration_seconds"@);
    reveal_with_fuel(fnv, 30);
    assert(fnv_step(
        fnv_step(
            fnv_word(
                fnv_word(
                    fnv_word(
                        fnv_word(
                            fnv_word(
                                fnv_word(
                                    fnv_word(
                                        0xcbf2_9ce4_8422_2325,
                                        101, 100, 103, 101,
                                    ),
                                    95, 114, 101, 113,
                                ),
                                117, 101, 115, 116,
                            ),
                            95, 100, 117, 114,
                        ),
                        97, 116, 105, 111,
                    ),
                    110, 95, 115, 101,
                ),
                99, 111, 110, 100,
            ),
            115,
        ),
        0xff,
    ) == 0xda51_d095_76f1_d2feu64) by (bit_vector);
}

proof fn lemma_id_of_edge_cache_hits_total()
    ensures
        metric_id("edge_cache_hits_total"@) == 0x81fa_4518_fb07_633e,
{
    reveal_strlit("edge_cache_hits_total");
    is_ascii_chars_encode_utf8("edge_cache_hits_total"@);
    reveal_with_fuel(fnv, 22);
    assert(fnv_step(
        fnv_step(
            fnv_word(
                fnv_word(
                    fnv_word(
                        fnv_word(
                            fnv_word(
                                0xcbf2_9ce4_8422_2325,
                                101, 100, 103, 101,
                            ),
                            95, 99, 97, 99,
                        ),
                        104, 101, 95, 104,
                    ),
                    105, 116, 115, 95,
                ),
                116, 111, 116, 97,
            ),
            108,
        ),
        0xff,
    ) == 0x81fa_4518_fb07_633eu64) by (bit_vector);
}

proof fn lemma_id_of_edge_cache_misses_total()
    ensures
        metric_id("edge_cache_misses_total"@) == 0x5c3a_6757_41dd_3fd8,
{
    reveal_strlit("edge_cache_misses_total");
    is_ascii_chars_encode_utf8("edge_cache_misses_total"@);
    reveal_with_fuel(fnv, 24);
    assert(fnv_step(
        fnv_step(
            fnv_step(
                fnv_step(
                    fnv_word(
                        fnv_word(
                            fnv_word(
                                fnv_word(
                                    fnv_word(
                                        0xcbf2_9ce4_8422_2325,
                                        101, 100, 103, 101,
                                    ),
                                    95, 99, 97, 99,
                                ),
                                104, 101, 95, 109,
                            ),
                            105, 115, 115, 101,
                        ),
                        115, 95, 116, 111,
                    ),
                    116,
                ),
                97,
            ),
            108,
        ),
        0xff,
    ) == 0x5c3a_6757_41dd_3fd8u64) by (bit_vector);
}

proof fn lemma_id_of_edge_origin_fetches_total()
    ensures
        metric_id("edge_origin_fetches_total"@) == 0x0f8c_6d48_7275_10ce,
{
    reveal_strlit("edge_origin_fetches_total");
    is_ascii_chars_encode_utf8("edge_origin_fetches_total"@);
    reveal_with_fuel(fnv, 26);
    assert(fnv_step(
        fnv_step(
            fnv_word(
                fnv_word(
                    fnv_word(
                        fnv_word(
                            fnv_word(
                                fnv_word(
                                    0xcbf2_9ce4_8422_2325,
                                    101, 100, 103, 101,
                                ),
                                95, 111, 114, 105,
                            ),
                            103, 105, 110, 95,
                        ),
                        102, 101, 116, 99,
                    ),
                    104, 101, 115, 95,
                ),
                116, 111, 116, 97,
            ),
            108,
        ),
        0xff,
    ) == 0x0f8c_6d48_7275_10ceu64) by (bit_vector);
}

proof fn lemma_id_of_edge_inflight_coalesced_total()
    ensures
        metric_id("edge_inflight_coalesced_total"@) == 0x8040_4a0c_32d7_ad08,
{
    reveal_strlit("edge_inflight_coalesced_total");
    is_ascii_chars_encode_utf8("edge_inflight_coalesced_total"@);
    reveal_with_fuel(fnv, 30);
    assert(fnv_step(
        fnv_step(
            fnv_word(
                fnv_word(
                    fnv_word(
                        fnv_word(
                            fnv_word(
                                fnv_word(
                                    fnv_word(
                                        0xcbf2_9ce4_8422_2325,
                                        101, 100, 103, 101,
                                    ),
                                    95, 105, 110, 102,
                                ),
                                108, 105, 103, 104,
                            ),
                            116, 95, 99, 111,
                        ),
                        97, 108, 101, 115,
                    ),
                    99, 101, 100, 95,
                ),
                116, 111, 116, 97,
            ),
            108,
        ),
        0xff,
    ) == 0x8040_4a0c_32d7_ad08u64) by (bit_vector);
}

proof fn lemma_id_of_edge_cache_evictions_total()
    ensures
        metric_id("edge_cache_evictions_total"@) == 0x3598_2eee_d048_dfde,
{
    reveal_strlit("edge_cache_evictions_total");
    is_ascii_chars_encode_utf8("edge_cache_evictions_total"@);
    reveal_with_fuel(fnv, 27);
    assert(fnv_step(
        fnv_step(
            fnv_step(
                fnv_word(
                    fnv_word(
                        fnv_word(
                            fnv_word(
                                fnv_word(
                                    fnv_word(
                                        0xcbf2_9ce4_8422_2325,
                                        101, 100, 103, 101,
                                    ),
                                    95, 99, 97, 99,
                                ),
                                104, 101, 95, 101,
                            ),
                            118, 105, 99, 116,
                        ),
                        105, 111, 110, 115,
                    ),
                    95, 116, 111, 116,
                ),
                97,
            ),
            108,
        ),
        0xff,
    ) == 0x3598_2eee_d048_dfdeu64) by (bit_vector);
}

proof fn lemma_id_of_edge_cache_bytes()
    ensures
        metric_id("edge_cache_bytes"@) == 0x2247_76a6_ca93_a09a,
{
    reveal_strlit("edge_cache_bytes");
    is_ascii_chars_encode_utf8("edge_cache_bytes"@);
    reveal_with_fuel(fnv, 17);
    assert(fnv_step(
        fnv_word(
            fnv_word(
                fnv_word(
                    fnv_word(0xcbf2_9ce4_8422_2325, 101, 100, 103, 101),
                    95, 99, 97, 99,
                ),
                104, 101, 95, 98,
            ),
            121, 116, 101, 115,
        ),
        0xff,
    ) == 0x2247_76a6_ca93_a09au64) by (bit_vector);
}

proof fn lemma_id_of_edge_inflight_requests()
    ensures
        metric_id("edge_inflight_requests"@) == 0x12f4_9028_3f18_4ee4,
{
    reveal_strlit("edge_inflight_requests");
    is_ascii_chars_encode_utf8("edge_inflight_requests"@);
    reveal_with_fuel(fnv, 23);
    assert(fnv_step(
        fnv_step(
            fnv_step(
                fnv_word(
                    fnv_word(
                        fnv_word(
                            fnv_word(
                                fnv_word(
                                    0xcbf2_9ce4_8422_2325,
                                    101, 100, 103, 101,
                                ),
                                95, 105, 110, 102,
                            ),
                            108, 105, 103, 104,
                        ),
                        116, 95, 114, 101,
                    ),
                    113, 117, 101, 115,
                ),
                116,
            ),
            115,
        ),
        0xff,
    ) == 0x12f4_9028_3f18_4ee4u64) by (bit_vector);
}

proof fn lemma_id_of_edge_cost_units_total()
    ensures
        metric_id("edge_cost_units_total"@) == 0x2dbf_ab57_101d_68fe,
{
    reveal_strlit("edge_cost_units_total");
    is_ascii_chars_encode_utf8("edge_cost_units_total"@);
    reveal_with_fuel(fnv, 22);
    assert(fnv_step(
        fnv_step(
            fnv_word(
                fnv_word(
                    fnv_word(
                        fnv_word(
                            fnv_word(
                                0xcbf2_9ce4_8422_2325,
                                101, 100, 103, 101,
                            ),
                            95, 99, 111, 115,
                        ),
                        116, 95, 117, 110,
                    ),
                    105, 116, 115, 95,
                ),
                116, 111, 116, 97,
            ),
            108,
        ),
        0xff,
    ) == 0x2dbf_ab57_101d_68feu64) by (bit_vector);
}

/// The identifiers of the metrics of an edge.
pub proof fn lemma_metric_ids()
    ensures
        metric_id("edge_bytes_served_total"@) == 0x1472_1730_5ec9_f1f6,
        metric_id("edge_request_duration_seconds"@) == 0xda51_d095_76f1_d2fe,
        metric_id("edge_cache_hits_total"@) == 0x81fa_4518_fb07_633e,
        metric_id("edge_cache_misses_total"@) == 0x5c3a_6757_41dd_3fd8,
        metric_id("edge_origin_fetches_total"@) == 0x0f8c_6d48_7275_10ce,
        metric_id("edge_inflight_coalesced_total"@) == 0x8040_4a0c_32d7_ad08,
        metric_id("edge_cache_evictions_total"@) == 0x3598_2eee_d048_dfde,
        metric_id("edge_cache_bytes"@) == 0x2247_76a6_ca93_a09a,
        metric_id("edge_inflight_requests"@) == 0x12f4_9028_3f18_4ee4,
        metric_id("edge_cost_units_total"@) == 0x2dbf_ab57_101d_68fe,
{
    lemma_id_of_edge_bytes_served_total();
    lemma_id_of_edge_request_duration_seconds();
    lemma_id_of_edge_cache_hits_total();
    lemma_id_of_edge_cache_misses_total();
    lemma_id_of_edge_origin_fetches_total();
    lemma_id_of_edge_inflight_coalesced_total();
    lemma_id_of_edge_cache_evictions_total();
    lemma_id_of_edge_cache_bytes();
    lemma_id_of_edge_inflight_requests();
    lemma_id_of_edge_cost_units_total();
}

} // verus!
