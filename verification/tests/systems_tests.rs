use systems_lab::cells::{
    bench_cell, bench_refcell, bench_unsafecell, safe_sum, unsafe_sum, SelfReferential,
};
use systems_lab::generators::{FibGenerator, PrimeGenerator};
use systems_lab::measurement::{
    bench_binary_search_random, bench_binary_search_sorted, bench_random_access,
    bench_sequential_access, make_random_data, make_sequential_data, SimpleRng,
};
use systems_lab::pgo::{
    chunk_bounds, count_pattern_chunk, generate_test_data, sum_counts, Arena, NaiveStringProcessor,
    OptimizedStringProcessor,
};
use systems_lab::prng::{Rng, SimpleRng as LcgRng};
use systems_lab::reliability::{bucket_for, CircuitBreaker, CircuitState, LatencyHistogram};
use systems_lab::tagging::{pack, pack_ptr_tag, unpack, unpack_ptr, unpack_tag};

#[test]
fn low_bit_tags_roundtrip() {
    let ptr: usize = 0x1000;
    for tag in 0..8 {
        let word = pack(ptr, tag);
        assert_eq!(unpack(word), (ptr, tag));
    }
    assert_eq!(pack(0x1007, 9), 0x1001);
    assert_eq!(unpack(0x2ff), (0x2f8, 7));
}

#[test]
fn high_bit_tags_roundtrip() {
    let ptr: u64 = 0x0000_7fff_dead_beef;
    let word = pack_ptr_tag(ptr, 0xabcd);
    assert_eq!(unpack_ptr(word), ptr);
    assert_eq!(unpack_tag(word), 0xabcd);
    assert_ne!(pack_ptr_tag(ptr, 1), pack_ptr_tag(ptr, 2));
}

#[test]
fn xorshift_generators_agree() {
    let mut a = SimpleRng::new(1);
    let mut b = Rng::new(1);
    assert_eq!(a.next(), 1082269761);
    assert_eq!(b.next_u64(), 1082269761);
    assert_eq!(a.next(), b.next_u64());
}

#[test]
fn lcg_high_bits() {
    let mut r = LcgRng::new(0);
    assert_eq!(r.state, 1);
    assert_eq!(r.gen_u32(), 1817669548);
    assert_eq!(r.gen_u32(), 2187888307);
    assert_eq!(LcgRng::new(5).state, 5);
}

#[test]
fn sequential_and_shuffled_data() {
    assert_eq!(make_sequential_data(4), vec![0, 1, 2, 3]);
    assert_eq!(make_sequential_data(0), Vec::<i64>::new());
    assert_eq!(make_random_data(5, 42), vec![1, 2, 0, 3, 4]);
    assert_eq!(make_random_data(10, 7), vec![2, 3, 8, 1, 0, 4, 5, 9, 6, 7]);
    let mut shuffled = make_random_data(1000, 12345);
    shuffled.sort();
    assert_eq!(shuffled, make_sequential_data(1000));
}

#[test]
fn summing_workloads() {
    assert_eq!(bench_sequential_access(&[1, 2, 3, -10]), -4);
    assert_eq!(bench_random_access(&[2, 0, 2], &[10, 20, 30]), 70);
    let data = make_sequential_data(10_000);
    assert_eq!(bench_sequential_access(&data), 49_995_000);
}

#[test]
fn binary_search_counts() {
    assert_eq!(bench_binary_search_sorted(&[1, 3, 5, 7], &[3, 4, 5, 8]), 2);
    assert_eq!(bench_binary_search_random(&[7, 1, 5, 3], &[3, 4, 5, 8]), 2);
    assert_eq!(bench_binary_search_random(&[], &[1]), 0);
    let data = make_random_data(100, 9);
    let targets: Vec<i64> = (50..150).collect();
    assert_eq!(bench_binary_search_random(&data, &targets), 50);
}

#[test]
fn cell_counters_total() {
    let mut c = 0u64;
    assert_eq!(bench_cell(3, &mut c), 6);
    assert_eq!(c, 3);
    let mut r = 10u64;
    assert_eq!(bench_refcell(4, &mut r), 11 + 12 + 13 + 14);
    assert_eq!(r, 14);
    let mut u = 0u64;
    assert_eq!(bench_unsafecell(1000, &mut u), 500_500);
    assert_eq!(u, 1000);
}

#[test]
fn checked_and_unchecked_sums() {
    let v: Vec<u64> = (0..100).collect();
    assert_eq!(safe_sum(&v, 100), 4950);
    assert_eq!(unsafe_sum(&v, 100), 4950);
    assert_eq!(safe_sum(&v, 10), 45);
    assert_eq!(safe_sum(&v, 0), 0);
}

#[test]
fn self_referential_first_byte() {
    let s = SelfReferential::new("Hello, Pin!");
    assert_eq!(s.data(), "Hello, Pin!");
    assert_eq!(s.first_byte(), b'H');
    let e = SelfReferential::new("\u{e9}t\u{e9}");
    assert_eq!(e.first_byte(), 0xc3);
}

#[test]
fn fibonacci_generator_yields_ten() {
    let mut g = FibGenerator::new();
    let mut out = Vec::new();
    while let Some(v) = g.next() {
        out.push(v);
    }
    assert_eq!(out, vec![0, 1, 1, 2, 3, 5, 8, 13, 21, 34]);
    assert_eq!(g.next(), None);
}

#[test]
fn prime_generator_yields_primes_in_order() {
    let mut g = PrimeGenerator::new();
    let first: Vec<i32> = (0..10).map(|_| g.next().unwrap()).collect();
    assert_eq!(first, vec![2, 3, 5, 7, 11, 13, 17, 19, 23, 29]);
    let more: Vec<i32> = (0..15).map(|_| g.next().unwrap()).collect();
    assert_eq!(more[14], 97);
}

#[test]
fn test_data_generator_exact() {
    assert_eq!(generate_test_data(3, 10), "VDfindme\ntDW\nELkD\n");
    assert_eq!(generate_test_data(2, 3), "Vfindme\nD\n");
    assert_eq!(generate_test_data(0, 80), "");
    let big = generate_test_data(100, 80);
    assert_eq!(big.lines().count(), 100);
    let mut naive = NaiveStringProcessor::new();
    naive.load_from_string(&big);
    assert_eq!(naive.count_pattern("findme"), 8);
}

#[test]
fn naive_processor_counts_and_uppercases() {
    let mut p = NaiveStringProcessor::new();
    p.load_from_string("aaaa\nabcabc\r\nend");
    assert_eq!(p.lines, vec!["aaaa".to_string(), "abcabc".to_string(), "end".to_string()]);
    assert_eq!(p.count_pattern("aa"), 3);
    assert_eq!(p.count_pattern("abc"), 2);
    assert_eq!(p.count_pattern(""), 0);
    assert_eq!(p.count_pattern("zzzzzzzzzzzzzzzzzzzzzzzzzz"), 0);
    assert_eq!(p.byte_count(), 16);
    let mut u = NaiveStringProcessor::new();
    u.load_from_string("Hello w\u{f6}rld 42");
    assert_eq!(u.transform_to_upper(), "HELLO W\u{f6}RLD 42");
}

#[test]
fn optimized_processor_matches_naive() {
    let text = generate_test_data(50, 40);
    let mut naive = NaiveStringProcessor::new();
    naive.load_from_string(&text);
    let mut opt = OptimizedStringProcessor { text_buf: Vec::new(), text_len: 0 };
    opt.load_from_string(&text);
    assert_eq!(opt.byte_count(), naive.byte_count());
    for pat in ["findme", "a", "e\n", "zz"] {
        let n = naive.count_pattern(pat);
        assert_eq!(opt.count_pattern_scalar(pat), n);
        assert_eq!(opt.count_pattern_branchless(pat), n);
        assert_eq!(opt.count_pattern_simd(pat), n);
    }
    let upper = naive.transform_to_upper();
    opt.transform_to_upper_simd();
    assert_eq!(&opt.text_buf[..opt.text_len], upper.as_bytes());
    let mut scalar = OptimizedStringProcessor { text_buf: Vec::new(), text_len: 0 };
    scalar.load_from_string("mixed Case 123");
    scalar.transform_to_upper_scalar();
    assert_eq!(&scalar.text_buf[..scalar.text_len], b"MIXED CASE 123");
}

#[test]
fn parallel_chunk_counts() {
    let text = b"abababab";
    assert_eq!(count_pattern_chunk(text, b"ab", 0, 4), 2);
    assert_eq!(count_pattern_chunk(text, b"ab", 4, 8), 2);
    assert_eq!(count_pattern_chunk(text, b"ba", 0, 8), 3);
}

#[test]
fn arena_bump_allocation() {
    let mut a = Arena::new(64);
    assert_eq!(a.capacity(), 64);
    assert_eq!(a.allocate(10, 8), Some(0));
    assert_eq!(a.used(), 10);
    assert_eq!(a.allocate(4, 16), Some(16));
    assert_eq!(a.used(), 20);
    assert_eq!(a.allocate(100, 8), None);
    assert_eq!(a.used(), 20);
    a.reset();
    assert_eq!(a.used(), 0);
    let mut p = OptimizedStringProcessor { text_buf: Vec::new(), text_len: 0 };
    p.load_from_string("arena");
    p.transform_with_arena(&mut a);
    assert_eq!(a.used(), 5);
    p.transform_with_arena(&mut a);
    assert_eq!(a.used(), 21);
}

#[test]
fn arena_blocks_disjoint_and_increasing() {
    let mut a = Arena::new(64);
    let reqs = [(3usize, 1usize), (5, 4), (1, 8), (40, 2), (30, 1), (2, 2), (1, 16)];
    let mut blocks: Vec<(usize, usize)> = Vec::new();
    for &(size, align) in &reqs {
        if let Some(off) = a.allocate(size, align) {
            assert_eq!(off % align, 0);
            blocks.push((off, size));
        }
    }
    assert_eq!(blocks, vec![(0, 3), (4, 5), (16, 1), (18, 40), (58, 2)]);
    for w in blocks.windows(2) {
        assert!(w[0].0 + w[0].1 <= w[1].0);
    }
    assert_eq!(a.used(), 60);
}

#[test]
fn parallel_chunks_split_the_text() {
    assert_eq!(chunk_bounds(10, 3), vec![(0, 3), (3, 6), (6, 10)]);
    assert_eq!(chunk_bounds(8, 1), vec![(0, 8)]);
    assert_eq!(chunk_bounds(2, 4), vec![(0, 0), (0, 0), (0, 0), (0, 2)]);
    let text = b"abababab";
    let counts: Vec<usize> = chunk_bounds(text.len(), 2)
        .iter()
        .map(|&(s, e)| count_pattern_chunk(text, b"ab", s, e))
        .collect();
    assert_eq!(counts, vec![2, 2]);
    assert_eq!(sum_counts(&counts), Some(4));
    assert_eq!(sum_counts(&[]), Some(0));
    assert_eq!(sum_counts(&[usize::MAX, 1]), None);
}

#[test]
fn histogram_buckets_and_percentiles() {
    assert_eq!(bucket_for(0), 1);
    assert_eq!(bucket_for(1), 1);
    assert_eq!(bucket_for(5), 8);
    assert_eq!(bucket_for(1024), 1024);
    assert_eq!(bucket_for(1025), 2048);
    let mut h = LatencyHistogram::new();
    assert_eq!(h.stats(), (0, 0, 0, 0, 0, 0));
    for us in [100, 100, 100, 100, 100, 100, 100, 100, 100, 5000] {
        h.record(us);
    }
    assert_eq!(h.percentile(50), 64);
    assert_eq!(h.percentile(90), 64);
    assert_eq!(h.percentile(99), 4096);
    assert_eq!(h.percentile(95), 4096);
    assert_eq!(h.stats(), (64, 64, 4096, 4096, 5000, 10));
}

#[test]
fn circuit_breaker_cycle() {
    let mut b = CircuitBreaker::new(3, 1000, 0);
    assert_eq!(b.get_state(), CircuitState::Closed);
    assert!(b.allow(1));
    b.record_failure(1);
    b.record_failure(2);
    assert_eq!(b.get_state(), CircuitState::Closed);
    b.record_success(3);
    b.record_failure(4);
    b.record_failure(5);
    assert_eq!(b.get_state(), CircuitState::Closed);
    b.record_failure(6);
    assert_eq!(b.get_state(), CircuitState::Open);
    assert!(!b.allow(500));
    assert!(!b.allow(1006));
    assert!(b.allow(1007));
    assert_eq!(b.get_state(), CircuitState::HalfOpen);
    b.record_failure(1008);
    assert_eq!(b.get_state(), CircuitState::Open);
    assert!(b.allow(2009));
    b.record_success(2010);
    assert_eq!(b.get_state(), CircuitState::Closed);
}

#[test]
fn loaded_text_splits_into_lines() {
    let mut p = NaiveStringProcessor::new();
    p.load_from_string("a\r\nb\n\nc\r");
    assert_eq!(p.lines, vec!["a".to_string(), "b".to_string(), String::new(), "c\r".to_string()]);
    p.load_from_string("only\n");
    assert_eq!(p.lines, vec!["only".to_string()]);
    p.load_from_string("");
    assert!(p.lines.is_empty());
}

#[test]
fn percentiles_grow_with_the_percent() {
    let mut h = LatencyHistogram::new();
    for us in [3u64, 900, 17, 17, 250, 4096, 5, 1, 0, 77] {
        h.record(us);
    }
    let ps: Vec<u64> = (0..=100).map(|p| h.percentile(p)).collect();
    assert!(ps.windows(2).all(|w| w[0] <= w[1]));
    assert!(ps.iter().all(|&v| v <= 4096));
    assert_eq!(h.percentile(100), 2048);
}

#[test]
fn histogram_and_breaker_counters() {
    let mut h = LatencyHistogram::new();
    assert_eq!((h.count(), h.sum()), (0, 0));
    h.record(10);
    h.record(32);
    assert_eq!((h.count(), h.sum()), (2, 42));
    let mut cb = CircuitBreaker::new(3, 100, 0);
    assert_eq!(cb.failure_count(), 0);
    cb.record_failure(1);
    cb.record_failure(2);
    assert_eq!(cb.failure_count(), 2);
    cb.record_success(3);
    assert_eq!(cb.failure_count(), 0);
}
