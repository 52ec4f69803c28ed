use gemma_rs::batches::{
    default_warmup, make_batch_ids, make_eval_batch_ids, remaining_updates, validation_split,
};
use gemma_rs::sampling::{
    curriculum_context, lcg_next, random_start, sample_unique_positions, xorshift64, Rng,
};

#[test]
fn target_sampling_is_unique() {
    let mut rng = 123u64;
    let samples = sample_unique_positions(64, 32, &mut rng);
    let mut sorted = samples.clone();
    sorted.sort_unstable();
    sorted.dedup();
    assert_eq!(sorted.len(), samples.len());
    assert_eq!(samples.len(), 32);
}

#[test]
fn curriculum_is_monotonic() {
    assert!(curriculum_context(1024, 0, 900) <= curriculum_context(1024, 400, 900));
    assert!(curriculum_context(1024, 400, 900) <= curriculum_context(1024, 899, 900));
}

#[test]
fn curriculum_stages() {
    assert_eq!(curriculum_context(1024, 0, 900), 256);
    assert_eq!(curriculum_context(1024, 300, 900), 512);
    assert_eq!(curriculum_context(1024, 600, 900), 1024);
    assert_eq!(curriculum_context(128, 0, 900), 128);
    assert_eq!(curriculum_context(400, 400, 900), 400);
    assert_eq!(curriculum_context(1024, 0, 0), 256);
    assert_eq!(curriculum_context(1024, 1, 0), 512);
    assert_eq!(curriculum_context(1024, 2, 0), 1024);
}

#[test]
fn xorshift_matches_reference_values() {
    let mut s = 1u64;
    assert_eq!(xorshift64(&mut s), 1082269761);
    assert_eq!(s, 1082269761);
    let mut s = 123u64;
    assert_eq!(xorshift64(&mut s), 133101616827);
    assert_eq!(xorshift64(&mut s), 12690785413091508870);
}

#[test]
fn random_start_stays_in_range() {
    let mut s = 123u64;
    let start = random_start(&mut s, 10);
    assert_eq!(start, (133101616827u64 % 10) as usize);
    assert_eq!(s, 133101616827);
}

#[test]
fn sampling_draws_at_least_one_and_at_most_all() {
    let mut rng = 9u64;
    let one = sample_unique_positions(5, 0, &mut rng);
    assert_eq!(one.len(), 1);
    assert!(one[0] < 5);
    let mut rng = 9u64;
    let mut all = sample_unique_positions(5, 50, &mut rng);
    all.sort_unstable();
    assert_eq!(all, vec![0, 1, 2, 3, 4]);
}

#[test]
fn training_batches_pair_inputs_with_next_tokens() {
    let encoded: Vec<usize> = (0..20).collect();
    let mut rng = 123u64;
    let (xs, ys) = make_batch_ids(&encoded, 4, 3, &mut rng);
    assert_eq!(xs.len(), 12);
    assert_eq!(ys.len(), 12);
    for i in 0..12 {
        assert_eq!(ys[i], xs[i] + 1);
    }
    let mut check = 123u64;
    let first = (xorshift64(&mut check) as usize) % 16;
    assert_eq!(xs[0], first as i64);
    assert_eq!(&xs[0..4], &[first as i64, first as i64 + 1, first as i64 + 2, first as i64 + 3]);
}

#[test]
fn evaluation_batches_walk_the_windows() {
    let encoded: Vec<usize> = (100..110).collect();
    let (xs, ys) = make_eval_batch_ids(&encoded, 3, 2, 3);
    assert_eq!(xs, vec![106, 107, 108, 100, 101, 102]);
    assert_eq!(ys, vec![107, 108, 109, 101, 102, 103]);
}

#[test]
fn warmup_and_split_defaults() {
    assert_eq!(default_warmup(5000), 250);
    assert_eq!(default_warmup(100), 20);
    assert_eq!(default_warmup(10), 10);
    assert_eq!(validation_split(1000, 128), 870);
    assert_eq!(validation_split(1000, 10), 900);
    assert_eq!(validation_split(100, 60), 38);
}

#[test]
fn weight_generator_follows_the_congruence() {
    let mut s = 0u64;
    assert_eq!(lcg_next(&mut s), 0);
    assert_eq!(s, 1);
    assert_eq!(lcg_next(&mut s), 1481765933);
    assert_eq!(s, 6364136223846793006);
    let mut rng = Rng::new(0);
    assert_eq!(rng.next_bits(), 0x3f80_0000);
    assert_eq!(rng.next_bits(), 0x7fd1_f42d);
}

#[test]
fn resumed_runs_do_only_the_remaining_updates() {
    assert_eq!(remaining_updates(50_000, 20_000), 30_000);
    assert_eq!(remaining_updates(100, 0), 100);
    assert_eq!(remaining_updates(100, 100), 0);
    assert_eq!(remaining_updates(100, 250), 0);
}
