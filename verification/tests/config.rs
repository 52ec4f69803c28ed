use gemma_rs::args::config_from_args;
use gemma_rs::config::Config;

#[test]
fn rope_geometry_matches_debug_profile() {
    let cfg = Config::debug();
    assert_eq!(cfg.head_dim() % 2, 0);
    assert_eq!(cfg.vocab, 258);
}

#[test]
fn target_profile_matches_documented_shape() {
    let c = Config::target();
    c.validate();
    assert_eq!(
        (c.context, c.heads, c.d_model, c.layers, c.ffn),
        (1024, 8, 416, 6, 1664)
    );
    assert_eq!(c.params(), 19_275_776);
    let mb = c.params() as f32 * 4.0 / (1024.0 * 1024.0);
    assert!((mb - 73.530).abs() < 0.01);
}

#[test]
fn debug_profile_counts() {
    let c = Config::debug();
    c.validate();
    assert_eq!(c.head_dim(), 16);
    assert_eq!(c.params(), 258 * 64 + 2 * (4 * 64 * 64 + 2 * 64 * 128));
}

#[test]
fn profile_follows_the_target_flag() {
    let args: Vec<String> = vec!["prog".into(), "train".into(), "--target".into()];
    assert_eq!(config_from_args(&args), Config::target());
    let args: Vec<String> = vec!["prog".into(), "--targets".into()];
    assert_eq!(config_from_args(&args), Config::debug());
}

#[test]
fn profile_checks_and_checked_count() {
    assert!(Config::debug().valid());
    assert!(Config::target().valid());
    let mut c = Config::debug();
    c.heads = 5;
    assert!(!c.valid());
    c = Config::debug();
    c.vocab = 1;
    assert!(!c.valid());
    assert_eq!(Config::target().checked_params(), Some(19_275_776));
    let mut big = Config::debug();
    big.vocab = usize::MAX;
    assert_eq!(big.checked_params(), None);
    let mut no_layers = Config::debug();
    no_layers.layers = 0;
    no_layers.ffn = usize::MAX;
    assert_eq!(no_layers.checked_params(), Some(258 * 64));
}
