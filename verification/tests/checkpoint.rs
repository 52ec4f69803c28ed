use gemma_rs::checkpoint::{decode_checkpoint, encode_checkpoint, sidecar, CheckpointError, TensorBits};
use gemma_rs::optim_state::{decode_optim_state, encode_optim_state};
use gemma_rs::train_meta::{parse_training_meta, training_meta_text, MetaError, TrainingMeta};

fn tensor(rows: usize, cols: usize, values: &[f32]) -> TensorBits {
    TensorBits { rows, cols, bits: values.iter().map(|v| v.to_bits()).collect() }
}

fn floats(bits: &[u32]) -> Vec<f32> {
    bits.iter().map(|b| f32::from_bits(*b)).collect()
}

#[test]
fn checkpoint_round_trip_preserves_values() {
    let a = tensor(2, 3, &[0.5, -1.25, 3.0, 1e-3, -7.5, 42.0]);
    let b = tensor(1, 4, &[9.0, -0.0, 0.125, 2.5]);
    let bytes = encode_checkpoint(&[a, b]).unwrap();
    let loaded = decode_checkpoint(&bytes, &[(2, 3), (1, 4)]).unwrap();
    assert_eq!(floats(&loaded[0]), vec![0.5, -1.25, 3.0, 1e-3, -7.5, 42.0]);
    assert_eq!(floats(&loaded[1]), vec![9.0, -0.0, 0.125, 2.5]);
}

#[test]
fn checkpoint_layout_is_little_endian() {
    let bytes = encode_checkpoint(&[tensor(1, 1, &[1.5])]).unwrap();
    let mut expected = b"GRS2".to_vec();
    expected.extend_from_slice(&1u64.to_le_bytes());
    expected.extend_from_slice(&1u64.to_le_bytes());
    expected.extend_from_slice(&1u64.to_le_bytes());
    expected.extend_from_slice(&1.5f32.to_le_bytes());
    assert_eq!(bytes, expected);
}

/// Loads a checkpoint into parameters the way a trainer does: every value
/// or, on any error, nothing.
fn load_into(params: &mut [Vec<f32>], bytes: &[u8], shapes: &[(usize, usize)]) -> Result<(), CheckpointError> {
    let loaded = decode_checkpoint(bytes, shapes)?;
    for (p, bits) in params.iter_mut().zip(loaded) {
        *p = floats(&bits);
    }
    Ok(())
}

#[test]
fn truncated_checkpoint_does_not_partially_modify_parameters() {
    let a = tensor(1, 2, &[3.0, 4.0]);
    let b = tensor(1, 2, &[5.0, 6.0]);
    let mut bytes = encode_checkpoint(&[a, b]).unwrap();
    bytes.truncate(bytes.len() - 2);
    let mut params = vec![vec![3.0, 4.0], vec![9.0, 10.0]];
    let err = load_into(&mut params, &bytes, &[(1, 2), (1, 2)]).unwrap_err();
    assert_eq!(err, CheckpointError::UnexpectedEof);
    assert_eq!(params[0], vec![3.0, 4.0]);
    assert_eq!(params[1], vec![9.0, 10.0]);
}

#[test]
fn trailing_data_is_rejected_without_modification() {
    let a = tensor(1, 2, &[1.0, 2.0]);
    let mut bytes = encode_checkpoint(&[a]).unwrap();
    bytes.push(0xAA);
    let mut params = vec![vec![7.0, 8.0]];
    let err = load_into(&mut params, &bytes, &[(1, 2)]).unwrap_err();
    assert_eq!(err, CheckpointError::TrailingData);
    assert_eq!(params[0], vec![7.0, 8.0]);
}

#[test]
fn resume_reads_back_weights_optimizer_and_metadata() {
    let weights = [tensor(1, 2, &[0.5, -2.0]), tensor(2, 1, &[1.0, 3.5])];
    let ckpt = encode_checkpoint(&weights).unwrap();
    let opt = encode_optim_state(4, &[2, 2], &[Some((vec![1, 2], vec![3, 4])), None]).unwrap();
    let meta = String::from_utf8(training_meta_text(9, 1.25f32.to_bits(), 77)).unwrap();
    let mut params = vec![vec![0.0; 2], vec![0.0; 2]];
    load_into(&mut params, &ckpt, &[(1, 2), (2, 1)]).unwrap();
    assert_eq!(params, vec![vec![0.5, -2.0], vec![1.0, 3.5]]);
    let (step, moments) = decode_optim_state(&opt, &[2, 2]).unwrap();
    assert_eq!(step, 4);
    assert_eq!(moments, vec![(vec![1, 2], vec![3, 4]), (vec![0, 0], vec![0, 0])]);
    let m = parse_training_meta(&meta).unwrap();
    assert_eq!((m.update, m.rng_state), (9, 77));
    assert_eq!(f32::from_bits(m.best_loss_bits.unwrap()), 1.25);
}

#[test]
fn every_prefix_of_a_checkpoint_is_truncated() {
    let bytes = encode_checkpoint(&[tensor(1, 2, &[1.0, 2.0]), tensor(2, 1, &[3.0, 4.0])]).unwrap();
    for m in 0..bytes.len() {
        assert_eq!(
            decode_checkpoint(&bytes[..m], &[(1, 2), (2, 1)]).unwrap_err(),
            CheckpointError::UnexpectedEof,
            "prefix of {m} bytes"
        );
    }
}

#[test]
fn checkpoint_errors() {
    let good = encode_checkpoint(&[tensor(1, 2, &[1.0, 2.0])]).unwrap();
    let mut magic = good.clone();
    magic[0] = b'X';
    assert_eq!(decode_checkpoint(&magic, &[(1, 2)]).unwrap_err(), CheckpointError::BadMagic);
    assert_eq!(decode_checkpoint(&good, &[(1, 2), (1, 2)]).unwrap_err(), CheckpointError::CountMismatch);
    assert_eq!(decode_checkpoint(&good, &[(2, 1)]).unwrap_err(), CheckpointError::ShapeMismatch);
    let empty_shape = encode_checkpoint(&[TensorBits { rows: 0, cols: 2, bits: vec![] }]).unwrap();
    assert_eq!(decode_checkpoint(&empty_shape, &[(0, 2)]).unwrap_err(), CheckpointError::InvalidShape);
    let huge = encode_checkpoint(&[TensorBits { rows: 1 << 16, cols: 1 << 15, bits: vec![] }]).unwrap();
    assert_eq!(decode_checkpoint(&huge, &[(1 << 16, 1 << 15)]).unwrap_err(), CheckpointError::InvalidShape);
    let mut nan = good.clone();
    let at = nan.len() - 4;
    nan[at..].copy_from_slice(&f32::NAN.to_le_bytes());
    assert_eq!(decode_checkpoint(&nan, &[(1, 2)]).unwrap_err(), CheckpointError::NonFinite);
    assert_eq!(
        encode_checkpoint(&[tensor(1, 2, &[1.0, f32::INFINITY])]).unwrap_err(),
        CheckpointError::RefusedNonFinite
    );
}

#[test]
fn sidecar_paths_append_the_suffix() {
    assert_eq!(sidecar("checkpoints/model.ckpt", ".opt"), "checkpoints/model.ckpt.opt");
    assert_eq!(sidecar("m", ".state"), "m.state");
}

#[test]
fn optimizer_state_round_trip_preserves_step() {
    let m = vec![0.5f32.to_bits()];
    let v = vec![0.25f32.to_bits()];
    let bytes = encode_optim_state(1, &[1], &[Some((m.clone(), v.clone()))]).unwrap();
    let (step, moments) = decode_optim_state(&bytes, &[1]).unwrap();
    assert_eq!(step, 1);
    assert_eq!(moments, vec![(m, v)]);
}

#[test]
fn optimizer_state_fills_unseen_parameters_with_zeros() {
    let bytes = encode_optim_state(3, &[2, 1], &[None, Some((vec![7], vec![8]))]).unwrap();
    let mut expected = b"ADW1".to_vec();
    expected.extend_from_slice(&2u64.to_le_bytes());
    expected.extend_from_slice(&3u64.to_le_bytes());
    expected.extend_from_slice(&2u64.to_le_bytes());
    expected.extend_from_slice(&[0u8; 16]);
    expected.extend_from_slice(&1u64.to_le_bytes());
    expected.extend_from_slice(&7u32.to_le_bytes());
    expected.extend_from_slice(&8u32.to_le_bytes());
    assert_eq!(bytes, expected);
    let (step, moments) = decode_optim_state(&bytes, &[2, 1]).unwrap();
    assert_eq!(step, 3);
    assert_eq!(moments, vec![(vec![0, 0], vec![0, 0]), (vec![7], vec![8])]);
}

#[test]
fn optimizer_state_errors() {
    assert_eq!(
        encode_optim_state(1, &[2], &[Some((vec![0], vec![0, 0]))]).unwrap_err(),
        CheckpointError::LengthMismatch
    );
    assert_eq!(
        encode_optim_state(1, &[1], &[Some((vec![f32::NAN.to_bits()], vec![0]))]).unwrap_err(),
        CheckpointError::RefusedNonFinite
    );
    let bytes = encode_optim_state(1, &[1], &[None]).unwrap();
    assert_eq!(decode_optim_state(&bytes, &[2]).unwrap_err(), CheckpointError::LengthMismatch);
    assert_eq!(decode_optim_state(&bytes, &[1, 1]).unwrap_err(), CheckpointError::CountMismatch);
    assert_eq!(decode_optim_state(&bytes[..bytes.len() - 1], &[1]).unwrap_err(), CheckpointError::UnexpectedEof);
    let mut extra = bytes.clone();
    extra.push(0);
    assert_eq!(decode_optim_state(&extra, &[1]).unwrap_err(), CheckpointError::TrailingData);
    assert_eq!(decode_optim_state(b"GRS2", &[1]).unwrap_err(), CheckpointError::BadMagic);
}

#[test]
fn training_meta_round_trip() {
    let text = training_meta_text(17, 2.5f32.to_bits(), 0xD1B5_4A32_9F6C_71E3);
    let s = String::from_utf8(text).unwrap();
    assert_eq!(s, "GEMMASTATE2\nupdate=17\nbest_val_loss=1075838976\nrng_state=15111065705995071971\n");
    assert_eq!(
        parse_training_meta(&s),
        Ok(TrainingMeta { update: 17, best_loss_bits: Some(2.5f32.to_bits()), rng_state: 0xD1B5_4A32_9F6C_71E3 })
    );
    let inf = String::from_utf8(training_meta_text(0, f32::INFINITY.to_bits(), 1)).unwrap();
    assert_eq!(f32::from_bits(parse_training_meta(&inf).unwrap().best_loss_bits.unwrap()), f32::INFINITY);
}

#[test]
fn training_meta_errors_and_tolerance() {
    let meta = |u, b, r| Ok(TrainingMeta { update: u, best_loss_bits: b, rng_state: r });
    assert_eq!(parse_training_meta(""), Err(MetaError::Unsupported));
    assert_eq!(parse_training_meta("GEMMASTATE1\nupdate=1\nrng_state=2\n"), Err(MetaError::Unsupported));
    assert_eq!(parse_training_meta("GEMMASTATE2\nupdate 1\n"), Err(MetaError::Malformed));
    assert_eq!(parse_training_meta("GEMMASTATE2\n\nupdate=1\n"), Err(MetaError::Malformed));
    assert_eq!(parse_training_meta("GEMMASTATE2\nupdate=x\n"), Err(MetaError::InvalidUpdate));
    assert_eq!(parse_training_meta("GEMMASTATE2\nupdate=1\nrng_state=-2\n"), Err(MetaError::InvalidRngState));
    assert_eq!(parse_training_meta("GEMMASTATE2\nupdate=1\nbest_val_loss=4294967296\nrng_state=2\n"), Err(MetaError::InvalidBestLoss));
    assert_eq!(parse_training_meta("GEMMASTATE2\nrng_state=2\n"), Err(MetaError::MissingUpdate));
    assert_eq!(parse_training_meta("GEMMASTATE2\nupdate=1\n"), Err(MetaError::MissingRngState));
    assert_eq!(parse_training_meta("GEMMASTATE2\nupdate=1\nrng_state=2\n"), meta(1, None, 2));
    assert_eq!(
        parse_training_meta("GEMMASTATE2\r\nnote=a=b\nupdate=1\nupdate=+5\nbest_val_loss=7\nrng_state=2"),
        meta(5, Some(7), 2)
    );
}
