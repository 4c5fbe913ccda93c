use spatializer::engine::Engine;
use spatializer::filter::{ConfigError, ImpulseResponse};
use spatializer::params::CoordParam;
use spatializer::{COEFF_LIMIT, FILTER_LEN_LIMIT, WINDOW_LIMIT};

#[test]
fn mismatched_channel_lengths_are_rejected() {
    let err = ImpulseResponse::new(vec![1, 2], vec![1]).err().unwrap();
    assert_eq!(err, ConfigError::ChannelMismatch);
}

#[test]
fn empty_filters_are_rejected() {
    let err = ImpulseResponse::new(vec![], vec![]).err().unwrap();
    assert_eq!(err, ConfigError::EmptyFilter);
}

#[test]
fn overlong_filters_are_rejected() {
    let n = FILTER_LEN_LIMIT + 1;
    let err = ImpulseResponse::new(vec![0; n], vec![0; n]).err().unwrap();
    assert_eq!(err, ConfigError::FilterTooLong);
}

#[test]
fn out_of_range_coefficients_are_rejected() {
    let err = ImpulseResponse::new(vec![COEFF_LIMIT + 1], vec![0]).err().unwrap();
    assert_eq!(err, ConfigError::CoefficientOutOfRange);
    let err = ImpulseResponse::new(vec![0], vec![-COEFF_LIMIT - 1]).err().unwrap();
    assert_eq!(err, ConfigError::CoefficientOutOfRange);
    assert!(ImpulseResponse::new(vec![COEFF_LIMIT], vec![-COEFF_LIMIT]).is_ok());
}

#[test]
fn zero_window_is_rejected() {
    let ir = ImpulseResponse::new(vec![1], vec![1]).unwrap();
    let err = Engine::new(0, ir).err().unwrap();
    assert_eq!(err, ConfigError::ZeroWindow);
}

#[test]
fn overlarge_window_is_rejected() {
    let ir = ImpulseResponse::new(vec![1], vec![1]).unwrap();
    let err = Engine::new(WINDOW_LIMIT + 1, ir).err().unwrap();
    assert_eq!(err, ConfigError::WindowTooLarge);
}

#[test]
fn filter_length_cannot_change_after_construction() {
    let ir = ImpulseResponse::new(vec![1, 2, 3], vec![3, 2, 1]).unwrap();
    let mut engine = Engine::new(16, ir).unwrap();
    let longer = ImpulseResponse::new(vec![1; 5], vec![1; 5]).unwrap();
    assert_eq!(engine.update(longer).err().unwrap(), ConfigError::FilterLengthChanged);
    let same_len = ImpulseResponse::new(vec![9, 9, 9], vec![9, 9, 9]).unwrap();
    assert!(engine.update(same_len).is_ok());
}

#[test]
fn configuration_getters_report_the_build() {
    let ir = ImpulseResponse::new(vec![1; 33], vec![2; 33]).unwrap();
    assert_eq!(ir.filter_len(), 33);
    let engine = Engine::new(64, ir).unwrap();
    assert_eq!(engine.window_size(), 64);
    assert_eq!(engine.filter_len(), 33);
    assert_eq!(engine.hop(), 64);
    assert_eq!(engine.transform_size(), 96);
    assert_eq!(engine.latency_samples(), 16);
}

#[test]
fn coordinate_parameters_name_the_three_axes() {
    let all = [CoordParam::Xcoord, CoordParam::Ycoord, CoordParam::Zcoord];
    for (i, a) in all.iter().enumerate() {
        for (j, b) in all.iter().enumerate() {
            assert_eq!(i == j, format!("{a:?}") == format!("{b:?}"));
        }
    }
}
