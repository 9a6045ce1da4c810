use image_processor::plugin_error::PluginError;

#[test]
fn it_works() {
    assert_eq!(4, 4);
}

#[test]
fn codes_of_each_outcome() {
    assert_eq!(PluginError::Success.code(), 0);
    assert_eq!(PluginError::InvalidSize.code(), 1);
    assert_eq!(PluginError::UnknownError.code(), 2);
    assert_eq!(PluginError::InvalidParams.code(), 3);
}

#[test]
fn outcome_of_each_code() {
    assert_eq!(PluginError::from(0), PluginError::Success);
    assert_eq!(PluginError::from(1), PluginError::InvalidSize);
    assert_eq!(PluginError::from(2), PluginError::UnknownError);
    assert_eq!(PluginError::from(3), PluginError::InvalidParams);
    assert_eq!(PluginError::from(4), PluginError::UnknownError);
    assert_eq!(PluginError::from(-1), PluginError::UnknownError);
    assert_eq!(PluginError::from(i32::MAX), PluginError::UnknownError);
}

#[test]
fn code_round_trip() {
    for e in [
        PluginError::Success,
        PluginError::InvalidSize,
        PluginError::UnknownError,
        PluginError::InvalidParams,
    ] {
        assert_eq!(PluginError::from(e.code()), e);
    }
}

#[test]
fn messages() {
    assert_eq!(PluginError::InvalidSize.message(), "invalid image size");
    assert_eq!(PluginError::UnknownError.message(), "unknown error");
    assert_eq!(PluginError::InvalidParams.message(), "invalid params");
    assert_eq!(PluginError::Success.message(), "success");
}
