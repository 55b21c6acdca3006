use cifar10_cnn::config::ModelConfig;

#[test]
fn demo_config_derives_expected_dimensions() {
    let config = ModelConfig::demo();

    assert_eq!(config.conv_padding, 0);
    assert_eq!(config.conv_height(), 6);
    assert_eq!(config.conv_width(), 6);
    assert_eq!(config.conv_dim(), 144);
    assert_eq!(config.pool_height(), 3);
    assert_eq!(config.pool_width(), 3);
    assert_eq!(config.flat_dim(), 36);
    assert_eq!(config.input_dim(), 64);
    assert_eq!(config.conv_weight_len(), 36);
    assert_eq!(config.conv1_weight_len(), 36);
    assert_eq!(config.conv2_weight_len(), 0);
}

#[test]
fn cifar10_config_derives_expected_dimensions() {
    let config = ModelConfig::cifar10();

    assert_eq!(config.input_channels, 3);
    assert_eq!(config.input_height, 32);
    assert_eq!(config.input_width, 32);
    assert_eq!(config.conv_out_channels, 32);
    assert_eq!(config.conv2_out_channels, Some(64));
    assert_eq!(config.conv_kernel, 3);
    assert_eq!(config.conv_padding, 1);
    assert_eq!(config.num_classes, 10);

    assert_eq!(config.conv1_height(), 32);
    assert_eq!(config.conv1_width(), 32);
    assert_eq!(config.pool1_height(), 16);
    assert_eq!(config.pool1_width(), 16);
    assert_eq!(config.conv2_height(), 16);
    assert_eq!(config.conv2_width(), 16);
    assert_eq!(config.pool2_height(), 8);
    assert_eq!(config.pool2_width(), 8);
    assert_eq!(config.flat_dim(), 4096);
    assert_eq!(config.conv1_weight_len(), 864);
    assert_eq!(config.conv2_weight_len(), 18_432);
}
